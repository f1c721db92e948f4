//! Compiles a user-authored timeline of rectangular image regions into a
//! validated, time-ordered segment plan, renders that plan as an ffmpeg
//! filter-graph program, builds the encoder invocation, and interprets the
//! encoder's progress stream and exit status.
//!
//! The pipeline is pure: every step here is a function from plain values to
//! plain values. Process launching, temporary files and event delivery are
//! left to the embedding application.
//!
//! Times are carried as whole milliseconds and crop coordinates as
//! ten-thousandths of the source image's dimensions, so that every rule of
//! the pipeline is exact integer arithmetic.

pub mod command;
pub mod filter;
pub mod plan;
pub mod progress;
pub mod region;
pub mod textfmt;
