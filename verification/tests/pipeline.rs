//! End-to-end tests of the pure rendering pipeline: normalization, crop
//! clamping, filter-graph compilation, progress parsing, the encoder
//! argument list and the exit-status mapping.

use region_render::command::{build_ffmpeg_args, contains_nvenc, encode_outcome};
use region_render::filter::build_filter_program;
use region_render::plan::{build_plan, PlanError};
use region_render::progress::parse_progress_line;
use region_render::region::{clamp_crop, Region};

fn region(id: &str, page: u32, start: Option<i64>) -> Region {
    Region {
        id: id.to_string(),
        x: 0,
        y: 0,
        width: 10000,
        height: 10000,
        label: String::new(),
        color: String::new(),
        page_index: page,
        start,
    }
}

#[test]
fn undefined_starts_are_dropped() {
    let regions = vec![
        region("a", 0, Some(1000)),
        region("b", 0, None),
        region("c", 0, Some(2000)),
    ];
    let plan = build_plan(regions, 1, 5000).unwrap();
    assert_eq!(plan.len(), 2);
    assert_eq!(plan[0].start_ms, 1000);
    assert_eq!(plan[1].start_ms, 2000);
}

#[test]
fn plan_is_sorted_for_reverse_input() {
    let regions = vec![
        region("a", 0, Some(5000)),
        region("b", 1, Some(1000)),
        region("c", 2, Some(3000)),
    ];
    let plan = build_plan(regions, 3, 8000).unwrap();
    let starts: Vec<i64> = plan.iter().map(|s| s.start_ms).collect();
    assert_eq!(starts, vec![1000, 3000, 5000]);
    let pages: Vec<u32> = plan.iter().map(|s| s.page_index).collect();
    assert_eq!(pages, vec![1, 2, 0]);
}

#[test]
fn plan_is_sorted_for_sorted_input() {
    let regions = vec![region("a", 0, Some(0)), region("b", 1, Some(4000))];
    let plan = build_plan(regions, 2, 9000).unwrap();
    assert_eq!(plan[0].start_ms, 0);
    assert_eq!(plan[1].start_ms, 4000);
}

#[test]
fn duplicate_starts_keep_input_order() {
    let regions = vec![
        region("first", 3, Some(2000)),
        region("second", 4, Some(2000)),
        region("early", 5, Some(1000)),
    ];
    let plan = build_plan(regions, 6, 9000).unwrap();
    let pages: Vec<u32> = plan.iter().map(|s| s.page_index).collect();
    assert_eq!(pages, vec![5, 3, 4]);
}

#[test]
fn segments_are_contiguous() {
    let regions = vec![
        region("a", 0, Some(0)),
        region("b", 0, Some(2500)),
        region("c", 0, Some(7000)),
    ];
    let plan = build_plan(regions, 1, 10000).unwrap();
    assert_eq!(plan[0].end_ms, plan[1].start_ms);
    assert_eq!(plan[1].end_ms, plan[2].start_ms);
    assert_eq!(plan[2].end_ms, 10000);
}

#[test]
fn empty_region_list_fails_with_empty_timeline() {
    let err = build_plan(vec![], 3, 1000).unwrap_err();
    assert!(matches!(err, PlanError::EmptyTimeline));
    assert_eq!(err.message(), "No regions with valid start time found");
}

#[test]
fn all_undefined_starts_fail_with_empty_timeline() {
    let regions = vec![region("a", 0, None), region("b", 1, None)];
    let err = build_plan(regions, 3, 1000).unwrap_err();
    assert!(matches!(err, PlanError::EmptyTimeline));
}

#[test]
fn out_of_range_page_index_names_the_region() {
    let regions = vec![region("ok", 0, Some(0)), region("broken", 7, Some(500))];
    let err = build_plan(regions, 2, 1000).unwrap_err();
    match &err {
        PlanError::InvalidPageIndex { region_id, page_index } => {
            assert_eq!(region_id, "broken");
            assert_eq!(*page_index, 7);
        }
        other => panic!("expected InvalidPageIndex, got {:?}", other),
    }
    assert_eq!(err.message(), "Region broken refers to invalid page_index 7");
}

#[test]
fn in_range_page_indices_succeed() {
    let regions = vec![region("a", 0, Some(0)), region("b", 1, Some(100))];
    assert!(build_plan(regions, 2, 1000).is_ok());
}

#[test]
fn first_out_of_range_in_start_order_is_reported() {
    let regions = vec![
        region("late-bad", 9, Some(5000)),
        region("early-bad", 8, Some(1000)),
    ];
    let err = build_plan(regions, 2, 9000).unwrap_err();
    match err {
        PlanError::InvalidPageIndex { region_id, page_index } => {
            assert_eq!(region_id, "early-bad");
            assert_eq!(page_index, 8);
        }
        other => panic!("expected InvalidPageIndex, got {:?}", other),
    }
}

#[test]
fn inactive_region_with_bad_page_is_dropped_not_reported() {
    let regions = vec![region("active", 0, Some(0)), region("inactive-bad", 99, None)];
    let plan = build_plan(regions, 1, 1000).unwrap();
    assert_eq!(plan.len(), 1);
    assert_eq!(plan[0].page_index, 0);
}

#[test]
fn crop_clamps_oversized_rect() {
    let r = Region { width: 20000, height: 15000, x: -3000, y: 9999, ..region("r", 0, Some(0)) };
    let c = clamp_crop(&r);
    assert_eq!(c.w, 10000);
    assert_eq!(c.h, 10000);
    assert_eq!(c.x, 0);
    assert_eq!(c.y, 0);
}

#[test]
fn crop_clamps_tiny_rect_to_minimum() {
    let r = Region { width: 0, height: -50, x: 9999, y: 9999, ..region("r", 0, Some(0)) };
    let c = clamp_crop(&r);
    assert_eq!(c.w, 10);
    assert_eq!(c.h, 10);
    assert_eq!(c.x, 9990);
    assert_eq!(c.y, 9990);
}

#[test]
fn crop_keeps_in_range_rect() {
    let r = Region { width: 5000, height: 2500, x: 2000, y: 7500, ..region("r", 0, Some(0)) };
    let c = clamp_crop(&r);
    assert_eq!((c.x, c.y, c.w, c.h), (2000, 7500, 5000, 2500));
}

#[test]
fn single_segment_program_text() {
    let regions = vec![Region {
        width: 5000,
        height: 5000,
        x: 5000,
        y: 0,
        ..region("r", 0, Some(0))
    }];
    let plan = build_plan(regions, 1, 10000).unwrap();
    let program = build_filter_program(&plan, 1280, 720);
    assert_eq!(
        program,
        "[0:v]crop=iw*0.5000:ih*0.5000:iw*0.5000:ih*0.0000,\
         scale=1280:720:force_original_aspect_ratio=decrease,\
         pad=1280:720:(ow-iw)/2:(oh-ih)/2:white,\
         trim=duration=10.000,setpts=PTS-STARTPTS,setsar=1[seg0];\n\
         [seg0]concat=n=1:v=1:a=0[outv]"
    );
}

#[test]
fn two_segment_program_references_labels_in_order() {
    let regions = vec![region("a", 0, Some(0)), region("b", 1, Some(2500))];
    let plan = build_plan(regions, 2, 10000).unwrap();
    let program = build_filter_program(&plan, 640, 480);
    assert_eq!(
        program,
        "[0:v]crop=iw*1.0000:ih*1.0000:iw*0.0000:ih*0.0000,\
         scale=640:480:force_original_aspect_ratio=decrease,\
         pad=640:480:(ow-iw)/2:(oh-ih)/2:white,\
         trim=duration=2.500,setpts=PTS-STARTPTS,setsar=1[seg0];\n\
         [1:v]crop=iw*1.0000:ih*1.0000:iw*0.0000:ih*0.0000,\
         scale=640:480:force_original_aspect_ratio=decrease,\
         pad=640:480:(ow-iw)/2:(oh-ih)/2:white,\
         trim=duration=7.500,setpts=PTS-STARTPTS,setsar=1[seg1];\n\
         [seg0][seg1]concat=n=2:v=1:a=0[outv]"
    );
}

#[test]
fn negative_duration_is_not_rejected() {
    let regions = vec![region("a", 0, Some(5000))];
    let plan = build_plan(regions, 1, 4500).unwrap();
    assert_eq!(plan[0].end_ms - plan[0].start_ms, -500);
    let program = build_filter_program(&plan, 100, 100);
    assert!(program.contains("trim=duration=-0.500"));
}

#[test]
fn compiling_twice_is_byte_identical() {
    let regions = vec![
        region("a", 0, Some(0)),
        region("b", 1, Some(1234)),
        region("c", 0, Some(98765)),
    ];
    let plan = build_plan(regions, 2, 120000).unwrap();
    let first = build_filter_program(&plan, 1920, 1080);
    let second = build_filter_program(&plan, 1920, 1080);
    assert_eq!(first.into_bytes(), second.into_bytes());
}

#[test]
fn progress_counter_line_yields_percentage() {
    // 2.5 s of 10.0 s is 25.0%, carried as thousandths of a percent.
    let p = parse_progress_line("out_time_us=2500000", 10000).unwrap();
    assert_eq!(p, 25000);
    assert_eq!(p as f64 / 1000.0, 25.0);
}

#[test]
fn progress_counter_is_clamped_to_hundred() {
    let p = parse_progress_line("out_time_us=99000000", 10000).unwrap();
    assert_eq!(p, 100000);
}

#[test]
fn progress_end_marker_yields_hundred() {
    let p = parse_progress_line("progress=end", 10000).unwrap();
    assert_eq!(p, 100000);
    assert_eq!(p as f64 / 1000.0, 100.0);
}

#[test]
fn unparsable_counter_yields_nothing() {
    assert!(parse_progress_line("out_time_us=abc", 10000).is_none());
    assert!(parse_progress_line("out_time_us=", 10000).is_none());
    assert!(parse_progress_line("out_time_us=12a3", 10000).is_none());
}

#[test]
fn overflowing_counter_yields_nothing() {
    assert!(parse_progress_line("out_time_us=99999999999999999999999", 10000).is_none());
}

#[test]
fn unrelated_lines_yield_nothing() {
    assert!(parse_progress_line("frame=10", 10000).is_none());
    assert!(parse_progress_line("", 10000).is_none());
    assert!(parse_progress_line("progress=continue", 10000).is_none());
}

#[test]
fn counter_value_is_trimmed() {
    let p = parse_progress_line("out_time_us= 5000000 \r", 10000).unwrap();
    assert_eq!(p, 50000);
}

#[test]
fn successful_exit_is_success() {
    assert!(encode_outcome(true).is_ok());
}

#[test]
fn failed_exit_carries_description() {
    let err = encode_outcome(false).unwrap_err();
    assert_eq!(err, "FFmpeg render failed");
    assert!(!err.is_empty());
}

#[test]
fn nvenc_encoders_are_detected() {
    assert!(contains_nvenc("h264_nvenc"));
    assert!(contains_nvenc("nvenc"));
    assert!(!contains_nvenc("libx264"));
    assert!(!contains_nvenc("nven"));
}

#[test]
fn argument_list_matches_invocation() {
    let images = vec!["a.png".to_string(), "b.png".to_string()];
    let args = build_ffmpeg_args(&images, "music.mp3", "/tmp/filter.txt", "out.mp4", "libx264", "aac");
    let expected: Vec<&str> = vec![
        "-y", "-hide_banner", "-loglevel", "warning", "-progress", "pipe:1",
        "-loop", "1", "-i", "a.png",
        "-loop", "1", "-i", "b.png",
        "-i", "music.mp3",
        "-filter_complex_script", "/tmp/filter.txt",
        "-map", "[outv]", "-map", "2:a",
        "-c:v", "libx264",
        "-preset", "medium", "-crf", "23",
        "-pix_fmt", "yuv420p", "-c:a", "aac", "-b:a", "192k", "-shortest", "out.mp4",
    ];
    assert_eq!(args, expected);
}

#[test]
fn nvenc_gets_constant_quality_arguments() {
    let images = vec!["a.png".to_string()];
    let args = build_ffmpeg_args(&images, "m.mp3", "f.txt", "o.mp4", "hevc_nvenc", "aac");
    let joined = args.join(" ");
    assert!(joined.contains("-preset p4 -cq 23"));
    assert!(!joined.contains("-crf"));
}
