//! The encoder invocation: the exact argument list handed to the external
//! encoder process, the hardware-encoder quality policy, and the mapping from
//! the process's exit status to the render's terminal result.

use vstd::prelude::*;
use vstd::string::StrSliceExecFns;
use vstd::string::StringExecFns;

verus! {

use crate::textfmt::{dec_seq, u64_to_string};

/// The views of a sequence of strings.
pub open spec fn views(s: Seq<String>) -> Seq<Seq<char>> {
    s.map_values(|x: String| x@)
}

/// Whether the encoder identifier names an nvenc (GPU) encoder family.
pub open spec fn has_nvenc(s: Seq<char>) -> bool {
    exists|i: int|
        0 <= i && i + 5 <= s.len() && #[trigger] s[i] == 'n' && s[i + 1] == 'v' && s[i + 2] == 'e'
            && s[i + 3] == 'n' && s[i + 4] == 'c'
}

/// Whether the encoder identifier contains the substring marking the
/// hardware (GPU) encoder family.
#[verifier::loop_isolation(false)]
pub fn contains_nvenc(s: &str) -> (r: bool)
    ensures
        r == has_nvenc(s@),
{
    let n = s.unicode_len();
    if n < 5 {
        return false;
    }
    let mut i: usize = 0;
    while i <= n - 5
        invariant
            5 <= n,
            0 <= i <= n - 4,
            forall|k: int|
                0 <= k < i ==> !(#[trigger] s@[k] == 'n' && s@[k + 1] == 'v' && s@[k + 2] == 'e'
                    && s@[k + 3] == 'n' && s@[k + 4] == 'c'),
        decreases n - i,
    {
        if s.get_char(i) == 'n' && s.get_char(i + 1) == 'v' && s.get_char(i + 2) == 'e'
            && s.get_char(i + 3) == 'n' && s.get_char(i + 4) == 'c' {
            return true;
        }
        i = i + 1;
    }
    false
}

/// The fixed leading arguments: overwrite without prompting, suppress the
/// banner and verbose logging, report machine-readable progress on standard
/// output.
pub open spec fn base_args() -> Seq<Seq<char>> {
    seq!["-y"@, "-hide_banner"@, "-loglevel"@, "warning"@, "-progress"@, "pipe:1"@]
}

/// One looped-image input per source image, so that each image is an
/// endless stream a later trim stage can cut to any length.
pub open spec fn loop_input_args(images: Seq<Seq<char>>, n: int) -> Seq<Seq<char>>
    decreases n,
{
    if n <= 0 {
        Seq::empty()
    } else {
        loop_input_args(images, n - 1) + seq!["-loop"@, "1"@, "-i"@, images[n - 1]]
    }
}

proof fn lemma_loop_input_args_len(images: Seq<Seq<char>>, n: int)
    requires
        n >= 0,
    ensures
        loop_input_args(images, n).len() == 4 * n,
    decreases n,
{
    if n > 0 {
        lemma_loop_input_args_len(images, n - 1);
    }
}

/// The audio input, the filter-program reference, the stream mappings (the
/// concatenated video and the audio of the last input), and the video codec.
pub open spec fn mapping_args(
    image_count: int,
    music: Seq<char>,
    script: Seq<char>,
    venc: Seq<char>,
) -> Seq<Seq<char>> {
    seq![
        "-i"@,
        music,
        "-filter_complex_script"@,
        script,
        "-map"@,
        "[outv]"@,
        "-map"@,
        dec_seq(image_count) + ":a"@,
        "-c:v"@,
        venc,
    ]
}

/// Quality policy: a hardware (nvenc) encoder gets the fixed fast preset
/// with a constant-quality target, anything else the balanced preset with a
/// constant-rate-factor target.
pub open spec fn quality_args(venc: Seq<char>) -> Seq<Seq<char>> {
    if has_nvenc(venc) {
        seq!["-preset"@, "p4"@, "-cq"@, "23"@]
    } else {
        seq!["-preset"@, "medium"@, "-crf"@, "23"@]
    }
}

/// Pixel format, audio codec and bitrate, the cap of the output to the
/// shorter stream, and the output path.
pub open spec fn tail_args(aenc: Seq<char>, output: Seq<char>) -> Seq<Seq<char>> {
    seq!["-pix_fmt"@, "yuv420p"@, "-c:a"@, aenc, "-b:a"@, "192k"@, "-shortest"@, output]
}

/// The whole encoder argument list for one render job.
pub open spec fn ffmpeg_args(
    images: Seq<Seq<char>>,
    music: Seq<char>,
    script: Seq<char>,
    output: Seq<char>,
    venc: Seq<char>,
    aenc: Seq<char>,
) -> Seq<Seq<char>> {
    base_args() + loop_input_args(images, images.len() as int) + mapping_args(
        images.len() as int,
        music,
        script,
        venc,
    ) + quality_args(venc) + tail_args(aenc, output)
}

/// Build the encoder's argument list: each source image as a looped input,
/// the background audio, the filter program by reference (not inline, to
/// stay clear of command-length limits), explicit stream mappings, and the
/// codec, quality, pixel-format and output arguments.
#[verifier::loop_isolation(false)]
pub fn build_ffmpeg_args(
    image_paths: &Vec<String>,
    music_path: &str,
    script_path: &str,
    output_path: &str,
    video_encoder: &str,
    audio_encoder: &str,
) -> (r: Vec<String>)
    ensures
        views(r@) == ffmpeg_args(
            views(image_paths@),
            music_path@,
            script_path@,
            output_path@,
            video_encoder@,
            audio_encoder@,
        ),
{
    let ghost imgs = views(image_paths@);
    let mut v: Vec<String> = Vec::new();
    v.push("-y".to_owned());
    v.push("-hide_banner".to_owned());
    v.push("-loglevel".to_owned());
    v.push("warning".to_owned());
    v.push("-progress".to_owned());
    v.push("pipe:1".to_owned());
    proof {
        assert(views(v@) =~= base_args());
    }
    let n = image_paths.len();
    let mut i: usize = 0;
    while i < n
        invariant
            0 <= i <= n,
            views(v@) == base_args() + loop_input_args(imgs, i as int),
        decreases n - i,
    {
        let ghost pre = v@;
        v.push("-loop".to_owned());
        v.push("1".to_owned());
        v.push("-i".to_owned());
        v.push(image_paths[i].clone());
        proof {
            lemma_loop_input_args_len(imgs, i as int);
            lemma_loop_input_args_len(imgs, i + 1);
            assert(pre.len() == 6 + 4 * i);
            assert(views(v@).len() == 6 + 4 * (i + 1));
            assert((base_args() + loop_input_args(imgs, i + 1)).len() == 6 + 4 * (i + 1));
            assert(forall|k: int| 0 <= k < pre.len() ==> views(v@)[k] == #[trigger] views(pre)[k]);
            assert(views(v@)[pre.len() as int] == "-loop"@);
            assert(views(v@)[pre.len() as int + 1] == "1"@);
            assert(views(v@)[pre.len() as int + 2] == "-i"@);
            assert(views(v@)[pre.len() as int + 3] == imgs[i as int]);
            let rhs = base_args() + loop_input_args(imgs, i + 1);
            assert forall|k: int| 0 <= k < views(v@).len() implies views(v@)[k] == rhs[k] by {
                if k < pre.len() {
                    assert(views(v@)[k] == views(pre)[k]);
                    assert(rhs[k] == (base_args() + loop_input_args(imgs, i as int))[k]);
                }
            }
            assert(views(v@) =~= rhs);
        }
        i = i + 1;
    }
    v.push("-i".to_owned());
    v.push(music_path.to_owned());
    v.push("-filter_complex_script".to_owned());
    v.push(script_path.to_owned());
    v.push("-map".to_owned());
    v.push("[outv]".to_owned());
    v.push("-map".to_owned());
    let audio_map = u64_to_string(n as u64).concat(":a");
    v.push(audio_map);
    v.push("-c:v".to_owned());
    v.push(video_encoder.to_owned());
    proof {
        lemma_loop_input_args_len(imgs, n as int);
        assert(views(v@) =~= base_args() + loop_input_args(imgs, n as int) + mapping_args(
            n as int,
            music_path@,
            script_path@,
            video_encoder@,
        ));
    }
    if contains_nvenc(video_encoder) {
        v.push("-preset".to_owned());
        v.push("p4".to_owned());
        v.push("-cq".to_owned());
        v.push("23".to_owned());
    } else {
        v.push("-preset".to_owned());
        v.push("medium".to_owned());
        v.push("-crf".to_owned());
        v.push("23".to_owned());
    }
    proof {
        assert(views(v@) =~= base_args() + loop_input_args(imgs, n as int) + mapping_args(
            n as int,
            music_path@,
            script_path@,
            video_encoder@,
        ) + quality_args(video_encoder@));
    }
    v.push("-pix_fmt".to_owned());
    v.push("yuv420p".to_owned());
    v.push("-c:a".to_owned());
    v.push(audio_encoder.to_owned());
    v.push("-b:a".to_owned());
    v.push("192k".to_owned());
    v.push("-shortest".to_owned());
    v.push(output_path.to_owned());
    proof {
        assert(views(v@) =~= ffmpeg_args(
            imgs,
            music_path@,
            script_path@,
            output_path@,
            video_encoder@,
            audio_encoder@,
        ));
    }
    v
}

/// The render's terminal result from the encoder process's exit: a clean
/// exit is overall success, anything else is overall failure with the
/// generic (non-empty) encoder-failure description.
pub fn encode_outcome(exit_success: bool) -> (r: Result<(), String>)
    ensures
        exit_success ==> r is Ok,
        !exit_success ==> (r matches Err(m) && m@ == "FFmpeg render failed"@ && m@.len() > 0),
{
    if exit_success {
        Ok(())
    } else {
        let m = "FFmpeg render failed".to_owned();
        proof {
            reveal_strlit("FFmpeg render failed");
        }
        Err(m)
    }
}

} // verus!
