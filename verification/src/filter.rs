//! The segment filter compiler and graph assembler: each planned segment
//! becomes one crop/scale/pad/trim/timestamp-reset clause writing its own
//! `[segN]` label, and the program ends with a concatenation clause that
//! joins every segment label into the single `[outv]` output stream.

use vstd::prelude::*;
use vstd::seq_lib::lemma_concat_associative;
use vstd::string::StringExecFns;

verus! {

use crate::plan::Segment;
use crate::textfmt::{dec_seq, fixed4_seq, ms3_seq, push_dec_u64, push_fixed4, push_ms3};

/// Segment times far enough from the `i64` limits that a duration can be
/// taken by subtraction.
pub open spec fn seg_times_bounded(seg: Segment) -> bool {
    &&& -0x2000_0000_0000_0000 <= seg.start_ms <= 0x2000_0000_0000_0000
    &&& -0x2000_0000_0000_0000 <= seg.end_ms <= 0x2000_0000_0000_0000
}

/// The filter clause of one segment: crop the page's looped stream by the
/// clamped window (fractions with four decimal places), scale to fit inside
/// the target box without upscaling, pad centred on white to exactly the
/// target size, trim to the segment's duration (seconds, three decimal
/// places), reset timestamps and sample aspect ratio, and label the result.
#[verifier::opaque]
pub open spec fn clause_seq(seg: Segment, idx: int, tw: int, th: int) -> Seq<char> {
    "["@ + dec_seq(seg.page_index as int) + ":v]crop=iw*"@ + fixed4_seq(seg.crop.w as int)
        + ":ih*"@ + fixed4_seq(seg.crop.h as int) + ":iw*"@ + fixed4_seq(seg.crop.x as int)
        + ":ih*"@ + fixed4_seq(seg.crop.y as int) + ",scale="@ + dec_seq(tw) + ":"@ + dec_seq(th)
        + ":force_original_aspect_ratio=decrease,pad="@ + dec_seq(tw) + ":"@ + dec_seq(th)
        + ":(ow-iw)/2:(oh-ih)/2:white,trim=duration="@ + ms3_seq(seg.end_ms - seg.start_ms)
        + ",setpts=PTS-STARTPTS,setsar=1[seg"@ + dec_seq(idx) + "]"@
}

/// The first `n` segment clauses, each terminated by the statement separator.
pub open spec fn segs_text(plan: Seq<Segment>, n: int, tw: int, th: int) -> Seq<char>
    decreases n,
{
    if n <= 0 {
        Seq::empty()
    } else {
        segs_text(plan, n - 1, tw, th) + clause_seq(plan[n - 1], n - 1, tw, th) + ";\n"@
    }
}

/// The concatenation clause's inputs: `[seg0][seg1]...` up to `n`.
pub open spec fn concat_inputs_seq(n: int) -> Seq<char>
    decreases n,
{
    if n <= 0 {
        Seq::empty()
    } else {
        concat_inputs_seq(n - 1) + "[seg"@ + dec_seq(n - 1) + "]"@
    }
}

/// The whole filter-graph program: every segment clause in plan order, then
/// one concatenation clause referencing every segment label and declaring the
/// single combined video stream `[outv]`.
pub open spec fn program_seq(plan: Seq<Segment>, tw: int, th: int) -> Seq<char> {
    segs_text(plan, plan.len() as int, tw, th) + concat_inputs_seq(plan.len() as int)
        + "concat=n="@ + dec_seq(plan.len() as int) + ":v=1:a=0[outv]"@
}

/// Compile one planned segment (at position `idx` of the plan) into its
/// filter clause, for a `tw` by `th` pixel target.
pub fn compile_segment(seg: &Segment, idx: usize, tw: u32, th: u32) -> (r: String)
    requires
        seg_times_bounded(*seg),
    ensures
        r@ == clause_seq(*seg, idx as int, tw as int, th as int),
{
    proof {
        reveal(clause_seq);
    }
    let mut s = String::new();
    s.append("[");
    proof {
        assert(s@ =~= "["@);
    }
    push_dec_u64(&mut s, seg.page_index as u64);
    s.append(":v]crop=iw*");
    push_fixed4(&mut s, seg.crop.w);
    s.append(":ih*");
    push_fixed4(&mut s, seg.crop.h);
    s.append(":iw*");
    push_fixed4(&mut s, seg.crop.x);
    s.append(":ih*");
    push_fixed4(&mut s, seg.crop.y);
    s.append(",scale=");
    push_dec_u64(&mut s, tw as u64);
    s.append(":");
    push_dec_u64(&mut s, th as u64);
    s.append(":force_original_aspect_ratio=decrease,pad=");
    push_dec_u64(&mut s, tw as u64);
    s.append(":");
    push_dec_u64(&mut s, th as u64);
    s.append(":(ow-iw)/2:(oh-ih)/2:white,trim=duration=");
    push_ms3(&mut s, seg.end_ms - seg.start_ms);
    s.append(",setpts=PTS-STARTPTS,setsar=1[seg");
    push_dec_u64(&mut s, idx as u64);
    s.append("]");
    s
}

/// Assemble the whole filter-graph program for a plan: the segment clauses
/// in order, separated by `;` and a newline, then the concatenation clause.
#[verifier::loop_isolation(false)]
pub fn build_filter_program(plan: &Vec<Segment>, tw: u32, th: u32) -> (r: String)
    requires
        forall|k: int| 0 <= k < plan@.len() ==> seg_times_bounded(#[trigger] plan@[k]),
    ensures
        r@ == program_seq(plan@, tw as int, th as int),
{
    let mut s = String::new();
    let n = plan.len();
    let mut i: usize = 0;
    while i < n
        invariant
            0 <= i <= n,
            s@ == segs_text(plan@, i as int, tw as int, th as int),
        decreases n - i,
    {
        let clause = compile_segment(&plan[i], i, tw, th);
        s.append(clause.as_str());
        s.append(";\n");
        i = i + 1;
    }
    let mut i: usize = 0;
    while i < n
        invariant
            0 <= i <= n,
            s@ == segs_text(plan@, n as int, tw as int, th as int) + concat_inputs_seq(i as int),
        decreases n - i,
    {
        proof {
            let segs = segs_text(plan@, n as int, tw as int, th as int);
            let ins = concat_inputs_seq(i as int);
            lemma_concat_associative(segs, ins, "[seg"@);
            lemma_concat_associative(segs, ins + "[seg"@, dec_seq(i as int));
            lemma_concat_associative(segs, ins + "[seg"@ + dec_seq(i as int), "]"@);
        }
        s.append("[seg");
        push_dec_u64(&mut s, i as u64);
        s.append("]");
        i = i + 1;
    }
    s.append("concat=n=");
    push_dec_u64(&mut s, n as u64);
    s.append(":v=1:a=0[outv]");
    s
}

/// The program text is a function of the plan and target size alone:
/// compiling the same validated plan twice produces identical text.
pub proof fn lemma_program_deterministic(
    plan: Seq<Segment>,
    tw: int,
    th: int,
    a: Seq<char>,
    b: Seq<char>,
)
    requires
        a == program_seq(plan, tw, th),
        b == program_seq(plan, tw, th),
    ensures
        a == b,
{
}

} // verus!
