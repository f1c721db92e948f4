//! The timeline normalizer: filters and orders raw region input into a
//! validated, time-ordered segment plan.
//!
//! Regions without a start time are dropped; the rest are stable-sorted by
//! start time; every region must name an existing page; each segment runs
//! from its own start to the next region's start, the last one to the
//! caller-supplied total duration.

use vstd::prelude::*;
use vstd::seq_lib::lemma_seq_contains_after_push;

verus! {

use crate::region::{Region, CropRect, crop_of};
use crate::region::clamp_crop;
use crate::textfmt::{dec_seq, push_dec_u64};
use vstd::string::StringExecFns;

/// One planned video segment: show page `page_index` cropped by `crop`,
/// from `start_ms` to `end_ms` (both in milliseconds on the output timeline).
#[derive(Clone, Copy, PartialEq, Eq, Structural, Debug)]
pub struct Segment {
    pub page_index: u32,
    pub crop: CropRect,
    pub start_ms: i64,
    pub end_ms: i64,
}

/// Why plan construction failed.
#[derive(Debug)]
pub enum PlanError {
    /// No region carried a start time, so there is nothing to render.
    EmptyTimeline,
    /// The earliest region (in start order) whose page index is not below
    /// the number of supplied images.
    InvalidPageIndex { region_id: String, page_index: u32 },
}

/// The start time of a region, read as a mathematical integer; regions that
/// reach the ordered timeline always carry one.
pub open spec fn start_of(r: Region) -> int {
    match r.start {
        Some(t) => t as int,
        None => 0,
    }
}

/// The regions that carry a start time, in input order.
pub open spec fn kept(s: Seq<Region>) -> Seq<Region>
    decreases s.len(),
{
    if s.len() == 0 {
        Seq::empty()
    } else if s.last().start is Some {
        kept(s.drop_last()).push(s.last())
    } else {
        kept(s.drop_last())
    }
}

/// Insert `x` into a sequence ordered by start time, after every element
/// whose start is not greater, so that repeated insertion is a stable sort.
pub open spec fn insert_by_start(s: Seq<Region>, x: Region) -> Seq<Region>
    decreases s.len(),
{
    if s.len() > 0 && start_of(s.last()) > start_of(x) {
        insert_by_start(s.drop_last(), x).push(s.last())
    } else {
        s.push(x)
    }
}

/// Stable sort by start time, realized as repeated ordered insertion.
pub open spec fn sort_by_start(s: Seq<Region>) -> Seq<Region>
    decreases s.len(),
{
    if s.len() == 0 {
        Seq::empty()
    } else {
        insert_by_start(sort_by_start(s.drop_last()), s.last())
    }
}

/// The active regions of the input in start order, ties keeping input order.
pub open spec fn timeline_of(regions: Seq<Region>) -> Seq<Region> {
    sort_by_start(kept(regions))
}

/// Non-decreasing by start time.
pub open spec fn sorted_by_start(s: Seq<Region>) -> bool {
    forall|i: int, j: int| 0 <= i < j < s.len() ==> start_of(s[i]) <= start_of(s[j])
}

/// The first index at or after `i` whose region names a page that is not
/// below `image_count`; the length when every page index is in range.
pub open spec fn first_bad_page(s: Seq<Region>, image_count: int, i: int) -> int
    decreases s.len() - i,
{
    if i < 0 || i >= s.len() {
        s.len() as int
    } else if s[i].page_index as int >= image_count {
        i
    } else {
        first_bad_page(s, image_count, i + 1)
    }
}

/// The segment planned for position `i` of the ordered timeline: its own
/// start up to the next region's start, the caller-supplied total duration
/// for the last one.
pub open spec fn segment_at(sorted: Seq<Region>, i: int, total_ms: int) -> Segment {
    Segment {
        page_index: sorted[i].page_index,
        crop: crop_of(sorted[i]),
        start_ms: start_of(sorted[i]) as i64,
        end_ms: if i + 1 < sorted.len() {
            start_of(sorted[i + 1]) as i64
        } else {
            total_ms as i64
        },
    }
}

/// The whole plan over the ordered timeline.
pub open spec fn segments_of(sorted: Seq<Region>, total_ms: int) -> Seq<Segment> {
    Seq::new(sorted.len(), |i: int| segment_at(sorted, i, total_ms))
}

/// `seg` was derived from region `r`: same page, the clamped crop window,
/// and `r`'s own (defined) start time.
pub open spec fn segment_of_region(r: Region, seg: Segment) -> bool {
    &&& r.start matches Some(t) && seg.start_ms == t
    &&& seg.page_index == r.page_index
    &&& seg.crop == crop_of(r)
}

proof fn lemma_contains_split_last(s: Seq<Region>, y: Region)
    requires
        s.len() > 0,
    ensures
        s.contains(y) <==> (s.drop_last().contains(y) || y == s.last()),
{
    if s.drop_last().contains(y) {
        let i = choose|i: int| 0 <= i < s.drop_last().len() && s.drop_last()[i] == y;
        assert(s[i] == y);
    }
    if s.contains(y) {
        let i = choose|i: int| 0 <= i < s.len() && s[i] == y;
        if i < s.len() - 1 {
            assert(s.drop_last()[i] == y);
        }
    }
    assert(s[s.len() - 1] == s.last());
}

proof fn lemma_kept_elements(s: Seq<Region>)
    ensures
        forall|k: int| 0 <= k < kept(s).len() ==> (#[trigger] kept(s)[k]).start is Some,
        forall|k: int| 0 <= k < kept(s).len() ==> s.contains(#[trigger] kept(s)[k]),
    decreases s.len(),
{
    if s.len() > 0 {
        lemma_kept_elements(s.drop_last());
        assert forall|k: int| 0 <= k < kept(s).len() implies (#[trigger] kept(s)[k]).start is Some
            && s.contains(kept(s)[k]) by {
            if s.last().start is Some && k == kept(s).len() - 1 {
                assert(kept(s)[k] == s.last());
            } else {
                assert(kept(s)[k] == kept(s.drop_last())[k]);
            }
            lemma_contains_split_last(s, kept(s)[k]);
        }
    }
}

proof fn lemma_kept_keeps(s: Seq<Region>, j: int)
    requires
        0 <= j < s.len(),
        s[j].start is Some,
    ensures
        kept(s).contains(s[j]),
        kept(s).len() > 0,
    decreases s.len(),
{
    broadcast use lemma_seq_contains_after_push;

    if j == s.len() - 1 {
        assert(s.last() == s[j]);
    } else {
        lemma_kept_keeps(s.drop_last(), j);
        assert(s.drop_last()[j] == s[j]);
    }
}

proof fn lemma_kept_empty(s: Seq<Region>)
    requires
        forall|j: int| 0 <= j < s.len() ==> !((#[trigger] s[j]).start is Some),
    ensures
        kept(s).len() == 0,
    decreases s.len(),
{
    if s.len() > 0 {
        assert(forall|j: int|
            0 <= j < s.drop_last().len() ==> s.drop_last()[j] == s[j]);
        lemma_kept_empty(s.drop_last());
    }
}

proof fn lemma_insert_len(s: Seq<Region>, x: Region)
    ensures
        insert_by_start(s, x).len() == s.len() + 1,
    decreases s.len(),
{
    if s.len() > 0 && start_of(s.last()) > start_of(x) {
        lemma_insert_len(s.drop_last(), x);
    }
}

proof fn lemma_insert_contains(s: Seq<Region>, x: Region, y: Region)
    ensures
        insert_by_start(s, x).contains(y) <==> (s.contains(y) || y == x),
    decreases s.len(),
{
    broadcast use lemma_seq_contains_after_push;

    if s.len() > 0 && start_of(s.last()) > start_of(x) {
        lemma_insert_contains(s.drop_last(), x, y);
        lemma_contains_split_last(s, y);
    }
}

proof fn lemma_sort_len(s: Seq<Region>)
    ensures
        sort_by_start(s).len() == s.len(),
    decreases s.len(),
{
    if s.len() > 0 {
        lemma_sort_len(s.drop_last());
        lemma_insert_len(sort_by_start(s.drop_last()), s.last());
    }
}

proof fn lemma_sort_contains(s: Seq<Region>, y: Region)
    ensures
        sort_by_start(s).contains(y) <==> s.contains(y),
    decreases s.len(),
{
    if s.len() > 0 {
        lemma_sort_contains(s.drop_last(), y);
        lemma_insert_contains(sort_by_start(s.drop_last()), s.last(), y);
        lemma_contains_split_last(s, y);
    }
}

proof fn lemma_insert_sorted(s: Seq<Region>, x: Region)
    requires
        sorted_by_start(s),
    ensures
        sorted_by_start(insert_by_start(s, x)),
    decreases s.len(),
{
    if s.len() > 0 && start_of(s.last()) > start_of(x) {
        let inner = insert_by_start(s.drop_last(), x);
        let r = inner.push(s.last());
        assert(sorted_by_start(s.drop_last())) by {
            assert(forall|i: int|
                0 <= i < s.drop_last().len() ==> s.drop_last()[i] == s[i]);
        }
        lemma_insert_sorted(s.drop_last(), x);
        lemma_insert_len(s.drop_last(), x);
        assert forall|k: int| 0 <= k < inner.len() implies start_of(#[trigger] inner[k])
            <= start_of(s.last()) by {
            lemma_insert_contains(s.drop_last(), x, inner[k]);
            assert(inner.contains(inner[k]));
            if s.drop_last().contains(inner[k]) {
                let i = choose|i: int|
                    0 <= i < s.drop_last().len() && s.drop_last()[i] == inner[k];
                assert(s[i] == inner[k]);
                assert(start_of(s[i]) <= start_of(s[s.len() - 1]));
            }
            assert(s[s.len() - 1] == s.last());
        }
        assert forall|i: int, j: int| 0 <= i < j < r.len() implies start_of(#[trigger] r[i])
            <= start_of(#[trigger] r[j]) by {
            if j < inner.len() {
                assert(r[i] == inner[i] && r[j] == inner[j]);
            } else {
                assert(r[j] == s.last());
                assert(r[i] == inner[i]);
            }
        }
    } else {
        let r = s.push(x);
        assert forall|i: int, j: int| 0 <= i < j < r.len() implies start_of(#[trigger] r[i])
            <= start_of(#[trigger] r[j]) by {
            if j < s.len() {
                assert(r[i] == s[i] && r[j] == s[j]);
            } else {
                assert(r[j] == x);
                assert(r[i] == s[i]);
                if s.len() > 0 {
                    assert(start_of(s[i]) <= start_of(s[s.len() - 1]));
                    assert(s[s.len() - 1] == s.last());
                }
            }
        }
    }
}

proof fn lemma_sort_sorted(s: Seq<Region>)
    ensures
        sorted_by_start(sort_by_start(s)),
    decreases s.len(),
{
    if s.len() > 0 {
        lemma_sort_sorted(s.drop_last());
        lemma_insert_sorted(sort_by_start(s.drop_last()), s.last());
    }
}

/// Inserting at the position found by scanning from the right agrees with
/// the specification-level ordered insertion.
proof fn lemma_insert_at(s: Seq<Region>, x: Region, j: int)
    requires
        0 <= j <= s.len(),
        forall|k: int| j <= k < s.len() ==> start_of(#[trigger] s[k]) > start_of(x),
        j > 0 ==> start_of(s[j - 1]) <= start_of(x),
    ensures
        insert_by_start(s, x) == s.insert(j, x),
    decreases s.len(),
{
    if j == s.len() {
        assert(s.push(x) =~= s.insert(j, x));
    } else {
        assert(start_of(s[s.len() - 1]) > start_of(x));
        assert(s[s.len() - 1] == s.last());
        assert(forall|k: int|
            j <= k < s.drop_last().len() ==> s.drop_last()[k] == s[k]);
        if j > 0 {
            assert(s.drop_last()[j - 1] == s[j - 1]);
        }
        lemma_insert_at(s.drop_last(), x, j);
        assert(insert_by_start(s.drop_last(), x).push(s.last()) =~= s.insert(j, x));
    }
}

proof fn lemma_first_bad_props(s: Seq<Region>, image_count: int, i: int)
    requires
        0 <= i <= s.len(),
    ensures
        i <= first_bad_page(s, image_count, i) <= s.len(),
        first_bad_page(s, image_count, i) < s.len() ==> (s[first_bad_page(s, image_count, i)].page_index as int)
            >= image_count,
        forall|k: int|
            i <= k < first_bad_page(s, image_count, i) ==> ((#[trigger] s[k]).page_index as int)
                < image_count,
    decreases s.len() - i,
{
    if i < s.len() && (s[i].page_index as int) < image_count {
        lemma_first_bad_props(s, image_count, i + 1);
    }
}

proof fn lemma_first_bad_skip(s: Seq<Region>, image_count: int, j: int, i: int)
    requires
        0 <= j <= i <= s.len(),
        forall|k: int| j <= k < i ==> ((#[trigger] s[k]).page_index as int) < image_count,
    ensures
        first_bad_page(s, image_count, j) == first_bad_page(s, image_count, i),
    decreases i - j,
{
    if j < i {
        lemma_first_bad_skip(s, image_count, j + 1, i);
    }
}

/// Drop the regions without a start time and stable-sort the rest by start
/// time, ties keeping input order.
fn sorted_kept(regions: Vec<Region>) -> (out: Vec<Region>)
    ensures
        out@ == timeline_of(regions@),
        forall|k: int| 0 <= k < out@.len() ==> (#[trigger] out@[k]).start is Some,
{
    let ghost orig = regions@;
    let mut rest = regions;
    let mut out: Vec<Region> = Vec::new();
    let ghost mut i: int = 0;
    proof {
        assert(rest@ =~= orig.subrange(0, orig.len() as int));
        assert(orig.take(0) =~= Seq::<Region>::empty());
    }
    while rest.len() > 0
        invariant
            0 <= i <= orig.len(),
            rest@ == orig.subrange(i, orig.len() as int),
            out@ == sort_by_start(kept(orig.take(i))),
            forall|k: int| 0 <= k < out@.len() ==> (#[trigger] out@[k]).start is Some,
        decreases rest@.len(),
    {
        let r = rest.remove(0);
        proof {
            assert(r == orig[i]);
            assert(rest@ =~= orig.subrange(i + 1, orig.len() as int));
            assert(orig.take(i + 1).drop_last() =~= orig.take(i));
            assert(orig.take(i + 1).last() == orig[i]);
        }
        match r.start {
            None => {
                proof {
                    assert(kept(orig.take(i + 1)) == kept(orig.take(i)));
                    i = i + 1;
                }
            },
            Some(start) => {
                let mut j: usize = out.len();
                while j > 0 && start_exceeds(&out[j - 1], start)
                    invariant
                        0 <= j <= out@.len(),
                        forall|k: int|
                            j <= k < out@.len() ==> start_of(#[trigger] out@[k]) > start as int,
                        forall|k: int| 0 <= k < out@.len() ==> (#[trigger] out@[k]).start is Some,
                    decreases j,
                {
                    j = j - 1;
                }
                proof {
                    assert(start_of(r) == start as int);
                    lemma_insert_at(out@, r, j as int);
                    assert(kept(orig.take(i + 1)) == kept(orig.take(i)).push(r));
                    assert(kept(orig.take(i)).push(r).drop_last() =~= kept(orig.take(i)));
                    assert(sort_by_start(kept(orig.take(i)).push(r)) == insert_by_start(
                        sort_by_start(kept(orig.take(i))),
                        r,
                    ));
                }
                out.insert(j, r);
                proof {
                    i = i + 1;
                }
            },
        }
    }
    proof {
        assert(orig.take(orig.len() as int) =~= orig);
    }
    out
}

/// Whether the region's start time (which it is known to carry) exceeds `t`.
fn start_exceeds(r: &Region, t: i64) -> (b: bool)
    requires
        r.start is Some,
    ensures
        b == (start_of(*r) > t as int),
{
    match r.start {
        Some(s) => s > t,
        None => false,
    }
}

/// What `build_plan` returns, as a function of its inputs: the distinct
/// empty-timeline error when no region carries a start; otherwise the error
/// naming the earliest region (in start order) whose page index is out of
/// range, when there is one; otherwise the full segment plan.
pub open spec fn plan_outcome(
    regions: Seq<Region>,
    image_count: int,
    total_ms: int,
    r: Result<Vec<Segment>, PlanError>,
) -> bool {
    let sorted = timeline_of(regions);
    let bad = first_bad_page(sorted, image_count, 0);
    match r {
        Ok(plan) => sorted.len() > 0 && bad == sorted.len() && plan@ == segments_of(
            sorted,
            total_ms,
        ),
        Err(PlanError::EmptyTimeline) => sorted.len() == 0,
        Err(PlanError::InvalidPageIndex { region_id, page_index }) => sorted.len() > 0 && bad
            < sorted.len() && region_id@ == sorted[bad].id@ && page_index
            == sorted[bad].page_index,
    }
}

/// Build the segment plan: drop regions without a start, order the rest by
/// start time (stable), check every page index against `image_count`, and
/// give each segment its neighbour's start (or `total_ms`) as its end.
///
/// Fails with `EmptyTimeline` when nothing carries a start, and with
/// `InvalidPageIndex` naming the earliest offending region (in start order)
/// when one names a page that does not exist. Durations are not checked:
/// out-of-order totals may yield non-positive segment durations.
#[verifier::loop_isolation(false)]
pub fn build_plan(regions: Vec<Region>, image_count: usize, total_ms: i64) -> (r: Result<
    Vec<Segment>,
    PlanError,
>)
    ensures
        plan_outcome(regions@, image_count as int, total_ms as int, r),
{
    let ghost orig_regions = regions@;
    let mut sorted = sorted_kept(regions);
    let ghost sseq = sorted@;
    if sorted.len() == 0 {
        return Err(PlanError::EmptyTimeline);
    }
    let n = sorted.len();
    let mut i: usize = 0;
    while i < n
        invariant
            sorted@ == sseq,
            n == sseq.len(),
            0 <= i <= n,
            forall|k: int| 0 <= k < i ==> ((#[trigger] sseq[k]).page_index as int) < image_count,
        decreases n - i,
    {
        if sorted[i].page_index as usize >= image_count {
            proof {
                lemma_first_bad_skip(sseq, image_count as int, 0, i as int);
                assert(first_bad_page(sseq, image_count as int, i as int) == i as int);
            }
            let bad = sorted.remove(i);
            return Err(PlanError::InvalidPageIndex {
                region_id: bad.id,
                page_index: bad.page_index,
            });
        }
        i = i + 1;
    }
    proof {
        lemma_first_bad_skip(sseq, image_count as int, 0, n as int);
    }
    let mut segs: Vec<Segment> = Vec::new();
    let mut i: usize = 0;
    while i < n
        invariant
            sorted@ == sseq,
            n == sseq.len(),
            0 <= i <= n,
            forall|k: int| 0 <= k < sseq.len() ==> (#[trigger] sseq[k]).start is Some,
            segs@.len() == i,
            forall|k: int|
                0 <= k < i ==> segs@[k] == segment_at(sseq, k, total_ms as int),
        decreases n - i,
    {
        let start_ms = match sorted[i].start {
            Some(t) => t,
            None => 0,
        };
        let end_ms = if i + 1 < n {
            match sorted[i + 1].start {
                Some(t) => t,
                None => 0,
            }
        } else {
            total_ms
        };
        let crop = clamp_crop(&sorted[i]);
        segs.push(Segment { page_index: sorted[i].page_index, crop, start_ms, end_ms });
        i = i + 1;
    }
    proof {
        assert(segs@ =~= segments_of(sseq, total_ms as int));
    }
    Ok(segs)
}

/// Every planned segment arises from an input region that carries a defined
/// start time; regions with an undefined start never appear in the plan.
pub proof fn lemma_plan_regions_defined(regions: Seq<Region>, total_ms: int)
    ensures
        forall|i: int|
            0 <= i < segments_of(timeline_of(regions), total_ms).len() ==> exists|j: int|
                0 <= j < regions.len() && segment_of_region(
                    regions[j],
                    #[trigger] segments_of(timeline_of(regions), total_ms)[i],
                ),
{
    let sorted = timeline_of(regions);
    let plan = segments_of(sorted, total_ms);
    assert forall|i: int| 0 <= i < plan.len() implies exists|j: int|
        0 <= j < regions.len() && segment_of_region(regions[j], #[trigger] plan[i]) by {
        lemma_sort_contains(kept(regions), sorted[i]);
        assert(sorted.contains(sorted[i]));
        lemma_kept_elements(regions);
        let k = choose|k: int| 0 <= k < kept(regions).len() && kept(regions)[k] == sorted[i];
        assert(regions.contains(sorted[i]));
        let j = choose|j: int| 0 <= j < regions.len() && regions[j] == sorted[i];
        assert(segment_of_region(regions[j], plan[i]));
    }
}

/// The plan is ordered by start time, non-decreasing, for every input.
pub proof fn lemma_plan_sorted(regions: Seq<Region>, total_ms: int)
    ensures
        forall|i: int, j: int|
            0 <= i < j < segments_of(timeline_of(regions), total_ms).len() ==> #[trigger] segments_of(
                timeline_of(regions),
                total_ms,
            )[i].start_ms <= #[trigger] segments_of(timeline_of(regions), total_ms)[j].start_ms,
{
    lemma_sort_sorted(kept(regions));
}

/// Segments are contiguous: each ends where the next begins, and the last
/// ends at the supplied total duration.
pub proof fn lemma_plan_contiguous(regions: Seq<Region>, total_ms: i64)
    ensures
        forall|i: int|
            0 <= i && i + 1 < segments_of(timeline_of(regions), total_ms as int).len()
                ==> #[trigger] segments_of(timeline_of(regions), total_ms as int)[i].end_ms
                == segments_of(timeline_of(regions), total_ms as int)[i + 1].start_ms,
        segments_of(timeline_of(regions), total_ms as int).len() > 0 ==> segments_of(
            timeline_of(regions),
            total_ms as int,
        ).last().end_ms == total_ms,
{
}

/// With at least one region carrying a start time and every region's page
/// index below the image count, plan construction succeeds.
pub proof fn lemma_plan_success(regions: Seq<Region>, image_count: int)
    requires
        exists|j: int| 0 <= j < regions.len() && (#[trigger] regions[j]).start is Some,
        forall|j: int|
            0 <= j < regions.len() ==> ((#[trigger] regions[j]).page_index as int) < image_count,
    ensures
        timeline_of(regions).len() > 0,
        first_bad_page(timeline_of(regions), image_count, 0) == timeline_of(regions).len(),
{
    let j = choose|j: int| 0 <= j < regions.len() && (#[trigger] regions[j]).start is Some;
    lemma_kept_keeps(regions, j);
    lemma_sort_len(kept(regions));
    let sorted = timeline_of(regions);
    lemma_first_bad_props(sorted, image_count, 0);
    let bad = first_bad_page(sorted, image_count, 0);
    if bad < sorted.len() {
        lemma_sort_contains(kept(regions), sorted[bad]);
        lemma_kept_elements(regions);
        let k = choose|k: int| 0 <= k < kept(regions).len() && kept(regions)[k] == sorted[bad];
        let l = choose|l: int| 0 <= l < regions.len() && regions[l] == sorted[bad];
        assert(regions.contains(sorted[bad]));
        assert(false);
    }
}

/// A region that carries a start time but names a page at or beyond the
/// image count makes plan construction fail: the first offending position in
/// start order exists and names a page that is out of range.
pub proof fn lemma_plan_bad_page(regions: Seq<Region>, image_count: int, j: int)
    requires
        0 <= j < regions.len(),
        regions[j].start is Some,
        regions[j].page_index as int >= image_count,
    ensures
        ({
            let sorted = timeline_of(regions);
            let bad = first_bad_page(sorted, image_count, 0);
            &&& sorted.len() > 0
            &&& bad < sorted.len()
            &&& sorted[bad].page_index as int >= image_count
            &&& sorted[bad].start is Some
        }),
{
    let sorted = timeline_of(regions);
    lemma_kept_keeps(regions, j);
    lemma_sort_contains(kept(regions), regions[j]);
    lemma_sort_len(kept(regions));
    assert(sorted.contains(regions[j]));
    let k = choose|k: int| 0 <= k < sorted.len() && sorted[k] == regions[j];
    lemma_first_bad_props(sorted, image_count, 0);
    let bad = first_bad_page(sorted, image_count, 0);
    assert(bad <= k);
    lemma_kept_elements(regions);
    lemma_sort_contains(kept(regions), sorted[bad]);
    let m = choose|m: int| 0 <= m < kept(regions).len() && kept(regions)[m] == sorted[bad];
    assert(sorted[bad].start is Some);
}

/// An input where no region carries a start time (in particular an empty
/// input) yields an empty timeline, so plan construction fails with the
/// distinct empty-timeline error.
pub proof fn lemma_plan_empty(regions: Seq<Region>)
    requires
        forall|j: int| 0 <= j < regions.len() ==> !((#[trigger] regions[j]).start is Some),
    ensures
        timeline_of(regions).len() == 0,
{
    lemma_kept_empty(regions);
    lemma_sort_len(kept(regions));
}

/// The descriptive text of a plan-construction error.
pub open spec fn plan_error_text(e: PlanError) -> Seq<char> {
    match e {
        PlanError::EmptyTimeline => "No regions with valid start time found"@,
        PlanError::InvalidPageIndex { region_id, page_index } => "Region "@ + region_id@
            + " refers to invalid page_index "@ + dec_seq(page_index as int),
    }
}

impl PlanError {
    /// Render the error as the single descriptive line reported to callers.
    pub fn message(&self) -> (m: String)
        ensures
            m@ == plan_error_text(*self),
    {
        match self {
            PlanError::EmptyTimeline => {
                let m = "No regions with valid start time found".to_owned();
                m
            },
            PlanError::InvalidPageIndex { region_id, page_index } => {
                let mut m = String::new();
                m.append("Region ");
                proof {
                    assert(m@ =~= "Region "@);
                }
                m.append(region_id.as_str());
                m.append(" refers to invalid page_index ");
                push_dec_u64(&mut m, *page_index as u64);
                m
            },
        }
    }
}

} // verus!
