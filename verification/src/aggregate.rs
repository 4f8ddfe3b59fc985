//! Range aggregator: counts, over labelled validator-index ranges, the
//! validators whose participation flag byte carries a given mask.
//!
//! The counts are exact; turning a count into a floating-point ratio
//! is left to the caller that publishes it.

use vstd::prelude::*;

use crate::flags::{spec_has_flag, has_flag, ParticipationFlags};

verus! {

/// Errors of the caller-input level: an empty index range, or one that
/// reaches past the end of the flag sequence.
#[derive(Clone, Copy, Debug, PartialEq, Eq, Structural)]
pub enum RangeError {
    Empty,
    OutOfBounds,
}

/// A labelled half-open validator-index range `[start, end)`.
#[derive(Clone, Debug)]
pub struct IndexRange {
    pub label: String,
    pub start: usize,
    pub end: usize,
}

/// Participation of one range: of the `end - start` validators in
/// `[start, end)`, `count` carried the queried mask.
#[derive(Clone, Debug)]
pub struct RangeParticipation {
    pub label: String,
    pub start: usize,
    pub end: usize,
    pub count: usize,
}

/// The error that a range produces against a flag sequence of length
/// `n`: `Empty` when the range holds no index, `OutOfBounds` when it
/// reaches past `n`, and no error otherwise.
pub open spec fn spec_range_err(r: IndexRange, n: int) -> Option<RangeError> {
    if r.start >= r.end {
        Some(RangeError::Empty)
    } else if r.end > n {
        Some(RangeError::OutOfBounds)
    } else {
        None
    }
}

/// Number of indices `i` in `[start, end)` whose flag byte carries
/// every bit of `mask`.
pub open spec fn spec_count_matching(flags: Seq<u8>, start: int, end: int, mask: u8) -> int
    decreases end - start,
{
    if start >= end {
        0
    } else {
        spec_count_matching(flags, start, end - 1, mask) + if spec_has_flag(
            flags[end - 1],
            mask,
        ) {
            1 as int
        } else {
            0 as int
        }
    }
}

/// The matching count never exceeds the width of the range.
pub proof fn lemma_count_matching_bound(flags: Seq<u8>, start: int, end: int, mask: u8)
    ensures
        0 <= spec_count_matching(flags, start, end, mask),
        spec_count_matching(flags, start, end, mask) <= (if end >= start {
            end - start
        } else {
            0
        }),
    decreases end - start,
{
    if start < end {
        lemma_count_matching_bound(flags, start, end - 1, mask);
    }
}

/// What `aggregate` promises of a success: every range is valid
/// against the flag sequence, and the output pairs each range, in
/// input order, with its exact matching count.
pub open spec fn spec_aggregate_ok(
    flags: Seq<u8>,
    ranges: Seq<IndexRange>,
    mask: u8,
    out: Seq<RangeParticipation>,
) -> bool {
    &&& forall|k: int|
        0 <= k < ranges.len() ==> spec_range_err(#[trigger] ranges[k], flags.len() as int) is None
    &&& out.len() == ranges.len()
    &&& forall|k: int|
        0 <= k < ranges.len() ==> {
            let e = #[trigger] out[k];
            &&& e.label@ == ranges[k].label@
            &&& e.start == ranges[k].start
            &&& e.end == ranges[k].end
            &&& e.count == spec_count_matching(flags, e.start as int, e.end as int, mask)
            &&& e.count <= e.end - e.start
        }
}

/// What `aggregate` promises of an error: it is the error of the
/// first invalid range, every range before it being valid.
pub open spec fn spec_aggregate_err(flags: Seq<u8>, ranges: Seq<IndexRange>, e: RangeError) -> bool {
    exists|k: int|
        {
            &&& 0 <= k < ranges.len()
            &&& spec_range_err(#[trigger] ranges[k], flags.len() as int) == Some(e)
            &&& forall|j: int|
                0 <= j < k ==> spec_range_err(#[trigger] ranges[j], flags.len() as int) is None
        }
}

/// Counts the validators in `[start, end)` whose flag byte carries
/// every bit of `mask`.
pub fn count_matching(flags: &ParticipationFlags, start: usize, end: usize, mask: u8) -> (c: usize)
    requires
        start <= end <= flags@.len(),
    ensures
        c == spec_count_matching(flags@, start as int, end as int, mask),
{
    proof {
        lemma_count_matching_bound(flags@, start as int, end as int, mask);
    }
    let mut c: usize = 0;
    let mut i: usize = start;
    while i < end
        invariant
            start <= i <= end <= flags@.len(),
            c == spec_count_matching(flags@, start as int, i as int, mask),
        decreases end - i,
    {
        proof {
            lemma_count_matching_bound(flags@, start as int, i as int, mask);
            lemma_count_matching_bound(flags@, start as int, i + 1, mask);
        }
        if has_flag(flags.bytes[i], mask) {
            c = c + 1;
        }
        i = i + 1;
    }
    c
}

/// Aggregates the flag sequence over every supplied range: each
/// range's matching count, under its label, in input order.
///
/// Fails with the error of the first invalid range: `Empty` when its
/// `start >= end`, `OutOfBounds` when its `end` exceeds the flag
/// count. Succeeds exactly when every range is valid.
pub fn aggregate(flags: &ParticipationFlags, ranges: &Vec<IndexRange>, mask: u8) -> (r: Result<
    Vec<RangeParticipation>,
    RangeError,
>)
    ensures
        match r {
            Ok(out) => spec_aggregate_ok(flags@, ranges@, mask, out@),
            Err(e) => spec_aggregate_err(flags@, ranges@, e),
        },
{
    let n = flags.len();
    let mut out: Vec<RangeParticipation> = Vec::new();
    let mut k: usize = 0;
    while k < ranges.len()
        invariant
            0 <= k <= ranges@.len(),
            n == flags@.len(),
            out@.len() == k,
            forall|j: int|
                0 <= j < k ==> spec_range_err(#[trigger] ranges@[j], flags@.len() as int) is None,
            forall|j: int|
                0 <= j < k ==> {
                    let e = #[trigger] out@[j];
                    &&& e.label@ == ranges@[j].label@
                    &&& e.start == ranges@[j].start
                    &&& e.end == ranges@[j].end
                    &&& e.count == spec_count_matching(flags@, e.start as int, e.end as int, mask)
                    &&& e.count <= e.end - e.start
                },
        decreases ranges@.len() - k,
    {
        let start = ranges[k].start;
        let end = ranges[k].end;
        if start >= end {
            return Err(RangeError::Empty);
        }
        if end > n {
            return Err(RangeError::OutOfBounds);
        }
        let count = count_matching(flags, start, end, mask);
        proof {
            lemma_count_matching_bound(flags@, start as int, end as int, mask);
        }
        let label = ranges[k].label.clone();
        out.push(RangeParticipation { label, start, end, count });
        k = k + 1;
    }
    Ok(out)
}

} // verus!
