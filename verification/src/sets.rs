//! Sets of frames that can be stacked, and the exact keys they are grouped by.
//!
//! Grouping by exposure is done with a tolerance, which is floating point and
//! lives with the caller; what is here is the exact part — the handles, the
//! buckets once quantised, the span a set covers, and the findings that are
//! arithmetic on counts.
use vstd::prelude::*;

use crate::compat::{compatible, first_difference, GeometryKey, Incompatibility};
use crate::kind::FrameKind;

verus! {

/// Handle to one set within one partition. A within-partition handle only:
/// anything that outlives one partition must be keyed by the set's key.
#[derive(Debug, Clone, Copy, PartialEq, Eq, Structural, PartialOrd, Ord, Hash)]
pub struct SetId(pub u32);

impl SetId {
    pub fn index(self) -> (r: usize)
        ensures
            r == self.0,
    {
        self.0 as usize
    }
}

/// ISO as recorded, or the fact that it was not. `Unknown` is its own bucket
/// and never merges with a known one.
#[derive(Debug, Clone, Copy, PartialEq, Eq, Structural, Hash, PartialOrd, Ord)]
pub enum GainBucket {
    Iso(u32),
    Unknown,
}

/// Exposure quantised to microseconds, plus the unknown case, which likewise
/// never merges.
#[derive(Debug, Clone, Copy, PartialEq, Eq, Structural, Hash, PartialOrd, Ord)]
pub enum ExposureBucket {
    Micros(u64),
    Unknown,
}

/// The order buckets sort in: known exposures by length, then the unknown.
pub open spec fn bucket_le(a: ExposureBucket, b: ExposureBucket) -> bool {
    match (a, b) {
        (ExposureBucket::Micros(x), ExposureBucket::Micros(y)) => x <= y,
        (ExposureBucket::Micros(_), ExposureBucket::Unknown) => true,
        (ExposureBucket::Unknown, ExposureBucket::Micros(_)) => false,
        (ExposureBucket::Unknown, ExposureBucket::Unknown) => true,
    }
}

fn bucket_at_most(a: ExposureBucket, b: ExposureBucket) -> (r: bool)
    ensures
        r == bucket_le(a, b),
{
    match (a, b) {
        (ExposureBucket::Micros(x), ExposureBucket::Micros(y)) => x <= y,
        (ExposureBucket::Micros(_), ExposureBucket::Unknown) => true,
        (ExposureBucket::Unknown, ExposureBucket::Micros(_)) => false,
        (ExposureBucket::Unknown, ExposureBucket::Unknown) => true,
    }
}

/// Shortest and longest exposure actually present in a set. Equal in the
/// usual case of a run shot at one shutter speed.
#[derive(Debug, Clone, Copy, PartialEq, Eq, Structural, Hash)]
pub struct ExposureSpan {
    pub shortest: ExposureBucket,
    pub longest: ExposureBucket,
}

/// The span of a list of buckets: its least and its greatest, both unknown
/// for an empty list.
pub open spec fn span_of_seq(b: Seq<ExposureBucket>) -> ExposureSpan
    decreases b.len(),
{
    if b.len() == 0 {
        ExposureSpan { shortest: ExposureBucket::Unknown, longest: ExposureBucket::Unknown }
    } else if b.len() == 1 {
        ExposureSpan { shortest: b[0], longest: b[0] }
    } else {
        let rest = span_of_seq(b.drop_last());
        let last = b.last();
        ExposureSpan {
            shortest: if bucket_le(last, rest.shortest) { last } else { rest.shortest },
            longest: if bucket_le(rest.longest, last) { last } else { rest.longest },
        }
    }
}

/// The shortest and the longest of the buckets a set's members fell into.
pub fn exposure_span(buckets: &Vec<ExposureBucket>) -> (r: ExposureSpan)
    ensures
        r == span_of_seq(buckets@),
{
    let mut shortest = ExposureBucket::Unknown;
    let mut longest = ExposureBucket::Unknown;
    let mut i: usize = 0;
    while i < buckets.len()
        invariant
            i <= buckets.len(),
            (ExposureSpan { shortest, longest }) == span_of_seq(buckets@.take(i as int)),
        decreases buckets.len() - i,
    {
        let bucket = buckets[i];
        proof {
            assert(buckets@.take(i + 1).drop_last() =~= buckets@.take(i as int));
        }
        if i == 0 {
            shortest = bucket;
            longest = bucket;
        } else {
            if bucket_at_most(bucket, shortest) {
                shortest = bucket;
            }
            if bucket_at_most(longest, bucket) {
                longest = bucket;
            }
        }
        i = i + 1;
    }
    proof {
        assert(buckets@.take(buckets.len() as int) =~= buckets@);
    }
    ExposureSpan { shortest, longest }
}

/// Why a particular calibration set was chosen.
#[derive(Debug, Clone, Copy, PartialEq, Eq, Structural)]
pub enum MatchQuality {
    /// Nothing differed at all.
    Exact,
    /// Nothing else was admissible.
    OnlyCandidate,
    /// Chosen because its exposure was nearest — how darks are matched.
    ClosestExposure,
    /// Chosen because its gain was nearest — how flats and biases are matched.
    ClosestGain,
}

/// The earliest and the latest of the capture times that were recorded.
pub open spec fn earliest(times: Seq<Option<i64>>) -> Option<i64>
    decreases times.len(),
{
    if times.len() == 0 {
        None
    } else {
        let rest = earliest(times.drop_last());
        match (rest, times.last()) {
            (Some(a), Some(b)) => Some(if b < a { b } else { a }),
            (None, t) => t,
            (r, None) => r,
        }
    }
}

pub open spec fn latest(times: Seq<Option<i64>>) -> Option<i64>
    decreases times.len(),
{
    if times.len() == 0 {
        None
    } else {
        let rest = latest(times.drop_last());
        match (rest, times.last()) {
            (Some(a), Some(b)) => Some(if b > a { b } else { a }),
            (None, t) => t,
            (r, None) => r,
        }
    }
}

pub proof fn lemma_earliest_not_after_latest(times: Seq<Option<i64>>)
    ensures
        earliest(times) is Some <==> latest(times) is Some,
        earliest(times) is Some ==> earliest(times)->0 <= latest(times)->0,
    decreases times.len(),
{
    if times.len() > 0 {
        lemma_earliest_not_after_latest(times.drop_last());
    }
}

/// How long a set took to shoot, end to end: the latest recorded capture time
/// less the earliest, or `None` when no member recorded one.
pub fn capture_span(times: &Vec<Option<i64>>) -> (r: Option<i64>)
    requires
        earliest(times@) is Some ==> latest(times@)->0 - earliest(times@)->0 <= i64::MAX,
    ensures
        r == (match (earliest(times@), latest(times@)) {
            (Some(first), Some(last)) => Some((last - first) as i64),
            _ => None,
        }),
{
    let mut first: Option<i64> = None;
    let mut last: Option<i64> = None;
    let mut i: usize = 0;
    while i < times.len()
        invariant
            i <= times.len(),
            first == earliest(times@.take(i as int)),
            last == latest(times@.take(i as int)),
        decreases times.len() - i,
    {
        proof {
            assert(times@.take(i + 1).drop_last() =~= times@.take(i as int));
        }
        match (first, times[i]) {
            (Some(a), Some(b)) => first = Some(if b < a { b } else { a }),
            (None, t) => first = t,
            (_, None) => {},
        }
        match (last, times[i]) {
            (Some(a), Some(b)) => last = Some(if b > a { b } else { a }),
            (None, t) => last = t,
            (_, None) => {},
        }
        i = i + 1;
    }
    proof {
        assert(times@.take(times.len() as int) =~= times@);
        lemma_earliest_not_after_latest(times@);
    }
    match (first, last) {
        (Some(a), Some(b)) => Some(b - a),
        _ => None,
    }
}

} // verus!
