//! The decisions a combination makes before it reads a sample: whether there
//! is anything to combine, whether every frame describes the same photosites,
//! which method suits the set, and whether every frame can be held at once or
//! the frames must be streamed and read twice. The combining itself is floating
//! point and is not here.
use vstd::prelude::*;

use crate::compat::{compatible, first_difference, geometry_of, refusal_for, GeometryKey, Incompatibility};
use crate::frame::required_bytes_of;
use crate::machine::{physical_cores, total_bytes};
use crate::pipeline::worker_ceiling;
use crate::session::{FrameId, FrameRecord, Session};

verus! {

/// At or above this many frames, reject outliers against a per-pixel sigma;
/// below it, take the median and reject nothing: with fewer frames the outlier
/// inflates the very sigma that would catch it.
pub const MEDIAN_CEILING: usize = 25;

/// How much a combination may hold where the machine will not say how much
/// memory it has: two gibibytes.
pub const FALLBACK_RESIDENT_BYTES: u64 = 2_147_483_648;

/// The share of the machine's memory a combination may work in: an eighth,
/// cut from what the machine has rather than what is free at the moment.
pub const RESIDENT_SHARE: u64 = 8;

/// What the fold's output costs beside the frames, as a multiple of one
/// frame's raw bytes.
pub const OUTPUT_MULTIPLE_OF_RAW: u64 = 2;

/// What each frame a worker is decoding costs, as a multiple of one frame's
/// raw bytes.
pub const DECODE_MULTIPLE_OF_RAW: u64 = 2;

/// How a set of frames is combined into one.
#[derive(Debug, Clone, Copy, PartialEq, Eq, Structural)]
pub enum Method {
    /// The middle value at each photosite. Rejects nothing, and needs nothing
    /// to be estimated from the sample.
    Median,
    /// The mean of the values within three sigma of the pixel's own mean, in
    /// one pass.
    ClippedMean,
}

impl Method {
    /// The method that suits a set of this size.
    pub fn for_frames(frames: usize) -> (r: Method)
        ensures
            r == if frames >= MEDIAN_CEILING {
                Method::ClippedMean
            } else {
                Method::Median
            },
    {
        if frames >= MEDIAN_CEILING {
            Method::ClippedMean
        } else {
            Method::Median
        }
    }

    /// How the method reads in a report.
    pub fn name(self) -> (r: &'static str)
        ensures
            r@ == match self {
                Method::Median => "median"@,
                Method::ClippedMean => "clipped mean"@,
            },
    {
        match self {
            Method::Median => "median",
            Method::ClippedMean => "clipped mean",
        }
    }
}

/// `x`, held at the largest `u64` when it is larger.
pub open spec fn saturated(x: int) -> int {
    if x > u64::MAX {
        u64::MAX as int
    } else {
        x
    }
}

fn saturating_product(a: u64, b: u64) -> (r: u64)
    ensures
        r == saturated(a * b),
{
    match a.checked_mul(b) {
        Some(p) => p,
        None => u64::MAX,
    }
}

/// The budget a machine of `total` bytes allows a combination: an eighth of
/// it, never less than the fallback; the fallback where the size is unknown.
pub open spec fn budget_of(total: Option<u64>) -> int {
    match total {
        Some(t) => if t / RESIDENT_SHARE >= FALLBACK_RESIDENT_BYTES {
            (t / RESIDENT_SHARE) as int
        } else {
            FALLBACK_RESIDENT_BYTES as int
        },
        None => FALLBACK_RESIDENT_BYTES as int,
    }
}

/// The budget for a machine whose memory is `total` bytes, or unknown.
pub fn budget_for(total: Option<u64>) -> (r: u64)
    ensures
        r == budget_of(total),
{
    match total {
        Some(t) => {
            let share = t / RESIDENT_SHARE;
            if share >= FALLBACK_RESIDENT_BYTES {
                share
            } else {
                FALLBACK_RESIDENT_BYTES
            }
        },
        None => FALLBACK_RESIDENT_BYTES,
    }
}

/// What this machine allows a combination to hold. What the machine reports
/// is not knowable here: the budget is the one for some memory size it could
/// have reported, and never less than the fallback.
pub fn resident_budget_bytes() -> (r: u64)
    ensures
        r >= FALLBACK_RESIDENT_BYTES,
        exists|total: Option<u64>| r == budget_of(total),
{
    let total = total_bytes();
    let r = budget_for(total);
    proof {
        assert(r == budget_of(total));
    }
    r
}

/// How many frames are decoded at once: the physical cores, or where the
/// machine will not say, the ceiling for its logical parallelism; never more
/// than there are frames, and at least one.
pub open spec fn decode_workers_of(cores: Option<usize>, logical: usize, frames: usize) -> int {
    let c: int = match cores {
        Some(n) => n as int,
        None => if logical >= 8 {
            (logical / 2) as int
        } else {
            logical as int
        },
    };
    let fewer: int = if c < frames { c } else { frames as int };
    if fewer < 1 {
        1
    } else {
        fewer
    }
}

/// The decode workers for a set of `frames` on a machine with `cores`
/// physical cores, or unknown, and `logical` logical parallelism.
pub fn decode_workers_for(cores: Option<usize>, logical: usize, frames: usize) -> (r: usize)
    ensures
        r == decode_workers_of(cores, logical, frames),
{
    let c = match cores {
        Some(n) => n,
        None => worker_ceiling(logical),
    };
    let fewer = if c < frames {
        c
    } else {
        frames
    };
    if fewer < 1 {
        1
    } else {
        fewer
    }
}

/// The decode workers for a set of `frames` on this machine, given the
/// logical parallelism the platform reports. The core count is the
/// machine's: the result is the one for some count it could have reported.
pub fn decode_workers(frames: usize, logical: usize) -> (r: usize)
    ensures
        r >= 1,
        exists|cores: Option<usize>| (cores matches Some(n) ==> n > 0) && r == decode_workers_of(cores, logical, frames),
{
    let cores = physical_cores();
    let r = decode_workers_for(cores, logical, frames);
    proof {
        assert((cores matches Some(n) ==> n > 0) && r == decode_workers_of(cores, logical, frames));
    }
    r
}

/// What the resident path needs beside the frames: the fold's output, and a
/// decode in flight per worker.
pub open spec fn overhead_of(frame_bytes: u64, workers: u64) -> int {
    (OUTPUT_MULTIPLE_OF_RAW + saturated(workers * DECODE_MULTIPLE_OF_RAW)) * frame_bytes
}

/// Whether every frame is held at once. A median is always held: the
/// streaming path cannot take one, and a budget that pushed a median into it
/// would change the method without being asked to. Otherwise the frames are
/// held when all of them, with the overhead, fit in the budget, or in the
/// floor of a median's worth of frames.
pub open spec fn holds_every_frame_of(method: Method, frames: usize, frame_bytes: u64, workers: u64, budget: u64) -> bool {
    let held: int = if method == Method::Median { frames as int } else { MEDIAN_CEILING as int };
    let floor = saturated(held * frame_bytes);
    let overhead = overhead_of(frame_bytes, workers);
    let wanted = saturated(saturated(frames * frame_bytes) + overhead);
    let allowed = saturated(floor + overhead);
    wanted <= if budget >= allowed { budget as int } else { allowed }
}

/// Whether the combination holds every frame at once rather than streaming.
pub fn holds_every_frame(method: Method, frames: usize, frame_bytes: u64, workers: u64, budget: u64) -> (r: bool)
    requires
        overhead_of(frame_bytes, workers) <= u64::MAX,
    ensures
        r == holds_every_frame_of(method, frames, frame_bytes, workers, budget),
{
    let held: u64 = match method {
        Method::Median => frames as u64,
        Method::ClippedMean => MEDIAN_CEILING as u64,
    };
    let floor = saturating_product(held, frame_bytes);
    let decoding = saturating_product(workers, DECODE_MULTIPLE_OF_RAW);
    proof {
        assert(overhead_of(frame_bytes, workers) == (OUTPUT_MULTIPLE_OF_RAW + decoding) * frame_bytes);
        assert((OUTPUT_MULTIPLE_OF_RAW + decoding) * frame_bytes >= OUTPUT_MULTIPLE_OF_RAW + decoding || frame_bytes
            == 0) by (nonlinear_arith);
    }
    let overhead: u64 = if frame_bytes == 0 {
        0
    } else {
        (OUTPUT_MULTIPLE_OF_RAW + decoding) * frame_bytes
    };
    let wanted = saturating_product(frames as u64, frame_bytes).saturating_add(overhead);
    let allowed = floor.saturating_add(overhead);
    let limit = if budget >= allowed {
        budget
    } else {
        allowed
    };
    wanted <= limit
}

/// Why a set of frames cannot be combined before anything is read.
#[derive(Debug, Clone)]
pub enum Refusal {
    /// No frames, or a first frame whose size cannot be counted.
    NothingToCombine,
    /// A frame that does not describe the same photosites as the first, and
    /// the first difference.
    Incompatible { frame: FrameId, reason: Incompatibility },
}

/// Whether a frame's layout describes the same photosites as `expected`.
pub open spec fn agrees_with(expected: GeometryKey, layout: crate::frame::ImageLayout) -> bool {
    forall|k: GeometryKey| geometry_of(k, layout) ==> first_difference(expected, k) is None
}

/// Frame `i` of `frames` is `frame`, its geometry is `found`, it differs
/// from `expected` with `reason`, and every frame before it agrees.
pub open spec fn incompatible_at(
    records: Seq<FrameRecord>,
    frames: Seq<FrameId>,
    expected: GeometryKey,
    frame: FrameId,
    reason: Incompatibility,
    i: int,
    found: GeometryKey,
) -> bool {
    &&& 0 <= i < frames.len() && frame == frames[i]
    &&& geometry_of(found, records[frames[i].0 as int].layout)
    &&& first_difference(expected, found) is Some
    &&& refusal_for(reason, first_difference(expected, found)->0, expected, found)
    &&& forall|j: int| 0 <= j < i ==> agrees_with(expected, records[(#[trigger] frames[j]).0 as int].layout)
}

/// What [`samples_to_combine`] answers when the first frame's geometry is
/// `expected` and its samples can be counted.
pub open spec fn combine_outcome(
    records: Seq<FrameRecord>,
    frames: Seq<FrameId>,
    expected: GeometryKey,
    r: Result<usize, Refusal>,
) -> bool {
    &&& geometry_of(expected, records[frames[0].0 as int].layout)
    &&& match r {
        Ok(samples) => required_bytes_of(records[frames[0].0 as int].layout) matches Some(bytes) && samples == bytes
            / 2 && forall|i: int|
            0 <= i < frames.len() ==> agrees_with(expected, records[(#[trigger] frames[i]).0 as int].layout),
        Err(Refusal::Incompatible { frame, reason }) => exists|i: int, found: GeometryKey|
            #[trigger] incompatible_at(records, frames, expected, frame, reason, i, found),
        Err(Refusal::NothingToCombine) => false,
    }
}

/// The samples a combination of these frames works in, one per photosite of
/// the first frame; or the refusal. A master built from two geometries is not
/// wrong by a scale factor, it is meaningless, so every frame is held against
/// the first and the first that differs is named with how.
pub fn samples_to_combine(session: &Session, frames: &Vec<FrameId>) -> (r: Result<usize, Refusal>)
    requires
        forall|i: int| 0 <= i < frames@.len() ==> (#[trigger] frames@[i]).0 < session.records().len(),
    ensures
        frames@.len() == 0 ==> r matches Err(Refusal::NothingToCombine),
        frames@.len() > 0 && required_bytes_of(session.records()[frames@[0].0 as int].layout) is None ==> r matches Err(
            Refusal::NothingToCombine,
        ),
        frames@.len() > 0 && required_bytes_of(session.records()[frames@[0].0 as int].layout) is Some ==> exists|
            expected: GeometryKey,
        | #[trigger] combine_outcome(session.records(), frames@, expected, r),
{
    if frames.len() == 0 {
        return Err(Refusal::NothingToCombine);
    }
    let first = session.record(frames[0]);
    let bytes = match first.layout.required_bytes() {
        Some(bytes) => bytes,
        None => return Err(Refusal::NothingToCombine),
    };
    let expected = GeometryKey::from_layout(&first.layout);
    let mut i: usize = 0;
    while i < frames.len()
        invariant
            i <= frames@.len(),
            geometry_of(expected, session.records()[frames@[0].0 as int].layout),
            required_bytes_of(session.records()[frames@[0].0 as int].layout) == Some(bytes),
            frames@.len() > 0,
            forall|q: int| 0 <= q < frames@.len() ==> (#[trigger] frames@[q]).0 < session.records().len(),
            forall|j: int|
                0 <= j < i ==> agrees_with(expected, session.records()[(#[trigger] frames@[j]).0 as int].layout),
        decreases frames@.len() - i,
    {
        let id = frames[i];
        let found = GeometryKey::from_layout(&session.record(id).layout);
        match compatible(&expected, &found) {
            Err(reason) => {
                let r = Err(Refusal::Incompatible { frame: id, reason });
                proof {
                    assert(frames@[i as int] == id);
                    assert(incompatible_at(session.records(), frames@, expected, id, reason, i as int, found));
                    assert(r matches Err(Refusal::Incompatible { frame: f, reason: rr }) && f == id && rr == reason);
                    assert(combine_outcome(session.records(), frames@, expected, r));
                }
                return r;
            },
            Ok(()) => {},
        }
        proof {
            let layout = session.records()[frames@[i as int].0 as int].layout;
            assert forall|k: GeometryKey| geometry_of(k, layout) implies first_difference(expected, k) is None by {
                assert(k.cfa_pattern@ == found.cfa_pattern@);
            }
        }
        i = i + 1;
    }
    let r = Ok(bytes / 2);
    proof {
        assert(combine_outcome(session.records(), frames@, expected, r));
    }
    r
}

} // verus!
