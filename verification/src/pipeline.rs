//! The choices a pass makes before it reads anything: which masters are worth
//! building and in what order, and how many frames to hold at once.
use vstd::prelude::*;

use crate::frame::required_bytes_of;
use crate::kind::FrameKind;
use crate::scan::clamped_workers;
use crate::session::{FrameId, FrameRecord, Session};
use crate::sets::SetId;

verus! {

/// Whether the caller wants the pass to carry on, returned from its progress
/// callback: the caller already knows when the user pressed cancel.
#[derive(Debug, Clone, Copy, PartialEq, Eq, Structural)]
pub enum Flow {
    Continue,
    Stop,
}

/// Which of the plan's masters a caller needs built.
///
/// Not a preference: a dark that matches its lights is the pedestal plus the
/// dark current, so subtracting it removes both and the bias cancels. On a run
/// that only calibrates lights, a master bias is a whole calibration set
/// decoded to produce a buffer nothing reads.
#[derive(Debug, Clone, Copy, PartialEq, Eq, Structural)]
pub enum Wanted {
    /// Only what will be applied: the dark and the flat.
    Applied,
    /// Every master the plan matched, for a caller whose purpose is to write
    /// them out rather than to use them.
    Matched,
}

impl Wanted {
    /// Whether a master of this kind is worth the frames it would read.
    pub fn includes(self, kind: FrameKind) -> (r: bool)
        ensures
            r == (self == Wanted::Matched || kind != FrameKind::Bias),
    {
        match self {
            Wanted::Matched => true,
            Wanted::Applied => match kind {
                FrameKind::Bias => false,
                _ => true,
            },
        }
    }
}

/// What the pass does about one role.
#[derive(Debug, Clone, Copy, PartialEq, Eq, Structural)]
pub enum MasterAction {
    /// Nothing was matched and the caller would not have used it: saying
    /// nothing matched would answer a question nobody asked.
    Skip,
    /// Nothing usable was matched for a role the caller applies.
    ReportMissing,
    /// A set was matched but this caller applies nothing from it, so no
    /// master is built, and the user is told rather than left to wonder.
    ReportUnused(SetId),
    Build(SetId),
}

/// What to do about a role, given the set the plan matched for it, whether
/// that set is still in the partition, and what the caller wants.
pub fn master_action(kind: FrameKind, matched: Option<SetId>, set_exists: bool, wanted: Wanted) -> (r: MasterAction)
    ensures
        r == match matched {
            None => if wanted == Wanted::Matched || kind != FrameKind::Bias {
                MasterAction::ReportMissing
            } else {
                MasterAction::Skip
            },
            Some(set) => if !(wanted == Wanted::Matched || kind != FrameKind::Bias) {
                MasterAction::ReportUnused(set)
            } else if !set_exists {
                MasterAction::ReportMissing
            } else {
                MasterAction::Build(set)
            },
        },
{
    match matched {
        None => if wanted.includes(kind) {
            MasterAction::ReportMissing
        } else {
            MasterAction::Skip
        },
        Some(set) => if !wanted.includes(kind) {
            MasterAction::ReportUnused(set)
        } else if !set_exists {
            MasterAction::ReportMissing
        } else {
            MasterAction::Build(set)
        },
    }
}

/// The order masters are built in: the bias, then the dark, then the flat,
/// which is the order they are applied in and the order a reader wants them.
pub fn master_order() -> (r: [FrameKind; 3])
    ensures
        r@ == seq![FrameKind::Bias, FrameKind::Dark, FrameKind::Flat],
{
    let r = [FrameKind::Bias, FrameKind::Dark, FrameKind::Flat];
    proof {
        assert(r@ =~= seq![FrameKind::Bias, FrameKind::Dark, FrameKind::Flat]);
    }
    r
}

/// What measuring one light holds at its peak, as a multiple of its raw
/// samples: the raw samples, the calibrated plane and the detection's scratch.
pub const PEAK_MULTIPLE_OF_RAW: u64 = 9;

/// The frame size assumed where no light's layout gives one.
pub const ASSUMED_FRAME_BYTES: u64 = 67_108_864;

/// The largest buffer any of the lights needs, among those the session holds
/// and whose layout gives one.
pub open spec fn widest_of(records: Seq<FrameRecord>, lights: Seq<FrameId>) -> Option<nat>
    decreases lights.len(),
{
    if lights.len() == 0 {
        None
    } else {
        let rest = widest_of(records, lights.drop_last());
        let id = lights.last();
        let here: Option<nat> = if id.0 < records.len() {
            match required_bytes_of(records[id.0 as int].layout) {
                Some(n) => Some(n as nat),
                None => None,
            }
        } else {
            None
        };
        match (rest, here) {
            (Some(a), Some(b)) => Some(if b > a { b } else { a }),
            (None, h) => h,
            (r, None) => r,
        }
    }
}

/// What one worker holds at its peak, never less than a byte.
pub open spec fn peak_per_worker(widest: Option<nat>) -> int {
    let w: int = match widest {
        Some(n) => n as int,
        None => ASSUMED_FRAME_BYTES as int,
    };
    if w * 9 < 1 {
        1
    } else {
        w * 9
    }
}

/// Turns the memory budget into a worker count, against the largest frame the
/// run actually holds: no more workers than the budget pays for at their
/// peak, at least one, and no more than the machine's ceiling.
pub fn size_the_pool(session: &Session, lights: &Vec<FrameId>, budget_bytes: u64, ceiling: usize) -> (r: usize)
    requires
        ceiling >= 1,
        peak_per_worker(widest_of(session.records(), lights@)) <= u64::MAX,
    ensures
        r as int == clamped_workers(
            budget_bytes as int / peak_per_worker(widest_of(session.records(), lights@)),
            ceiling as int,
        ),
{
    let ghost records = session.records();
    let mut widest: Option<usize> = None;
    let mut i: usize = 0;
    while i < lights.len()
        invariant
            i <= lights@.len(),
            records == session.records(),
            match widest {
                Some(n) => widest_of(records, lights@.take(i as int)) == Some(n as nat),
                None => widest_of(records, lights@.take(i as int)) is None,
            },
        decreases lights@.len() - i,
    {
        proof {
            assert(lights@.take(i + 1).drop_last() =~= lights@.take(i as int));
        }
        let here = match session.frame(lights[i]) {
            Some(record) => record.layout.required_bytes(),
            None => None,
        };
        widest = match (widest, here) {
            (Some(a), Some(b)) => Some(if b > a { b } else { a }),
            (None, h) => h,
            (w, None) => w,
        };
        i = i + 1;
    }
    proof {
        assert(lights@.take(lights@.len() as int) =~= lights@);
    }
    let w: u64 = match widest {
        Some(n) => n as u64,
        None => ASSUMED_FRAME_BYTES,
    };
    let per_worker: u64 = if w * PEAK_MULTIPLE_OF_RAW < 1 {
        1
    } else {
        w * PEAK_MULTIPLE_OF_RAW
    };
    let wanted = budget_bytes / per_worker;
    if wanted < 1 {
        1
    } else if wanted > ceiling as u64 {
        ceiling
    } else {
        wanted as usize
    }
}

/// The most workers worth running, from the logical parallelism the platform
/// reports: halved from eight up, since a second thread on a core brings no
/// decoder of its own. A guess about the hardware, and a flat one near the top.
pub fn worker_ceiling(logical: usize) -> (r: usize)
    ensures
        r == if logical >= 8 {
            logical / 2
        } else {
            logical
        },
{
    if logical >= 8 {
        logical / 2
    } else {
        logical
    }
}

} // verus!
