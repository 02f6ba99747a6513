//! Which lights a read of a run takes: the active members of the chosen light
//! set, in the set's order, after skipping some, every so many, and at most so
//! many of them.
use vstd::prelude::*;

use crate::session::{FrameId, FrameRecord, Session};
use crate::text::{chars_of, concat, decimal, decimal_of, string_of};

verus! {

/// Why a read would take no lights.
#[derive(Debug, Clone, Copy, PartialEq, Eq, Structural)]
pub enum SelectionError {
    /// A step of 0 would never move past the first light.
    StepZero,
    /// Skipping this many left nothing (or nothing was asked for).
    NothingLeft { skip: usize },
}

/// Why a read would take no lights, in words.
pub open spec fn selection_error_text(e: SelectionError) -> Seq<char> {
    match e {
        SelectionError::StepZero => "--step 0 would read no frames"@,
        SelectionError::NothingLeft { skip } => "--skip "@ + decimal(skip as nat) + " left no lights to read"@,
    }
}

impl SelectionError {
    /// The refusal in words, as a command prints it.
    pub fn describe(&self) -> (r: String)
        ensures
            r@ == selection_error_text(*self),
    {
        match self {
            SelectionError::StepZero => string_of(&chars_of("--step 0 would read no frames")),
            SelectionError::NothingLeft { skip } => {
                let out = concat(&chars_of("--skip "), &decimal_of(*skip as u64));
                string_of(&concat(&out, &chars_of(" left no lights to read")))
            },
        }
    }
}

/// The members that are not excluded, in the order given.
pub open spec fn active_members(records: Seq<FrameRecord>, members: Seq<FrameId>) -> Seq<FrameId>
    decreases members.len(),
{
    if members.len() == 0 {
        seq![]
    } else {
        let rest = active_members(records, members.drop_last());
        if records[members.last().0 as int].exclusion is None {
            rest.push(members.last())
        } else {
            rest
        }
    }
}

/// The first of `s`, then every `step`th after it.
pub open spec fn every_nth(s: Seq<FrameId>, step: nat) -> Seq<FrameId>
    decreases s.len(),
{
    if s.len() == 0 || step == 0 {
        seq![]
    } else if s.len() <= step {
        seq![s[0]]
    } else {
        seq![s[0]] + every_nth(s.skip(step as int), step)
    }
}

/// What is left of `s` once its first `j` are passed over.
pub open spec fn tail_from(s: Seq<FrameId>, j: int) -> Seq<FrameId> {
    if j < s.len() {
        s.skip(j)
    } else {
        seq![]
    }
}

/// The lights a read takes: the active members, the first `skip` passed over,
/// then every `step`th, and no more than `take` of those where a limit is
/// given.
pub open spec fn selection(records: Seq<FrameRecord>, members: Seq<FrameId>, skip: nat, step: nat, take: Option<usize>) -> Seq<FrameId> {
    let all = every_nth(tail_from(active_members(records, members), skip as int), step);
    match take {
        Some(n) => if n < all.len() {
            all.take(n as int)
        } else {
            all
        },
        None => all,
    }
}

proof fn lemma_every_nth_len(s: Seq<FrameId>, step: nat)
    ensures
        every_nth(s, step).len() <= s.len(),
    decreases s.len(),
{
    if s.len() > step && step > 0 {
        lemma_every_nth_len(s.skip(step as int), step);
    }
}

proof fn lemma_active_len(records: Seq<FrameRecord>, members: Seq<FrameId>)
    ensures
        active_members(records, members).len() <= members.len(),
    decreases members.len(),
{
    if members.len() > 0 {
        lemma_active_len(records, members.drop_last());
    }
}

/// Picks the lights a read takes from a light set's members: the active ones
/// in the set's order, `skip` of them passed over, then every `step`th, at most
/// `take` of them. A step of 0 is refused, and so is a choice that leaves
/// nothing.
pub fn select_lights(session: &Session, members: &Vec<FrameId>, skip: usize, step: usize, take: Option<usize>) -> (r: Result<
    Vec<FrameId>,
    SelectionError,
>)
    requires
        forall|j: int| 0 <= j < members@.len() ==> (#[trigger] members@[j]).0 < session.records().len(),
    ensures
        step == 0 ==> r == Err::<Vec<FrameId>, SelectionError>(SelectionError::StepZero),
        step > 0 ==> match r {
            Ok(v) => v@ == selection(session.records(), members@, skip as nat, step as nat, take) && v@.len() > 0,
            Err(e) => e == SelectionError::NothingLeft { skip } && selection(
                session.records(),
                members@,
                skip as nat,
                step as nat,
                take,
            ).len() == 0,
        },
{
    if step == 0 {
        return Err(SelectionError::StepZero);
    }
    let ghost records = session.records();
    let mut active: Vec<FrameId> = Vec::new();
    let mut i: usize = 0;
    while i < members.len()
        invariant
            i <= members@.len(),
            records == session.records(),
            forall|j: int| 0 <= j < members@.len() ==> (#[trigger] members@[j]).0 < records.len(),
            active@ == active_members(records, members@.take(i as int)),
        decreases members@.len() - i,
    {
        proof {
            assert(members@.take(i + 1).drop_last() =~= members@.take(i as int));
            assert(members@.take(i + 1).last() == members@[i as int]);
        }
        let id = members[i];
        if session.record(id).is_active() {
            active.push(id);
        }
        i = i + 1;
    }
    proof {
        assert(members@.take(members@.len() as int) =~= members@);
    }
    let ghost all = every_nth(tail_from(active@, skip as int), step as nat);
    proof {
        lemma_every_nth_len(tail_from(active@, skip as int), step as nat);
    }
    let limit: usize = match take {
        Some(n) => n,
        None => active.len(),
    };
    let mut out: Vec<FrameId> = Vec::new();
    let mut j: usize = if skip < active.len() {
        skip
    } else {
        active.len()
    };
    proof {
        assert(out@ + all =~= all);
    }
    while j < active.len() && out.len() < limit
        invariant
            j <= active@.len(),
            step > 0,
            all == every_nth(tail_from(active@, skip as int), step as nat),
            all.len() <= tail_from(active@, skip as int).len(),
            active@ == active_members(records, members@),
            records == session.records(),
            limit == match take {
                Some(n) => n,
                None => active@.len() as usize,
            },
            out@.len() <= limit,
            out@ + every_nth(tail_from(active@, j as int), step as nat) == all,
        decreases active@.len() - j,
    {
        let ghost rest = tail_from(active@, j as int);
        let ghost before = out@;
        proof {
            assert(rest[0] == active@[j as int]);
        }
        out.push(active[j]);
        if active.len() - j > step {
            proof {
                assert(rest.skip(step as int) =~= tail_from(active@, j + step));
            }
            j = j + step;
        } else {
            j = active.len();
        }
        proof {
            assert(out@ + every_nth(tail_from(active@, j as int), step as nat) =~= before + every_nth(rest, step as nat));
        }
    }
    proof {
        lemma_every_nth_len(tail_from(active@, j as int), step as nat);
        assert(all.take(out@.len() as int) =~= out@);
        if j >= active@.len() {
            assert(tail_from(active@, j as int).len() == 0);
            assert(out@ =~= all);
        }
        lemma_active_len(records, members@);
        assert(out@.len() <= all.len());
        if take is None {
            assert(tail_from(active@, skip as int).len() <= active@.len());
        }
    }
    if out.len() == 0 {
        Err(SelectionError::NothingLeft { skip })
    } else {
        Ok(out)
    }
}

} // verus!
