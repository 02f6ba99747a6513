//! The result of partitioning one session: the sets, the plans matched to the
//! light sets, and the findings about them. Grouping by exposure and ranking
//! calibration candidates compare seconds and gains with tolerances, which is
//! floating point and lives with the caller; what is here is how the result is
//! held and looked up, the orders it is listed in, the findings that are
//! exact (geometry splits, minorities, flats shot across nights) and the
//! choice of which integration a command acts on.
use vstd::prelude::*;

use crate::compat::{compatible, first_difference, GeometryKey, Incompatibility, Mismatch, Pairing};
use crate::kind::FrameKind;
use crate::order::{comes_before, law_every_key_list_sorts, sorted_order, sorted_positions, the_sorted_order, SortKey};
use crate::session::FrameRecord;
use crate::session::{BodyKey, FrameId, Session};
use crate::compat::refusal_for;
use crate::sets::{capture_span, earliest, latest, lemma_earliest_not_after_latest, ExposureSpan, GainBucket, MatchQuality, SetId};
use crate::text::{chars_of, concat, decimal, decimal_of, same_chars, string_of};

verus! {

/// Everything that must match exactly before two frames are even considered
/// for the same set. Exposure is absent: it is compared with a tolerance, and
/// a tolerance is not an equivalence relation.
#[derive(Debug, Clone)]
pub struct PartitionKey {
    pub kind: FrameKind,
    /// The group's name, not its id: ids are handed out in the order groups
    /// were first seen, and a key must not rebind when the flags are typed in
    /// another order.
    pub group: String,
    pub body: BodyKey,
    pub geometry: GeometryKey,
    /// Gain is here because a set is the unit calibration is matched to: one
    /// set spanning two gains could only be given one master dark.
    pub gain: GainBucket,
}

#[derive(Debug, Clone)]
pub struct SetKey {
    pub partition: PartitionKey,
    pub exposure: ExposureSpan,
}

/// A geometry as the contracts compare it.
pub type GeometryView = (u32, u32, u32, u32, u32, crate::compat::Rect, u32, u32, Seq<u8>);

pub open spec fn geometry_view(g: GeometryKey) -> GeometryView {
    (g.width, g.height, g.components, g.bits_per_sample, g.sample_format, g.active, g.cfa_width, g.cfa_height, g.cfa_pattern@)
}

/// A key as the contracts compare it.
pub type KeyView = (FrameKind, Seq<char>, (Seq<char>, Seq<char>, Option<Seq<char>>), GeometryView, GainBucket, ExposureSpan);

pub open spec fn key_view(k: SetKey) -> KeyView {
    (
        k.partition.kind,
        k.partition.group@,
        (
            k.partition.body.make@,
            k.partition.body.model@,
            match k.partition.body.serial {
                Some(s) => Some(s@),
                None => None,
            },
        ),
        geometry_view(k.partition.geometry),
        k.partition.gain,
        k.exposure,
    )
}

fn same_text(a: &String, b: &String) -> (r: bool)
    ensures
        r == (a@ == b@),
{
    same_chars(&chars_of(a.as_str()), &chars_of(b.as_str()))
}

fn copy_text(s: &String) -> (r: String)
    ensures
        r@ == s@,
{
    crate::text::string_of(&chars_of(s.as_str()))
}

/// A copy of a key, the same key.
pub fn copy_key(k: &SetKey) -> (r: SetKey)
    ensures
        key_view(r) == key_view(*k),
{
    let serial = match &k.partition.body.serial {
        Some(s) => Some(copy_text(s)),
        None => None,
    };
    SetKey {
        partition: PartitionKey {
            kind: k.partition.kind,
            group: copy_text(&k.partition.group),
            body: BodyKey { make: copy_text(&k.partition.body.make), model: copy_text(&k.partition.body.model), serial },
            geometry: k.partition.geometry,
            gain: k.partition.gain,
        },
        exposure: k.exposure,
    }
}

/// Whether two keys are the same key.
pub fn same_key(a: &SetKey, b: &SetKey) -> (r: bool)
    ensures
        r == (key_view(*a) == key_view(*b)),
{
    let (p, q) = (&a.partition, &b.partition);
    let serial = match (&p.body.serial, &q.body.serial) {
        (Some(x), Some(y)) => same_text(x, y),
        (None, None) => true,
        _ => false,
    };
    let r = p.kind == q.kind && same_text(&p.group, &q.group) && same_text(&p.body.make, &q.body.make) && same_text(
        &p.body.model,
        &q.body.model,
    ) && serial && compatible(&p.geometry, &q.geometry).is_ok() && p.gain == q.gain && a.exposure == b.exposure;
    proof {
        if r {
            assert(geometry_view(p.geometry) =~= geometry_view(q.geometry));
        }
    }
    r
}

/// One run of frames that are the same frame, shot repeatedly: a partition of
/// frame ids and nothing else.
#[derive(Debug, Clone)]
pub struct FrameSet {
    pub id: SetId,
    pub key: SetKey,
    /// In capture order where timestamps exist, otherwise in scan order.
    pub members: Vec<FrameId>,
}

impl FrameSet {
    pub fn kind(&self) -> (r: FrameKind)
        ensures
            r == self.key.partition.kind,
    {
        self.key.partition.kind
    }

    pub fn len(&self) -> (r: usize)
        ensures
            r == self.members@.len(),
    {
        self.members.len()
    }

    pub fn is_empty(&self) -> (r: bool)
        ensures
            r == (self.members@.len() == 0),
    {
        self.members.len() == 0
    }
}

/// A chosen calibration set and everything that does not fit about it: a
/// best match with a list of reasons, not a pass or a fail.
#[derive(Debug, Clone)]
pub struct CalibrationMatch {
    pub set: SetId,
    pub pairing: Pairing,
    pub quality: MatchQuality,
    /// How many other sets were admissible and lost.
    pub alternatives: usize,
    pub mismatches: Vec<Mismatch>,
}

/// A role the user supplied frames for, where every candidate was refused:
/// "you shot darks and I could not use them" must not look like "you shot no
/// darks".
#[derive(Debug, Clone)]
pub struct BlockedRole {
    pub kind: FrameKind,
    /// The set the candidates were judged against: not always the lights.
    pub against: SetId,
    pub candidates: Vec<(SetId, Incompatibility)>,
}

/// One integration: a light set, and the calibration sets matched to it.
#[derive(Debug, Clone)]
pub struct StackPlan {
    pub lights: SetId,
    pub bias: Option<CalibrationMatch>,
    pub dark: Option<CalibrationMatch>,
    pub flat: Option<CalibrationMatch>,
    /// Matched against `flat`, not against `lights`.
    pub dark_flat: Option<CalibrationMatch>,
    pub blocked: Vec<BlockedRole>,
}

/// The calibration a plan has, in report order: bias, dark, flat, dark flat.
pub open spec fn plan_calibration(p: StackPlan) -> Seq<(FrameKind, CalibrationMatch)> {
    (if p.bias is Some { seq![(FrameKind::Bias, p.bias->0)] } else { seq![] }) + (if p.dark is Some {
        seq![(FrameKind::Dark, p.dark->0)]
    } else {
        seq![]
    }) + (if p.flat is Some { seq![(FrameKind::Flat, p.flat->0)] } else { seq![] }) + (if p.dark_flat is Some {
        seq![(FrameKind::DarkFlat, p.dark_flat->0)]
    } else {
        seq![]
    })
}

impl StackPlan {
    /// The calibration this plan actually has, in report order.
    pub fn calibration(&self) -> (r: Vec<(FrameKind, &CalibrationMatch)>)
        ensures
            r@.map_values(|e: (FrameKind, &CalibrationMatch)| (e.0, *e.1)) == plan_calibration(*self),
    {
        let mut r: Vec<(FrameKind, &CalibrationMatch)> = Vec::new();
        if let Some(found) = &self.bias {
            r.push((FrameKind::Bias, found));
        }
        if let Some(found) = &self.dark {
            r.push((FrameKind::Dark, found));
        }
        if let Some(found) = &self.flat {
            r.push((FrameKind::Flat, found));
        }
        if let Some(found) = &self.dark_flat {
            r.push((FrameKind::DarkFlat, found));
        }
        proof {
            assert(r@.map_values(|e: (FrameKind, &CalibrationMatch)| (e.0, *e.1)) =~= plan_calibration(*self));
        }
        r
    }
}

/// Frames of one kind that could not share a set, and why, named against the
/// largest set of that kind.
#[derive(Debug, Clone)]
pub struct Split {
    pub kind: FrameKind,
    pub reference: SetId,
    pub other: SetId,
    pub reason: Incompatibility,
}

/// Something that is not wrong enough to refuse but is probably a mistake.
/// Seconds measured from frames are carried as the bits of the `f64` they
/// were.
#[derive(Debug, Clone)]
pub enum Suspicion {
    /// Frames assigned Bias that are not the shortest exposure in the session.
    BiasIsNotTheShortestExposure { set: SetId, seconds_bits: u64, shortest_bits: u64 },
    /// A flat long enough to need dark flats, with none to remove them.
    FlatNeedsDarkFlats { set: SetId, seconds_bits: u64 },
    /// Consecutive lights spaced at roughly twice their own exposure: the
    /// camera's long-exposure noise reduction has already taken the dark out.
    ProbableInCameraDarkSubtraction { set: SetId, interval_seconds_bits: u64, exposure_seconds_bits: u64 },
    /// A set holding so few frames of its kind, beside so many, that it cannot
    /// be a series anybody meant to integrate. The arithmetic and nothing more.
    MinorityOfKind { set: SetId, members: usize, dominant: SetId, dominant_members: usize },
    /// A calibration set whose own frames were shot across more than one night.
    CalibrationSpansNights { set: SetId, kind: FrameKind, span_seconds: i64 },
}

/// What the key table answers for a key: the value of its entry, or `None`.
pub open spec fn lookup(table: Seq<(KeyView, Option<SetId>)>, k: KeyView) -> Option<SetId>
    decreases table.len(),
{
    if table.len() == 0 {
        None
    } else if table.last().0 == k {
        table.last().1
    } else {
        lookup(table.drop_last(), k)
    }
}

/// Whether the key table has an entry for a key.
pub open spec fn has_key(table: Seq<(KeyView, Option<SetId>)>, k: KeyView) -> bool {
    exists|i: int| 0 <= i < table.len() && (#[trigger] table[i]).0 == k
}

/// The key table with every entry for `k` answering for no set.
pub open spec fn cleared(table: Seq<(KeyView, Option<SetId>)>, k: KeyView) -> Seq<(KeyView, Option<SetId>)> {
    table.map_values(|e: (KeyView, Option<SetId>)| if e.0 == k { (e.0, None) } else { e })
}

/// The key table after a set with key `k` is added: a key seen before now
/// answers for no set, a new key answers for this one.
pub open spec fn recorded(table: Seq<(KeyView, Option<SetId>)>, k: KeyView, id: SetId) -> Seq<(KeyView, Option<SetId>)> {
    if has_key(table, k) {
        cleared(table, k)
    } else {
        table.push((k, Some(id)))
    }
}

/// The key table after adding these sets, in order, to an empty partition.
pub open spec fn table_after(sets: Seq<FrameSet>) -> Seq<(KeyView, Option<SetId>)>
    decreases sets.len(),
{
    if sets.len() == 0 {
        seq![]
    } else {
        recorded(table_after(sets.drop_last()), key_view(sets.last().key), sets.last().id)
    }
}

/// How many of these sets have a key.
pub open spec fn holders(sets: Seq<FrameSet>, k: KeyView) -> nat
    decreases sets.len(),
{
    if sets.len() == 0 {
        0
    } else {
        holders(sets.drop_last(), k) + if key_view(sets.last().key) == k { 1nat } else { 0nat }
    }
}

/// The last of these sets with a key.
pub open spec fn holder(sets: Seq<FrameSet>, k: KeyView) -> Option<SetId>
    decreases sets.len(),
{
    if sets.len() == 0 {
        None
    } else if key_view(sets.last().key) == k {
        Some(sets.last().id)
    } else {
        holder(sets.drop_last(), k)
    }
}

proof fn lemma_lookup_other_key(t: Seq<(KeyView, Option<SetId>)>, k: KeyView, other: KeyView)
    requires
        k != other,
    ensures
        lookup(cleared(t, other), k) == lookup(t, k),
    decreases t.len(),
{
    if t.len() > 0 {
        assert(cleared(t, other).drop_last() =~= cleared(t.drop_last(), other));
        lemma_lookup_other_key(t.drop_last(), k, other);
    }
}

proof fn lemma_lookup_cleared(t: Seq<(KeyView, Option<SetId>)>, k: KeyView)
    ensures
        lookup(cleared(t, k), k) is None,
    decreases t.len(),
{
    if t.len() > 0 {
        assert(cleared(t, k).drop_last() =~= cleared(t.drop_last(), k));
        lemma_lookup_cleared(t.drop_last(), k);
    }
}

proof fn lemma_has_key_after(sets: Seq<FrameSet>, k: KeyView)
    ensures
        has_key(table_after(sets), k) <==> holders(sets, k) >= 1,
    decreases sets.len(),
{
    if sets.len() > 0 {
        let rest = sets.drop_last();
        lemma_has_key_after(rest, k);
        let t = table_after(rest);
        let k2 = key_view(sets.last().key);
        assert(table_after(sets) == recorded(t, k2, sets.last().id));
        assert(holders(sets, k) == holders(rest, k) + if k2 == k { 1nat } else { 0nat });
        if has_key(t, k2) {
            let u = cleared(t, k2);
            assert(table_after(sets) == u);
            if has_key(t, k) {
                let i = choose|i: int| 0 <= i < t.len() && (#[trigger] t[i]).0 == k;
                assert(u[i].0 == k);
            }
            if has_key(u, k) {
                let i = choose|i: int| 0 <= i < u.len() && (#[trigger] u[i]).0 == k;
                assert(t[i].0 == k);
            }
        } else {
            assert(table_after(sets) == t.push((k2, Some(sets.last().id))));
            let u = t.push((k2, Some(sets.last().id)));
            if has_key(t, k) {
                let i = choose|i: int| 0 <= i < t.len() && (#[trigger] t[i]).0 == k;
                assert(u[i].0 == k);
            }
            if k == k2 {
                assert(u[t.len() as int].0 == k);
            }
            if has_key(u, k) {
                let i = choose|i: int| 0 <= i < u.len() && (#[trigger] u[i]).0 == k;
                if i < t.len() {
                    assert(t[i].0 == k);
                }
            }
        }
    }
}

/// The key table answers as a map from key to set would, once two sets
/// sharing a key are told apart from one: a key only one set has names that
/// set, and a key that several sets share, or none has, names none.
pub proof fn law_a_key_names_its_only_set(sets: Seq<FrameSet>, k: KeyView)
    ensures
        lookup(table_after(sets), k) == (if holders(sets, k) == 1 {
            holder(sets, k)
        } else {
            None
        }),
    decreases sets.len(),
{
    if sets.len() > 0 {
        let rest = sets.drop_last();
        law_a_key_names_its_only_set(rest, k);
        lemma_has_key_after(rest, k);
        let t = table_after(rest);
        let k2 = key_view(sets.last().key);
        assert(table_after(sets) == recorded(t, k2, sets.last().id));
        assert(holders(sets, k) == holders(rest, k) + if k2 == k { 1nat } else { 0nat });
        assert(holder(sets, k) == if k2 == k { Some(sets.last().id) } else { holder(rest, k) });
        if has_key(t, k2) {
            if k == k2 {
                lemma_lookup_cleared(t, k);
                lemma_has_key_after(rest, k2);
            } else {
                lemma_lookup_other_key(t, k, k2);
            }
        } else {
            let u = t.push((k2, Some(sets.last().id)));
            assert(u.drop_last() =~= t);
            if k == k2 {
                lemma_has_key_after(rest, k2);
            }
        }
    }
}

/// A partition built by adding its sets one by one finds a set again by its
/// key, whichever order the sets came in, provided no other set shares it; a
/// shared key, or one no set has, finds nothing.
pub proof fn law_a_set_is_found_by_its_key(p: &Partition, k: KeyView)
    requires
        p.key_table() == table_after(p.set_list()),
    ensures
        lookup(p.key_table(), k) == (if holders(p.set_list(), k) == 1 {
            holder(p.set_list(), k)
        } else {
            None
        }),
{
    law_a_key_names_its_only_set(p.set_list(), k);
}

/// The sets of one kind, in partition order.
pub open spec fn of_kind(sets: Seq<FrameSet>, kind: FrameKind) -> Seq<FrameSet>
    decreases sets.len(),
{
    if sets.len() == 0 {
        seq![]
    } else if sets.last().key.partition.kind == kind {
        of_kind(sets.drop_last(), kind).push(sets.last())
    } else {
        of_kind(sets.drop_last(), kind)
    }
}

/// How many of some frames are active.
pub open spec fn active_count(records: Seq<FrameRecord>, members: Seq<FrameId>) -> nat
    decreases members.len(),
{
    if members.len() == 0 {
        0
    } else {
        active_count(records, members.drop_last()) + if records[members.last().0 as int].exclusion is None {
            1nat
        } else {
            0nat
        }
    }
}

/// Every plan whose light set is in the partition, with the number of active
/// lights it would stack.
pub open spec fn plan_depths(plans: Seq<StackPlan>, sets: Seq<FrameSet>, records: Seq<FrameRecord>) -> Seq<(int, nat)>
    decreases plans.len(),
{
    if plans.len() == 0 {
        seq![]
    } else {
        let rest = plan_depths(plans.drop_last(), sets, records);
        let lights = plans.last().lights.0 as int;
        if lights < sets.len() {
            rest.push((plans.len() - 1, active_count(records, sets[lights].members@)))
        } else {
            rest
        }
    }
}

/// The order plans are ranked in: deepest first, then by light set.
pub open spec fn depth_keys(plans: Seq<StackPlan>, depths: Seq<(int, nat)>) -> Seq<SortKey> {
    Seq::new(depths.len(), |k: int| ((u64::MAX - depths[k].1) as u64, plans[depths[k].0].lights.0 as u64, 0u64))
}

/// The order frames are listed in: by capture time, frames that recorded
/// none first, then by id.
pub open spec fn capture_keys(records: Seq<FrameRecord>, members: Seq<FrameId>) -> Seq<SortKey> {
    Seq::new(
        members.len(),
        |k: int|
            match records[members[k].0 as int].info.capture_time_unix {
                Some(t) => (1u64, (t - i64::MIN) as u64, members[k].0 as u64),
                None => (0u64, 0u64, members[k].0 as u64),
            },
    )
}

/// Whether every frame of every set is one the session holds.
pub open spec fn members_held(sets: Seq<FrameSet>, records: Seq<FrameRecord>) -> bool {
    forall|i: int, j: int|
        0 <= i < sets.len() && 0 <= j < sets[i].members@.len() ==> (#[trigger] sets[i].members@[j]).0 < records.len()
}

fn count_active(session: &Session, members: &Vec<FrameId>) -> (r: usize)
    requires
        forall|j: int| 0 <= j < members@.len() ==> (#[trigger] members@[j]).0 < session.records().len(),
    ensures
        r == active_count(session.records(), members@),
{
    let mut count: usize = 0;
    let mut i: usize = 0;
    while i < members.len()
        invariant
            i <= members@.len(),
            forall|j: int| 0 <= j < members@.len() ==> (#[trigger] members@[j]).0 < session.records().len(),
            count == active_count(session.records(), members@.take(i as int)),
            count <= i,
        decreases members@.len() - i,
    {
        proof {
            assert(members@.take(i + 1).drop_last() =~= members@.take(i as int));
        }
        if session.record(members[i]).is_active() {
            count = count + 1;
        }
        i = i + 1;
    }
    proof {
        assert(members@.take(members@.len() as int) =~= members@);
    }
    count
}

/// Lists frames in capture order: by capture time, frames that recorded none
/// first, ties by id, so a report and a later reference choice are
/// reproducible.
pub fn in_capture_order(session: &Session, members: &Vec<FrameId>) -> (r: Vec<FrameId>)
    requires
        forall|j: int| 0 <= j < members@.len() ==> (#[trigger] members@[j]).0 < session.records().len(),
    ensures
        ({
            let order = the_sorted_order(capture_keys(session.records(), members@));
            r@ == Seq::new(members@.len(), |k: int| members@[order[k] as int])
        }),
        r@.len() == members@.len(),
        forall|i: int| 0 <= i < members@.len() ==> r@.contains(#[trigger] members@[i]),
        forall|a: int, b: int|
            0 <= a < b < r@.len() ==> captured_in_order(session.records(), #[trigger] r@[a], #[trigger] r@[b]),
{
    let mut keys: Vec<SortKey> = Vec::new();
    let mut i: usize = 0;
    while i < members.len()
        invariant
            i <= members@.len(),
            forall|j: int| 0 <= j < members@.len() ==> (#[trigger] members@[j]).0 < session.records().len(),
            keys@ == capture_keys(session.records(), members@).take(i as int),
        decreases members@.len() - i,
    {
        let id = members[i];
        let key = match session.record(id).info.capture_time_unix {
            Some(t) => {
                let shifted: u64 = if t >= 0 {
                    (t as u64) + 9_223_372_036_854_775_808u64
                } else {
                    (t + 9_223_372_036_854_775_807 + 1) as u64
                };
                proof {
                    assert(shifted == (t - i64::MIN) as u64);
                }
                (1u64, shifted, id.0 as u64)
            },
            None => (0u64, 0u64, id.0 as u64),
        };
        keys.push(key);
        proof {
            assert(keys@ =~= capture_keys(session.records(), members@).take(i + 1));
        }
        i = i + 1;
    }
    proof {
        assert(keys@ =~= capture_keys(session.records(), members@));
    }
    let order = sorted_positions(&keys);
    let mut r: Vec<FrameId> = Vec::new();
    let mut k: usize = 0;
    while k < order.len()
        invariant
            k <= order@.len(),
            order@ == the_sorted_order(capture_keys(session.records(), members@)),
            order@.len() == members@.len(),
            forall|q: int| 0 <= q < order@.len() ==> #[trigger] order@[q] < members@.len(),
            r@ == Seq::new(k as nat, |q: int| members@[order@[q] as int]),
        decreases order@.len() - k,
    {
        r.push(members[order[k]]);
        proof {
            assert(r@ =~= Seq::new((k + 1) as nat, |q: int| members@[order@[q] as int]));
        }
        k = k + 1;
    }
    proof {
        let records = session.records();
        let keys_seq = capture_keys(records, members@);
        assert(sorted_order(keys_seq, order@));
        assert forall|a: int, b: int| 0 <= a < b < r@.len() implies captured_in_order(
            records,
            #[trigger] r@[a],
            #[trigger] r@[b],
        ) by {
            let (oa, ob) = (order@[a] as int, order@[b] as int);
            assert(comes_before(keys_seq, oa, ob));
            assert(r@[a] == members@[oa] && r@[b] == members@[ob]);
        }
        assert forall|i: int| 0 <= i < members@.len() implies r@.contains(#[trigger] members@[i]) by {
            assert(order@.contains(i as usize));
            let k = choose|k: int| 0 <= k < order@.len() && order@[k] == i as usize;
            assert(r@[k] == members@[i]);
        }
    }
    r
}

/// Whether frame `a` may be listed before frame `b` in capture order: frames
/// that recorded no time first, then by time, ties by id.
pub open spec fn captured_in_order(records: Seq<FrameRecord>, a: FrameId, b: FrameId) -> bool {
    match (records[a.0 as int].info.capture_time_unix, records[b.0 as int].info.capture_time_unix) {
        (Some(x), Some(y)) => x < y || (x == y && a.0 <= b.0),
        (None, Some(_)) => true,
        (Some(_), None) => false,
        (None, None) => a.0 <= b.0,
    }
}

/// The size key: larger sets first, ties in the order given.
pub open spec fn size_keys(group: Seq<FrameSet>) -> Seq<SortKey> {
    Seq::new(group.len(), |i: int| ((u64::MAX - group[i].members@.len()) as u64, 0u64, 0u64))
}

/// A group of sets, largest first, ties in the order given.
pub open spec fn by_size(group: Seq<FrameSet>) -> Seq<FrameSet> {
    let order = the_sorted_order(size_keys(group));
    Seq::new(group.len(), |k: int| group[order[k] as int])
}

/// Ranking a group of sets by size lists every set of the group, larger
/// sets before smaller ones: the first is always a largest.
pub proof fn law_largest_first(group: Seq<FrameSet>)
    requires
        group.len() <= usize::MAX,
    ensures
        by_size(group).len() == group.len(),
        forall|i: int| 0 <= i < group.len() ==> by_size(group).contains(#[trigger] group[i]),
        forall|a: int, b: int|
            0 <= a < b < group.len() ==> (#[trigger] by_size(group)[a]).members@.len() >= (
            #[trigger] by_size(group)[b]).members@.len(),
{
    let keys = size_keys(group);
    law_every_key_list_sorts(keys);
    let order = the_sorted_order(keys);
    let ranked = by_size(group);
    assert forall|i: int| 0 <= i < group.len() implies ranked.contains(#[trigger] group[i]) by {
        assert(order.contains(i as usize));
        let k = choose|k: int| 0 <= k < order.len() && order[k] == i as usize;
        assert(ranked[k] == group[i]);
    }
    assert forall|a: int, b: int| 0 <= a < b < group.len() implies (#[trigger] ranked[a]).members@.len() >= (
    #[trigger] ranked[b]).members@.len() by {
        let (oa, ob) = (order[a] as int, order[b] as int);
        assert(comes_before(keys, oa, ob));
        assert(group[oa].members.len() == group[oa].members@.len());
        assert(group[ob].members.len() == group[ob].members@.len());
    }
}

/// Among the first `n` of a ranking, those after the first whose geometry
/// differs from the first's: kind, the first, the other, and both geometries.
pub open spec fn geometry_splits(ranked: Seq<FrameSet>, kind: FrameKind, n: int) -> Seq<(FrameKind, SetId, SetId, GeometryKey, GeometryKey)>
    decreases n,
{
    if n <= 1 {
        seq![]
    } else {
        let rest = geometry_splits(ranked, kind, n - 1);
        let (first, other) = (ranked[0], ranked[n - 1]);
        if first_difference(first.key.partition.geometry, other.key.partition.geometry) is Some {
            rest.push((kind, first.id, other.id, first.key.partition.geometry, other.key.partition.geometry))
        } else {
            rest
        }
    }
}

/// Why the sets of one kind were split: every set whose geometry differs
/// from that of the largest, named against it.
pub open spec fn kind_splits(sets: Seq<FrameSet>, kind: FrameKind) -> Seq<(FrameKind, SetId, SetId, GeometryKey, GeometryKey)> {
    let group = of_kind(sets, kind);
    if group.len() < 2 {
        seq![]
    } else {
        geometry_splits(by_size(group), kind, group.len() as int)
    }
}

/// Every split, kind by kind in report order.
pub open spec fn all_splits(sets: Seq<FrameSet>) -> Seq<(FrameKind, SetId, SetId, GeometryKey, GeometryKey)> {
    kind_splits(sets, FrameKind::Light) + kind_splits(sets, FrameKind::Dark) + kind_splits(sets, FrameKind::Flat)
        + kind_splits(sets, FrameKind::Bias) + kind_splits(sets, FrameKind::DarkFlat)
}

/// Whether a split is the one described: its kind and sets, and the reason the
/// ladder gives for the two geometries.
pub open spec fn split_is(s: Split, t: (FrameKind, SetId, SetId, GeometryKey, GeometryKey)) -> bool {
    &&& s.kind == t.0 && s.reference == t.1 && s.other == t.2
    &&& first_difference(t.3, t.4) is Some
    &&& refusal_for(s.reason, first_difference(t.3, t.4)->0, t.3, t.4)
}

/// A set too small to be a series beside one at least ten times larger.
pub open spec fn is_minority(members: nat, dominant_members: nat) -> bool {
    members < 6 && members * 10 <= dominant_members
}

/// Among the first `n` of a ranking, those after the first that are a
/// minority beside it: the set, its size, the first, its size.
pub open spec fn minorities(ranked: Seq<FrameSet>, n: int) -> Seq<(SetId, nat, SetId, nat)>
    decreases n,
{
    if n <= 1 {
        seq![]
    } else {
        let rest = minorities(ranked, n - 1);
        let (first, other) = (ranked[0], ranked[n - 1]);
        if is_minority(other.members@.len(), first.members@.len()) {
            rest.push((other.id, other.members@.len(), first.id, first.members@.len()))
        } else {
            rest
        }
    }
}

/// The minorities of one kind, named against its largest set.
pub open spec fn kind_minorities(sets: Seq<FrameSet>, kind: FrameKind) -> Seq<(SetId, nat, SetId, nat)> {
    let group = of_kind(sets, kind);
    if group.len() < 2 {
        seq![]
    } else {
        minorities(by_size(group), group.len() as int)
    }
}

/// Every minority, kind by kind in report order.
pub open spec fn all_minorities(sets: Seq<FrameSet>) -> Seq<(SetId, nat, SetId, nat)> {
    kind_minorities(sets, FrameKind::Light) + kind_minorities(sets, FrameKind::Dark) + kind_minorities(
        sets,
        FrameKind::Flat,
    ) + kind_minorities(sets, FrameKind::Bias) + kind_minorities(sets, FrameKind::DarkFlat)
}

/// Whether a finding is the minority described.
pub open spec fn minority_is(s: Suspicion, t: (SetId, nat, SetId, nat)) -> bool {
    s == Suspicion::MinorityOfKind { set: t.0, members: t.1 as usize, dominant: t.2, dominant_members: t.3 as usize }
}

/// The capture times of some frames.
pub open spec fn capture_times(records: Seq<FrameRecord>, members: Seq<FrameId>) -> Seq<Option<i64>> {
    members.map_values(|id: FrameId| records[id.0 as int].info.capture_time_unix)
}

/// The flat and dark-flat sets among the first `n` whose frames span longer
/// than `limit` seconds end to end: the set, its kind, the span.
pub open spec fn long_spans(sets: Seq<FrameSet>, records: Seq<FrameRecord>, limit: i64, n: int) -> Seq<(SetId, FrameKind, int)>
    decreases n,
{
    if n <= 0 {
        seq![]
    } else {
        let rest = long_spans(sets, records, limit, n - 1);
        let set = sets[n - 1];
        let times = capture_times(records, set.members@);
        let kind = set.key.partition.kind;
        if (kind == FrameKind::Flat || kind == FrameKind::DarkFlat) && earliest(times) is Some && latest(times)->0
            - earliest(times)->0 > limit {
            rest.push((set.id, kind, latest(times)->0 - earliest(times)->0))
        } else {
            rest
        }
    }
}

/// Whether the end-to-end span of every set's capture times can be counted
/// in seconds.
pub open spec fn spans_countable(sets: Seq<FrameSet>, records: Seq<FrameRecord>) -> bool {
    forall|i: int|
        0 <= i < sets.len() ==> {
            let times = capture_times(records, (#[trigger] sets[i]).members@);
            earliest(times) is Some ==> latest(times)->0 - earliest(times)->0 <= i64::MAX
        }
}

/// The sets of one kind, as references, largest first.
fn ranked_of_kind<'a>(p: &'a Partition, kind: FrameKind) -> (r: Vec<&'a FrameSet>)
    ensures
        r@.len() == by_size(of_kind(p.set_list(), kind)).len(),
        forall|k: int| 0 <= k < r@.len() ==> *(#[trigger] r@[k]) == by_size(of_kind(p.set_list(), kind))[k],
{
    let group = p.sets_of(kind);
    let ghost g = of_kind(p.set_list(), kind);
    proof {
        assert(group@.map_values(|s: &FrameSet| *s).len() == g.len());
        assert forall|q: int| 0 <= q < group@.len() implies *(#[trigger] group@[q]) == g[q] by {
            assert(group@.map_values(|s: &FrameSet| *s)[q] == *group@[q]);
        }
    }
    let mut keys: Vec<SortKey> = Vec::new();
    let mut i: usize = 0;
    while i < group.len()
        invariant
            i <= group@.len(),
            group@.len() == g.len(),
            forall|q: int| 0 <= q < group@.len() ==> *(#[trigger] group@[q]) == g[q],
            keys@ == size_keys(g).take(i as int),
        decreases group@.len() - i,
    {
        proof {
            assert(*group@[i as int] == g[i as int]);
        }
        keys.push(((u64::MAX - group[i].len() as u64), 0u64, 0u64));
        proof {
            assert(keys@ =~= size_keys(g).take(i + 1));
        }
        i = i + 1;
    }
    proof {
        assert(keys@ =~= size_keys(g));
    }
    let order = sorted_positions(&keys);
    let mut r: Vec<&'a FrameSet> = Vec::new();
    let mut k: usize = 0;
    while k < order.len()
        invariant
            k <= order@.len(),
            order@ == the_sorted_order(size_keys(g)),
            order@.len() == g.len(),
            group@.len() == g.len(),
            forall|q: int| 0 <= q < group@.len() ==> *(#[trigger] group@[q]) == g[q],
            forall|q: int| 0 <= q < order@.len() ==> #[trigger] order@[q] < g.len(),
            r@.len() == k,
            forall|q: int| 0 <= q < k ==> *(#[trigger] r@[q]) == g[order@[q] as int],
        decreases order@.len() - k,
    {
        proof {
            assert(order@[k as int] < g.len());
            assert(*group@[order@[k as int] as int] == g[order@[k as int] as int]);
        }
        r.push(group[order[k]]);
        k = k + 1;
    }
    r
}

fn push_kind_splits(p: &Partition, kind: FrameKind, out: &mut Vec<Split>)
    ensures
        final(out)@.len() == old(out)@.len() + kind_splits(p.set_list(), kind).len(),
        forall|k: int| 0 <= k < old(out)@.len() ==> #[trigger] final(out)@[k] == old(out)@[k],
        forall|k: int|
            0 <= k < kind_splits(p.set_list(), kind).len() ==> split_is(
                #[trigger] final(out)@[old(out)@.len() + k],
                kind_splits(p.set_list(), kind)[k],
            ),
{
    let ranked = ranked_of_kind(p, kind);
    let ghost g = of_kind(p.set_list(), kind);
    let ghost r = by_size(g);
    if ranked.len() < 2 {
        proof {
            assert(kind_splits(p.set_list(), kind) == Seq::<(FrameKind, SetId, SetId, GeometryKey, GeometryKey)>::empty());
        }
        return;
    }
    let reference = ranked[0];
    let ghost start = out@;
    let mut i: usize = 1;
    while i < ranked.len()
        invariant
            1 <= i <= ranked@.len(),
            ranked@.len() == r.len(),
            forall|q: int| 0 <= q < ranked@.len() ==> *(#[trigger] ranked@[q]) == r[q],
            *reference == r[0],
            out@.len() == start.len() + geometry_splits(r, kind, i as int).len(),
            forall|k: int| 0 <= k < start.len() ==> #[trigger] out@[k] == start[k],
            forall|k: int|
                0 <= k < geometry_splits(r, kind, i as int).len() ==> split_is(
                    #[trigger] out@[start.len() + k],
                    geometry_splits(r, kind, i as int)[k],
                ),
        decreases ranked@.len() - i,
    {
        let other = ranked[i];
        proof {
            assert(*ranked@[i as int] == r[i as int]);
        }
        let ghost before = out@;
        match compatible(&reference.key.partition.geometry, &other.key.partition.geometry) {
            Err(reason) => {
                out.push(Split { kind, reference: reference.id, other: other.id, reason });
            },
            Ok(()) => {},
        }
        proof {
            let next = geometry_splits(r, kind, i + 1);
            let prev = geometry_splits(r, kind, i as int);
            assert forall|k: int| 0 <= k < next.len() implies split_is(#[trigger] out@[start.len() + k], next[k]) by {
                if k < prev.len() {
                    assert(out@[start.len() + k] == before[start.len() + k]);
                }
            }
            assert forall|k: int| 0 <= k < start.len() implies #[trigger] out@[k] == start[k] by {
                assert(out@[k] == before[k]);
            }
        }
        i = i + 1;
    }
}

fn push_kind_minorities(p: &Partition, kind: FrameKind, out: &mut Vec<Suspicion>)
    ensures
        final(out)@.len() == old(out)@.len() + kind_minorities(p.set_list(), kind).len(),
        forall|k: int| 0 <= k < old(out)@.len() ==> #[trigger] final(out)@[k] == old(out)@[k],
        forall|k: int|
            0 <= k < kind_minorities(p.set_list(), kind).len() ==> minority_is(
                #[trigger] final(out)@[old(out)@.len() + k],
                kind_minorities(p.set_list(), kind)[k],
            ),
{
    let ranked = ranked_of_kind(p, kind);
    let ghost g = of_kind(p.set_list(), kind);
    let ghost r = by_size(g);
    if ranked.len() < 2 {
        proof {
            assert(kind_minorities(p.set_list(), kind) == Seq::<(SetId, nat, SetId, nat)>::empty());
        }
        return;
    }
    let dominant = ranked[0];
    let ghost start = out@;
    let mut i: usize = 1;
    while i < ranked.len()
        invariant
            1 <= i <= ranked@.len(),
            ranked@.len() == r.len(),
            forall|q: int| 0 <= q < ranked@.len() ==> *(#[trigger] ranked@[q]) == r[q],
            *dominant == r[0],
            out@.len() == start.len() + minorities(r, i as int).len(),
            forall|k: int| 0 <= k < start.len() ==> #[trigger] out@[k] == start[k],
            forall|k: int|
                0 <= k < minorities(r, i as int).len() ==> minority_is(
                    #[trigger] out@[start.len() + k],
                    minorities(r, i as int)[k],
                ),
        decreases ranked@.len() - i,
    {
        let other = ranked[i];
        proof {
            assert(*ranked@[i as int] == r[i as int]);
        }
        let ghost before = out@;
        if other.len() < 6 && other.len() * 10 <= dominant.len() {
            out.push(
                Suspicion::MinorityOfKind {
                    set: other.id,
                    members: other.len(),
                    dominant: dominant.id,
                    dominant_members: dominant.len(),
                },
            );
        }
        proof {
            let next = minorities(r, i + 1);
            let prev = minorities(r, i as int);
            assert forall|k: int| 0 <= k < next.len() implies minority_is(#[trigger] out@[start.len() + k], next[k]) by {
                if k < prev.len() {
                    assert(out@[start.len() + k] == before[start.len() + k]);
                }
            }
            assert forall|k: int| 0 <= k < start.len() implies #[trigger] out@[k] == start[k] by {
                assert(out@[k] == before[k]);
            }
        }
        i = i + 1;
    }
}

/// The position of the first plan whose light set has this index, if any.
pub open spec fn first_naming(plans: Seq<StackPlan>, wanted: int) -> Option<int> {
    if exists|i: int| 0 <= i < plans.len() && (#[trigger] plans[i]).lights.0 == wanted {
        Some(
            choose|i: int|
                0 <= i < plans.len() && (#[trigger] plans[i]).lights.0 == wanted && forall|j: int|
                    0 <= j < i ==> (#[trigger] plans[j]).lights.0 != wanted,
        )
    } else {
        None
    }
}

/// The light sets that have a plan, each with its active lights, in plan
/// order: what a user who named a wrong set can choose from.
pub open spec fn available_sets(plans: Seq<StackPlan>, sets: Seq<FrameSet>, records: Seq<FrameRecord>) -> Seq<(SetId, nat)>
    decreases plans.len(),
{
    if plans.len() == 0 {
        seq![]
    } else {
        let rest = available_sets(plans.drop_last(), sets, records);
        let lights = plans.last().lights.0 as int;
        if lights < sets.len() {
            rest.push((sets[lights].id, active_count(records, sets[lights].members@)))
        } else {
            rest
        }
    }
}

/// The plans whose light set is here, deepest first, ties by light set: each
/// as the plan's position and its active lights.
pub open spec fn ranking(plans: Seq<StackPlan>, sets: Seq<FrameSet>, records: Seq<FrameRecord>) -> Seq<(int, nat)> {
    let depths = plan_depths(plans, sets, records);
    let order = the_sorted_order(depth_keys(plans, depths));
    Seq::new(depths.len(), |k: int| depths[order[k] as int])
}

/// The integration a command acts on, and whether it was picked from several.
pub struct Chosen<'a> {
    pub plan: &'a StackPlan,
    pub lights: &'a FrameSet,
    /// Whether the session held more than one integration to pick from.
    pub picked: bool,
    /// How many there were.
    pub of: usize,
}

/// Why no integration could be chosen.
#[derive(Debug, Clone)]
pub enum ChoiceError {
    /// No stackable set of lights was formed.
    NoPlans,
    /// The user named a set that is not a light set with a plan; these are,
    /// each with its active lights.
    NotALightSet { wanted: usize, available: Vec<(SetId, usize)> },
    /// Every plan names a light set that is not in the partition.
    NoLightSet,
    /// The deepest plan names a light set that is not in the partition.
    DeepestSetMissing,
    /// The two deepest sets are equally deep: two nights or two targets, and
    /// only the user knows which.
    Tied { first: SetId, second: SetId, depth: usize },
}

/// A count and what it counts: `1 frame`, `2 frames`.
pub open spec fn plural(n: nat, word: Seq<char>) -> Seq<char> {
    decimal(n) + " "@ + word + if n == 1 { Seq::<char>::empty() } else { "s"@ }
}

/// One set a user could name instead: its index and its active frames.
pub open spec fn offer(entry: (SetId, usize)) -> Seq<char> {
    decimal(entry.0.0 as nat) + " ("@ + plural(entry.1 as nat, "frame"@) + ")"@
}

/// The sets a user could name instead, separated by commas.
pub open spec fn offers(entries: Seq<(SetId, usize)>) -> Seq<char>
    decreases entries.len(),
{
    if entries.len() == 0 {
        Seq::empty()
    } else if entries.len() == 1 {
        offer(entries[0])
    } else {
        offers(entries.drop_last()) + ", "@ + offer(entries.last())
    }
}

/// Why no integration could be chosen, in words.
pub open spec fn choice_error_text(e: ChoiceError) -> Seq<char> {
    match e {
        ChoiceError::NoPlans => "no stackable set of lights was formed, so there is nothing to act on"@,
        ChoiceError::NotALightSet { wanted, available } => "set "@ + decimal(wanted as nat)
            + " is not a light set with a plan. Try one of: "@ + offers(available@),
        ChoiceError::NoLightSet => "every plan names a light set that is not in the partition"@,
        ChoiceError::DeepestSetMissing => "the deepest plan names a light set that is not in the partition"@,
        ChoiceError::Tied { first, second, depth } => "sets "@ + decimal(first.0 as nat) + " and "@ + decimal(
            second.0 as nat,
        ) + " both hold "@ + plural(depth as nat, "light"@) + " \u{2014} say which with --set"@,
    }
}

fn plural_of(n: usize, word: &str) -> (r: Vec<char>)
    ensures
        r@ == plural(n as nat, word@),
{
    let mut out = concat(&decimal_of(n as u64), &chars_of(" "));
    out = concat(&out, &chars_of(word));
    if n != 1 {
        out = concat(&out, &chars_of("s"));
    } else {
        proof {
            assert(out@ + Seq::<char>::empty() =~= out@);
        }
    }
    out
}

fn offer_of(entry: (SetId, usize)) -> (r: Vec<char>)
    ensures
        r@ == offer(entry),
{
    let mut out = concat(&decimal_of(entry.0.0 as u64), &chars_of(" ("));
    out = concat(&out, &plural_of(entry.1, "frame"));
    concat(&out, &chars_of(")"))
}

impl ChoiceError {
    /// The refusal in words, as a command prints it.
    pub fn describe(&self) -> (r: String)
        ensures
            r@ == choice_error_text(*self),
    {
        match self {
            ChoiceError::NoPlans => string_of(&chars_of("no stackable set of lights was formed, so there is nothing to act on")),
            ChoiceError::NotALightSet { wanted, available } => {
                let mut list: Vec<char> = Vec::new();
                let mut k: usize = 0;
                while k < available.len()
                    invariant
                        k <= available@.len(),
                        list@ == offers(available@.take(k as int)),
                    decreases available@.len() - k,
                {
                    proof {
                        assert(available@.take(k + 1).drop_last() =~= available@.take(k as int));
                    }
                    if k == 0 {
                        list = offer_of(available[k]);
                    } else {
                        list = concat(&list, &chars_of(", "));
                        list = concat(&list, &offer_of(available[k]));
                    }
                    k = k + 1;
                }
                proof {
                    assert(available@.take(available@.len() as int) =~= available@);
                }
                let mut out = concat(&chars_of("set "), &decimal_of(*wanted as u64));
                out = concat(&out, &chars_of(" is not a light set with a plan. Try one of: "));
                out = concat(&out, &list);
                string_of(&out)
            },
            ChoiceError::NoLightSet => string_of(&chars_of("every plan names a light set that is not in the partition")),
            ChoiceError::DeepestSetMissing => string_of(
                &chars_of("the deepest plan names a light set that is not in the partition"),
            ),
            ChoiceError::Tied { first, second, depth } => {
                let mut out = concat(&chars_of("sets "), &decimal_of(first.0 as u64));
                out = concat(&out, &chars_of(" and "));
                out = concat(&out, &decimal_of(second.0 as u64));
                out = concat(&out, &chars_of(" both hold "));
                out = concat(&out, &plural_of(*depth, "light"));
                out = concat(&out, &chars_of(" \u{2014} say which with --set"));
                string_of(&out)
            },
        }
    }
}

/// Why a calibration set was chosen: exact when nothing that was compared
/// differed; otherwise the only candidate when it was; otherwise the closest by
/// exposure for a dark or a dark flat, by gain for anything else.
pub open spec fn quality_of(differs: bool, admitted: nat, pairing: Pairing) -> MatchQuality {
    if !differs {
        MatchQuality::Exact
    } else if admitted == 1 {
        MatchQuality::OnlyCandidate
    } else if pairing == Pairing::DarkToLight || pairing == Pairing::DarkFlatToFlat {
        MatchQuality::ClosestExposure
    } else {
        MatchQuality::ClosestGain
    }
}

/// Why a calibration set was chosen, given whether anything compared between
/// it and what it calibrates differed (a sensor temperature neither recorded
/// does not count) and how many candidates were admissible.
pub fn match_quality(differs: bool, admitted: usize, pairing: Pairing) -> (r: MatchQuality)
    ensures
        r == quality_of(differs, admitted as nat, pairing),
{
    if !differs {
        MatchQuality::Exact
    } else if admitted == 1 {
        MatchQuality::OnlyCandidate
    } else if pairing == Pairing::DarkToLight || pairing == Pairing::DarkFlatToFlat {
        MatchQuality::ClosestExposure
    } else {
        MatchQuality::ClosestGain
    }
}

/// Keeps the outcome of matching one calibration role, and records the role
/// as blocked when nothing was matched although candidates were offered and
/// refused: "you shot darks and none could be used" must not read as "you shot
/// no darks".
pub fn resolve(
    blocked: &mut Vec<BlockedRole>,
    kind: FrameKind,
    against: SetId,
    found: Option<CalibrationMatch>,
    refused: Vec<(SetId, Incompatibility)>,
) -> (r: Option<CalibrationMatch>)
    ensures
        r == found,
        found is None && refused@.len() > 0 ==> final(blocked)@ == old(blocked)@.push(
            BlockedRole { kind, against, candidates: refused },
        ),
        !(found is None && refused@.len() > 0) ==> final(blocked)@ == old(blocked)@,
{
    if found.is_none() && refused.len() > 0 {
        blocked.push(BlockedRole { kind, against, candidates: refused });
    }
    found
}

/// Whether a plan was matched this flat set and dark flats with it.
pub open spec fn dark_flats_with(plan: StackPlan, flat: SetId) -> bool {
    plan.flat is Some && plan.flat->0.set == flat && plan.dark_flat is Some
}

/// The result of partitioning one session.
pub struct Partition {
    pub sets: Vec<FrameSet>,
    pub plans: Vec<StackPlan>,
    /// Active frames that carry no assigned kind. Never guessed into a set.
    pub unassigned: Vec<FrameId>,
    pub splits: Vec<Split>,
    pub suspicions: Vec<Suspicion>,
    /// `None` marks a key two sets share: answering with whichever was added
    /// last would bind a caller's cached work to an arbitrary one of them.
    by_key: Vec<(SetKey, Option<SetId>)>,
}

impl Partition {
    /// The sets, as the contracts see them.
    pub closed spec fn set_list(&self) -> Seq<FrameSet> {
        self.sets@
    }

    /// The plans, as the contracts see them.
    pub closed spec fn plan_list(&self) -> Seq<StackPlan> {
        self.plans@
    }

    /// The findings and the unassigned frames, as the contracts see them.
    pub closed spec fn rest(&self) -> (Seq<FrameId>, Seq<Split>, Seq<Suspicion>) {
        (self.unassigned@, self.splits@, self.suspicions@)
    }

    /// The key table, as the contracts see it.
    pub closed spec fn key_table(&self) -> Seq<(KeyView, Option<SetId>)> {
        self.by_key@.map_values(|e: (SetKey, Option<SetId>)| (key_view(e.0), e.1))
    }

    /// Nothing partitioned.
    pub fn new() -> (r: Partition)
        ensures
            r.set_list().len() == 0,
            r.plan_list().len() == 0,
            r.rest().0.len() == 0 && r.rest().1.len() == 0 && r.rest().2.len() == 0,
            r.key_table() == table_after(seq![]),
            r.key_table() == table_after(r.set_list()),
    {
        let r = Partition {
            sets: Vec::new(),
            plans: Vec::new(),
            unassigned: Vec::new(),
            splits: Vec::new(),
            suspicions: Vec::new(),
            by_key: Vec::new(),
        };
        proof {
            assert(r.key_table() =~= seq![]);
            assert(r.set_list() =~= seq![]);
        }
        r
    }

    /// Adds a set, and records its key.
    pub fn add_set(&mut self, set: FrameSet)
        ensures
            final(self).set_list() == old(self).set_list().push(set),
            final(self).key_table() == recorded(old(self).key_table(), key_view(set.key), set.id),
            old(self).key_table() == table_after(old(self).set_list()) ==> final(self).key_table() == table_after(
                final(self).set_list(),
            ),
            final(self).plan_list() == old(self).plan_list(),
            final(self).rest() == old(self).rest(),
    {
        let ghost before_sets = self.set_list();
        let ghost table = self.key_table();
        let ghost k = key_view(set.key);
        let mut i: usize = 0;
        let mut found = false;
        while i < self.by_key.len() && !found
            invariant
                i <= self.by_key@.len(),
                table == self.key_table(),
                table.len() == self.by_key@.len(),
                k == key_view(set.key),
                forall|j: int| 0 <= j < i ==> (#[trigger] table[j]).0 != k,
                found ==> i < self.by_key@.len() && table[i as int].0 == k,
            decreases self.by_key@.len() - i + (if found { 0int } else { 1int }),
        {
            proof {
                assert(table[i as int] == (key_view(self.by_key@[i as int].0), self.by_key@[i as int].1));
            }
            if same_key(&self.by_key[i].0, &set.key) {
                found = true;
            } else {
                i = i + 1;
            }
        }
        if found {
            // Every entry for this key answers for no set from now on.
            let mut j: usize = 0;
            let ghost before = self.by_key@;
            while j < self.by_key.len()
                invariant
                    j <= self.by_key@.len(),
                    self.by_key@.len() == before.len(),
                    k == key_view(set.key),
                    self.sets == old(self).sets,
                    self.plans == old(self).plans,
                    self.unassigned == old(self).unassigned,
                    self.splits == old(self).splits,
                    self.suspicions == old(self).suspicions,
                    forall|q: int|
                        0 <= q < self.by_key@.len() ==> key_view((#[trigger] self.by_key@[q]).0) == key_view(before[q].0) && (if q < j
                            && key_view(before[q].0) == k { self.by_key@[q].1 is None } else { self.by_key@[q].1
                            == before[q].1 }),
                decreases self.by_key@.len() - j,
            {
                if same_key(&self.by_key[j].0, &set.key) {
                    self.by_key.set(j, (copy_key(&self.by_key[j].0), None));
                }
                j = j + 1;
            }
            proof {
                assert(has_key(table, k)) by {
                    assert(table[i as int].0 == k);
                }
                assert(self.key_table() =~= cleared(table, k)) by {
                    assert forall|q: int| 0 <= q < table.len() implies #[trigger] self.key_table()[q] == (if table[q].0
                        == k { (table[q].0, None) } else { table[q] }) by {
                        assert(table[q] == (key_view(before[q].0), before[q].1));
                    }
                }
            }
        } else {
            proof {
                assert(!has_key(table, k)) by {
                    if has_key(table, k) {
                        let q = choose|q: int| 0 <= q < table.len() && (#[trigger] table[q]).0 == k;
                        assert(table[q].0 != k);
                    }
                }
            }
            let id = set.id;
            let ghost before = self.by_key@;
            self.by_key.push((copy_key(&set.key), Some(id)));
            proof {
                assert(self.key_table() =~= table.push((k, Some(id))));
            }
        }
        self.sets.push(set);
        proof {
            assert(self.set_list().drop_last() =~= before_sets);
        }
    }

    /// The set a handle names, if this partition has it.
    pub fn set(&self, id: SetId) -> (r: Option<&FrameSet>)
        ensures
            r == (if (id.0 as int) < self.set_list().len() { Some(&self.set_list()[id.0 as int]) } else { None }),
    {
        let index = id.index();
        if index < self.sets.len() {
            Some(&self.sets[index])
        } else {
            None
        }
    }

    /// The sets of one kind, in partition order.
    pub fn sets_of(&self, kind: FrameKind) -> (r: Vec<&FrameSet>)
        ensures
            r@.map_values(|s: &FrameSet| *s) == of_kind(self.set_list(), kind),
    {
        let mut r: Vec<&FrameSet> = Vec::new();
        let mut i: usize = 0;
        while i < self.sets.len()
            invariant
                i <= self.sets@.len(),
                r@.map_values(|s: &FrameSet| *s) == of_kind(self.sets@.take(i as int), kind),
            decreases self.sets@.len() - i,
        {
            proof {
                assert(self.sets@.take(i + 1).drop_last() =~= self.sets@.take(i as int));
            }
            if self.sets[i].kind() == kind {
                let ghost before = r@;
                r.push(&self.sets[i]);
                proof {
                    assert(r@.map_values(|s: &FrameSet| *s) =~= before.map_values(|s: &FrameSet| *s).push(self.sets@[i as int]));
                }
            }
            i = i + 1;
        }
        proof {
            assert(self.sets@.take(self.sets@.len() as int) =~= self.sets@);
        }
        r
    }

    /// The plan that stacks a light set, the first where there are several.
    pub fn plan_for(&self, lights: SetId) -> (r: Option<&StackPlan>)
        ensures
            match r {
                Some(plan) => exists|i: int|
                    0 <= i < self.plan_list().len() && *plan == self.plan_list()[i] && plan.lights == lights && forall|j: int|
                        0 <= j < i ==> (#[trigger] self.plan_list()[j]).lights != lights,
                None => forall|j: int| 0 <= j < self.plan_list().len() ==> (#[trigger] self.plan_list()[j]).lights != lights,
            },
    {
        let mut i: usize = 0;
        while i < self.plans.len()
            invariant
                i <= self.plans@.len(),
                forall|j: int| 0 <= j < i ==> (#[trigger] self.plans@[j]).lights != lights,
            decreases self.plans@.len() - i,
        {
            if self.plans[i].lights == lights {
                return Some(&self.plans[i]);
            }
            i = i + 1;
        }
        None
    }

    /// Every plan whose light set is here, with the number of active lights
    /// it would stack, deepest first; equally deep ones by light set.
    ///
    /// Deepest first because the set the user spent the night on is the one
    /// with the frames in it: taking plans in the order they happen to be in
    /// once built a master dark out of a single frame.
    pub fn plans_by_depth<'a>(&'a self, session: &Session) -> (r: Vec<(&'a StackPlan, usize)>)
        requires
            members_held(self.set_list(), session.records()),
        ensures
            ({
                let depths = plan_depths(self.plan_list(), self.set_list(), session.records());
                let order = the_sorted_order(depth_keys(self.plan_list(), depths));
                &&& r@.len() == depths.len()
                &&& forall|k: int|
                    0 <= k < r@.len() ==> *(#[trigger] r@[k]).0 == self.plan_list()[depths[order[k] as int].0]
                        && r@[k].1 == depths[order[k] as int].1
            }),
            forall|a: int, b: int|
                0 <= a < b < r@.len() ==> (#[trigger] r@[a]).1 > (#[trigger] r@[b]).1 || (r@[a].1 == r@[b].1
                    && r@[a].0.lights.0 <= r@[b].0.lights.0),
    {
        let ghost records = session.records();
        let mut eligible: Vec<(usize, usize)> = Vec::new();
        let mut keys: Vec<SortKey> = Vec::new();
        let mut i: usize = 0;
        while i < self.plans.len()
            invariant
                i <= self.plans@.len(),
                records == session.records(),
                members_held(self.sets@, records),
                eligible@.len() == keys@.len(),
                forall|q: int| 0 <= q < eligible@.len() ==> (#[trigger] eligible@[q]).0 < i,
                eligible@.map_values(|e: (usize, usize)| (e.0 as int, e.1 as nat)) == plan_depths(self.plans@.take(i as int), self.sets@, records),
                keys@ == depth_keys(self.plans@, plan_depths(self.plans@.take(i as int), self.sets@, records)),
            decreases self.plans@.len() - i,
        {
            proof {
                assert(self.plans@.take(i + 1).drop_last() =~= self.plans@.take(i as int));
            }
            let lights = self.plans[i].lights.index();
            if lights < self.sets.len() {
                let active = count_active(session, &self.sets[lights].members);
                let ghost before_e = eligible@;
                let ghost before_k = keys@;
                eligible.push((i, active));
                keys.push(((u64::MAX - active as u64), self.plans[i].lights.0 as u64, 0u64));
                proof {
                    let d = plan_depths(self.plans@.take(i + 1), self.sets@, records);
                    assert(d == plan_depths(self.plans@.take(i as int), self.sets@, records).push((i as int, active as nat)));
                    assert(eligible@.map_values(|e: (usize, usize)| (e.0 as int, e.1 as nat)) =~= d);
                    assert(keys@ =~= depth_keys(self.plans@, d));
                }
            } else {
                proof {
                    let d = plan_depths(self.plans@.take(i + 1), self.sets@, records);
                    assert(d == plan_depths(self.plans@.take(i as int), self.sets@, records));
                }
            }
            i = i + 1;
        }
        proof {
            assert(self.plans@.take(self.plans@.len() as int) =~= self.plans@);
        }
        let ghost depths = plan_depths(self.plans@, self.sets@, records);
        let order = sorted_positions(&keys);
        let mut r: Vec<(&'a StackPlan, usize)> = Vec::new();
        let mut k: usize = 0;
        while k < order.len()
            invariant
                k <= order@.len(),
                order@ == the_sorted_order(depth_keys(self.plans@, depths)),
                order@.len() == eligible@.len(),
                eligible@.map_values(|e: (usize, usize)| (e.0 as int, e.1 as nat)) == depths,
                forall|q: int| 0 <= q < order@.len() ==> #[trigger] order@[q] < eligible@.len(),
                forall|q: int| 0 <= q < eligible@.len() ==> (#[trigger] eligible@[q]).0 < self.plans@.len(),
                r@.len() == k,
                forall|q: int|
                    0 <= q < k ==> *(#[trigger] r@[q]).0 == self.plans@[depths[order@[q] as int].0] && r@[q].1
                        == depths[order@[q] as int].1,
            decreases order@.len() - k,
        {
            let (plan_index, active) = eligible[order[k]];
            proof {
                assert(depths[order@[k as int] as int] == (plan_index as int, active as nat));
            }
            r.push((&self.plans[plan_index], active));
            k = k + 1;
        }
        proof {
            let keys_seq = depth_keys(self.plans@, depths);
            assert(sorted_order(keys_seq, order@));
            assert forall|a: int, b: int| 0 <= a < b < r@.len() implies (#[trigger] r@[a]).1 > (#[trigger] r@[b]).1
                || (r@[a].1 == r@[b].1 && r@[a].0.lights.0 <= r@[b].0.lights.0) by {
                let (oa, ob) = (order@[a] as int, order@[b] as int);
                assert(comes_before(keys_seq, oa, ob));
                assert(eligible@.map_values(|e: (usize, usize)| (e.0 as int, e.1 as nat))[oa] == depths[oa]);
                assert(eligible@.map_values(|e: (usize, usize)| (e.0 as int, e.1 as nat))[ob] == depths[ob]);
                assert(depths[oa].1 <= usize::MAX && depths[ob].1 <= usize::MAX);
            }
        }
        r
    }

    /// Names why frames of one kind ended up in more than one set: each set
    /// whose geometry differs from the largest of its kind, with the reason.
    /// Two sets that differ by exposure or gain are two deliberate
    /// configurations, and are not named.
    pub fn find_splits(&self) -> (r: Vec<Split>)
        ensures
            r@.len() == all_splits(self.set_list()).len(),
            forall|k: int| 0 <= k < r@.len() ==> split_is(#[trigger] r@[k], all_splits(self.set_list())[k]),
    {
        let mut out: Vec<Split> = Vec::new();
        let kinds = [FrameKind::Light, FrameKind::Dark, FrameKind::Flat, FrameKind::Bias, FrameKind::DarkFlat];
        let ghost sets = self.set_list();
        let ghost mut done: Seq<(FrameKind, SetId, SetId, GeometryKey, GeometryKey)> = seq![];
        let mut i: usize = 0;
        while i < 5
            invariant
                i <= 5,
                sets == self.set_list(),
                kinds@ == seq![FrameKind::Light, FrameKind::Dark, FrameKind::Flat, FrameKind::Bias, FrameKind::DarkFlat],
                done == (if i == 0 { seq![] } else if i == 1 { kind_splits(sets, FrameKind::Light) } else if i == 2 {
                    kind_splits(sets, FrameKind::Light) + kind_splits(sets, FrameKind::Dark)
                } else if i == 3 {
                    kind_splits(sets, FrameKind::Light) + kind_splits(sets, FrameKind::Dark) + kind_splits(sets, FrameKind::Flat)
                } else if i == 4 {
                    kind_splits(sets, FrameKind::Light) + kind_splits(sets, FrameKind::Dark) + kind_splits(sets, FrameKind::Flat)
                        + kind_splits(sets, FrameKind::Bias)
                } else {
                    all_splits(sets)
                }),
                out@.len() == done.len(),
                forall|k: int| 0 <= k < out@.len() ==> split_is(#[trigger] out@[k], done[k]),
            decreases 5 - i,
        {
            let kind = kinds[i];
            let ghost before = out@;
            push_kind_splits(self, kind, &mut out);
            proof {
                let added = kind_splits(sets, kind);
                assert forall|k: int| 0 <= k < out@.len() implies split_is(#[trigger] out@[k], (done + added)[k]) by {
                    if k < before.len() {
                        assert(out@[k] == before[k]);
                    } else {
                        assert(out@[before.len() + (k - before.len())] == out@[k]);
                    }
                }
                done = done + added;
            }
            i = i + 1;
        }
        out
    }

    /// The sets of each kind so small beside the largest of that kind that
    /// they cannot be a series anybody meant to integrate: fewer than six
    /// frames, beside at least ten times as many. Reported, never acted on.
    pub fn minority_findings(&self) -> (r: Vec<Suspicion>)
        ensures
            r@.len() == all_minorities(self.set_list()).len(),
            forall|k: int| 0 <= k < r@.len() ==> minority_is(#[trigger] r@[k], all_minorities(self.set_list())[k]),
    {
        let mut out: Vec<Suspicion> = Vec::new();
        let kinds = [FrameKind::Light, FrameKind::Dark, FrameKind::Flat, FrameKind::Bias, FrameKind::DarkFlat];
        let ghost sets = self.set_list();
        let ghost mut done: Seq<(SetId, nat, SetId, nat)> = seq![];
        let mut i: usize = 0;
        while i < 5
            invariant
                i <= 5,
                sets == self.set_list(),
                kinds@ == seq![FrameKind::Light, FrameKind::Dark, FrameKind::Flat, FrameKind::Bias, FrameKind::DarkFlat],
                done == (if i == 0 { seq![] } else if i == 1 { kind_minorities(sets, FrameKind::Light) } else if i == 2 {
                    kind_minorities(sets, FrameKind::Light) + kind_minorities(sets, FrameKind::Dark)
                } else if i == 3 {
                    kind_minorities(sets, FrameKind::Light) + kind_minorities(sets, FrameKind::Dark) + kind_minorities(sets, FrameKind::Flat)
                } else if i == 4 {
                    kind_minorities(sets, FrameKind::Light) + kind_minorities(sets, FrameKind::Dark) + kind_minorities(sets, FrameKind::Flat)
                        + kind_minorities(sets, FrameKind::Bias)
                } else {
                    all_minorities(sets)
                }),
                out@.len() == done.len(),
                forall|k: int| 0 <= k < out@.len() ==> minority_is(#[trigger] out@[k], done[k]),
            decreases 5 - i,
        {
            let kind = kinds[i];
            let ghost before = out@;
            push_kind_minorities(self, kind, &mut out);
            proof {
                let added = kind_minorities(sets, kind);
                assert forall|k: int| 0 <= k < out@.len() implies minority_is(#[trigger] out@[k], (done + added)[k]) by {
                    if k < before.len() {
                        assert(out@[k] == before[k]);
                    } else {
                        assert(out@[before.len() + (k - before.len())] == out@[k]);
                    }
                }
                done = done + added;
            }
            i = i + 1;
        }
        out
    }

    /// The flat and dark-flat sets whose own frames were shot further apart
    /// than `limit` seconds: a flat records the optical train at one moment,
    /// and averaging several nights of them matches none. Flats only; a dark
    /// run across two nights is ordinary practice.
    pub fn span_findings(&self, session: &Session, limit: i64) -> (r: Vec<Suspicion>)
        requires
            members_held(self.set_list(), session.records()),
            spans_countable(self.set_list(), session.records()),
        ensures
            r@.len() == long_spans(self.set_list(), session.records(), limit, self.set_list().len() as int).len(),
            forall|k: int|
                0 <= k < r@.len() ==> #[trigger] r@[k] == ({
                    let t = long_spans(self.set_list(), session.records(), limit, self.set_list().len() as int)[k];
                    Suspicion::CalibrationSpansNights { set: t.0, kind: t.1, span_seconds: t.2 as i64 }
                }),
    {
        let ghost records = session.records();
        let mut out: Vec<Suspicion> = Vec::new();
        let mut i: usize = 0;
        while i < self.sets.len()
            invariant
                i <= self.sets@.len(),
                records == session.records(),
                members_held(self.sets@, records),
                spans_countable(self.sets@, records),
                out@.len() == long_spans(self.sets@, records, limit, i as int).len(),
                forall|k: int|
                    0 <= k < out@.len() ==> #[trigger] out@[k] == ({
                        let t = long_spans(self.sets@, records, limit, i as int)[k];
                        Suspicion::CalibrationSpansNights { set: t.0, kind: t.1, span_seconds: t.2 as i64 }
                    }),
            decreases self.sets@.len() - i,
        {
            let set = &self.sets[i];
            let kind = set.kind();
            let ghost before = out@;
            let ghost times_of = capture_times(records, self.sets@[i as int].members@);
            if kind == FrameKind::Flat || kind == FrameKind::DarkFlat {
                let mut times: Vec<Option<i64>> = Vec::new();
                let mut j: usize = 0;
                while j < set.members.len()
                    invariant
                        j <= set.members@.len(),
                        *set == self.sets@[i as int],
                        records == session.records(),
                        members_held(self.sets@, records),
                        i < self.sets@.len(),
                        times@ == capture_times(records, set.members@).take(j as int),
                    decreases set.members@.len() - j,
                {
                    proof {
                        assert(self.sets@[i as int].members@[j as int].0 < records.len());
                    }
                    times.push(session.record(set.members[j]).info.capture_time_unix);
                    proof {
                        assert(times@ =~= capture_times(records, set.members@).take(j + 1));
                    }
                    j = j + 1;
                }
                proof {
                    assert(times@ =~= times_of);
                    assert(spans_countable(self.sets@, records));
                    assert(earliest(times_of) is Some ==> latest(times_of)->0 - earliest(times_of)->0 <= i64::MAX);
                    lemma_earliest_not_after_latest(times_of);
                }
                match capture_span(&times) {
                    Some(span) => if span > limit {
                        out.push(Suspicion::CalibrationSpansNights { set: set.id, kind, span_seconds: span });
                    },
                    None => {},
                }
            }
            proof {
                lemma_earliest_not_after_latest(times_of);
                let prev = long_spans(self.sets@, records, limit, i as int);
                let next = long_spans(self.sets@, records, limit, i + 1);
                assert(next.len() == out@.len());
                assert forall|k: int| 0 <= k < out@.len() implies #[trigger] out@[k] == ({
                    let t = next[k];
                    Suspicion::CalibrationSpansNights { set: t.0, kind: t.1, span_seconds: t.2 as i64 }
                }) by {
                    if k < prev.len() {
                        assert(out@[k] == before[k]);
                    }
                }
            }
            i = i + 1;
        }
        out
    }

    /// Picks the integration with the most active lights, or the one whose
    /// light set the user named. A tie between the two deepest is not a
    /// preference to encode, and is answered with an error naming both.
    pub fn choose_integration<'a>(&'a self, session: &Session, requested: Option<usize>) -> (r: Result<Chosen<'a>, ChoiceError>)
        requires
            members_held(self.set_list(), session.records()),
        ensures
            ({
                let (plans, sets, records) = (self.plan_list(), self.set_list(), session.records());
                let ranked = ranking(plans, sets, records);
                if plans.len() == 0 {
                    r matches Err(ChoiceError::NoPlans)
                } else if requested is Some {
                    let found = first_naming(plans, requested->0 as int);
                    if found is Some && plans[found->0].lights.0 < sets.len() {
                        r matches Ok(c) && *c.plan == plans[found->0] && *c.lights == sets[plans[found->0].lights.0 as int]
                            && c.picked == (plans.len() > 1) && c.of == plans.len()
                    } else {
                        r matches Err(ChoiceError::NotALightSet { wanted, available }) && wanted == requested->0
                            && available@.len() == available_sets(plans, sets, records).len() && forall|k: int|
                            0 <= k < available@.len() ==> (#[trigger] available@[k]).0 == available_sets(plans, sets, records)[k].0
                                && available@[k].1 == available_sets(plans, sets, records)[k].1
                    }
                } else if ranked.len() == 0 {
                    r matches Err(ChoiceError::NoLightSet)
                } else if plans[ranked[0].0].lights.0 >= sets.len() {
                    r matches Err(ChoiceError::DeepestSetMissing)
                } else if ranked.len() > 1 && ranked[1].1 == ranked[0].1 {
                    r matches Err(ChoiceError::Tied { first, second, depth }) && first == plans[ranked[0].0].lights
                        && second == plans[ranked[1].0].lights && depth == ranked[0].1
                } else {
                    r matches Ok(c) && *c.plan == plans[ranked[0].0] && *c.lights == sets[plans[ranked[0].0].lights.0 as int]
                        && c.picked == (ranked.len() > 1) && c.of == ranked.len()
                }
            }),
    {
        let ghost records = session.records();
        if self.plans.len() == 0 {
            return Err(ChoiceError::NoPlans);
        }
        if let Some(wanted) = requested {
            let mut i: usize = 0;
            while i < self.plans.len()
                invariant
                    i <= self.plans@.len(),
                    forall|j: int| 0 <= j < i ==> (#[trigger] self.plans@[j]).lights.0 != wanted as int,
                ensures
                    i <= self.plans@.len(),
                    forall|j: int| 0 <= j < i ==> (#[trigger] self.plans@[j]).lights.0 != wanted as int,
                    i < self.plans@.len() ==> self.plans@[i as int].lights.0 == wanted as int,
                decreases self.plans@.len() - i,
            {
                if self.plans[i].lights.index() == wanted {
                    break;
                }
                i = i + 1;
            }
            proof {
                let plans = self.plans@;
                if i < plans.len() {
                    assert(plans[i as int].lights.0 == wanted as int);
                    let c = choose|q: int|
                        0 <= q < plans.len() && (#[trigger] plans[q]).lights.0 == wanted as int && forall|j: int|
                            0 <= j < q ==> (#[trigger] plans[j]).lights.0 != wanted as int;
                    assert(first_naming(plans, wanted as int) == Some(c));
                    if c < i {
                        assert(plans[c].lights.0 != wanted as int);
                    }
                    if c > i {
                        assert(plans[i as int].lights.0 != wanted as int);
                    }
                    assert(c == i);
                } else {
                    assert(first_naming(plans, wanted as int) is None);
                }
            }
            if i < self.plans.len() {
                let plan = &self.plans[i];
                if let Some(lights) = self.set(plan.lights) {
                    return Ok(Chosen { plan, lights, picked: self.plans.len() > 1, of: self.plans.len() });
                }
            }
            let mut available: Vec<(SetId, usize)> = Vec::new();
            let mut k: usize = 0;
            while k < self.plans.len()
                invariant
                    k <= self.plans@.len(),
                    records == session.records(),
                    members_held(self.sets@, records),
                    available@.len() == available_sets(self.plans@.take(k as int), self.sets@, records).len(),
                    forall|q: int|
                        0 <= q < available@.len() ==> (#[trigger] available@[q]).0 == available_sets(
                            self.plans@.take(k as int),
                            self.sets@,
                            records,
                        )[q].0 && available@[q].1 == available_sets(self.plans@.take(k as int), self.sets@, records)[q].1,
                decreases self.plans@.len() - k,
            {
                proof {
                    assert(self.plans@.take(k + 1).drop_last() =~= self.plans@.take(k as int));
                }
                let index = self.plans[k].lights.index();
                if index < self.sets.len() {
                    let set = &self.sets[index];
                    let active = count_active(session, &set.members);
                    available.push((set.id, active));
                }
                k = k + 1;
            }
            proof {
                assert(self.plans@.take(self.plans@.len() as int) =~= self.plans@);
            }
            return Err(ChoiceError::NotALightSet { wanted, available });
        }
        let ranked = self.plans_by_depth(session);
        proof {
            let depths = plan_depths(self.plans@, self.sets@, records);
            let order = the_sorted_order(depth_keys(self.plans@, depths));
            let want = ranking(self.plans@, self.sets@, records);
            assert(want.len() == ranked@.len());
            assert forall|k: int| 0 <= k < ranked@.len() implies *(#[trigger] ranked@[k]).0 == self.plans@[want[k].0]
                && ranked@[k].1 == want[k].1 by {
                assert(want[k] == depths[order[k] as int]);
            }
        }
        if ranked.len() == 0 {
            return Err(ChoiceError::NoLightSet);
        }
        let (plan, depth) = ranked[0];
        let lights = match self.set(plan.lights) {
            Some(lights) => lights,
            None => {
                return Err(ChoiceError::DeepestSetMissing);
            },
        };
        if ranked.len() > 1 && ranked[1].1 == depth {
            return Err(ChoiceError::Tied { first: plan.lights, second: ranked[1].0.lights, depth });
        }
        Ok(Chosen { plan, lights, picked: ranked.len() > 1, of: ranked.len() })
    }

    /// Whether some plan that was matched this flat set was also matched
    /// dark flats for it. A flat long enough to gather dark current needs
    /// them; how long is long enough is a measured figure, judged by the
    /// caller.
    pub fn flat_has_dark_flats(&self, flat: SetId) -> (r: bool)
        ensures
            r == exists|i: int| 0 <= i < self.plan_list().len() && dark_flats_with(#[trigger] self.plan_list()[i], flat),
    {
        let mut i: usize = 0;
        while i < self.plans.len()
            invariant
                i <= self.plans@.len(),
                forall|j: int| 0 <= j < i ==> !dark_flats_with(#[trigger] self.plans@[j], flat),
            decreases self.plans@.len() - i,
        {
            let plan = &self.plans[i];
            if let Some(matched) = &plan.flat {
                if matched.set == flat && plan.dark_flat.is_some() {
                    proof {
                        assert(dark_flats_with(self.plan_list()[i as int], flat));
                    }
                    return true;
                }
            }
            i = i + 1;
        }
        false
    }

    /// Rebinds a set after a re-partition: the only safe way to carry
    /// anything across two partitions of one session.
    pub fn set_by_key(&self, key: &SetKey) -> (r: Option<SetId>)
        ensures
            r == lookup(self.key_table(), key_view(*key)),
    {
        let ghost table = self.key_table();
        let mut i: usize = self.by_key.len();
        proof {
            assert(table.take(table.len() as int) =~= table);
        }
        while i > 0
            invariant
                i <= self.by_key@.len(),
                table == self.key_table(),
                lookup(table, key_view(*key)) == lookup(table.take(i as int), key_view(*key)),
            decreases i,
        {
            proof {
                assert(table.take(i as int).drop_last() =~= table.take(i - 1));
                assert(table[i - 1] == (key_view(self.by_key@[i - 1].0), self.by_key@[i - 1].1));
                assert(table.take(i as int).last() == table[i - 1]);
            }
            if same_key(&self.by_key[i - 1].0, key) {
                return self.by_key[i - 1].1;
            }
            i = i - 1;
        }
        None
    }
}

} // verus!
