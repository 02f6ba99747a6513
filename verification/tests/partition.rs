use astro_core::compat::{Extent, GeometryKey, Incompatibility, Pairing, Rect};
use astro_core::frame::{FrameInfo, ImageLayout};
use astro_core::kind::{FrameKind, FrameRole};
use astro_core::partition::{in_capture_order, match_quality, resolve, BlockedRole, CalibrationMatch, ChoiceError, FrameSet, Partition, PartitionKey, SetKey, StackPlan, Suspicion};
use astro_core::session::{
    BodyKey, DirId, ExclusionSource, FrameFingerprint, FrameId, FrameRecord, FrameSource, GroupId, PluginId,
    Rejection, Session,
};
use astro_core::sets::{ExposureBucket, ExposureSpan, GainBucket, MatchQuality, SetId};

const TWELVE_HOURS: i64 = 12 * 3600;

fn geometry(width: u32) -> GeometryKey {
    GeometryKey {
        width,
        height: 5520,
        components: 1,
        bits_per_sample: 14,
        sample_format: 0,
        active: Rect { x: 0, y: 0, width, height: 5520 },
        cfa_width: 2,
        cfa_height: 2,
        cfa_pattern: [0; 36],
    }
}

fn key(kind: FrameKind, group: &str, micros: u64, width: u32) -> SetKey {
    SetKey {
        partition: PartitionKey {
            kind,
            group: group.to_owned(),
            body: BodyKey { make: "Canon".to_owned(), model: "Canon EOS R5".to_owned(), serial: None },
            geometry: geometry(width),
            gain: GainBucket::Iso(1600),
        },
        exposure: ExposureSpan { shortest: ExposureBucket::Micros(micros), longest: ExposureBucket::Micros(micros) },
    }
}

/// A set of `count` frames, numbered from `first`.
fn set(id: u32, kind: FrameKind, micros: u64, first: u32, count: u32) -> FrameSet {
    FrameSet { id: SetId(id), key: key(kind, "main", micros, 8280), members: (first..first + count).map(FrameId).collect() }
}

fn info(capture_time_unix: Option<i64>) -> FrameInfo {
    FrameInfo {
        camera_make: "Canon".to_owned(),
        camera_model: "Canon EOS R5".to_owned(),
        lens_model: String::new(),
        exposure_seconds_bits: Some(300.0f64.to_bits()),
        iso_bits: Some(1600.0f64.to_bits()),
        aperture_bits: None,
        focal_length_mm_bits: None,
        capture_time_unix,
        sensor_temperature_c_bits: None,
    }
}

fn record(file_name: &str, info: FrameInfo) -> FrameRecord {
    FrameRecord {
        source: FrameSource {
            directory: DirId(0),
            file_name: file_name.to_owned(),
            plugin: PluginId(0),
            fingerprint: FrameFingerprint::new(45_000_000, Some(1_787_834_096), file_name.as_bytes()),
        },
        layout: ImageLayout::empty(),
        body: BodyKey::from_info(&info),
        info,
        role: FrameRole::unassigned(),
        group: GroupId::main(),
        exclusion: None,
    }
}

/// Frames shot at the given times, one per entry, in the session in that order.
fn frames(session: &mut Session, prefix: &str, times: &[Option<i64>]) -> Vec<FrameId> {
    times
        .iter()
        .enumerate()
        .map(|(index, time)| session.insert(record(&format!("{prefix}{index}.CR3"), info(*time))))
        .collect()
}

fn plan(lights: u32) -> StackPlan {
    StackPlan { lights: SetId(lights), bias: None, dark: None, flat: None, dark_flat: None, blocked: Vec::new() }
}

#[test]
fn a_handful_of_frames_beside_a_deep_series_is_named() {
    // The framing and focus tests at the start of a night, beside the series.
    let mut partition = Partition::new();
    partition.add_set(set(0, FrameKind::Light, 2_000_000, 0, 2));
    partition.add_set(set(1, FrameKind::Light, 300_000_000, 2, 226));
    let found = partition.minority_findings();
    assert_eq!(found.len(), 1);
    assert!(matches!(
        found[0],
        Suspicion::MinorityOfKind { set: SetId(0), members: 2, dominant: SetId(1), dominant_members: 226 }
    ));
}

#[test]
fn a_deliberate_short_series_is_not_called_a_minority() {
    let mut partition = Partition::new();
    partition.add_set(set(0, FrameKind::Light, 300_000_000, 0, 226));
    partition.add_set(set(1, FrameKind::Light, 2_000_000, 226, 20));
    assert!(partition.minority_findings().is_empty());
}

#[test]
fn a_short_session_is_not_all_minority() {
    let mut partition = Partition::new();
    partition.add_set(set(0, FrameKind::Light, 300_000_000, 0, 10));
    assert!(partition.minority_findings().is_empty());
}

#[test]
fn a_minority_is_judged_within_its_own_kind() {
    // Fifty lights do not make three darks a minority.
    let mut partition = Partition::new();
    partition.add_set(set(0, FrameKind::Light, 300_000_000, 0, 50));
    partition.add_set(set(1, FrameKind::Dark, 300_000_000, 50, 3));
    assert!(partition.minority_findings().is_empty());
}

#[test]
fn exactly_ten_times_as_many_is_enough_for_a_minority() {
    let mut partition = Partition::new();
    partition.add_set(set(0, FrameKind::Dark, 300_000_000, 0, 50));
    partition.add_set(set(1, FrameKind::Dark, 60_000_000, 50, 5));
    partition.add_set(set(2, FrameKind::Dark, 30_000_000, 55, 6));
    let found = partition.minority_findings();
    assert_eq!(found.len(), 1);
    assert!(matches!(found[0], Suspicion::MinorityOfKind { set: SetId(1), members: 5, dominant_members: 50, .. }));
}

#[test]
fn frames_of_another_size_are_named_against_the_largest_set() {
    let mut partition = Partition::new();
    let mut small = set(0, FrameKind::Light, 300_000_000, 0, 3);
    small.key = key(FrameKind::Light, "main", 300_000_000, 6000);
    partition.add_set(small);
    partition.add_set(set(1, FrameKind::Light, 300_000_000, 3, 40));
    // Another exposure with the same geometry is a deliberate configuration.
    partition.add_set(set(2, FrameKind::Light, 60_000_000, 43, 10));
    let splits = partition.find_splits();
    assert_eq!(splits.len(), 1);
    assert_eq!(splits[0].kind, FrameKind::Light);
    assert_eq!(splits[0].reference, SetId(1));
    assert_eq!(splits[0].other, SetId(0));
    assert_eq!(
        splits[0].reason,
        Incompatibility::Dimensions {
            expected: Extent { width: 8280, height: 5520 },
            found: Extent { width: 6000, height: 5520 }
        }
    );
}

#[test]
fn one_set_of_a_kind_is_never_a_split() {
    let mut partition = Partition::new();
    partition.add_set(set(0, FrameKind::Flat, 1_000, 0, 20));
    assert!(partition.find_splits().is_empty());
}

#[test]
fn two_sets_that_share_a_key_are_not_answered_for() {
    let mut partition = Partition::new();
    let mut a = set(0, FrameKind::Light, 0, 0, 1);
    let mut b = set(1, FrameKind::Light, 0, 1, 1);
    a.key.exposure = ExposureSpan { shortest: ExposureBucket::Unknown, longest: ExposureBucket::Unknown };
    b.key.exposure = a.key.exposure;
    let shared = a.key.clone();
    partition.add_set(a);
    partition.add_set(b);
    assert_eq!(partition.sets_of(FrameKind::Light).len(), 2);
    assert_eq!(partition.set_by_key(&shared), None, "an ambiguous key answers for nothing");
    // A third set with the key does not revive it.
    let mut c = set(2, FrameKind::Light, 0, 2, 1);
    c.key = shared.clone();
    partition.add_set(c);
    assert_eq!(partition.set_by_key(&shared), None);
}

#[test]
fn set_ids_are_rebound_by_key_after_a_repartition() {
    let mut before = Partition::new();
    before.add_set(set(0, FrameKind::Light, 300_000_000, 0, 5));
    before.add_set(set(1, FrameKind::Dark, 300_000_000, 5, 5));
    let dark_key = before.sets_of(FrameKind::Dark)[0].key.clone();

    // The same sets, numbered the other way round.
    let mut after = Partition::new();
    after.add_set(set(0, FrameKind::Dark, 300_000_000, 5, 5));
    after.add_set(set(1, FrameKind::Light, 300_000_000, 0, 4));
    let rebound = after.set_by_key(&dark_key).expect("the dark set is found again by key");
    assert_eq!(rebound, SetId(0));
    assert_eq!(after.set(rebound).unwrap().len(), 5);
    assert!(after.set(SetId(7)).is_none());
}

#[test]
fn a_set_key_survives_the_flags_being_typed_in_another_order() {
    let mut partition = Partition::new();
    let mut mon = set(0, FrameKind::Light, 300_000_000, 0, 3);
    mon.key = key(FrameKind::Light, "mon", 300_000_000, 8280);
    let mut tue = set(1, FrameKind::Light, 300_000_000, 3, 3);
    tue.key = key(FrameKind::Light, "tue", 300_000_000, 8280);
    partition.add_set(tue);
    partition.add_set(mon);
    assert_eq!(partition.set_by_key(&key(FrameKind::Light, "mon", 300_000_000, 8280)), Some(SetId(0)));
    assert_eq!(partition.set_by_key(&key(FrameKind::Light, "tue", 300_000_000, 8280)), Some(SetId(1)));
    assert_eq!(partition.set_by_key(&key(FrameKind::Light, "wed", 300_000_000, 8280)), None);
}

#[test]
fn flats_shot_across_several_nights_are_flagged() {
    let mut session = Session::new();
    let start = 1_787_834_096;
    let flats = frames(&mut session, "F", &[Some(start), Some(start + 86_400), Some(start + 2 * 86_400)]);
    let darks = frames(&mut session, "D", &[Some(start), Some(start + 86_400), Some(start + 2 * 86_400)]);
    let mut partition = Partition::new();
    partition.add_set(FrameSet { id: SetId(0), key: key(FrameKind::Flat, "main", 1_000, 8280), members: flats });
    partition.add_set(FrameSet { id: SetId(1), key: key(FrameKind::Dark, "main", 300_000_000, 8280), members: darks });
    let found = partition.span_findings(&session, TWELVE_HOURS);
    assert_eq!(found.len(), 1, "the flats, and not the darks");
    assert!(matches!(
        found[0],
        Suspicion::CalibrationSpansNights { set: SetId(0), kind: FrameKind::Flat, span_seconds: 172_800 }
    ));
}

#[test]
fn one_night_of_flats_is_not_flagged() {
    let mut session = Session::new();
    let start = 1_787_834_096;
    let flats = frames(&mut session, "F", &[Some(start + 600), None, Some(start)]);
    let mut partition = Partition::new();
    partition.add_set(FrameSet { id: SetId(0), key: key(FrameKind::DarkFlat, "main", 1_000, 8280), members: flats });
    assert!(partition.span_findings(&session, TWELVE_HOURS).is_empty());
    assert_eq!(partition.span_findings(&session, 599).len(), 1);
}

#[test]
fn plans_are_ranked_by_the_lights_still_active() {
    let mut session = Session::new();
    let shallow = frames(&mut session, "A", &[None; 3]);
    let deep = frames(&mut session, "B", &[None; 5]);
    let mut partition = Partition::new();
    partition.add_set(FrameSet { id: SetId(0), key: key(FrameKind::Light, "main", 1_000_000, 8280), members: shallow });
    partition.add_set(FrameSet { id: SetId(1), key: key(FrameKind::Light, "main", 300_000_000, 8280), members: deep.clone() });
    partition.plans.push(plan(0));
    partition.plans.push(plan(1));
    // A plan whose light set is not here is left out.
    partition.plans.push(plan(9));

    let ranked = partition.plans_by_depth(&session);
    assert_eq!(ranked.iter().map(|(p, n)| (p.lights, *n)).collect::<Vec<_>>(), vec![(SetId(1), 5), (SetId(0), 3)]);

    // Dropping two of the deep set's frames makes the ranking tie, and a tie
    // goes by light set.
    for id in &deep[..2] {
        session.exclude(*id, Rejection::Unclassified, ExclusionSource::User);
    }
    let ranked = partition.plans_by_depth(&session);
    assert_eq!(ranked.iter().map(|(p, n)| (p.lights, *n)).collect::<Vec<_>>(), vec![(SetId(0), 3), (SetId(1), 3)]);
    assert_eq!(partition.plan_for(SetId(1)).map(|p| p.lights), Some(SetId(1)));
    assert!(partition.plan_for(SetId(4)).is_none());
}

#[test]
fn members_are_put_in_capture_order_with_the_untimed_first() {
    let mut session = Session::new();
    let ids = frames(&mut session, "L", &[Some(300), None, Some(-5), Some(100), None]);
    let ordered = in_capture_order(&session, &ids);
    assert_eq!(ordered, vec![ids[1], ids[4], ids[2], ids[3], ids[0]]);
}

#[test]
fn a_plan_lists_its_calibration_in_report_order() {
    let matched = |set: u32, pairing: Pairing| CalibrationMatch {
        set: SetId(set),
        pairing,
        quality: MatchQuality::Exact,
        alternatives: 0,
        mismatches: Vec::new(),
    };
    let mut p = plan(0);
    p.flat = Some(matched(2, Pairing::FlatToLight));
    p.bias = Some(matched(1, Pairing::BiasToLight));
    let kinds: Vec<(FrameKind, SetId)> = p.calibration().iter().map(|(k, m)| (*k, m.set)).collect();
    assert_eq!(kinds, vec![(FrameKind::Bias, SetId(1)), (FrameKind::Flat, SetId(2))]);
}

/// A session and a partition with one light set per count, each with a plan.
fn integrations(counts: &[usize]) -> (Session, Partition) {
    let mut session = Session::new();
    let mut partition = Partition::new();
    for (index, count) in counts.iter().enumerate() {
        let members = frames(&mut session, &format!("S{index}_"), &vec![None; *count]);
        let micros = 1_000_000 * (index as u64 + 1);
        partition.add_set(FrameSet { id: SetId(index as u32), key: key(FrameKind::Light, "main", micros, 8280), members });
        partition.plans.push(plan(index as u32));
    }
    (session, partition)
}

#[test]
fn the_deepest_integration_is_the_one_acted_on() {
    // A night that began with framing and focus tests.
    let (session, partition) = integrations(&[2, 226, 1, 1]);
    let chosen = partition.choose_integration(&session, None).ok().expect("one is deepest");
    assert_eq!(chosen.lights.id, SetId(1));
    assert_eq!(chosen.plan.lights, SetId(1));
    assert!(chosen.picked);
    assert_eq!(chosen.of, 4);
}

#[test]
fn a_lone_integration_is_not_called_picked() {
    let (session, partition) = integrations(&[12]);
    let chosen = partition.choose_integration(&session, None).ok().unwrap();
    assert!(!chosen.picked);
    assert_eq!(chosen.of, 1);
}

#[test]
fn two_equally_deep_integrations_are_not_chosen_between() {
    let (session, partition) = integrations(&[1, 40, 40]);
    assert!(matches!(
        partition.choose_integration(&session, None),
        Err(ChoiceError::Tied { first: SetId(1), second: SetId(2), depth: 40 })
    ));
    // Naming one settles it.
    let chosen = partition.choose_integration(&session, Some(2)).ok().unwrap();
    assert_eq!(chosen.lights.id, SetId(2));
    assert!(chosen.picked);
    assert_eq!(chosen.of, 3);
}

#[test]
fn naming_a_set_without_a_plan_lists_the_ones_with_one() {
    let (session, partition) = integrations(&[3, 5]);
    match partition.choose_integration(&session, Some(7)) {
        Err(ChoiceError::NotALightSet { wanted, available }) => {
            assert_eq!(wanted, 7);
            assert_eq!(available, vec![(SetId(0), 3), (SetId(1), 5)]);
        },
        _ => panic!("set 7 has no plan"),
    }
}

#[test]
fn nothing_to_choose_from_says_so() {
    let (session, partition) = integrations(&[]);
    assert!(matches!(partition.choose_integration(&session, None), Err(ChoiceError::NoPlans)));
    assert!(matches!(partition.choose_integration(&session, Some(0)), Err(ChoiceError::NoPlans)));

    let mut orphaned = Partition::new();
    orphaned.plans.push(plan(3));
    assert!(matches!(orphaned.choose_integration(&session, None), Err(ChoiceError::NoLightSet)));
}

#[test]
fn a_dark_run_across_two_nights_is_not_flagged_as_a_flat_would_be() {
    let mut session = Session::new();
    let start = 1_787_834_096;
    let darks = frames(&mut session, "D", &[Some(start), Some(start + 86_400), Some(start + 2 * 86_400)]);
    let mut partition = Partition::new();
    partition.add_set(FrameSet { id: SetId(0), key: key(FrameKind::Light, "main", 300_000_000, 8280), members: vec![] });
    partition.add_set(FrameSet { id: SetId(1), key: key(FrameKind::Dark, "main", 300_000_000, 8280), members: darks });
    assert!(partition.span_findings(&session, TWELVE_HOURS).is_empty());
}

#[test]
fn a_flat_is_known_to_have_dark_flats_only_where_a_plan_gave_it_some() {
    let matched = |set: u32, pairing: Pairing| CalibrationMatch {
        set: SetId(set),
        pairing,
        quality: MatchQuality::OnlyCandidate,
        alternatives: 0,
        mismatches: Vec::new(),
    };
    let mut partition = Partition::new();
    let mut with = plan(0);
    with.flat = Some(matched(2, Pairing::FlatToLight));
    with.dark_flat = Some(matched(3, Pairing::DarkFlatToFlat));
    let mut without = plan(1);
    without.flat = Some(matched(4, Pairing::FlatToLight));
    partition.plans.push(with);
    partition.plans.push(without);
    assert!(partition.flat_has_dark_flats(SetId(2)));
    assert!(!partition.flat_has_dark_flats(SetId(4)));
    assert!(!partition.flat_has_dark_flats(SetId(3)));
}

#[test]
fn a_match_says_why_it_was_chosen() {
    assert_eq!(match_quality(false, 3, Pairing::DarkToLight), MatchQuality::Exact);
    assert_eq!(match_quality(true, 1, Pairing::FlatToLight), MatchQuality::OnlyCandidate);
    assert_eq!(match_quality(true, 2, Pairing::DarkToLight), MatchQuality::ClosestExposure);
    assert_eq!(match_quality(true, 2, Pairing::DarkFlatToFlat), MatchQuality::ClosestExposure);
    assert_eq!(match_quality(true, 2, Pairing::BiasToLight), MatchQuality::ClosestGain);
}

#[test]
fn darks_that_were_all_refused_block_the_role_rather_than_vanish() {
    let refusal = Incompatibility::BitDepth { expected: 14, found: 12 };
    let mut blocked: Vec<BlockedRole> = Vec::new();
    let found = resolve(&mut blocked, FrameKind::Dark, SetId(0), None, vec![(SetId(3), refusal.clone())]);
    assert!(found.is_none());
    assert_eq!(blocked.len(), 1);
    assert_eq!(blocked[0].kind, FrameKind::Dark);
    assert_eq!(blocked[0].against, SetId(0));
    assert_eq!(blocked[0].candidates, vec![(SetId(3), refusal.clone())]);

    // No darks offered at all is not a blocked role.
    assert!(resolve(&mut blocked, FrameKind::Bias, SetId(0), None, Vec::new()).is_none());
    // Nor is a role that was matched despite refusals.
    let matched = CalibrationMatch {
        set: SetId(4),
        pairing: Pairing::FlatToLight,
        quality: MatchQuality::OnlyCandidate,
        alternatives: 0,
        mismatches: Vec::new(),
    };
    let kept = resolve(&mut blocked, FrameKind::Flat, SetId(0), Some(matched), vec![(SetId(5), refusal)]);
    assert_eq!(kept.map(|m| m.set), Some(SetId(4)));
    assert_eq!(blocked.len(), 1);
}

#[test]
fn a_refused_choice_reads_as_the_command_prints_it() {
    assert_eq!(ChoiceError::NoPlans.describe(), "no stackable set of lights was formed, so there is nothing to act on");
    assert_eq!(
        ChoiceError::Tied { first: SetId(1), second: SetId(2), depth: 40 }.describe(),
        "sets 1 and 2 both hold 40 lights \u{2014} say which with --set"
    );
    assert_eq!(
        ChoiceError::Tied { first: SetId(0), second: SetId(3), depth: 1 }.describe(),
        "sets 0 and 3 both hold 1 light \u{2014} say which with --set"
    );
    assert_eq!(
        ChoiceError::NotALightSet { wanted: 7, available: vec![(SetId(0), 3), (SetId(1), 1)] }.describe(),
        "set 7 is not a light set with a plan. Try one of: 0 (3 frames), 1 (1 frame)"
    );
    assert_eq!(
        ChoiceError::NoLightSet.describe(),
        "every plan names a light set that is not in the partition"
    );
    assert_eq!(
        ChoiceError::DeepestSetMissing.describe(),
        "the deepest plan names a light set that is not in the partition"
    );
}

#[test]
fn a_tie_found_by_choosing_is_worded_with_both_sets() {
    let (session, partition) = integrations(&[1, 40, 40]);
    let error = partition.choose_integration(&session, None).err().expect("a tie");
    assert_eq!(error.describe(), "sets 1 and 2 both hold 40 lights \u{2014} say which with --set");
}
