use astro_core::frame::{FrameInfo, ImageLayout};
use astro_core::kind::{FrameKind, FrameRole};
use astro_core::pipeline::{
    master_action, master_order, size_the_pool, worker_ceiling, MasterAction, Wanted, PEAK_MULTIPLE_OF_RAW,
};
use astro_core::session::{BodyKey, DirId, FrameFingerprint, FrameId, FrameRecord, FrameSource, GroupId, PluginId, Session};
use astro_core::sets::SetId;

/// A run of lights from a Canon R5: 8280 by 5520 sixteen-bit photosites.
fn a_run_of(count: usize) -> (Session, Vec<FrameId>) {
    let mut session = Session::new();
    let lights = (0..count)
        .map(|index| {
            let name = format!("IMG_{index:04}.CR3");
            let mut layout = ImageLayout::empty();
            layout.width = 8280;
            layout.height = 5520;
            let info = FrameInfo::empty();
            session.insert(FrameRecord {
                source: FrameSource {
                    directory: DirId(0),
                    file_name: name.clone(),
                    plugin: PluginId(0),
                    fingerprint: FrameFingerprint::new(45_000_000, Some(1_787_834_096), name.as_bytes()),
                },
                layout,
                body: BodyKey::from_info(&info),
                info,
                role: FrameRole::Assigned(FrameKind::Light),
                group: GroupId::main(),
                exclusion: None,
            })
        })
        .collect();
    (session, lights)
}

#[test]
fn a_budget_that_fits_one_frame_measures_one_frame_at_a_time() {
    let (session, lights) = a_run_of(8);
    let peak = 8280u64 * 5520 * 2 * PEAK_MULTIPLE_OF_RAW;
    assert_eq!(size_the_pool(&session, &lights, peak, 16), 1);
    assert_eq!(size_the_pool(&session, &lights, peak * 3 / 2, 16), 1);
    assert_eq!(size_the_pool(&session, &lights, peak * 2, 16), 2);
}

#[test]
fn a_generous_budget_stops_at_the_machine_rather_than_at_the_frame_count() {
    let (session, lights) = a_run_of(8);
    let ceiling = worker_ceiling(16);
    let workers = size_the_pool(&session, &lights, u64::MAX / 2, ceiling);
    assert_eq!(workers, ceiling);
    assert!(workers >= 1);
}

#[test]
fn a_budget_too_small_for_one_frame_still_runs_one() {
    let (session, lights) = a_run_of(2);
    assert_eq!(size_the_pool(&session, &lights, 1, 8), 1);
}

#[test]
fn lights_the_session_does_not_hold_are_sized_at_the_assumed_frame() {
    let (session, _) = a_run_of(1);
    // Nothing known: sixty-four mebibytes a frame, nine times over.
    assert_eq!(size_the_pool(&session, &vec![FrameId(40)], 67_108_864 * 9 * 3, 8), 3);
    assert_eq!(size_the_pool(&session, &Vec::new(), 67_108_864 * 9 * 20, 8), 8);
}

#[test]
fn the_ceiling_halves_logical_parallelism_from_eight_up() {
    assert_eq!(worker_ceiling(4), 4);
    assert_eq!(worker_ceiling(7), 7);
    assert_eq!(worker_ceiling(8), 4);
    assert_eq!(worker_ceiling(16), 8);
}

#[test]
fn a_bias_is_built_only_for_a_caller_that_writes_masters_out() {
    assert!(!Wanted::Applied.includes(FrameKind::Bias));
    assert!(Wanted::Applied.includes(FrameKind::Dark));
    assert!(Wanted::Matched.includes(FrameKind::Bias));
    assert_eq!(master_action(FrameKind::Bias, Some(SetId(2)), true, Wanted::Applied), MasterAction::ReportUnused(SetId(2)));
    assert_eq!(master_action(FrameKind::Bias, Some(SetId(2)), true, Wanted::Matched), MasterAction::Build(SetId(2)));
}

#[test]
fn a_missing_role_is_reported_only_where_it_would_have_been_used() {
    assert_eq!(master_action(FrameKind::Bias, None, false, Wanted::Applied), MasterAction::Skip);
    assert_eq!(master_action(FrameKind::Dark, None, false, Wanted::Applied), MasterAction::ReportMissing);
    assert_eq!(master_action(FrameKind::Flat, Some(SetId(1)), false, Wanted::Applied), MasterAction::ReportMissing);
}

#[test]
fn masters_are_built_in_the_order_they_are_applied() {
    assert_eq!(master_order(), [FrameKind::Bias, FrameKind::Dark, FrameKind::Flat]);
}
