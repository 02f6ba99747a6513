use astro_core::frame::{FrameInfo, ImageLayout};
use astro_core::kind::FrameRole;
use astro_core::session::{
    BodyKey, DirId, ExclusionSource, FrameFingerprint, FrameId, FrameRecord, FrameSource, GroupId, PluginId,
    Rejection, Session,
};
use astro_core::survey::{select_lights, SelectionError};

fn light(index: usize) -> FrameRecord {
    let name = format!("L_{index:04}.CR3");
    let info = FrameInfo::empty();
    FrameRecord {
        source: FrameSource {
            directory: DirId(0),
            file_name: name.clone(),
            plugin: PluginId(0),
            fingerprint: FrameFingerprint::new(45_000_000, Some(1_787_834_096), name.as_bytes()),
        },
        layout: ImageLayout::empty(),
        body: BodyKey::from_info(&info),
        info,
        role: FrameRole::unassigned(),
        group: GroupId::main(),
        exclusion: None,
    }
}

/// Ten lights, the fourth and the seventh left out.
fn run() -> (Session, Vec<FrameId>) {
    let mut session = Session::new();
    let members: Vec<FrameId> = (0..10).map(|index| session.insert(light(index))).collect();
    session.exclude(FrameId(3), Rejection::Excluded, ExclusionSource::User);
    session.exclude(FrameId(6), Rejection::Excluded, ExclusionSource::User);
    (session, members)
}

#[test]
fn a_read_takes_every_active_light_by_default() {
    let (session, members) = run();
    let taken = select_lights(&session, &members, 0, 1, None).unwrap();
    assert_eq!(taken, [0, 1, 2, 4, 5, 7, 8, 9].map(FrameId).to_vec());
}

#[test]
fn skip_step_and_take_count_active_lights_only() {
    let (session, members) = run();
    // Active: 0 1 2 4 5 7 8 9. Skip two: 2 4 5 7 8 9. Every second: 2 5 8.
    assert_eq!(select_lights(&session, &members, 2, 2, None).unwrap(), [2, 5, 8].map(FrameId).to_vec());
    assert_eq!(select_lights(&session, &members, 2, 2, Some(2)).unwrap(), [2, 5].map(FrameId).to_vec());
    assert_eq!(select_lights(&session, &members, 2, 2, Some(50)).unwrap(), [2, 5, 8].map(FrameId).to_vec());
    assert_eq!(select_lights(&session, &members, 7, 3, None).unwrap(), [FrameId(9)].to_vec());
    assert_eq!(select_lights(&session, &members, 0, 100, None).unwrap(), [FrameId(0)].to_vec());
}

#[test]
fn a_step_of_zero_is_refused() {
    let (session, members) = run();
    let refused = select_lights(&session, &members, 0, 0, None).unwrap_err();
    assert_eq!(refused, SelectionError::StepZero);
    assert_eq!(refused.describe(), "--step 0 would read no frames");
}

#[test]
fn skipping_past_the_end_is_refused_with_the_skip() {
    let (session, members) = run();
    let refused = select_lights(&session, &members, 8, 1, None).unwrap_err();
    assert_eq!(refused, SelectionError::NothingLeft { skip: 8 });
    assert_eq!(refused.describe(), "--skip 8 left no lights to read");
    assert_eq!(select_lights(&session, &members, 0, 1, Some(0)).unwrap_err(), SelectionError::NothingLeft { skip: 0 });
}
