use astro_core::combine::{
    budget_for, decode_workers, decode_workers_for, holds_every_frame, resident_budget_bytes, samples_to_combine, Method,
    Refusal, FALLBACK_RESIDENT_BYTES, MEDIAN_CEILING,
};
use astro_core::compat::Incompatibility;
use astro_core::frame::{FrameInfo, ImageLayout};
use astro_core::kind::{FrameKind, FrameRole};
use astro_core::session::{BodyKey, DirId, FrameFingerprint, FrameId, FrameRecord, FrameSource, GroupId, PluginId, Session};

const GIB: u64 = 1 << 30;

/// Darks from a Canon R5, the last `twelve_bit` of them read in a 12-bit mode.
fn darks(count: usize, twelve_bit: usize) -> (Session, Vec<FrameId>) {
    let mut session = Session::new();
    let ids = (0..count)
        .map(|index| {
            let name = format!("D_{index:04}.CR3");
            let mut layout = ImageLayout::empty();
            layout.width = 8280;
            layout.height = 5520;
            layout.bits_per_sample = if index + twelve_bit >= count { 12 } else { 14 };
            let info = FrameInfo::empty();
            session.insert(FrameRecord {
                source: FrameSource {
                    directory: DirId(0),
                    file_name: name.clone(),
                    plugin: PluginId(0),
                    fingerprint: FrameFingerprint::new(45_000_000, Some(1_787_834_096), name.as_bytes()),
                },
                layout,
                body: BodyKey::from_info(&info),
                info,
                role: FrameRole::Assigned(FrameKind::Dark),
                group: GroupId::main(),
                exclusion: None,
            })
        })
        .collect();
    (session, ids)
}

#[test]
fn the_median_stops_where_a_sigma_can_be_trusted() {
    assert_eq!(Method::for_frames(1), Method::Median);
    assert_eq!(Method::for_frames(MEDIAN_CEILING - 1), Method::Median);
    assert_eq!(Method::for_frames(MEDIAN_CEILING), Method::ClippedMean);
    assert_eq!(Method::for_frames(85), Method::ClippedMean);
    assert_eq!(Method::Median.name(), "median");
    assert_eq!(Method::ClippedMean.name(), "clipped mean");
}

#[test]
fn the_budget_is_an_eighth_of_the_machine_and_never_below_the_fallback() {
    assert_eq!(FALLBACK_RESIDENT_BYTES, 2 * GIB);
    assert_eq!(budget_for(None), 2 * GIB);
    assert_eq!(budget_for(Some(64 * GIB)), 8 * GIB);
    assert_eq!(budget_for(Some(8 * GIB)), 2 * GIB);
    assert!(resident_budget_bytes() >= 2 * GIB);
}

#[test]
fn decoding_uses_no_more_workers_than_cores_or_frames() {
    assert_eq!(decode_workers_for(Some(8), 16, 3), 3);
    assert_eq!(decode_workers_for(Some(8), 16, 100), 8);
    assert_eq!(decode_workers_for(None, 16, 100), 8, "halved logical parallelism");
    assert_eq!(decode_workers_for(None, 4, 100), 4);
    assert_eq!(decode_workers_for(Some(8), 16, 0), 1, "never none");
    let workers = decode_workers(5, 4);
    assert!((1..=5).contains(&workers));
}

#[test]
fn a_median_is_held_whatever_the_budget_says() {
    let frame = 50_000_000u64;
    assert!(holds_every_frame(Method::Median, 100, frame, 4, GIB));
    assert!(!holds_every_frame(Method::ClippedMean, 100, frame, 4, GIB));
    assert!(holds_every_frame(Method::ClippedMean, 100, frame, 4, 8 * GIB));
    // A clipped mean whose frames fit beside the overhead is held.
    assert!(holds_every_frame(Method::ClippedMean, 30, frame, 4, 2 * GIB));
}

#[test]
fn nothing_to_combine_is_refused() {
    let (session, _) = darks(1, 0);
    assert!(matches!(samples_to_combine(&session, &Vec::new()), Err(Refusal::NothingToCombine)));
}

#[test]
fn a_set_of_one_geometry_works_in_one_sample_per_photosite() {
    let (session, ids) = darks(3, 0);
    assert_eq!(samples_to_combine(&session, &ids).ok(), Some(8280 * 5520));
}

#[test]
fn a_frame_of_another_geometry_is_named_with_the_difference() {
    let (session, ids) = darks(4, 2);
    match samples_to_combine(&session, &ids) {
        Err(Refusal::Incompatible { frame, reason }) => {
            assert_eq!(frame, ids[2], "the first that differs");
            assert_eq!(reason, Incompatibility::BitDepth { expected: 14, found: 12 });
        },
        _ => panic!("a twelve-bit frame cannot join fourteen-bit ones"),
    }
}
