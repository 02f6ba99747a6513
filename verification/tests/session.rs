use astro_core::frame::{FrameInfo, ImageLayout, SampleFormat, COLOR_BLUE, COLOR_GREEN, COLOR_RED};
use astro_core::kind::{FrameKind, FrameRole};
use astro_core::session::{
    fnv1a, may_draw_from, BodyKey, DirId, ExclusionSource, FrameFingerprint, FrameRecord, FrameSource, GroupId,
    PluginId, Rejection, Session, Suggestion, FNV_OFFSET, FNV_PRIME, MAIN_GROUP,
};

/// A Canon R5 sensor: RGGB, 14 bit, full frame.
fn r5_layout() -> ImageLayout {
    let mut layout = ImageLayout::empty();
    layout.width = 8280;
    layout.height = 5520;
    layout.components = 1;
    layout.bits_per_sample = 14;
    layout.sample_format = SampleFormat(0);
    layout.cfa_width = 2;
    layout.cfa_height = 2;
    layout.active_width = 8192;
    layout.active_height = 5464;
    layout.black_level_width = 2;
    layout.black_level_height = 2;
    layout.white_level_bits = [16383.0f32.to_bits(); 4];
    layout.orientation = 1;
    layout.cfa_pattern[..4].copy_from_slice(&[COLOR_RED, COLOR_GREEN, COLOR_GREEN, COLOR_BLUE]);
    for cell in layout.black_level_bits[..4].iter_mut() {
        *cell = 2048.0f32.to_bits();
    }
    layout
}

/// A five-minute sub at ISO 1600, through a telescope.
fn light() -> FrameInfo {
    FrameInfo {
        camera_make: "Canon".to_owned(),
        camera_model: "Canon EOS R5".to_owned(),
        lens_model: String::new(),
        exposure_seconds_bits: Some(300.0f64.to_bits()),
        iso_bits: Some(1600.0f64.to_bits()),
        aperture_bits: None,
        focal_length_mm_bits: None,
        capture_time_unix: Some(1_787_834_096),
        sensor_temperature_c_bits: None,
    }
}

fn record(file_name: &str, info: FrameInfo) -> FrameRecord {
    FrameRecord {
        source: FrameSource {
            directory: DirId(0),
            file_name: file_name.to_owned(),
            plugin: PluginId(0),
            // Distinct per name, so that duplicate detection has something to
            // work with.
            fingerprint: FrameFingerprint::new(45_000_000, Some(1_787_834_096), file_name.as_bytes()),
        },
        layout: r5_layout(),
        body: BodyKey::from_info(&info),
        info,
        role: FrameRole::unassigned(),
        group: GroupId::main(),
        exclusion: None,
    }
}

#[test]
fn the_same_bytes_under_two_paths_are_one_frame() {
    let mut session = Session::new();
    let first = session.insert(record("a.cr3", light()));
    // A second copy of the same file, reached through a mapped drive.
    let same = session.frames()[first.index()].source.fingerprint;
    assert_eq!(session.find_by_content(same), Some(first));

    let other = record("b.cr3", light());
    assert_eq!(session.find_by_content(other.source.fingerprint), None);
}

#[test]
fn a_moved_file_is_recognised_by_content() {
    // Copying a frame to another drive keeps its bytes and loses its
    // timestamp. It is still the same frame.
    let first_copy = FrameFingerprint::new(1024, Some(1_700_000_000), b"CR3 header");
    let copied = FrameFingerprint::new(1024, None, b"CR3 header");
    assert_ne!(first_copy, copied);
    assert!(first_copy.same_content(copied));

    let edited = FrameFingerprint::new(1024, Some(1_700_000_000), b"CR3 heaDer");
    assert!(!first_copy.same_content(edited));
}

#[test]
fn a_user_exclusion_survives_a_rescan() {
    let mut session = Session::new();
    let id = session.insert(record("a.cr3", light()));

    session.exclude(id, Rejection::Unclassified, ExclusionSource::User);
    session.exclude(id, Rejection::NotAFrame, ExclusionSource::Automatic);

    let exclusion = session.record(id).exclusion.as_ref().expect("still excluded");
    assert_eq!(exclusion.by, ExclusionSource::User);
    assert_eq!(exclusion.reason, Rejection::Unclassified);
}

#[test]
fn excluding_a_frame_does_not_renumber_the_others() {
    // The whole reason ids are dense and never reused: a side table written
    // by a later pass indexes into the session by position.
    let mut session = Session::new();
    let ids: Vec<_> = ["a.cr3", "b.cr3", "c.cr3"].iter().map(|n| session.insert(record(n, light()))).collect();

    session.exclude(ids[1], Rejection::Unclassified, ExclusionSource::User);

    assert_eq!(session.len(), 3);
    assert_eq!(session.active().into_iter().map(|(id, _)| id).collect::<Vec<_>>(), vec![ids[0], ids[2]]);
    assert_eq!(session.record(ids[2]).source.file_name.as_str(), "c.cr3");
}

#[test]
fn the_main_group_is_reachable_from_every_group() {
    // A bias library in the main group serves every night...
    assert!(may_draw_from("mon", MAIN_GROUP));
    assert!(may_draw_from("tue", MAIN_GROUP));
    // ...but Monday's darks stay with Monday.
    assert!(!may_draw_from("tue", "mon"));
    assert!(may_draw_from("mon", "mon"));
}

#[test]
fn the_main_group_name_is_reserved() {
    // Asking for it by name hands back the global group, which is why a
    // caller taking the name from a person has to refuse it.
    let mut session = Session::new();
    assert_eq!(session.intern_group(MAIN_GROUP), GroupId::main());
    assert_eq!(session.intern_group("mon"), GroupId(1));
    assert_eq!(session.group_name(GroupId::main()), MAIN_GROUP);
}

#[test]
fn a_canon_body_is_not_named_twice() {
    let canon = BodyKey { make: "Canon".into(), model: "Canon EOS R5".into(), serial: None };
    assert_eq!(canon.display(), "Canon EOS R5");

    let nikon = BodyKey { make: "Nikon".into(), model: "D850".into(), serial: None };
    assert_eq!(nikon.display(), "Nikon D850");
}

#[test]
fn a_body_name_is_trimmed_of_unicode_spaces_as_well() {
    let padded = BodyKey { make: "\u{a0}Nikon\t".into(), model: "\u{2003}D850\u{3000}\n".into(), serial: None };
    assert_eq!(padded.display(), "Nikon D850");
    // A character that only looks like a gap is kept.
    let kept = BodyKey { make: "Nikon".into(), model: "D850\u{200b}".into(), serial: None };
    assert_eq!(kept.display(), "Nikon D850\u{200b}");
}

#[test]
fn a_suggestion_renders_as_a_command_the_user_can_paste() {
    let suggestion = Suggestion::AssignDirectory {
        directory: "D:/astro/M31/darks".to_owned(),
        frames: 40,
        proposed: Some(FrameKind::Dark),
    };
    assert_eq!(suggestion.command_fragment().as_deref(), Some("--darks \"D:/astro/M31/darks\""));
}

#[test]
fn a_suggestion_with_nothing_to_suggest_offers_no_command() {
    // The one place the tool refuses to guess is exactly where a paste-able
    // line is most tempting, and `--lights` would be a guess in disguise.
    let suggestion =
        Suggestion::AssignDirectory { directory: "D:/astro/M31".to_owned(), frames: 9, proposed: None };
    assert_eq!(suggestion.command_fragment(), None);
}

#[test]
fn interning_the_same_directory_twice_gives_one_id() {
    let mut session = Session::new();
    let a = session.intern_directory("D:/astro/lights");
    let b = session.intern_directory("D:/astro/darks");
    let again = session.intern_directory("D:/astro/lights");
    assert_eq!(a, DirId(0));
    assert_eq!(b, DirId(1));
    assert_eq!(again, a);
    assert_eq!(session.directory(b), "D:/astro/darks");
}

#[test]
fn interning_a_plugin_keeps_the_first_id() {
    let mut session = Session::new();
    assert_eq!(session.intern_plugin("canon"), PluginId(0));
    assert_eq!(session.intern_plugin("nikon"), PluginId(1));
    assert_eq!(session.intern_plugin("canon"), PluginId(0));
    assert_eq!(session.plugin(PluginId(1)), "nikon");
}

#[test]
fn the_first_copy_of_a_content_stays_the_one_found() {
    let mut session = Session::new();
    let first = session.insert(record("a.cr3", light()));
    let mut copy = record("copy-of-a.cr3", light());
    copy.source.fingerprint = FrameFingerprint::new(45_000_000, None, b"a.cr3");
    let second = session.insert(copy);
    assert_ne!(first, second);
    let probe = FrameFingerprint::new(45_000_000, Some(1), b"a.cr3");
    assert_eq!(session.find_by_content(probe), Some(first));
}

#[test]
fn readmitting_a_frame_clears_its_exclusion_only() {
    let mut session = Session::new();
    let a = session.insert(record("a.cr3", light()));
    let b = session.insert(record("b.cr3", light()));
    session.exclude(a, Rejection::Excluded, ExclusionSource::User);
    session.exclude(b, Rejection::Excluded, ExclusionSource::User);
    session.readmit(a);
    assert!(session.record(a).exclusion.is_none());
    assert!(session.record(b).exclusion.is_some());
    assert_eq!(session.active().len(), 1);
}

#[test]
fn an_automatic_exclusion_is_replaced_by_a_later_one() {
    let mut session = Session::new();
    let id = session.insert(record("a.cr3", light()));
    session.exclude(id, Rejection::NotAFrame, ExclusionSource::Automatic);
    session.exclude(id, Rejection::Unclassified, ExclusionSource::Automatic);
    let exclusion = session.record(id).exclusion.as_ref().unwrap();
    assert_eq!(exclusion.reason, Rejection::Unclassified);
}

#[test]
fn assigning_a_kind_changes_that_frame_alone() {
    let mut session = Session::new();
    let a = session.insert(record("a.cr3", light()));
    let b = session.insert(record("b.cr3", light()));
    session.assign(b, FrameKind::Dark);
    assert_eq!(session.record(b).role, FrameRole::Assigned(FrameKind::Dark));
    assert_eq!(session.record(a).role, FrameRole::unassigned());
    assert_eq!(session.record(b).kind(), Some(FrameKind::Dark));
}

#[test]
fn a_frame_that_is_not_held_is_not_found() {
    let mut session = Session::new();
    assert!(session.frame(astro_core::session::FrameId(0)).is_none());
    let id = session.insert(record("a.cr3", light()));
    assert!(session.frame(id).is_some());
    assert_eq!(session.ids(), vec![id]);
    assert!(!session.is_empty());
}

#[test]
fn the_header_hash_folds_each_byte_in_then_multiplies() {
    assert_eq!(fnv1a(b""), 0xcbf2_9ce4_8422_2325);
    assert_eq!(FNV_PRIME, 0x100_0000_01b3);
    assert_eq!(fnv1a(b"a"), (FNV_OFFSET ^ 0x61).wrapping_mul(FNV_PRIME));
    assert_eq!(fnv1a(b"a"), 0xaf63_dc4c_8601_ec8c);
    assert_eq!(fnv1a(b"foobar"), 0x8594_4171_f739_67e8);
    assert_ne!(fnv1a(b"ab"), fnv1a(b"ba"));
}

#[test]
fn a_group_name_that_was_never_interned_reads_as_main() {
    let session = Session::new();
    assert_eq!(session.group_name(GroupId(7)), "main");
}
