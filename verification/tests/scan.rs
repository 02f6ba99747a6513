use astro_core::frame::{FrameInfo, ImageLayout};
use astro_core::kind::{Basis, FrameKind, FrameRole, Inference};
use astro_core::scan::{
    deepest_rule, gather, has_supported_extension, insert_scanned, order_candidates, pool_size, presentable, FirstFrame,
    Outcome, RoleRule, ScanOptions, Scanned,
};
use astro_core::session::{Exclusion, ExclusionSource, FrameFingerprint, FrameId, GroupId, Rejection, Session};

#[test]
fn the_deepest_rule_claims_a_file() {
    // What `--lights session/ --darks session/darks/` has to mean, whichever
    // order the flags came in.
    let rules = vec![
        RoleRule::new("D:/astro/session", Some(FrameKind::Light)),
        RoleRule::new("D:/astro/session/darks", Some(FrameKind::Dark)),
    ];
    let light = deepest_rule(&rules, "D:/astro/session/IMG_0001.CR3");
    assert_eq!(light.and_then(|rule| rule.kind), Some(FrameKind::Light));

    let dark = deepest_rule(&rules, "D:/astro/session/darks/IMG_0100.CR3");
    assert_eq!(dark.and_then(|rule| rule.kind), Some(FrameKind::Dark));

    assert_eq!(deepest_rule(&rules, "D:/elsewhere/x.CR3"), None);
}

#[test]
fn an_assigned_copy_outranks_an_unassigned_one() {
    // Which of two identical files survives deduplication is decided here,
    // by the order they are opened in.
    let rules = vec![RoleRule::new("D:/misc", None), RoleRule::new("D:/lights", Some(FrameKind::Light))];
    let mut candidates = vec!["D:/misc/copy.CR3".to_owned(), "D:/lights/IMG_0001.CR3".to_owned()];
    candidates.sort();
    assert_eq!(candidates[0], "D:/lights/IMG_0001.CR3");

    // Now the case that bites: the unassigned folder sorts first.
    let candidates = vec!["D:/lights/IMG_0001.CR3".to_owned(), "D:/misc/copy.CR3".to_owned()];
    let ordered = order_candidates(&rules, &candidates);
    assert_eq!(ordered[0], "D:/lights/IMG_0001.CR3", "the frame the user named must be the one that stays");

    let candidates = vec!["D:/a/x.CR3".to_owned(), "D:/lights/y.CR3".to_owned(), "D:/misc/z.CR3".to_owned()];
    assert_eq!(
        order_candidates(&rules, &candidates),
        vec!["D:/lights/y.CR3".to_owned(), "D:/a/x.CR3".to_owned(), "D:/misc/z.CR3".to_owned()]
    );
}

#[test]
fn a_directory_walk_skips_what_no_plugin_reads() {
    let extensions = vec!["cr2".to_owned(), "cr3".to_owned()];
    assert!(has_supported_extension("a/IMG_0001.CR3", &extensions));
    assert!(has_supported_extension("a/IMG_0001.cr2", &extensions));
    assert!(!has_supported_extension("a/IMG_0001.xmp", &extensions));
    assert!(!has_supported_extension("a/capture.log", &extensions));
    assert!(!has_supported_extension("a/README", &extensions));
}

#[test]
fn the_extension_is_what_follows_the_last_dot_that_does_not_start_the_name() {
    let extensions = vec!["cr3".to_owned()];
    assert!(has_supported_extension("a/IMG_0001.tar.CR3", &extensions));
    assert!(!has_supported_extension("a/.cr3", &extensions), "a hidden file has no extension");
    assert!(!has_supported_extension("a/IMG_0001.CR3.", &extensions), "an empty extension");
}

#[test]
fn of_two_equally_deep_rules_the_later_claims_the_file() {
    let rules = vec![RoleRule::new("D:/astro", Some(FrameKind::Light)), RoleRule::new("D:/astro", Some(FrameKind::Flat))];
    assert_eq!(deepest_rule(&rules, "D:/astro/x.CR3").and_then(|r| r.kind), Some(FrameKind::Flat));
}

#[test]
fn a_rule_claims_only_whole_components() {
    let rules = vec![RoleRule::new("D:/astro/dark", Some(FrameKind::Dark))];
    assert_eq!(deepest_rule(&rules, "D:/astro/darkflats/x.CR3"), None);
    assert!(deepest_rule(&rules, "D:/astro/dark").is_some(), "a path starts with itself");
}

#[test]
fn the_verbatim_prefix_is_dropped_except_from_a_share() {
    assert_eq!(presentable("\\\\?\\D:\\astro\\x.CR3"), "D:\\astro\\x.CR3");
    assert_eq!(presentable("\\\\?\\UNC\\server\\share"), "\\\\?\\UNC\\server\\share");
    assert_eq!(presentable("D:/astro"), "D:/astro");
    assert_eq!(presentable("\\\\?"), "\\\\?");
}

#[test]
fn the_pool_is_sized_against_the_frame_actually_present() {
    assert_eq!(pool_size(FirstFrame::Nothing, 1 << 30, 8), 1);
    assert_eq!(pool_size(FirstFrame::Unreadable, 1 << 30, 8), 4);
    assert_eq!(pool_size(FirstFrame::Unreadable, 1 << 30, 2), 2);
    // Ninety megabytes a frame against half a gigabyte: five at once.
    assert_eq!(pool_size(FirstFrame::Opened { required_bytes: Some(90_000_000) }, 512 << 20, 16), 5);
    // Never fewer than one, never more than the machine.
    assert_eq!(pool_size(FirstFrame::Opened { required_bytes: Some(1 << 40) }, 512 << 20, 16), 1);
    assert_eq!(pool_size(FirstFrame::Opened { required_bytes: Some(1) }, 512 << 20, 16), 16);
    // A frame whose size could not be counted is taken as sixty-four MiB.
    assert_eq!(pool_size(FirstFrame::Opened { required_bytes: None }, 512 << 20, 16), 8);
}

fn scanned(name: &str) -> Scanned {
    let mut info = FrameInfo::empty();
    info.camera_make = "Canon".to_owned();
    info.camera_model = "Canon EOS R5".to_owned();
    Scanned {
        layout: ImageLayout::empty(),
        info,
        plugin: "canon".to_owned(),
        fingerprint: FrameFingerprint::new(10, None, name.as_bytes()),
    }
}

#[test]
fn a_scanned_frame_is_filed_by_the_rule_that_claims_it() {
    let mut options = ScanOptions::default();
    options.rules = vec![
        RoleRule::new("D:/astro", None),
        RoleRule::new("D:/astro/mon/darks", Some(FrameKind::Dark)).in_group(Some("mon".to_owned())),
    ];
    options.excluded = vec!["img_0002.cr3".to_owned()];
    let mut session = Session::new();

    let dark = insert_scanned(&mut session, &options, "D:/astro/mon/darks/IMG_0001.CR3", scanned("a"), Inference::NoEvidence);
    let record = session.record(dark);
    assert_eq!(record.role, FrameRole::Assigned(FrameKind::Dark));
    assert_eq!(session.group_name(record.group), "mon");
    assert_ne!(record.group, GroupId::main());
    assert_eq!(session.directory(record.source.directory), "D:/astro/mon/darks");
    assert_eq!(record.source.file_name, "IMG_0001.CR3");
    assert_eq!(session.plugin(record.source.plugin), "canon");
    assert_eq!(record.exclusion, None);
    assert_eq!(record.body.display(), "Canon EOS R5");

    let flat = insert_scanned(&mut session, &options, "D:/astro/Flats/IMG_0002.CR3", scanned("b"), Inference::NoEvidence);
    let record = session.record(flat);
    assert_eq!(record.group, GroupId::main());
    assert_eq!(record.role.clone(), FrameRole::Unassigned { inference: astro_core::kind::infer_from_path("D:/astro/Flats/IMG_0002.CR3") });
    assert_eq!(record.exclusion, Some(Exclusion { reason: Rejection::Excluded, by: ExclusionSource::User }));
    assert_eq!(session.len(), 2);
}

#[test]
fn with_paths_not_read_as_evidence_nothing_is_proposed() {
    let mut options = ScanOptions::default();
    options.infer_from_paths = false;
    let mut session = Session::new();
    let metadata = Inference::Proposed {
        kind: FrameKind::Bias,
        basis: Basis::MinimumShutter { seconds_bits: (1.0f64 / 4000.0).to_bits() },
    };
    let id = insert_scanned(&mut session, &options, "D:/astro/Flats/IMG_0002.CR3", scanned("c"), metadata);
    assert_eq!(session.record(id).role, FrameRole::Unassigned { inference: Inference::NoEvidence });
}

#[test]
fn roots_become_rules_in_kind_order() {
    let roots = astro_core::scan::Roots {
        lights: vec!["L1".to_owned(), "L2".to_owned()],
        darks: vec!["D".to_owned()],
        flats: vec![],
        biases: vec!["B".to_owned()],
        dark_flats: vec!["DF".to_owned()],
    };
    let rules = roots.rules();
    let seen: Vec<(String, Option<FrameKind>)> = rules.iter().map(|r| (r.root.clone(), r.kind)).collect();
    assert_eq!(
        seen,
        vec![
            ("L1".to_owned(), Some(FrameKind::Light)),
            ("L2".to_owned(), Some(FrameKind::Light)),
            ("D".to_owned(), Some(FrameKind::Dark)),
            ("B".to_owned(), Some(FrameKind::Bias)),
            ("DF".to_owned(), Some(FrameKind::DarkFlat)),
        ]
    );
    assert!(rules.iter().all(|r| r.group_name.is_none()));
}

#[test]
fn a_scan_keeps_the_first_copy_and_names_the_later_one_a_duplicate() {
    let opened: Vec<(String, Outcome)> = vec![
        ("night/IMG_0001.CR3".to_owned(), Ok((scanned("one"), Inference::NoEvidence))),
        ("night/notes.txt".to_owned(), Err(Rejection::NotAFrame)),
        ("night/IMG_0002.CR3".to_owned(), Ok((scanned("two"), Inference::NoEvidence))),
        ("backup/IMG_0001.CR3".to_owned(), Ok((scanned("one"), Inference::NoEvidence))),
        ("night/IMG_0003.CR3".to_owned(), Err(Rejection::Unreadable { detail: "truncated".to_owned() })),
    ];
    let (session, rejected) = gather(&ScanOptions::default(), opened);
    assert_eq!(session.len(), 2);
    assert_eq!(session.record(FrameId(0)).source.file_name, "IMG_0001.CR3");
    assert_eq!(session.record(FrameId(1)).source.file_name, "IMG_0002.CR3");
    assert_eq!(
        rejected,
        vec![
            ("night/notes.txt".to_owned(), Rejection::NotAFrame),
            ("backup/IMG_0001.CR3".to_owned(), Rejection::Duplicate { of: FrameId(0) }),
            ("night/IMG_0003.CR3".to_owned(), Rejection::Unreadable { detail: "truncated".to_owned() }),
        ]
    );
}

#[test]
fn nothing_opened_files_nothing() {
    let (session, rejected) = gather(&ScanOptions::default(), Vec::new());
    assert!(session.is_empty());
    assert!(rejected.is_empty());
}
