use astro_core::kind::{
    infer, infer_from_path, kind_from_pair, kind_from_token, kind_from_tokens, tokenise, Basis, FrameKind, Inference,
};

fn proposed(path: &str) -> Option<FrameKind> {
    infer_from_path(path).proposed()
}

#[test]
fn a_directory_named_flat61_does_not_make_a_flat() {
    // A real rig name: a William Optics GT81 with a field flattener. The
    // frame kind is the folder nearer the file, and `Flat61` is one token.
    assert_eq!(proposed("D:/astro/WO-GT81-Flat61/Lights/IMG_0001.CR3"), Some(FrameKind::Light));
    assert_eq!(proposed("D:/astro/WO-GT81-Flat61/IMG_0001.CR3"), None);
}

#[test]
fn the_folder_nearest_the_file_wins() {
    // A darks folder inside a session folder called Lights.
    assert_eq!(proposed("D:/astro/M31/Lights/Darks/IMG_0001.CR3"), Some(FrameKind::Dark));
}

#[test]
fn darkflat_is_read_before_dark() {
    for path in [
        "D:/astro/DarkFlats/x.CR3",
        "D:/astro/dark flats/x.CR3",
        "D:/astro/dark_flat/x.CR3",
        "D:/astro/flatdarks/x.CR3",
        "D:/astro/flat-darks/x.CR3",
    ] {
        assert_eq!(proposed(path), Some(FrameKind::DarkFlat), "{path}");
    }
}

#[test]
fn a_filename_and_a_folder_that_disagree_leave_the_frame_unassigned() {
    let inference = infer_from_path("D:/astro/Darks/Flat_0001.CR3");
    let Inference::Ambiguous(readings) = &inference else {
        panic!("expected an ambiguous reading, got {inference:?}");
    };
    assert_eq!(readings.len(), 2);
    assert!(readings.iter().any(|(kind, _)| *kind == FrameKind::Dark));
    assert!(readings.iter().any(|(kind, _)| *kind == FrameKind::Flat));
    // And crucially: it proposes nothing, so nothing is assigned.
    assert_eq!(inference.proposed(), None);
}

#[test]
fn the_common_case_is_no_evidence_at_all() {
    assert_eq!(infer_from_path("D:/astro/M31/IMG_0001.CR3"), Inference::NoEvidence);
}

#[test]
fn capture_software_conventions_are_recognised() {
    assert_eq!(proposed("D:/N.I.N.A./M31/LIGHT/2026-08-27_M31.CR3"), Some(FrameKind::Light));
    assert_eq!(proposed("D:/Ekos/M31/Dark/Dark_300_secs_001.cr3"), Some(FrameKind::Dark));
    assert_eq!(proposed("D:/siril/biases/bias_00001.cr2"), Some(FrameKind::Bias));
    assert_eq!(proposed("D:/tools/OFFSET/o_0001.cr2"), Some(FrameKind::Bias));
}

#[test]
fn path_evidence_outranks_a_short_exposure() {
    // A flat through a fast astrograph is as short as a bias. The folder
    // knows better than the shutter speed does.
    let from_metadata = Inference::Proposed {
        kind: FrameKind::Bias,
        basis: Basis::MinimumShutter { seconds_bits: (1.0f64 / 4000.0).to_bits() },
    };
    let inference = infer("D:/astro/Flats/IMG_0001.CR3", from_metadata);
    assert_eq!(inference.proposed(), Some(FrameKind::Flat));
}

#[test]
fn a_dark_flat_calibrates_the_flats_and_not_the_lights() {
    assert_eq!(FrameKind::DarkFlat.calibrates(), Some(FrameKind::Flat));
    assert_eq!(FrameKind::Dark.calibrates(), Some(FrameKind::Light));
    assert_eq!(FrameKind::Light.calibrates(), None);
    assert!(!FrameKind::Light.is_calibration());
    assert!(FrameKind::DarkFlat.is_calibration());
}

#[test]
fn metadata_speaks_only_when_the_path_says_nothing() {
    let from_metadata = Inference::Proposed {
        kind: FrameKind::Bias,
        basis: Basis::MinimumShutter { seconds_bits: (1.0f64 / 4000.0).to_bits() },
    };
    let inference = infer("D:/astro/M31/IMG_0001.CR3", from_metadata.clone());
    assert_eq!(inference, from_metadata);
}

#[test]
fn text_is_cut_into_lowercase_tokens_at_anything_not_a_letter_or_digit() {
    assert_eq!(tokenise("Dark_300_secs-001"), vec!["dark", "300", "secs", "001"]);
    assert_eq!(tokenise("__"), Vec::<String>::new());
    assert_eq!(tokenise("FLAT61"), vec!["flat61"]);
}

#[test]
fn single_tokens_and_pairs_name_kinds() {
    assert_eq!(kind_from_token(&"lights".to_owned()), Some(FrameKind::Light));
    assert_eq!(kind_from_token(&"offset".to_owned()), Some(FrameKind::Bias));
    assert_eq!(kind_from_token(&"flat61".to_owned()), None);
    assert_eq!(kind_from_pair(&"dark".to_owned(), &"flats".to_owned()), Some(FrameKind::DarkFlat));
    assert_eq!(kind_from_pair(&"flat".to_owned(), &"darks".to_owned()), Some(FrameKind::DarkFlat));
    assert_eq!(kind_from_pair(&"dark".to_owned(), &"lights".to_owned()), None);
}

#[test]
fn a_pair_is_read_before_its_first_word() {
    let tokens = tokenise("dark flats");
    let (kind, token) = kind_from_tokens(&tokens).expect("a reading");
    assert_eq!(kind, FrameKind::DarkFlat);
    assert_eq!(token, "dark flats");
}

#[test]
fn every_kind_has_a_name_and_a_flag() {
    let names: Vec<&str> = FrameKind::all().iter().map(|k| k.name()).collect();
    assert_eq!(names, vec!["light", "dark", "flat", "bias", "dark flat"]);
    assert_eq!(FrameKind::DarkFlat.assign_flag(), "--dark-flats");
    assert_eq!(FrameKind::Bias.assign_flag(), "--biases");
}
