use astro_core::compat::{Extent, Incompatibility, Property, Rect};
use astro_core::kind::Basis;
use astro_core::session::{FrameId, Rejection};
use astro_core::sets::SetId;

#[test]
fn a_rectangle_reads_as_its_size_then_its_corner() {
    assert_eq!(Rect { x: 44, y: 12, width: 8192, height: 5464 }.describe(), "8192x5464 at 44,12");
}

#[test]
fn a_refusal_reads_found_first_and_expected_second() {
    let dims = Incompatibility::Dimensions {
        expected: Extent { width: 8280, height: 5520 },
        found: Extent { width: 6000, height: 4000 },
    };
    assert_eq!(dims.describe().as_deref(), Some("6000x4000, expected 8280x5520"));
    assert_eq!(
        Incompatibility::Components { expected: 1, found: 3 }.describe().as_deref(),
        Some("3 components per pixel, expected 1")
    );
    assert_eq!(
        Incompatibility::SampleFormat { expected: 0, found: 1 }.describe().as_deref(),
        Some("f32 samples, expected u16")
    );
    assert_eq!(Incompatibility::BitDepth { expected: 14, found: 12 }.describe().as_deref(), Some("12 bit, expected 14"));
    assert_eq!(
        Incompatibility::CfaPattern { expected: Some("RGGB".to_owned()), found: None }.describe().as_deref(),
        Some("no mosaic, expected RGGB")
    );
    assert_eq!(
        Incompatibility::ActiveArea {
            expected: Rect { x: 0, y: 0, width: 10, height: 10 },
            found: Rect { x: 2, y: 2, width: 8, height: 8 }
        }
        .describe()
        .as_deref(),
        Some("active area 8x8 at 2,2, expected 10x10 at 0,0")
    );
    assert_eq!(
        Incompatibility::CameraModel { expected: "Canon EOS R5".to_owned(), found: "Canon EOS R6".to_owned() }
            .describe()
            .as_deref(),
        Some("shot on Canon EOS R6, not Canon EOS R5")
    );
    assert_eq!(
        Incompatibility::Unrecorded { property: Property::Gain }.describe().as_deref(),
        Some("ISO was not recorded, so it could not be matched")
    );
}

#[test]
fn a_gain_refusal_is_left_to_the_caller_to_word() {
    let gain = Incompatibility::Gain { expected_bits: 1600.0f64.to_bits(), found_bits: 800.0f64.to_bits() };
    assert_eq!(gain.describe(), None);
    assert_eq!(Rejection::Incompatible { with: SetId(0), reason: gain }.describe(), None);
}

#[test]
fn a_rejection_reads_as_its_reason() {
    assert_eq!(Rejection::NotAFrame.describe().as_deref(), Some("not a frame any loaded plugin reads"));
    assert_eq!(
        Rejection::Unreadable { detail: "truncated".to_owned() }.describe().as_deref(),
        Some("unreadable: truncated")
    );
    assert_eq!(
        Rejection::Duplicate { of: FrameId(17) }.describe().as_deref(),
        Some("the same file is already in the session as frame 17")
    );
    assert_eq!(
        Rejection::Incompatible {
            with: SetId(2),
            reason: Incompatibility::BitDepth { expected: 14, found: 12 }
        }
        .describe()
        .as_deref(),
        Some("12 bit, expected 14")
    );
    assert_eq!(
        Rejection::Unclassified.describe().as_deref(),
        Some("nothing says whether this is a light, dark, flat or bias")
    );
    assert_eq!(Rejection::Excluded.describe().as_deref(), Some("you asked for this one to be left out"));
}

#[test]
fn the_evidence_for_a_kind_is_named() {
    let folder = Basis::DirectoryComponent { component: "Flats".to_owned(), token: "flats".to_owned() };
    assert_eq!(folder.describe().as_deref(), Some("the folder Flats"));
    assert_eq!(Basis::FilenameToken { token: "DARK".to_owned() }.describe().as_deref(), Some("DARK in the file name"));
    assert_eq!(Basis::UserRule.describe().as_deref(), Some("you said so"));
    assert_eq!(Basis::MinimumShutter { seconds_bits: 0.0002f64.to_bits() }.describe(), None);
}
