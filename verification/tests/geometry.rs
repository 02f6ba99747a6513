use astro_core::compat::{admissible, compatible, GeometryKey, Incompatibility, Pairing, Property, Rect};
use astro_core::frame::FrameInfo;
use astro_core::kind::FrameRole;
use astro_core::session::{BodyKey, DirId, FrameFingerprint, FrameRecord, FrameSource, GroupId, PluginId};
use astro_core::frame::{cfa_pattern_name, ImageLayout, SampleFormat, COLOR_BLUE, COLOR_GREEN, COLOR_RED};
use astro_core::mosaic::{active_area, lcm, Area, Mosaic};

fn gbrg() -> ImageLayout {
    // The reference body's pattern, which is not the RGGB most code assumes.
    let mut layout = ImageLayout::empty();
    layout.width = 5344;
    layout.height = 3516;
    layout.components = 1;
    layout.cfa_width = 2;
    layout.cfa_height = 2;
    layout.active_x = 142;
    layout.active_y = 51;
    layout.active_width = 5202;
    layout.active_height = 3465;
    layout.cfa_pattern[..4].copy_from_slice(&[COLOR_GREEN, COLOR_BLUE, COLOR_RED, COLOR_GREEN]);
    layout
}

/// A Canon R5 sensor: RGGB, 14 bit, full frame.
fn r5_layout() -> ImageLayout {
    let mut layout = ImageLayout::empty();
    layout.width = 8280;
    layout.height = 5520;
    layout.components = 1;
    layout.bits_per_sample = 14;
    layout.sample_format = SampleFormat(0);
    layout.cfa_width = 2;
    layout.cfa_height = 2;
    layout.active_width = 8192;
    layout.active_height = 5464;
    layout.orientation = 1;
    layout.cfa_pattern[..4].copy_from_slice(&[COLOR_RED, COLOR_GREEN, COLOR_GREEN, COLOR_BLUE]);
    layout
}

#[test]
fn a_gbrg_sensor_reads_as_gbrg() {
    let mosaic = Mosaic::new(&gbrg()).expect("a describable frame");
    assert_eq!(mosaic.colour_at(0, 0), COLOR_GREEN as usize);
    assert_eq!(mosaic.colour_at(1, 0), COLOR_BLUE as usize);
    assert_eq!(mosaic.colour_at(0, 1), COLOR_RED as usize);
    assert_eq!(mosaic.colour_at(1, 1), COLOR_GREEN as usize);
    // Green has two cells of the four, so it is the dominant colour.
    assert_eq!(mosaic.dominant, COLOR_GREEN as usize);
    assert_eq!(mosaic.colours, 3);
    assert_eq!(mosaic.planes, 3);
}

#[test]
fn a_pattern_with_a_gap_in_its_indices_counts_the_colours_it_uses() {
    let mut layout = gbrg();
    layout.cfa_pattern[..4].copy_from_slice(&[0, 0, 2, 2]);
    let mosaic = Mosaic::new(&layout).expect("a describable frame");
    assert_eq!(mosaic.colours, 2, "two distinct indices");
    assert_eq!(mosaic.planes, 3, "but an array indexed by colour needs three");
}

#[test]
fn the_pattern_repeats_from_the_frame_origin_not_the_active_area() {
    let mosaic = Mosaic::new(&gbrg()).unwrap();
    assert_eq!(mosaic.colour_at(142, 51), mosaic.colour_at(0, 1));
    assert_eq!(mosaic.colour_at(143, 51), mosaic.colour_at(1, 1));
}

#[test]
fn an_impossible_active_area_is_refused_rather_than_clamped() {
    let mut layout = gbrg();
    layout.active_x = 5000;
    layout.active_width = 5202;
    assert!(Mosaic::new(&layout).is_none());
}

#[test]
fn mosaic_a_frame_with_no_mosaic_is_not_described() {
    let mut layout = gbrg();
    layout.cfa_width = 0;
    assert!(Mosaic::new(&layout).is_none());
}

#[test]
fn a_crop_mode_frame_does_not_join_a_full_frame_set() {
    let full = r5_layout();
    let mut cropped = r5_layout();
    cropped.active_x = 132;
    cropped.active_y = 100;
    cropped.active_width = 5000;
    cropped.active_height = 3336;

    let refusal =
        compatible(&GeometryKey::from_layout(&full), &GeometryKey::from_layout(&cropped)).unwrap_err();
    let Incompatibility::ActiveArea { expected, found } = refusal else {
        panic!("expected an active-area refusal, got {refusal:?}");
    };
    assert_eq!(found, Rect { x: 132, y: 100, width: 5000, height: 3336 });
    assert_ne!(expected, found);
}

#[test]
fn compat_rggb_and_grbg_frames_of_the_same_size_do_not_share_a_set() {
    let rggb = r5_layout();
    let mut grbg = r5_layout();
    grbg.cfa_pattern[..4].copy_from_slice(&[1, 0, 2, 1]);

    let refusal = compatible(&GeometryKey::from_layout(&rggb), &GeometryKey::from_layout(&grbg)).unwrap_err();
    assert_eq!(
        refusal,
        Incompatibility::CfaPattern { expected: Some("RGGB".to_owned()), found: Some("GRBG".to_owned()) }
    );
}

#[test]
fn twelve_bit_and_fourteen_bit_frames_of_one_sensor_do_not_share_a_set() {
    let mechanical = r5_layout();
    let mut electronic = r5_layout();
    electronic.bits_per_sample = 12;

    assert_eq!(
        compatible(&GeometryKey::from_layout(&mechanical), &GeometryKey::from_layout(&electronic)).unwrap_err(),
        Incompatibility::BitDepth { expected: 14, found: 12 }
    );
}

#[test]
fn cfa_pattern_tail_bytes_do_not_split_a_set() {
    // Whatever a plugin leaves beyond cfa_width * cfa_height is not data.
    let clean = r5_layout();
    let mut noisy = r5_layout();
    noisy.cfa_pattern[10] = 3;
    noisy.cfa_pattern[35] = 2;

    let (a, b) = (GeometryKey::from_layout(&clean), GeometryKey::from_layout(&noisy));
    assert!(compatible(&a, &b).is_ok());
    assert_eq!(a, b);
}

#[test]
fn orientation_alone_does_not_change_the_geometry() {
    let mut lights = r5_layout();
    let mut flats = r5_layout();
    lights.orientation = 1;
    flats.orientation = 3;
    assert!(compatible(&GeometryKey::from_layout(&lights), &GeometryKey::from_layout(&flats)).is_ok());
}

#[test]
fn a_sensor_describes_itself_in_one_line() {
    assert_eq!(GeometryKey::from_layout(&r5_layout()).describe(), "8280x5520 RGGB 14 bit");
    let mut mono = r5_layout();
    mono.cfa_width = 0;
    mono.cfa_height = 0;
    assert_eq!(GeometryKey::from_layout(&mono).describe(), "8280x5520 no mosaic 14 bit");
}

#[test]
fn cfa_names_read_the_pattern_row_by_row() {
    assert_eq!(cfa_pattern_name(&gbrg()).as_deref(), Some("GBRG"));
    let mut none = gbrg();
    none.cfa_width = 0;
    assert_eq!(cfa_pattern_name(&none), None);
}

#[test]
fn different_dimensions_are_refused_first() {
    let a = r5_layout();
    let mut b = r5_layout();
    b.width = 6000;
    b.bits_per_sample = 12;
    let refusal = compatible(&GeometryKey::from_layout(&a), &GeometryKey::from_layout(&b)).unwrap_err();
    assert!(matches!(refusal, Incompatibility::Dimensions { .. }), "{refusal:?}");
}

#[test]
fn the_active_area_is_checked_against_the_frame() {
    assert_eq!(active_area(&gbrg()), Some(Area { x: 142, y: 51, width: 5202, height: 3465 }));
    let mut outside = gbrg();
    outside.active_y = 3000;
    assert_eq!(active_area(&outside), None);
}

#[test]
fn the_least_common_multiple_of_two_repeats() {
    assert_eq!(lcm(2, 3), 6);
    assert_eq!(lcm(4, 6), 12);
    assert_eq!(lcm(6, 6), 6);
    assert_eq!(lcm(1, 5), 5);
    assert_eq!(lcm(3, 2), lcm(2, 3));
    assert_eq!(lcm(0, 7), 7);
    assert_eq!(lcm(7, 0), 7);
}

#[test]
fn a_colour_repeats_with_the_pattern() {
    let mosaic = Mosaic::new(&gbrg()).unwrap();
    for (x, y) in [(0usize, 0usize), (1, 0), (0, 1), (1, 1)] {
        assert_eq!(mosaic.colour_at(x, y), mosaic.colour_at(x + 2, y + 4));
    }
}

/// Shooting parameters through a telescope: no lens, so no focal length and
/// no aperture.
fn info(exposure_seconds: f64, iso: f64) -> FrameInfo {
    FrameInfo {
        camera_make: "Canon".to_owned(),
        camera_model: "Canon EOS R5".to_owned(),
        lens_model: String::new(),
        exposure_seconds_bits: Some(exposure_seconds.to_bits()),
        iso_bits: Some(iso.to_bits()),
        aperture_bits: None,
        focal_length_mm_bits: None,
        capture_time_unix: Some(1_787_834_096),
        sensor_temperature_c_bits: None,
    }
}

fn light() -> FrameInfo {
    info(300.0, 1600.0)
}

fn flat() -> FrameInfo {
    info(1.0 / 60.0, 400.0)
}

fn record(file_name: &str, info: FrameInfo) -> FrameRecord {
    FrameRecord {
        source: FrameSource {
            directory: DirId(0),
            file_name: file_name.to_owned(),
            plugin: PluginId(0),
            fingerprint: FrameFingerprint::new(45_000_000, Some(1_787_834_096), file_name.as_bytes()),
        },
        layout: r5_layout(),
        body: BodyKey::from_info(&info),
        info,
        role: FrameRole::unassigned(),
        group: GroupId::main(),
        exclusion: None,
    }
}

/// Whether the two recorded gains agree, as the caller of `admissible` says.
fn gains_equal(a: &FrameRecord, b: &FrameRecord) -> Option<bool> {
    match (a.info.iso_bits, b.info.iso_bits) {
        (Some(x), Some(y)) => Some((f64::from_bits(x) - f64::from_bits(y)).abs() <= f64::EPSILON),
        _ => None,
    }
}

fn judge(expected: &FrameRecord, found: &FrameRecord, pairing: Pairing) -> Result<(), Incompatibility> {
    admissible(expected, found, pairing, gains_equal(expected, found))
}

#[test]
fn a_flat_with_a_different_exposure_from_the_lights_is_accepted() {
    let lights = record("light.cr3", light());
    let flats = record("flat.cr3", flat());
    assert!(judge(&lights, &flats, Pairing::FlatToLight).is_ok());
}

#[test]
fn a_dark_at_a_different_iso_is_refused_for_the_lights_it_would_calibrate() {
    let lights = record("light.cr3", light());
    let dark = record("dark.cr3", info(300.0, 800.0));
    let refusal = judge(&lights, &dark, Pairing::DarkToLight).unwrap_err();
    assert!(matches!(refusal, Incompatibility::Gain { .. }), "got {refusal:?}");
    assert_eq!(
        refusal,
        Incompatibility::Gain { expected_bits: 1600.0f64.to_bits(), found_bits: 800.0f64.to_bits() }
    );
}

#[test]
fn mixed_iso_lights_share_a_stack() {
    let a = record("a.cr3", light());
    let b = record("b.cr3", info(300.0, 800.0));
    assert!(judge(&a, &b, Pairing::SameStack).is_ok());
}

#[test]
fn a_dark_with_an_unrecorded_iso_is_refused_rather_than_assumed_to_match() {
    let mut lights = record("light.cr3", light());
    let mut dark = record("dark.cr3", light());
    lights.info.iso_bits = None;
    dark.info.iso_bits = None;
    let refusal = judge(&lights, &dark, Pairing::DarkToLight).unwrap_err();
    assert_eq!(refusal, Incompatibility::Unrecorded { property: Property::Gain });
}

#[test]
fn orientation_alone_does_not_refuse_a_frame() {
    let mut lights = record("light.cr3", light());
    let mut flats = record("flat.cr3", flat());
    lights.layout.orientation = 1;
    flats.layout.orientation = 3;
    assert!(judge(&lights, &flats, Pairing::FlatToLight).is_ok());
}

#[test]
fn a_dark_from_another_body_is_refused_but_a_light_from_one_is_not() {
    let lights = record("light.cr3", light());
    let mut other = record("other.cr3", light());
    other.body = BodyKey { make: "Canon".to_owned(), model: "Canon EOS R6".to_owned(), serial: None };
    assert_eq!(
        judge(&lights, &other, Pairing::DarkToLight),
        Err(Incompatibility::CameraModel { expected: "Canon EOS R5".to_owned(), found: "Canon EOS R6".to_owned() })
    );
    assert!(judge(&lights, &other, Pairing::SameStack).is_ok());
}

#[test]
fn the_geometry_is_refused_before_the_body_or_the_gain() {
    let lights = record("light.cr3", light());
    let mut dark = record("dark.cr3", info(300.0, 800.0));
    dark.layout.bits_per_sample = 12;
    dark.body = BodyKey { make: "Nikon".to_owned(), model: "D850".to_owned(), serial: None };
    assert_eq!(
        judge(&lights, &dark, Pairing::DarkToLight),
        Err(Incompatibility::BitDepth { expected: 14, found: 12 })
    );
}
