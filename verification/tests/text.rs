use astro_core::frame::SampleFormat;
use astro_core::compat::{Pairing, Property};
use astro_core::kind::FrameKind;

#[test]
fn sample_formats_know_their_size_and_name() {
    assert_eq!(SampleFormat(0).bytes_per_sample(), 2);
    assert_eq!(SampleFormat(1).bytes_per_sample(), 4);
    assert_eq!(SampleFormat(9).bytes_per_sample(), 0);
    assert_eq!(SampleFormat::unsigned16().name(), "u16");
    assert_eq!(SampleFormat::float32().name(), "f32");
}

#[test]
fn each_calibration_kind_pairs_with_what_it_calibrates() {
    assert_eq!(Pairing::for_calibration(FrameKind::Light), None);
    let dark = Pairing::for_calibration(FrameKind::Dark).unwrap();
    assert!(dark.gain_must_match());
    assert!(dark.exposure_is_meaningful());
    let flat = Pairing::for_calibration(FrameKind::Flat).unwrap();
    assert!(!flat.exposure_is_meaningful());
}

#[test]
fn properties_are_named_for_a_report() {
    assert!(!Property::SensorTemperature.name().is_empty());
}
