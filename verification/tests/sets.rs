use astro_core::sets::{capture_span, exposure_span, ExposureBucket, ExposureSpan, SetId};

#[test]
fn a_set_spans_its_shortest_and_longest_exposure() {
    let buckets = vec![ExposureBucket::Micros(300), ExposureBucket::Micros(120), ExposureBucket::Micros(600)];
    assert_eq!(
        exposure_span(&buckets),
        ExposureSpan { shortest: ExposureBucket::Micros(120), longest: ExposureBucket::Micros(600) }
    );
    let with_unknown = vec![ExposureBucket::Unknown, ExposureBucket::Micros(5)];
    assert_eq!(
        exposure_span(&with_unknown),
        ExposureSpan { shortest: ExposureBucket::Micros(5), longest: ExposureBucket::Unknown }
    );
    assert_eq!(
        exposure_span(&vec![]),
        ExposureSpan { shortest: ExposureBucket::Unknown, longest: ExposureBucket::Unknown }
    );
}

#[test]
fn a_capture_span_ignores_frames_that_recorded_no_time() {
    assert_eq!(capture_span(&vec![Some(100), None, Some(40), Some(70)]), Some(60));
    assert_eq!(capture_span(&vec![None, None]), None);
    assert_eq!(capture_span(&vec![Some(5)]), Some(0));
}

#[test]
fn a_set_id_indexes_its_set() {
    assert_eq!(SetId(3).index(), 3);
}
