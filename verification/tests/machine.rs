use astro_core::machine::{nonzero_bytes, nonzero_count, physical_cores, total_bytes};

#[test]
fn what_the_machine_says_is_never_a_count_of_nothing() {
    if let Some(cores) = physical_cores() {
        assert!(cores > 0);
    }
    if let Some(bytes) = total_bytes() {
        assert!(bytes > 0);
    }
}

#[test]
fn a_zero_report_is_no_answer() {
    assert_eq!(nonzero_count(Some(0)), None);
    assert_eq!(nonzero_count(Some(8)), Some(8));
    assert_eq!(nonzero_count(None), None);
    assert_eq!(nonzero_bytes(0), None);
    assert_eq!(nonzero_bytes(1 << 34), Some(1 << 34));
}
