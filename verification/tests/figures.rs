use procman::usage::{cpu_usage, memory_usage, RAW_CPU_UNITS_PER_PERCENT};

fn raw_units(percent: f32) -> Option<u64> {
    if percent.is_nan() {
        None
    } else {
        Some((percent as f64 * RAW_CPU_UNITS_PER_PERCENT as f64).round() as u64)
    }
}

#[test]
fn memory_figure_of_a_quarter() {
    assert_eq!(memory_usage(5000, 20000), 2500);
    assert_eq!(memory_usage(5000, 20000) as f64 / 100.0, 25.00);
}

#[test]
fn cpu_figure_is_a_share_of_the_whole_machine() {
    assert_eq!(cpu_usage(raw_units(150.0), 4), Some(3750));
    assert_eq!(cpu_usage(raw_units(150.0), 4).unwrap() as f64 / 100.0, 37.50);
    assert_eq!(cpu_usage(Some(150 * RAW_CPU_UNITS_PER_PERCENT), 1), Some(15000));
    assert_eq!(cpu_usage(Some(100 * RAW_CPU_UNITS_PER_PERCENT), 8), Some(1250));
}

#[test]
fn figures_round_to_the_nearest_hundredth() {
    assert_eq!(memory_usage(1, 3), 3333);
    assert_eq!(memory_usage(2, 3), 6667);
    assert_eq!(memory_usage(1, 20_000), 1);
    assert_eq!(memory_usage(1, 20_001), 0);
    assert_eq!(memory_usage(3, 20_000), 2);
    assert_eq!(cpu_usage(Some(4_999), 1), Some(0));
    assert_eq!(cpu_usage(Some(5_000), 1), Some(1));
    assert_eq!(cpu_usage(Some(14_999), 1), Some(1));
    assert_eq!(cpu_usage(Some(15_000), 1), Some(2));
    assert_eq!(cpu_usage(Some(19_999), 4), Some(0));
    assert_eq!(cpu_usage(Some(20_000), 4), Some(1));
}

#[test]
fn a_machine_without_memory_gives_zero() {
    assert_eq!(memory_usage(0, 0), 0);
    assert_eq!(memory_usage(5000, 0), 0);
    assert_eq!(memory_usage(u64::MAX, 0), 0);
}

#[test]
fn a_machine_without_cpu_gives_zero() {
    assert_eq!(cpu_usage(Some(0), 0), Some(0));
    assert_eq!(cpu_usage(Some(150 * RAW_CPU_UNITS_PER_PERCENT), 0), Some(0));
    assert_eq!(cpu_usage(None, 0), None);
}

#[test]
fn a_reading_that_is_not_a_number_stays_undefined() {
    assert_eq!(raw_units(f32::NAN), None);
    assert_eq!(cpu_usage(raw_units(f32::NAN), 4), None);
    assert_eq!(cpu_usage(None, 1), None);
}

#[test]
fn figures_at_the_limits() {
    assert_eq!(memory_usage(0, 1), 0);
    assert_eq!(memory_usage(7, 7), 10_000);
    assert_eq!(memory_usage(u64::MAX, u64::MAX), 10_000);
    assert_eq!(memory_usage(u64::MAX, 1), u64::MAX);
    assert_eq!(memory_usage(u64::MAX / 10_000 + 1, 1), u64::MAX);
    assert_eq!(memory_usage(u64::MAX / 10_000, 1), u64::MAX / 10_000 * 10_000);
    assert_eq!(cpu_usage(Some(u64::MAX), 1), Some(1_844_674_407_370_955));
    assert_eq!(cpu_usage(Some(u64::MAX), u32::MAX), Some(429_497));
    assert_eq!(cpu_usage(Some(0), u32::MAX), Some(0));
}
