use range_decompose::config::DecomposeRangeCheckConfig;
use range_decompose::field::is_zero_repr;
use range_decompose::relation::{Failure, Verdict};
use range_decompose::table::{ConfigError, RangeTable};
use range_decompose::witness::{DigitCell, ValueCell, Witness};

const RANGE: u128 = 64;
const NUM_BITS: u32 = 3;
const LOOKUP_RANGE: u64 = 8;
const MAX_DEGREE: u64 = 9;
const ROWS: u64 = 1 << 16;

fn eight_by_eight() -> DecomposeRangeCheckConfig {
    DecomposeRangeCheckConfig::setup(RANGE, NUM_BITS, LOOKUP_RANGE, MAX_DEGREE, ROWS).unwrap()
}

fn four_by_four() -> DecomposeRangeCheckConfig {
    DecomposeRangeCheckConfig::setup(16, 2, 4, 5, ROWS).unwrap()
}

fn digits_of(w: &Witness) -> Vec<u128> {
    w.digits.iter().map(|c| c.digit).collect()
}

#[test]
fn test_range_check_pass() {
    let config = eight_by_eight();
    for i in 0..RANGE {
        assert_eq!(config.check(i), Verdict::Accepted);
    }
}

#[test]
fn test_range_check_fail() {
    let config = eight_by_eight();
    match config.check(RANGE) {
        Verdict::Rejected(_) => println!("Error successfully achieved!"),
        _ => assert_eq!(1, 0),
    }
}

#[test]
fn scenario_ten_accepted_with_digits_two_two() {
    let config = four_by_four();
    assert_eq!(config.windows, 2);
    assert_eq!(config.weights, vec![1, 4]);
    let w = config.synthesize(10);
    assert_eq!(digits_of(&w), vec![2, 2]);
    assert_eq!(w.anchor, ValueCell { value: 10, q_decompose: true });
    assert!(w.digits.iter().all(|c| c.q_lookup));
    assert_eq!(config.verify_witness(&w), Verdict::Accepted);
    assert_eq!(config.check(10), Verdict::Accepted);
}

#[test]
fn scenario_sixteen_rejected_at_lookup_row_one() {
    let config = four_by_four();
    let w = config.synthesize(16);
    assert_eq!(digits_of(&w), vec![0, 4]);
    assert_eq!(config.check(16), Verdict::Rejected(Failure::Lookup { row: 1 }));
}

#[test]
fn boundaries_accepted() {
    let config = four_by_four();
    assert_eq!(config.check(0), Verdict::Accepted);
    assert_eq!(config.check(15), Verdict::Accepted);
    let config = eight_by_eight();
    assert_eq!(config.check(0), Verdict::Accepted);
    assert_eq!(config.check(RANGE - 1), Verdict::Accepted);
}

#[test]
fn every_value_in_range_accepted_and_above_rejected_at_last_row() {
    let config = four_by_four();
    for v in 0..16u128 {
        assert_eq!(config.check(v), Verdict::Accepted);
    }
    for v in [16u128, 17, 63, 64, 1000, u64::MAX as u128, u128::MAX] {
        assert_eq!(config.check(v), Verdict::Rejected(Failure::Lookup { row: 1 }));
    }
}

#[test]
fn digits_recompose_to_the_value() {
    let config = eight_by_eight();
    for v in [0u128, 1, 7, 8, 9, 42, 63, 64, 100, 511, 512, u128::MAX] {
        let w = config.synthesize(v);
        let d = digits_of(&w);
        assert_eq!(d.len(), 2);
        assert_eq!(d[0], v % 8);
        assert_eq!(d[1], v / 8);
        assert_eq!(d[0] + d[1] * 8, v);
    }
}

#[test]
fn same_value_same_verdict() {
    let config = four_by_four();
    for v in [3u128, 15, 16, 99] {
        let a = config.synthesize(v);
        let b = config.synthesize(v);
        assert_eq!(a.anchor, b.anchor);
        assert_eq!(a.digits, b.digits);
        assert_eq!(config.verify_witness(&a), config.verify_witness(&b));
        assert_eq!(config.check(v), config.check(v));
    }
}

#[test]
fn wrong_digits_fail_the_identity() {
    let config = four_by_four();
    let w = Witness {
        anchor: ValueCell { value: 16, q_decompose: true },
        digits: vec![
            DigitCell { digit: 0, q_lookup: true },
            DigitCell { digit: 0, q_lookup: true },
        ],
    };
    assert_eq!(config.verify_witness(&w), Verdict::Rejected(Failure::Recomposition));
    let w = Witness {
        anchor: ValueCell { value: 10, q_decompose: true },
        digits: vec![
            DigitCell { digit: 2, q_lookup: true },
            DigitCell { digit: 3, q_lookup: true },
        ],
    };
    assert_eq!(config.verify_witness(&w), Verdict::Rejected(Failure::Recomposition));
}

#[test]
fn identity_uses_weights_and_sums() {
    // 3 * 1 + 1 * 4 = 7: a product or a sum left out would not give 7.
    let config = four_by_four();
    let w = Witness {
        anchor: ValueCell { value: 7, q_decompose: true },
        digits: vec![
            DigitCell { digit: 3, q_lookup: true },
            DigitCell { digit: 1, q_lookup: true },
        ],
    };
    assert_eq!(config.verify_witness(&w), Verdict::Accepted);
    let w = Witness {
        anchor: ValueCell { value: 4, q_decompose: true },
        digits: vec![
            DigitCell { digit: 3, q_lookup: true },
            DigitCell { digit: 1, q_lookup: true },
        ],
    };
    assert_eq!(config.verify_witness(&w), Verdict::Rejected(Failure::Recomposition));
}

#[test]
fn identity_holds_for_large_digits_without_lookups() {
    // The digits sum to the value exactly, far beyond the range.
    let config = four_by_four();
    let w = Witness {
        anchor: ValueCell { value: 3 + 4 * (1u128 << 100), q_decompose: true },
        digits: vec![
            DigitCell { digit: 3, q_lookup: true },
            DigitCell { digit: 1u128 << 100, q_lookup: false },
        ],
    };
    assert_eq!(config.verify_witness(&w), Verdict::Accepted);
    let w = Witness {
        anchor: ValueCell { value: 3 + 4 * (1u128 << 100), q_decompose: true },
        digits: vec![
            DigitCell { digit: 3, q_lookup: true },
            DigitCell { digit: 1u128 << 100, q_lookup: true },
        ],
    };
    assert_eq!(config.verify_witness(&w), Verdict::Rejected(Failure::Lookup { row: 1 }));
}

#[test]
fn first_failing_lookup_is_reported() {
    let config = four_by_four();
    let w = Witness {
        anchor: ValueCell { value: 0, q_decompose: false },
        digits: vec![
            DigitCell { digit: 9, q_lookup: true },
            DigitCell { digit: 4, q_lookup: true },
        ],
    };
    assert_eq!(config.verify_witness(&w), Verdict::Rejected(Failure::Lookup { row: 0 }));
    let w = Witness {
        anchor: ValueCell { value: 0, q_decompose: false },
        digits: vec![
            DigitCell { digit: 9, q_lookup: false },
            DigitCell { digit: 4, q_lookup: false },
        ],
    };
    assert_eq!(config.verify_witness(&w), Verdict::Accepted);
}

#[test]
fn wider_configuration() {
    let config = DecomposeRangeCheckConfig::setup(1 << 64, 16, 1 << 16, 1 << 17, 1 << 17).unwrap();
    assert_eq!(config.windows, 4);
    assert_eq!(config.weights, vec![1, 1 << 16, 1 << 32, 1 << 48]);
    assert_eq!(config.check(u64::MAX as u128), Verdict::Accepted);
    assert_eq!(config.check(1 << 64), Verdict::Rejected(Failure::Lookup { row: 3 }));
    let w = config.synthesize(0x0123_4567_89ab_cdef);
    assert_eq!(digits_of(&w), vec![0xcdef, 0x89ab, 0x4567, 0x0123]);
}

#[test]
fn configuration_errors() {
    assert_eq!(
        DecomposeRangeCheckConfig::setup(16, 2, 4, 5, 3).unwrap_err(),
        ConfigError::TableExceedsRows
    );
    assert_eq!(
        DecomposeRangeCheckConfig::setup(16, 3, 4, 5, ROWS).unwrap_err(),
        ConfigError::DigitWidthMismatch
    );
    assert_eq!(
        DecomposeRangeCheckConfig::setup(16, 0, 1, 5, ROWS).unwrap_err(),
        ConfigError::DigitWidthMismatch
    );
    assert_eq!(
        DecomposeRangeCheckConfig::setup(16, 2, 4, 4, ROWS).unwrap_err(),
        ConfigError::LookupExceedsDegree
    );
    assert_eq!(
        DecomposeRangeCheckConfig::setup(10, 2, 4, 5, ROWS).unwrap_err(),
        ConfigError::RangeNotPower
    );
    assert_eq!(
        DecomposeRangeCheckConfig::setup(1, 2, 4, 5, ROWS).unwrap_err(),
        ConfigError::RangeNotPower
    );
    assert_eq!(
        DecomposeRangeCheckConfig::setup(0, 2, 4, 5, ROWS).unwrap_err(),
        ConfigError::RangeNotPower
    );
    assert_eq!(
        DecomposeRangeCheckConfig::setup(1 << 66, 2, 4, 5, ROWS).unwrap_err(),
        ConfigError::ExceedsNativeWidth
    );
    assert!(DecomposeRangeCheckConfig::setup(1 << 64, 2, 4, 5, ROWS).is_ok());
}

#[test]
fn configure_on_a_loaded_table() {
    let table = RangeTable::load(4, ROWS).unwrap();
    let config = DecomposeRangeCheckConfig::configure(16, 2, table, 5).unwrap();
    assert_eq!(config.range, 16);
    assert_eq!(config.table.entries, vec![0, 1, 2, 3]);
    let cell = config.assign_value(9);
    assert_eq!(cell, ValueCell { value: 9, q_decompose: true });
    let rows = config.assign_decomposed_values(9);
    assert_eq!(
        rows,
        vec![DigitCell { digit: 1, q_lookup: true }, DigitCell { digit: 2, q_lookup: true }]
    );
}

#[test]
fn table_membership() {
    let table = RangeTable::load(8, 8).unwrap();
    assert_eq!(table.entries, vec![0, 1, 2, 3, 4, 5, 6, 7]);
    assert!(table.contains(0));
    assert!(table.contains(7));
    assert!(!table.contains(8));
    assert!(!table.contains(u128::MAX));
    assert_eq!(RangeTable::load(9, 8).unwrap_err(), ConfigError::TableExceedsRows);
}

#[test]
fn zero_representation() {
    assert!(is_zero_repr(&[0u8; 32]));
    let mut b = [0u8; 32];
    b[31] = 1;
    assert!(!is_zero_repr(&b));
}
