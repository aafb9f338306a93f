use poulpy_blck_ecd::algebra::{CleaningMode, Indicator, NativeOperation, Thermometer};
use poulpy_blck_ecd::error::Error;

#[test]
fn indicator_is_one_hot_without_the_omitted_symbol() {
    let indicator = Indicator::new(4, 1).unwrap();
    assert_eq!(indicator.omitted(), 1);
    assert_eq!(indicator.alphabet_size(), 4);
    assert_eq!(indicator.block_size(), 3);
    let mut word = vec![5i128; 3];
    indicator.encode_into(2, &mut word).unwrap();
    assert_eq!(word, vec![0, 1, 0]);
    indicator.encode_into(0, &mut word).unwrap();
    assert_eq!(word, vec![1, 0, 0]);
    indicator.encode_into(1, &mut word).unwrap();
    assert_eq!(word, vec![0, 0, 0]);
    indicator.encode_into(3, &mut word).unwrap();
    assert_eq!(word, vec![0, 0, 1]);
    assert_eq!(indicator.native_operation(), Some(NativeOperation::EqualityGate));
    assert_eq!(indicator.cleaning_mode(), Some(CleaningMode::Binary));
}

#[test]
fn indicator_products_are_equality_gates() {
    let indicator = Indicator::new(5, 4).unwrap();
    let mut a = vec![0i128; 4];
    let mut b = vec![0i128; 4];
    for lhs in 0..5 {
        for rhs in 0..5 {
            indicator.encode_into(lhs, &mut a).unwrap();
            indicator.encode_into(rhs, &mut b).unwrap();
            let product: Vec<i128> = a.iter().zip(&b).map(|(x, y)| x * y).collect();
            if lhs == rhs {
                assert_eq!(product, a);
            } else {
                assert_eq!(product, vec![0; 4]);
            }
        }
    }
}

#[test]
fn indicator_rejects_bad_inputs() {
    assert_eq!(Indicator::new(1, 0), Err(Error::AlphabetTooSmall));
    assert_eq!(Indicator::new(3, 3), Err(Error::OmittedOutOfRange));
    let indicator = Indicator::new(3, 0).unwrap();
    let mut word = vec![9i128; 2];
    assert_eq!(indicator.encode_into(3, &mut word), Err(Error::ValueOutOfRange));
    assert_eq!(word, vec![9, 9]);
    let mut wide = vec![9i128; 3];
    assert_eq!(indicator.encode_into(1, &mut wide), Err(Error::WidthMismatch));
}

#[test]
fn thermometer_is_cumulative() {
    let thermometer = Thermometer::new(4).unwrap();
    assert_eq!(thermometer.alphabet_size(), 4);
    assert_eq!(thermometer.block_size(), 3);
    let mut word = vec![7i128; 3];
    thermometer.encode_into(2, &mut word).unwrap();
    assert_eq!(word, vec![1, 1, 0]);
    thermometer.encode_into(0, &mut word).unwrap();
    assert_eq!(word, vec![0, 0, 0]);
    thermometer.encode_into(3, &mut word).unwrap();
    assert_eq!(word, vec![1, 1, 1]);
    assert_eq!(thermometer.native_operation(), Some(NativeOperation::Min));
    assert_eq!(thermometer.cleaning_mode(), Some(CleaningMode::Binary));
    assert_eq!(thermometer.native_product(3, 1), Some(1));
    assert_eq!(thermometer.native_product(2, 2), Some(2));
    assert_eq!(thermometer.native_product(4, 1), None);
}

#[test]
fn thermometer_min_and_max_are_coordinatewise() {
    let thermometer = Thermometer::new(5).unwrap();
    let mut a = vec![0i128; 4];
    let mut b = vec![0i128; 4];
    let mut m = vec![0i128; 4];
    for lhs in 0..5 {
        for rhs in 0..5 {
            thermometer.encode_into(lhs, &mut a).unwrap();
            thermometer.encode_into(rhs, &mut b).unwrap();
            thermometer.encode_into(thermometer.native_product(lhs, rhs).unwrap(), &mut m).unwrap();
            let product: Vec<i128> = a.iter().zip(&b).map(|(x, y)| x * y).collect();
            assert_eq!(m, product);
            thermometer.encode_into(lhs.max(rhs), &mut m).unwrap();
            let join: Vec<i128> = a.iter().zip(&b).map(|(x, y)| x + y - x * y).collect();
            assert_eq!(m, join);
        }
    }
}

#[test]
fn thermometer_rejects_bad_inputs() {
    assert_eq!(Thermometer::new(1), Err(Error::AlphabetTooSmall));
    let thermometer = Thermometer::new(2).unwrap();
    let mut word = vec![0i128; 1];
    assert_eq!(thermometer.encode_into(2, &mut word), Err(Error::ValueOutOfRange));
    let mut wide = vec![0i128; 2];
    assert_eq!(thermometer.encode_into(1, &mut wide), Err(Error::WidthMismatch));
}
