use poulpy_blck_ecd::algebra::character::{count_ones, root_of_unity};
use poulpy_blck_ecd::algebra::{Bru, Character, CleaningMode, Lbru, NativeOperation, WalshHadamard};
use poulpy_blck_ecd::error::Error;

fn exact(re: i128, im: i128) -> Character {
    Character::Exact { re, im }
}

fn turn(exponent: usize, order: usize) -> Character {
    Character::Turn { exponent, order }
}

#[test]
fn roots_of_unity_are_exact_at_quarter_turns() {
    assert_eq!(root_of_unity(4, 0), exact(1, 0));
    assert_eq!(root_of_unity(4, 1), exact(0, 1));
    assert_eq!(root_of_unity(4, 2), exact(-1, 0));
    assert_eq!(root_of_unity(4, -1), exact(0, -1));
    assert_eq!(root_of_unity(8, 2), exact(0, 1));
    assert_eq!(root_of_unity(8, 6), exact(0, -1));
    assert_eq!(root_of_unity(6, 3), exact(-1, 0));
    assert_eq!(root_of_unity(6, 1), turn(1, 6));
    assert_eq!(root_of_unity(6, -7), turn(5, 6));
    assert_eq!(root_of_unity(1, 12), exact(1, 0));
    assert_eq!(root_of_unity(5, i128::MIN), turn(i128::MIN.rem_euclid(5) as usize, 5));
}

#[test]
fn bru_encodes_additive_characters() {
    let bru = Bru::new(5).unwrap();
    assert_eq!(bru.modulus(), 5);
    assert_eq!(bru.alphabet_size(), 5);
    assert_eq!(bru.block_size(), 4);
    let mut word = vec![exact(0, 0); 4];
    bru.encode_into(2, &mut word).unwrap();
    assert_eq!(word, vec![turn(2, 5), turn(4, 5), turn(1, 5), turn(3, 5)]);
    bru.encode_into(0, &mut word).unwrap();
    assert_eq!(word, vec![exact(1, 0); 4]);

    let quarter = Bru::new(4).unwrap();
    let mut word = vec![exact(0, 0); 3];
    quarter.encode_into(1, &mut word).unwrap();
    assert_eq!(word, vec![exact(0, 1), exact(-1, 0), exact(0, -1)]);
}

#[test]
fn bru_rejects_bad_inputs() {
    assert_eq!(Bru::new(1), Err(Error::ModulusTooSmall));
    assert_eq!(Bru::new(0), Err(Error::ModulusTooSmall));
    let bru = Bru::new(4).unwrap();
    let mut word = vec![exact(7, 7); 3];
    assert_eq!(bru.encode_into(4, &mut word), Err(Error::ValueOutOfRange));
    assert_eq!(word, vec![exact(7, 7); 3]);
    let mut short = vec![exact(7, 7); 2];
    assert_eq!(bru.encode_into(1, &mut short), Err(Error::WidthMismatch));
    assert_eq!(short, vec![exact(7, 7); 2]);
}

#[test]
fn bru_native_product_adds() {
    let bru = Bru::new(4).unwrap();
    assert_eq!(bru.native_operation(), Some(NativeOperation::AddMod));
    assert_eq!(bru.native_product(3, 2), Some(1));
    assert_eq!(bru.native_product(0, 0), Some(0));
    assert_eq!(bru.native_product(4, 0), None);
    assert_eq!(bru.native_product(0, 4), None);
}

#[test]
fn bru_sum_codeword_is_product_of_codewords() {
    // exp(2πi·(c+1)·a/n) · exp(2πi·(c+1)·b/n) = exp(2πi·(c+1)·(a+b)/n): exponents add.
    let n = 7usize;
    let bru = Bru::new(n).unwrap();
    let mut lhs = vec![exact(0, 0); n - 1];
    let mut rhs = vec![exact(0, 0); n - 1];
    let mut sum = vec![exact(0, 0); n - 1];
    bru.encode_into(3, &mut lhs).unwrap();
    bru.encode_into(6, &mut rhs).unwrap();
    bru.encode_into(bru.native_product(3, 6).unwrap(), &mut sum).unwrap();
    for c in 0..n - 1 {
        let (Character::Turn { exponent: a, .. }, Character::Turn { exponent: b, .. }) = (lhs[c], rhs[c]) else {
            panic!("modulus seven has no exact roots besides one");
        };
        let expected = (a + b) % n;
        if expected == 0 {
            assert_eq!(sum[c], exact(1, 0));
        } else {
            assert_eq!(sum[c], turn(expected, n));
        }
    }
}

#[test]
fn walsh_hadamard_signs() {
    let walsh = WalshHadamard::new(2).unwrap();
    assert_eq!(walsh.bits(), 2);
    assert_eq!(walsh.alphabet_size(), 4);
    assert_eq!(walsh.block_size(), 3);
    let mut word = vec![0i128; 3];
    walsh.encode_into(3, &mut word).unwrap();
    assert_eq!(word, vec![-1, -1, 1]);
    walsh.encode_into(0, &mut word).unwrap();
    assert_eq!(word, vec![1, 1, 1]);
    walsh.encode_into(1, &mut word).unwrap();
    assert_eq!(word, vec![-1, 1, -1]);
    assert_eq!(walsh.native_operation(), Some(NativeOperation::Xor));
    assert_eq!(walsh.cleaning_mode(), Some(CleaningMode::Sign));
    assert_eq!(walsh.native_product(1, 3), Some(2));
    assert_eq!(walsh.native_product(4, 1), None);
}

#[test]
fn walsh_hadamard_xor_is_coordinatewise_product() {
    let walsh = WalshHadamard::new(3).unwrap();
    let mut a = vec![0i128; 7];
    let mut b = vec![0i128; 7];
    let mut x = vec![0i128; 7];
    for lhs in 0..8 {
        for rhs in 0..8 {
            walsh.encode_into(lhs, &mut a).unwrap();
            walsh.encode_into(rhs, &mut b).unwrap();
            walsh.encode_into(walsh.native_product(lhs, rhs).unwrap(), &mut x).unwrap();
            let product: Vec<i128> = a.iter().zip(&b).map(|(p, q)| p * q).collect();
            assert_eq!(x, product);
        }
    }
}

#[test]
fn walsh_hadamard_rejects_bad_dimensions() {
    assert_eq!(WalshHadamard::new(0), Err(Error::ZeroDimension));
    assert_eq!(WalshHadamard::new(usize::BITS as usize), Err(Error::AlphabetTooLarge));
    let walsh = WalshHadamard::new(1).unwrap();
    let mut word = vec![0i128; 1];
    assert_eq!(walsh.encode_into(2, &mut word), Err(Error::ValueOutOfRange));
    let mut wide = vec![0i128; 2];
    assert_eq!(walsh.encode_into(1, &mut wide), Err(Error::WidthMismatch));
}

#[test]
fn population_counts() {
    assert_eq!(count_ones(0), 0);
    assert_eq!(count_ones(0b1011), 3);
    assert_eq!(count_ones(usize::MAX), usize::BITS);
}

#[test]
fn lbru_uses_least_primitive_root() {
    let lbru = Lbru::new(5).unwrap();
    assert_eq!(lbru.modulus(), 5);
    assert_eq!(lbru.generator(), 2);
    assert_eq!(lbru.block_size(), 4);
    assert_eq!(lbru.logarithm(1), 0);
    assert_eq!(lbru.logarithm(2), 1);
    assert_eq!(lbru.logarithm(4), 2);
    assert_eq!(lbru.logarithm(3), 3);
    let mut word = vec![exact(9, 9); 4];
    lbru.encode_into(3, &mut word).unwrap();
    assert_eq!(word, vec![exact(1, 0), exact(0, -1), exact(-1, 0), exact(0, 1)]);
    lbru.encode_into(0, &mut word).unwrap();
    assert_eq!(word, vec![exact(0, 0); 4]);
    assert_eq!(lbru.native_operation(), Some(NativeOperation::MulMod));
    assert_eq!(lbru.native_product(3, 4), Some(2));
    assert_eq!(lbru.native_product(5, 1), None);
}

#[test]
fn lbru_generators_are_checked() {
    assert!(Lbru::with_generator(7, 3).is_ok());
    assert_eq!(Lbru::with_generator(7, 2), Err(Error::NotGenerator));
    assert_eq!(Lbru::with_generator(5, 4), Err(Error::NotGenerator));
    assert_eq!(Lbru::with_generator(6, 5), Err(Error::NotPrime));
    assert_eq!(Lbru::with_generator(5, 0), Err(Error::InvalidGenerator));
    assert_eq!(Lbru::with_generator(5, 5), Err(Error::InvalidGenerator));
    assert_eq!(Lbru::new(9), Err(Error::NotPrime));
    let two = Lbru::new(2).unwrap();
    assert_eq!(two.generator(), 1);
    let mut word = vec![exact(0, 0); 1];
    two.encode_into(1, &mut word).unwrap();
    assert_eq!(word, vec![exact(1, 0)]);
}

#[test]
fn lbru_logarithm_turns_products_into_sums() {
    let lbru = Lbru::new(11).unwrap();
    for a in 1..11 {
        for b in 1..11 {
            let product = lbru.native_product(a, b).unwrap();
            assert_eq!(
                lbru.logarithm(product),
                (lbru.logarithm(a) + lbru.logarithm(b)) % 10
            );
        }
    }
}

#[test]
fn lbru_inverse_negates_logarithm() {
    let lbru = Lbru::new(7).unwrap();
    for a in 1..7 {
        let inverse = (1..7).find(|b| a * b % 7 == 1).unwrap();
        assert_eq!(lbru.logarithm(inverse), (6 - lbru.logarithm(a)) % 6);
    }
}

#[test]
fn walsh_hadamard_interpolates_by_inverse_transform() {
    let encoding = WalshHadamard::new(3).unwrap();
    let size = encoding.alphabet_size();
    let values: Vec<i128> = vec![5, -2, 9, 0, 3, 3, -7, 1];
    let sign = |mask: usize, value: usize| -> i128 {
        if (mask & value).count_ones() % 2 == 0 {
            1
        } else {
            -1
        }
    };
    let scaled = |mask: usize| -> i128 { (0..size).map(|v| values[v] * sign(mask, v)).sum() };
    let bias = scaled(0);
    let weights: Vec<i128> = (1..size).map(scaled).collect();
    for s in 0..size {
        let mut word = vec![0i128; encoding.block_size()];
        encoding.encode_into(s, &mut word).unwrap();
        let value: i128 = bias + weights.iter().zip(&word).map(|(w, x)| w * x).sum::<i128>();
        assert_eq!(value, size as i128 * values[s]);
    }
}
