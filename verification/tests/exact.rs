use poulpy_blck_ecd::algebra::exact::{
    add_exact, conj_exact, div_exact, exact_scales, mul_exact, neg_exact, normalize_exact, scale_exact,
};

#[test]
fn normalization_cancels_common_powers_of_two() {
    assert_eq!(normalize_exact(4, 2, 3), (2, 1, 2));
    assert_eq!(normalize_exact(0, 0, 5), (0, 0, 0));
    assert_eq!(normalize_exact(3, 5, 2), (3, 5, 2));
    assert_eq!(normalize_exact(8, 0, 2), (2, 0, 0));
    assert_eq!(normalize_exact(-12, 4, 1), (-6, 2, 0));
    assert_eq!(normalize_exact(i128::MIN, 0, 127), (-1, 0, 0));
}

#[test]
fn equal_values_normalize_to_equal_parts() {
    assert_eq!(normalize_exact(1, 3, 1), normalize_exact(4, 12, 3));
    assert_eq!(normalize_exact(-5, 0, 0), normalize_exact(-40, 0, 3));
}

#[test]
fn exact_sums() {
    assert_eq!(add_exact((1, 0, 1), (1, 0, 1)), Some((1, 0, 0)));
    assert_eq!(add_exact((1, 0, 0), (1, 0, 2)), Some((5, 0, 2)));
    assert_eq!(add_exact((3, -1, 0), (-3, 1, 0)), Some((0, 0, 0)));
    assert_eq!(add_exact((1, 0, 0), (1, 0, 128)), None);
    assert_eq!(add_exact((i128::MAX, 0, 0), (1, 0, 0)), None);
    assert_eq!(add_exact((1i128 << 126, 0, 0), (0, 0, 1)), None);
    assert_eq!(add_exact((0, 0, 0), (1, 0, 200)), Some((1, 0, 200)));
    assert_eq!(add_exact((-1, 0, 0), (1, 0, 127)), Some((i128::MIN + 1, 0, 127)));
}

#[test]
fn exact_products() {
    assert_eq!(mul_exact((1, 1, 0), (1, -1, 0)), Some((2, 0, 0)));
    assert_eq!(mul_exact((1, 0, 1), (1, 0, 1)), Some((1, 0, 2)));
    assert_eq!(mul_exact((0, 1, 0), (0, 1, 0)), Some((-1, 0, 0)));
    assert_eq!(mul_exact((i128::MAX, 0, 0), (2, 0, 0)), None);
    assert_eq!(mul_exact((1, 0, u32::MAX), (1, 0, 1)), None);
}

#[test]
fn exact_scaling_and_division() {
    assert_eq!(scale_exact((1, 1, 1), 2), Some((1, 1, 0)));
    assert_eq!(scale_exact((3, -2, 0), -3), Some((-9, 6, 0)));
    assert_eq!(scale_exact((i128::MAX, 0, 0), 2), None);
    assert_eq!(div_exact((3, 0, 0), 4), Some((3, 0, 2)));
    assert_eq!(div_exact((6, 3, 0), 3), Some((2, 1, 0)));
    assert_eq!(div_exact((-6, 3, 0), 3), Some((-2, 1, 0)));
    assert_eq!(div_exact((5, 0, 0), 3), None);
    assert_eq!(div_exact((4, 2, 0), 2), Some((2, 1, 0)));
}

#[test]
fn exact_conjugation_and_negation() {
    assert_eq!(conj_exact((1, 2, 0)), (1, -2, 0));
    assert_eq!(conj_exact((2, 4, 2)), (1, -2, 1));
    assert_eq!(neg_exact((1, 2, 0)), (-1, -2, 0));
    assert_eq!(neg_exact((0, 0, 0)), (0, 0, 0));
}

#[test]
fn exact_coefficients_split_into_signed_powers_of_two() {
    assert_eq!(exact_scales((3, 0, 1)), Some(vec![(0, -1), (0, 0)]));
    assert_eq!(exact_scales((-4, 1, 0)), Some(vec![(2, 2), (1, 0)]));
    assert_eq!(exact_scales((0, -6, 2)), Some(vec![(3, -1), (3, 0)]));
    assert_eq!(exact_scales((0, 0, 0)), Some(vec![]));
    assert_eq!(exact_scales((31, 0, 0)), None);
    assert_eq!(exact_scales((3, 3, 0)), Some(vec![(0, 0), (0, 1), (1, 0), (1, 1)]));
    assert_eq!(exact_scales((7, 3, 0)), None);
}
