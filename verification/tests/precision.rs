use poulpy_blck_ecd::transform::{multiplication_output_k, plaintext_output_k};

#[test]
fn precision_costs_are_bit_granular() {
    assert_eq!(plaintext_output_k(320, 6), 314);
    assert_eq!(multiplication_output_k(320, 40, 320, 40), 280);
    assert_eq!(multiplication_output_k(300, 40, 280, 30), 240);
}

#[test]
fn plaintext_width_saturates_at_zero() {
    assert_eq!(plaintext_output_k(5, 9), 0);
    assert_eq!(plaintext_output_k(9, 9), 0);
}

#[test]
fn multiplication_width_saturates() {
    assert_eq!(multiplication_output_k(10, 8, 10, 8), 0 + 8);
    assert_eq!(multiplication_output_k(0, 5, 0, 7), 5);
    assert_eq!(multiplication_output_k(usize::MAX, 0, usize::MAX, 0), usize::MAX);
}

#[test]
fn multiplication_width_is_symmetric() {
    assert_eq!(
        multiplication_output_k(300, 40, 280, 30),
        multiplication_output_k(280, 30, 300, 40)
    );
    assert_eq!(
        multiplication_output_k(100, 3, 64, 20),
        multiplication_output_k(64, 20, 100, 3)
    );
}
