use vstd::prelude::*;

verus! {

/// `a - b`, or zero when `b` exceeds `a`.
pub open spec fn sub_floor(a: int, b: int) -> int {
    if a >= b {
        a - b
    } else {
        0
    }
}

/// `a + b`, capped at `usize::MAX`.
pub open spec fn add_cap(a: int, b: int) -> int {
    if a + b <= usize::MAX {
        a + b
    } else {
        usize::MAX as int
    }
}

/// The smaller of two integers.
pub open spec fn min_int(a: int, b: int) -> int {
    if a <= b {
        a
    } else {
        b
    }
}

/// The larger of two integers.
pub open spec fn max_int(a: int, b: int) -> int {
    if a >= b {
        a
    } else {
        b
    }
}

/// The effective width after a product of ciphertexts of widths `lhs_k` and `rhs_k` and
/// scales `2^lhs_log_delta` and `2^rhs_log_delta`.
pub open spec fn multiplication_width(lhs_k: int, lhs_log_delta: int, rhs_k: int, rhs_log_delta: int) -> int {
    add_cap(
        sub_floor(
            min_int(sub_floor(lhs_k, lhs_log_delta), sub_floor(rhs_k, rhs_log_delta)),
            max_int(lhs_log_delta, rhs_log_delta),
        ),
        min_int(lhs_log_delta, rhs_log_delta),
    )
}

/// Returns the natural effective width after a ciphertext-plaintext product: the plaintext
/// scale's bits come off the input width.
pub fn plaintext_output_k(input_k: usize, plaintext_log_delta: usize) -> (r: usize)
    ensures
        r == sub_floor(input_k as int, plaintext_log_delta as int),
{
    input_k.saturating_sub(plaintext_log_delta)
}

/// Returns the natural effective width after a ciphertext-ciphertext product: the smaller
/// budget, less the larger scale, plus the smaller scale.
pub fn multiplication_output_k(
    lhs_k: usize,
    lhs_log_delta: usize,
    rhs_k: usize,
    rhs_log_delta: usize,
) -> (r: usize)
    ensures
        r == multiplication_width(lhs_k as int, lhs_log_delta as int, rhs_k as int, rhs_log_delta as int),
{
    let lhs_log_budget = lhs_k.saturating_sub(lhs_log_delta);
    let rhs_log_budget = rhs_k.saturating_sub(rhs_log_delta);
    let budget = if lhs_log_budget <= rhs_log_budget {
        lhs_log_budget
    } else {
        rhs_log_budget
    };
    let larger = if lhs_log_delta >= rhs_log_delta {
        lhs_log_delta
    } else {
        rhs_log_delta
    };
    let smaller = if lhs_log_delta <= rhs_log_delta {
        lhs_log_delta
    } else {
        rhs_log_delta
    };
    budget.saturating_sub(larger).saturating_add(smaller)
}

/// The width after a product does not depend on the order of the factors.
pub proof fn lemma_multiplication_symmetric(a_k: int, a_log_delta: int, b_k: int, b_log_delta: int)
    ensures
        multiplication_width(a_k, a_log_delta, b_k, b_log_delta) == multiplication_width(
            b_k,
            b_log_delta,
            a_k,
            a_log_delta,
        ),
{
}

} // verus!
