use vstd::arithmetic::div_mod::*;
use vstd::arithmetic::mul::*;
use vstd::arithmetic::power2::*;
use vstd::prelude::*;

use super::number_theory::{is_power_of_two, power_of_two};

verus! {

/// The parts `(re, im, log_den)` of the exact coefficient `(re + i·im) / 2^log_den`.
pub type ExactParts = (i128, i128, u32);

/// The representation in lowest terms: zero has denominator one, and otherwise the
/// denominator is one or a numerator is odd.
pub open spec fn canonical(p: ExactParts) -> bool {
    if p.0 == 0 && p.1 == 0 {
        p.2 == 0
    } else {
        p.2 == 0 || p.0 % 2 != 0 || p.1 % 2 != 0
    }
}

/// `p` is `(re + i·im) / 2^log_den` with a power of two cancelled from both numerators and
/// from the denominator.
pub open spec fn reduces(p: ExactParts, re: int, im: int, log_den: int) -> bool {
    &&& p.2 <= log_den
    &&& p.0 * pow2((log_den - p.2) as nat) == re
    &&& p.1 * pow2((log_den - p.2) as nat) == im
}

/// `(a_re + i·a_im) / 2^a_den` and `(b_re + i·b_im) / 2^b_den` are the same number.
pub open spec fn same_value(a_re: int, a_im: int, a_den: nat, b_re: int, b_im: int, b_den: nat) -> bool {
    &&& a_re * pow2(b_den) == b_re * pow2(a_den)
    &&& a_im * pow2(b_den) == b_im * pow2(a_den)
}

/// `x` fits in an `i128`.
pub open spec fn fits_i128(x: int) -> bool {
    i128::MIN <= x <= i128::MAX
}

proof fn lemma_pow2_split(a: nat, b: nat)
    ensures
        pow2(a + b) == pow2(a) * pow2(b),
        pow2(a) >= 1,
{
    lemma_pow2_adds(a, b);
    lemma_pow2_pos(a);
}

/// Cancelling a power of two keeps the value.
pub proof fn lemma_reduces_same_value(p: ExactParts, re: int, im: int, log_den: nat)
    requires
        reduces(p, re, im, log_den as int),
    ensures
        same_value(p.0 as int, p.1 as int, p.2 as nat, re, im, log_den),
{
    let k = (log_den - p.2) as nat;
    lemma_pow2_split(p.2 as nat, k);
    assert(p.2 + k == log_den);
    lemma_mul_is_associative(p.0 as int, pow2(k) as int, pow2(p.2 as nat) as int);
    lemma_mul_is_associative(p.1 as int, pow2(k) as int, pow2(p.2 as nat) as int);
    lemma_mul_is_commutative(pow2(k) as int, pow2(p.2 as nat) as int);
}

/// Two representations in lowest terms of the same number are the same parts, so comparing
/// parts compares values.
pub proof fn lemma_canonical_unique(a: ExactParts, b: ExactParts)
    requires
        canonical(a),
        canonical(b),
        same_value(a.0 as int, a.1 as int, a.2 as nat, b.0 as int, b.1 as int, b.2 as nat),
    ensures
        a == b,
{
    if a.2 <= b.2 {
        lemma_canonical_order(a, b);
    } else {
        lemma_canonical_order(b, a);
    }
}

proof fn lemma_canonical_order(a: ExactParts, b: ExactParts)
    requires
        canonical(a),
        canonical(b),
        same_value(a.0 as int, a.1 as int, a.2 as nat, b.0 as int, b.1 as int, b.2 as nat)
            || same_value(b.0 as int, b.1 as int, b.2 as nat, a.0 as int, a.1 as int, a.2 as nat),
        a.2 <= b.2,
    ensures
        a == b,
{
    let k = (b.2 - a.2) as nat;
    let pa = pow2(a.2 as nat) as int;
    lemma_pow2_split(a.2 as nat, k);
    assert(a.2 + k == b.2);
    let pk = pow2(k) as int;
    // b.re * 2^a.den == a.re * 2^b.den == (a.re * 2^k) * 2^a.den
    lemma_mul_is_associative(a.0 as int, pk, pa);
    lemma_mul_is_associative(a.1 as int, pk, pa);
    lemma_mul_is_commutative(pk, pa);
    lemma_mul_is_commutative(b.0 as int, pa);
    lemma_mul_is_commutative(b.1 as int, pa);
    lemma_mul_is_commutative(a.0 as int * pk, pa);
    lemma_mul_is_commutative(a.1 as int * pk, pa);
    lemma_mul_equality_converse(pa, b.0 as int, a.0 as int * pk);
    lemma_mul_equality_converse(pa, b.1 as int, a.1 as int * pk);
    if k > 0 {
        lemma_pow2_unfold(k);
        let h = pow2((k - 1) as nat) as int;
        lemma_mul_is_associative(a.0 as int, 2, h);
        lemma_mul_is_associative(a.1 as int, 2, h);
        lemma_mul_is_commutative(a.0 as int, 2);
        lemma_mul_is_commutative(a.1 as int, 2);
        lemma_mod_multiples_basic(a.0 * h, 2);
        lemma_mod_multiples_basic(a.1 * h, 2);
        lemma_mul_is_commutative(2, a.0 * h);
        lemma_mul_is_commutative(2, a.1 * h);
        lemma_mul_is_associative(2, a.0 as int, h);
        lemma_mul_is_associative(2, a.1 as int, h);
        if b.0 == 0 && b.1 == 0 {
            assert(b.2 == 0);
        }
        assert(false);
    }
    lemma2_to64();
    lemma_mul_basics(a.0 as int);
    lemma_mul_basics(a.1 as int);
}

/// Puts `(re + i·im) / 2^log_den` in lowest terms.
pub fn normalize_exact(re: i128, im: i128, log_den: u32) -> (r: ExactParts)
    ensures
        canonical(r),
        reduces(r, re as int, im as int, log_den as int),
{
    if re == 0 && im == 0 {
        proof {
            lemma_mul_basics(pow2(log_den as nat) as int);
        }
        return (0, 0, 0);
    }
    let mut re = re;
    let mut im = im;
    let mut log_den = log_den;
    let ghost re0 = re as int;
    let ghost im0 = im as int;
    let ghost den0 = log_den as int;
    proof {
        lemma2_to64();
        lemma_mul_basics(re0);
        lemma_mul_basics(im0);
    }
    while log_den != 0 && re % 2 == 0 && im % 2 == 0
        invariant
            log_den <= den0,
            re * pow2((den0 - log_den) as nat) == re0,
            im * pow2((den0 - log_den) as nat) == im0,
            re0 != 0 || im0 != 0,
        decreases log_den,
    {
        let ghost k = (den0 - log_den) as nat;
        proof {
            lemma_pow2_adds(1, k);
            lemma2_to64();
            lemma_fundamental_div_mod(re as int, 2);
            lemma_fundamental_div_mod(im as int, 2);
            lemma_mul_is_associative((re / 2) as int, 2, pow2(k) as int);
            lemma_mul_is_associative((im / 2) as int, 2, pow2(k) as int);
            assert(k + 1 == den0 - (log_den - 1));
        }
        re = re / 2;
        im = im / 2;
        log_den = log_den - 1;
    }
    proof {
        if re == 0 && im == 0 {
            lemma_mul_basics(pow2((den0 - log_den) as nat) as int);
        }
    }
    (re, im, log_den)
}

/// The complex conjugate `(re - i·im) / 2^log_den`, in lowest terms.
pub fn conj_exact(p: ExactParts) -> (r: ExactParts)
    requires
        p.1 != i128::MIN,
    ensures
        canonical(r),
        reduces(r, p.0 as int, -(p.1 as int), p.2 as int),
{
    normalize_exact(p.0, -p.1, p.2)
}

/// The negation `(-re - i·im) / 2^log_den`, in lowest terms.
pub fn neg_exact(p: ExactParts) -> (r: ExactParts)
    requires
        p.0 != i128::MIN,
        p.1 != i128::MIN,
    ensures
        canonical(r),
        reduces(r, -(p.0 as int), -(p.1 as int), p.2 as int),
{
    normalize_exact(-p.0, -p.1, p.2)
}

/// The product with an integer, when both numerators fit.
pub fn scale_exact(p: ExactParts, scalar: i128) -> (r: Option<ExactParts>)
    ensures
        r is Some <==> fits_i128(p.0 * scalar) && fits_i128(p.1 * scalar),
        r matches Some(q) ==> canonical(q) && reduces(q, p.0 * scalar, p.1 * scalar, p.2 as int),
{
    match (p.0.checked_mul(scalar), p.1.checked_mul(scalar)) {
        (Some(re), Some(im)) => Some(normalize_exact(re, im, p.2)),
        _ => None,
    }
}

/// The exponent of a power of two.
fn log2_exact(value: usize) -> (r: u32)
    requires
        power_of_two(value as int),
    ensures
        pow2(r as nat) == value,
        r < 64,
{
    let ghost k = choose|k: nat| #[trigger] pow2(k) == value;
    let mut rest = value;
    let mut count: u32 = 0;
    proof {
        lemma2_to64();
        lemma_pow2_pos(k);
        if k >= 64 {
            lemma2_to64_rest();
            if k > 64 {
                lemma_pow2_strictly_increases(64, k);
            }
        }
    }
    while rest > 1
        invariant
            count <= k,
            k < 64,
            rest == pow2((k - count) as nat),
        decreases rest,
    {
        proof {
            let e = (k - count) as nat;
            if e == 0 {
                lemma2_to64();
            } else {
                lemma_pow2_unfold(e);
                lemma_pow2_pos((e - 1) as nat);
            }
        }
        rest = rest / 2;
        count = count + 1;
    }
    proof {
        let e = (k - count) as nat;
        if e > 0 {
            lemma_pow2_unfold(e);
            lemma_pow2_pos((e - 1) as nat);
        }
    }
    count
}

/// The quotient by a positive integer when it stays exact: by a power of two the denominator
/// grows, and by another divisor of both numerators the numerators shrink; otherwise none.
pub fn div_exact(p: ExactParts, divisor: usize) -> (r: Option<ExactParts>)
    requires
        divisor != 0,
        forall|k: nat| pow2(k) == divisor ==> p.2 + k <= u32::MAX,
    ensures
        power_of_two(divisor as int) ==> (r matches Some(q) && canonical(q) && exists|k: nat|
            pow2(k) == divisor && reduces(q, p.0 as int, p.1 as int, p.2 + k)),
        !power_of_two(divisor as int) ==> (r is Some <==> (p.0 as int) % (divisor as int) == 0
            && (p.1 as int) % (divisor as int) == 0),
        !power_of_two(divisor as int) ==> (r matches Some(q) ==> canonical(q) && reduces(
            q,
            (p.0 as int) / (divisor as int),
            (p.1 as int) / (divisor as int),
            p.2 as int,
        )),
{
    if is_power_of_two(divisor) {
        let k = log2_exact(divisor);
        proof {
            assert(pow2(k as nat) == divisor);
        }
        return Some(normalize_exact(p.0, p.1, p.2 + k));
    }
    let d = divisor as i128;
    let re_rem = p.0.checked_rem(d).unwrap();
    let im_rem = p.1.checked_rem(d).unwrap();
    proof {
        lemma_truncated_rem(p.0 as int, d as int);
        lemma_truncated_rem(p.1 as int, d as int);
    }
    if re_rem == 0 && im_rem == 0 {
        let re = p.0.checked_div(d).unwrap();
        let im = p.1.checked_div(d).unwrap();
        Some(normalize_exact(re, im, p.2))
    } else {
        None
    }
}

/// For a positive divisor, the remainder that rounds toward zero vanishes exactly when the
/// floored one does, and then both quotients agree.
proof fn lemma_truncated_rem(x: int, d: int)
    requires
        d > 0,
    ensures
        x < 0 ==> ((((x * -1) % d) * -1 == 0) <==> x % d == 0),
        x < 0 && x % d == 0 ==> ((x * -1) / d) * -1 == x / d,
{
    if x < 0 {
        lemma_fundamental_div_mod(x, d);
        lemma_fundamental_div_mod(-x, d);
        lemma_mod_bound(x, d);
        lemma_mod_bound(-x, d);
        if x % d == 0 {
            let q = x / d;
            lemma_mul_unary_negation(d, q);
            lemma_fundamental_div_mod_converse(-x, d, -q, 0);
        }
        if (-x) % d == 0 {
            let q = (-x) / d;
            lemma_mul_unary_negation(d, q);
            lemma_fundamental_div_mod_converse(x, d, -q, 0);
        }
        assert(x * -1 == -x) by (nonlinear_arith);
    }
}

/// `x · 2^s`, when it fits in `i128`.
fn shift_exact(x: i128, s: u32) -> (r: Option<i128>)
    ensures
        r is Some <==> fits_i128(x * pow2(s as nat)),
        r matches Some(v) ==> v == x * pow2(s as nat),
{
    if x == 0 {
        proof {
            lemma_mul_basics(pow2(s as nat) as int);
        }
        return Some(0);
    }
    let mut v: i128 = x;
    let mut i: u32 = 0;
    proof {
        lemma2_to64();
    }
    while i < s
        invariant
            i <= s,
            v == x * pow2(i as nat),
        decreases s - i,
    {
        proof {
            lemma_pow2_unfold((i + 1) as nat);
            lemma_mul_is_associative(x as int, pow2(i as nat) as int, 2);
        }
        match v.checked_mul(2) {
            Some(w) => {
                v = w;
                i = i + 1;
            },
            None => {
                proof {
                    let k = pow2((s - i - 1) as nat) as int;
                    lemma_pow2_pos((s - i - 1) as nat);
                    lemma_pow2_adds((i + 1) as nat, (s - i - 1) as nat);
                    assert(((i + 1) + (s - i - 1)) as nat == s as nat);
                    lemma_mul_is_associative(x as int, pow2((i + 1) as nat) as int, k);
                    let w = v * 2;
                    assert(w * k > i128::MAX || w * k < i128::MIN) by (nonlinear_arith)
                        requires
                            k >= 1,
                            w > i128::MAX || w < i128::MIN,
                    ;
                }
                return None;
            },
        }
    }
    Some(v)
}

/// The sum of two exact coefficients over the larger denominator, when both numerators fit
/// after scaling to it and the numerator sums fit.
pub fn add_exact(lhs: ExactParts, rhs: ExactParts) -> (r: Option<ExactParts>)
    ensures
        ({
            let den = if lhs.2 >= rhs.2 {
                lhs.2
            } else {
                rhs.2
            };
            let ls = pow2((den - lhs.2) as nat);
            let rs = pow2((den - rhs.2) as nat);
            &&& r is Some <==> ({
                &&& fits_i128(lhs.0 * ls)
                &&& fits_i128(lhs.1 * ls)
                &&& fits_i128(rhs.0 * rs)
                &&& fits_i128(rhs.1 * rs)
                &&& fits_i128(lhs.0 * ls + rhs.0 * rs)
                &&& fits_i128(lhs.1 * ls + rhs.1 * rs)
            })
            &&& r matches Some(q) ==> canonical(q) && reduces(
                q,
                lhs.0 * ls + rhs.0 * rs,
                lhs.1 * ls + rhs.1 * rs,
                den as int,
            )
        }),
{
    let den = if lhs.2 >= rhs.2 {
        lhs.2
    } else {
        rhs.2
    };
    let lhs_shift = den - lhs.2;
    let rhs_shift = den - rhs.2;
    let a = shift_exact(lhs.0, lhs_shift);
    let b = shift_exact(lhs.1, lhs_shift);
    let c = shift_exact(rhs.0, rhs_shift);
    let d = shift_exact(rhs.1, rhs_shift);
    match (a, b, c, d) {
        (Some(lhs_re), Some(lhs_im), Some(rhs_re), Some(rhs_im)) => {
            let re = match lhs_re.checked_add(rhs_re) {
                Some(re) => re,
                None => return None,
            };
            let im = match lhs_im.checked_add(rhs_im) {
                Some(im) => im,
                None => return None,
            };
            Some(normalize_exact(re, im, den))
        },
        _ => None,
    }
}

/// The product of two exact coefficients, when every intermediate fits.
pub fn mul_exact(lhs: ExactParts, rhs: ExactParts) -> (r: Option<ExactParts>)
    ensures
        r is Some <==> ({
            &&& fits_i128(lhs.0 * rhs.0)
            &&& fits_i128(lhs.1 * rhs.1)
            &&& fits_i128(lhs.0 * rhs.0 - lhs.1 * rhs.1)
            &&& fits_i128(lhs.0 * rhs.1)
            &&& fits_i128(lhs.1 * rhs.0)
            &&& fits_i128(lhs.0 * rhs.1 + lhs.1 * rhs.0)
            &&& lhs.2 + rhs.2 <= u32::MAX
        }),
        r matches Some(q) ==> canonical(q) && reduces(
            q,
            lhs.0 * rhs.0 - lhs.1 * rhs.1,
            lhs.0 * rhs.1 + lhs.1 * rhs.0,
            lhs.2 + rhs.2,
        ),
{
    let (ar, ai, ad) = lhs;
    let (br, bi, bd) = rhs;
    let re = match ar.checked_mul(br) {
        Some(x) => match ai.checked_mul(bi) {
            Some(y) => x.checked_sub(y),
            None => None,
        },
        None => None,
    };
    let im = match ar.checked_mul(bi) {
        Some(x) => match ai.checked_mul(br) {
            Some(y) => x.checked_add(y),
            None => None,
        },
        None => None,
    };
    match (re, im, ad.checked_add(bd)) {
        (Some(re), Some(im), Some(log_den)) => Some(normalize_exact(re, im, log_den)),
        _ => None,
    }
}


/// Bit `k` of `m` is one.
pub open spec fn bit_of(m: nat, k: nat) -> bool {
    (m / pow2(k)) % 2 == 1
}

/// The positions below `k` of the one bits of `m`, in increasing order.
pub open spec fn low_bits(m: nat, k: nat) -> Seq<nat>
    decreases k,
{
    if k == 0 {
        Seq::empty()
    } else if bit_of(m, (k - 1) as nat) {
        low_bits(m, (k - 1) as nat).push((k - 1) as nat)
    } else {
        low_bits(m, (k - 1) as nat)
    }
}

/// Sum of `2^b` over the positions `b` in `bits`.
pub open spec fn pow2_sum(bits: Seq<nat>) -> nat
    decreases bits.len(),
{
    if bits.len() == 0 {
        0
    } else {
        pow2_sum(bits.drop_last()) + pow2(bits.last())
    }
}

/// The absolute value of `x`.
pub open spec fn magnitude(x: int) -> nat {
    if x >= 0 {
        x as nat
    } else {
        (-x) as nat
    }
}

/// The power-of-two terms of one numerator: for each one bit `b` of its magnitude, in
/// increasing order, the quarter turn `positive` or `negative` by its sign and the shift
/// `b - log_den`.
pub open spec fn numerator_terms(value: int, positive: u8, negative: u8, log_den: int) -> Seq<(u8, i64)> {
    low_bits(magnitude(value), 128).map_values(
        |b: nat|
            (
                if value > 0 {
                    positive
                } else {
                    negative
                },
                (b - log_den) as i64,
            ),
    )
}

/// The power-of-two terms of an exact coefficient: those of the real numerator with quarter
/// turns zero and two, then those of the imaginary numerator with quarter turns one and three.
pub open spec fn scale_terms(p: ExactParts) -> Seq<(u8, i64)> {
    numerator_terms(p.0 as int, 0, 2, p.2 as int) + numerator_terms(p.1 as int, 1, 3, p.2 as int)
}

/// What the quarter turn `i^turn` contributes along the unit `i^positive`: one when it is
/// `positive`, minus one when it is `negative`, the opposite turn, and zero otherwise.
pub open spec fn turn_sign(turn: u8, positive: u8, negative: u8) -> int {
    if turn == positive {
        1
    } else if turn == negative {
        -1
    } else {
        0
    }
}

/// `2^log_den` times the component along `i^positive` of the sum of `i^t · 2^s` over the
/// terms `(t, s)`.
pub open spec fn part_numerator(terms: Seq<(u8, i64)>, positive: u8, negative: u8, log_den: int) -> int
    decreases terms.len(),
{
    if terms.len() == 0 {
        0
    } else {
        part_numerator(terms.drop_last(), positive, negative, log_den) + turn_sign(
            terms.last().0,
            positive,
            negative,
        ) * pow2((terms.last().1 + log_den) as nat)
    }
}

proof fn lemma_part_concat(a: Seq<(u8, i64)>, b: Seq<(u8, i64)>, positive: u8, negative: u8, log_den: int)
    ensures
        part_numerator(a + b, positive, negative, log_den) == part_numerator(a, positive, negative, log_den)
            + part_numerator(b, positive, negative, log_den),
    decreases b.len(),
{
    if b.len() > 0 {
        lemma_part_concat(a, b.drop_last(), positive, negative, log_den);
        assert((a + b).drop_last() =~= a + b.drop_last());
        assert((a + b).last() == b.last());
    }
}

proof fn lemma_low_bits_below(m: nat, k: nat)
    ensures
        forall|i: int| 0 <= i < low_bits(m, k).len() ==> #[trigger] low_bits(m, k)[i] < k,
    decreases k,
{
    if k > 0 {
        let j = (k - 1) as nat;
        lemma_low_bits_below(m, j);
        let prev = low_bits(m, j);
        if bit_of(m, j) {
            assert forall|i: int| 0 <= i < low_bits(m, k).len() implies #[trigger] low_bits(m, k)[i] < k by {
                if i < prev.len() {
                    assert(low_bits(m, k)[i] == prev[i]);
                }
            }
        }
    }
}

/// The terms made from the one bits `bits` of a numerator, with the quarter turn `turn` and
/// the shifts `b - log_den`, add up to `2^log_den` times the number `pow2_sum(bits)` along
/// `i^turn`.
proof fn lemma_bits_part(bits: Seq<nat>, turn: u8, log_den: int, positive: u8, negative: u8)
    requires
        forall|i: int| 0 <= i < bits.len() ==> #[trigger] bits[i] < 128,
        0 <= log_den <= u32::MAX,
    ensures
        part_numerator(bits.map_values(|b: nat| (turn, (b - log_den) as i64)), positive, negative, log_den)
            == turn_sign(turn, positive, negative) * pow2_sum(bits),
    decreases bits.len(),
{
    let f = |b: nat| (turn, (b - log_den) as i64);
    let t = bits.map_values(f);
    let ts = turn_sign(turn, positive, negative);
    if bits.len() == 0 {
        lemma_mul_basics(ts);
    } else {
        let d = bits.drop_last();
        lemma_bits_part(d, turn, log_den, positive, negative);
        assert(t.drop_last() =~= d.map_values(f));
        let b = bits.last();
        assert(t.last() == f(b));
        assert((t.last().1 + log_den) as nat == b);
        lemma_mul_is_distributive_add(ts, pow2_sum(d) as int, pow2(b) as int);
    }
}

/// The terms of an exact coefficient add up to it: the sum of `i^t · 2^s` over the terms
/// `(t, s)` is `(re + i·im) / 2^log_den`. Stated over the numerators: every term is a quarter
/// turn with a shift of at least `-log_den`, and `2^log_den` times the real part of the sum is
/// `re`, times its imaginary part `im`.
pub proof fn lemma_scale_terms_sum(p: ExactParts)
    ensures
        forall|k: int|
            0 <= k < scale_terms(p).len() ==> #[trigger] scale_terms(p)[k].0 < 4 && scale_terms(p)[k].1
                + p.2 >= 0,
        part_numerator(scale_terms(p), 0, 2, p.2 as int) == p.0,
        part_numerator(scale_terms(p), 1, 3, p.2 as int) == p.1,
{
    let l = p.2 as int;
    let a = numerator_terms(p.0 as int, 0, 2, l);
    let b = numerator_terms(p.1 as int, 1, 3, l);
    lemma2_to64();
    lemma2_to64_rest();
    lemma_pow2_adds(64, 64);
    assert(pow2(128) == 0x1_0000_0000_0000_0000_0000_0000_0000_0000);
    let mr = magnitude(p.0 as int);
    let mi = magnitude(p.1 as int);
    lemma_low_bits_below(mr, 128);
    lemma_low_bits_below(mi, 128);
    lemma_low_bits_sum(mr, 128);
    lemma_low_bits_sum(mi, 128);
    lemma_small_mod(mr, pow2(128));
    lemma_small_mod(mi, pow2(128));
    let tr: u8 = if p.0 > 0 { 0 } else { 2 };
    let ti: u8 = if p.1 > 0 { 1 } else { 3 };
    assert(a =~= low_bits(mr, 128).map_values(|b: nat| (tr, (b - l) as i64)));
    assert(b =~= low_bits(mi, 128).map_values(|b: nat| (ti, (b - l) as i64)));
    lemma_bits_part(low_bits(mr, 128), tr, l, 0, 2);
    lemma_bits_part(low_bits(mr, 128), tr, l, 1, 3);
    lemma_bits_part(low_bits(mi, 128), ti, l, 0, 2);
    lemma_bits_part(low_bits(mi, 128), ti, l, 1, 3);
    lemma_part_concat(a, b, 0, 2, l);
    lemma_part_concat(a, b, 1, 3, l);
    lemma_mul_basics(mr as int);
    lemma_mul_basics(mi as int);
    assert(pow2_sum(low_bits(mr, 128)) == mr);
    assert(pow2_sum(low_bits(mi, 128)) == mi);
    assert(part_numerator(a, 0, 2, l) == p.0);
    assert(part_numerator(b, 0, 2, l) == 0);
    assert(part_numerator(a, 1, 3, l) == 0);
    assert(part_numerator(b, 1, 3, l) == p.1);
    assert(scale_terms(p) == a + b);
    assert forall|k: int| 0 <= k < scale_terms(p).len() implies #[trigger] scale_terms(p)[k].0 < 4
        && scale_terms(p)[k].1 + p.2 >= 0 by {
        if k < a.len() {
            assert(scale_terms(p)[k] == a[k]);
            assert(low_bits(mr, 128)[k] < 128);
        } else {
            assert(scale_terms(p)[k] == b[k - a.len()]);
            assert(low_bits(mi, 128)[k - a.len()] < 128);
        }
    }
}

/// The one bits below `k` of `m` add up to `m` modulo `2^k`: the binary expansion.
pub proof fn lemma_low_bits_sum(m: nat, k: nat)
    ensures
        pow2_sum(low_bits(m, k)) == m % pow2(k),
    decreases k,
{
    if k == 0 {
        lemma2_to64();
        lemma_mod_bound(m as int, 1);
    } else {
        let j = (k - 1) as nat;
        lemma_low_bits_sum(m, j);
        lemma_pow2_pos(j);
        lemma_pow2_unfold(k);
        lemma_mod_breakdown(m as int, pow2(j) as int, 2);
        lemma_mul_is_commutative(2, pow2(j) as int);
        lemma_mod_bound((m / pow2(j)) as int, 2);
        if bit_of(m, j) {
            assert(low_bits(m, k).drop_last() == low_bits(m, j));
            lemma_mul_basics(pow2(j) as int);
        } else {
            lemma_mul_basics(pow2(j) as int);
        }
    }
}

proof fn lemma_low_bits_len_mono(m: nat, j: nat, k: nat)
    requires
        j <= k,
    ensures
        low_bits(m, j).len() <= low_bits(m, k).len(),
    decreases k,
{
    if j < k {
        lemma_low_bits_len_mono(m, j, (k - 1) as nat);
    }
}

proof fn lemma_low_bits_stable(m: nat, j: nat, k: nat)
    requires
        j <= k,
        m / pow2(j) == 0,
    ensures
        low_bits(m, k) == low_bits(m, j),
    decreases k,
{
    if j < k {
        let i = (k - 1) as nat;
        lemma_low_bits_stable(m, j, i);
        lemma_pow2_pos(j);
        lemma_pow2_pos(i);
        if i > j {
            lemma_pow2_strictly_increases(j, i);
        }
        lemma_div_is_ordered_by_denominator(m as int, pow2(j) as int, pow2(i) as int);
        lemma_div_pos_is_pos(m as int, pow2(i) as int);
    }
}

/// Appends the power-of-two terms of one numerator, failing once more than four terms are
/// collected in all.
fn push_numerator_terms(
    value: i128,
    positive: u8,
    negative: u8,
    log_den: u32,
    terms: &mut Vec<(u8, i64)>,
) -> (ok: bool)
    requires
        old(terms)@.len() <= 4,
    ensures
        ok ==> final(terms)@ == old(terms)@ + numerator_terms(value as int, positive, negative, log_den as int),
        ok ==> final(terms)@.len() <= 4,
        !ok <==> old(terms)@.len() + numerator_terms(value as int, positive, negative, log_den as int).len() > 4,
{
    let m: u128 = if value >= 0 {
        value as u128
    } else {
        ((-(value + 1)) as u128) + 1
    };
    let ghost mm = magnitude(value as int);
    let ghost start = terms@;
    let turn: u8 = if value > 0 {
        positive
    } else {
        negative
    };
    let ghost f = |b: nat| (turn, (b - log_den) as i64);
    proof {
        lemma2_to64();
        lemma2_to64_rest();
        lemma_pow2_adds(64, 64);
        assert(pow2(128) == 0x1_0000_0000_0000_0000_0000_0000_0000_0000);
        assert(m == mm);
        assert(pow2(0) == 1);
        assert(low_bits(mm, 0).map_values(f) =~= Seq::<(u8, i64)>::empty());
    }
    let mut rest: u128 = m;
    let mut bit: u32 = 0;
    while rest != 0
        invariant
            mm == m,
            mm == magnitude(value as int),
            turn == (if value > 0 {
                positive
            } else {
                negative
            }),
            m < pow2(128),
            bit <= 128,
            rest == (m as nat) / pow2(bit as nat),
            terms@ == start + low_bits(mm, bit as nat).map_values(f),
            terms@.len() <= 4,
            start.len() <= 4,
            start == old(terms)@,
            f == (|b: nat| (turn, (b - log_den) as i64)),
        decreases rest,
    {
        proof {
            if bit == 128 {
                lemma_basic_div(m as int, pow2(128) as int);
                assert(false);
            }
            lemma_pow2_unfold((bit + 1) as nat);
            lemma_pow2_pos(bit as nat);
            lemma_div_denominator(m as int, pow2(bit as nat) as int, 2);
            lemma_mul_is_commutative(pow2(bit as nat) as int, 2);
        }
        if rest % 2 == 1 {
            let ghost before = terms@;
            terms.push((turn, bit as i64 - log_den as i64));
            proof {
                assert(bit_of(mm, bit as nat));
                assert(low_bits(mm, (bit + 1) as nat) == low_bits(mm, bit as nat).push(bit as nat));
                assert(terms@ =~= start + low_bits(mm, (bit + 1) as nat).map_values(f));
            }
            if terms.len() > 4 {
                proof {
                    lemma_low_bits_len_mono(mm, (bit + 1) as nat, 128);
                    assert(numerator_terms(value as int, positive, negative, log_den as int)
                        =~= low_bits(mm, 128).map_values(f));
                }
                return false;
            }
        } else {
            proof {
                assert(!bit_of(mm, bit as nat));
                assert(low_bits(mm, (bit + 1) as nat) == low_bits(mm, bit as nat));
            }
        }
        rest = rest / 2;
        bit = bit + 1;
    }
    proof {
        lemma_low_bits_stable(mm, bit as nat, 128);
        assert(numerator_terms(value as int, positive, negative, log_den as int) =~= low_bits(
            mm,
            128,
        ).map_values(f));
    }
    true
}

/// Writes an exact coefficient as at most four signed powers of two, each a quarter turn and a
/// power-of-two shift; none when it takes more.
pub fn exact_scales(p: ExactParts) -> (r: Option<Vec<(u8, i64)>>)
    ensures
        r is None <==> scale_terms(p).len() > 4,
        r matches Some(terms) ==> terms@ == scale_terms(p),
        r matches Some(terms) ==> part_numerator(terms@, 0, 2, p.2 as int) == p.0 && part_numerator(
            terms@,
            1,
            3,
            p.2 as int,
        ) == p.1,
{
    proof {
        lemma_scale_terms_sum(p);
    }
    let mut terms: Vec<(u8, i64)> = Vec::new();
    if !push_numerator_terms(p.0, 0, 2, p.2, &mut terms) {
        return None;
    }
    if !push_numerator_terms(p.1, 1, 3, p.2, &mut terms) {
        return None;
    }
    Some(terms)
}

} // verus!
