use vstd::arithmetic::div_mod::*;
use vstd::arithmetic::mul::*;
use vstd::arithmetic::power::*;
use vstd::arithmetic::power2::*;
use vstd::prelude::*;
use vstd::bits::lemma_usize_pow2_no_overflow;

use crate::error::Error;

verus! {

/// `n` is a prime number.
pub open spec fn is_prime_spec(n: int) -> bool {
    &&& n >= 2
    &&& forall|d: int| 2 <= d < n ==> #[trigger] (n % d) != 0
}

/// `d` divides `n`.
pub open spec fn divides(d: int, n: int) -> bool {
    d != 0 && n % d == 0
}

proof fn lemma_odd_not_divisible_by_even(value: int, e: int)
    requires
        value % 2 == 1,
        e >= 2,
        e % 2 == 0,
    ensures
        value % e != 0,
{
    if value % e == 0 {
        lemma_fundamental_div_mod(value, e);
        lemma_fundamental_div_mod(e, 2);
        let q = value / e;
        let h = e / 2;
        assert(value == (2 * h) * q);
        lemma_mul_is_associative(2, h, q);
        lemma_mod_multiples_basic(h * q, 2);
        lemma_mul_is_commutative(h * q, 2);
    }
}

/// A divisor `d` of `value` with `divisor <= d < value` yields a cofactor below `divisor`.
proof fn lemma_cofactor_small(value: int, divisor: int, d: int)
    requires
        3 <= divisor,
        divisor > value / divisor,
        divisor <= d < value,
        value % d == 0,
    ensures
        2 <= value / d < divisor,
        value % (value / d) == 0,
{
    lemma_fundamental_div_mod(value, d);
    let q = value / d;
    lemma_div_is_ordered_by_denominator(value, divisor, d);
    if q < 2 {
        if q <= 0 {
            lemma_mul_inequality(q, 0, d);
            lemma_mul_is_commutative(q, d);
        } else {
            assert(value == d * 1);
        }
    }
    lemma_mod_multiples_basic(d, q);
    lemma_mul_is_commutative(d, q);
}

/// Tests whether `value` is prime by trial division.
pub fn is_prime(value: usize) -> (r: bool)
    ensures
        r == is_prime_spec(value as int),
{
    if value < 2 {
        return false;
    }
    if value % 2 == 0 {
        if value != 2 {
            assert(!is_prime_spec(value as int)) by {
                assert((value as int) % 2 == 0);
            }
        }
        return value == 2;
    }
    let mut divisor: usize = 3;
    while divisor <= value / divisor
        invariant
            3 <= divisor,
            divisor % 2 == 1,
            value % 2 == 1,
            value >= 3,
            forall|d: int| 2 <= d < divisor ==> #[trigger] ((value as int) % d) != 0,
        decreases value - divisor,
    {
        assert(divisor * divisor <= value) by {
            lemma_fundamental_div_mod(value as int, divisor as int);
            lemma_mul_inequality(divisor as int, (value / divisor) as int, divisor as int);
            lemma_mul_is_commutative(divisor as int, (value / divisor) as int);
        }
        assert(divisor < value) by {
            lemma_mul_inequality(3, divisor as int, divisor as int);
        }
        if value % divisor == 0 {
            return false;
        }
        proof {
            lemma_odd_not_divisible_by_even(value as int, divisor + 1);
        }
        divisor = divisor + 2;
    }
    assert forall|d: int| 2 <= d < value implies #[trigger] ((value as int) % d) != 0 by {
        if d >= divisor && (value as int) % d == 0 {
            lemma_cofactor_small(value as int, divisor as int, d);
            let q = (value as int) / d;
            assert((value as int) % q != 0);
        }
    }
    true
}


/// `(lhs * rhs) % modulus`, computed without overflow in 128-bit arithmetic.
pub fn mul_mod(lhs: usize, rhs: usize, modulus: usize) -> (r: usize)
    requires
        modulus > 0,
    ensures
        r as int == (lhs as int * rhs as int) % (modulus as int),
        r < modulus,
{
    proof {
        lemma_mul_upper_bound(lhs as int, usize::MAX as int, rhs as int, usize::MAX as int);
        assert(usize::MAX as int * usize::MAX as int <= u128::MAX) by (nonlinear_arith)
            requires
                usize::MAX <= 0xffff_ffff_ffff_ffff,
        ;
        lemma_mod_bound(lhs as int * rhs as int, modulus as int);
    }
    ((lhs as u128 * rhs as u128) % modulus as u128) as usize
}

proof fn lemma_pow_mod_step(res: int, b: int, e: nat, m: int)
    requires
        m > 0,
        res >= 0,
        b >= 0,
    ensures
        e % 2 == 1 ==> (((res * b) % m) * pow((b * b) % m, e / 2)) % m == (res * pow(b, e)) % m,
        e % 2 == 0 ==> (res * pow((b * b) % m, e / 2)) % m == (res * pow(b, e)) % m,
{
    let h = e / 2;
    let bb = (b * b) % m;
    lemma_square_is_pow2(b);
    lemma_pow_multiplies(b, 2, h);
    lemma_pow_mod_noop(b * b, h, m);
    // pow(bb, h) % m == pow(b, 2h) % m
    assert(pow(bb, h) % m == pow(b, 2 * h) % m);
    lemma_fundamental_div_mod(e as int, 2);
    if e % 2 == 1 {
        lemma_pow_adds(b, 2 * h, 1);
        lemma_pow1(b);
        assert(pow(b, e) == pow(b, 2 * h) * b);
        lemma_mul_mod_noop_left(res * b, pow(bb, h), m);
        lemma_mul_mod_noop_right(res * b, pow(bb, h), m);
        lemma_mul_mod_noop_right(res * b, pow(b, 2 * h), m);
        lemma_mul_is_associative(res, b, pow(b, 2 * h));
        lemma_mul_is_commutative(b, pow(b, 2 * h));
    } else {
        assert(e == 2 * h);
        lemma_mul_mod_noop_right(res, pow(bb, h), m);
        lemma_mul_mod_noop_right(res, pow(b, 2 * h), m);
    }
}

/// `base` raised to `exponent` modulo `modulus`, by square-and-multiply.
pub fn pow_mod(base: usize, exponent: usize, modulus: usize) -> (r: usize)
    requires
        modulus > 0,
    ensures
        r as int == (if exponent == 0 {
            1
        } else {
            pow(base as int, exponent as nat) % (modulus as int)
        }),
{
    let ghost b0 = base;
    let ghost e0 = exponent;
    let mut base = base;
    let mut exponent = exponent;
    let mut result: usize = 1;
    while exponent != 0
        invariant
            modulus > 0,
            (result as int * pow(base as int, exponent as nat)) % (modulus as int) == pow(
                b0 as int,
                e0 as nat,
            ) % (modulus as int),
            result == 1 || result < modulus,
            exponent <= e0,
            (e0 > 0 && exponent == 0) ==> result < modulus,
            e0 == 0 ==> result == 1,
        decreases exponent,
    {
        proof {
            lemma_pow_mod_step(result as int, base as int, exponent as nat, modulus as int);
            assert(exponent & 1 == exponent % 2) by (bit_vector);
            assert(exponent >> 1 == exponent / 2) by (bit_vector);
        }
        if exponent & 1 == 1 {
            result = mul_mod(result, base, modulus);
        }
        base = mul_mod(base, base, modulus);
        exponent = exponent >> 1;
    }
    proof {
        lemma_pow0(base as int);
        if e0 == 0 {
            lemma_pow0(b0 as int);
        } else {
            lemma_small_mod(result as nat, modulus as nat);
            assert(result as int * pow(base as int, 0) == result as int);
            assert(result as int == pow(b0 as int, e0 as nat) % (modulus as int));
        }
    }
    result
}


/// `2^bits` when it fits in a machine word, as `1usize.checked_shl(bits)` gives it.
pub fn checked_pow2(bits: usize) -> (r: Option<usize>)
    ensures
        r is None <==> bits >= usize::BITS,
        r matches Some(v) ==> v == pow2(bits as nat) && v >= 1,
{
    if bits >= usize::BITS as usize {
        return None;
    }
    let mut value: usize = 1;
    let mut i: usize = 0;
    proof {
        lemma2_to64();
        lemma_pow2_strictly_increases(bits as nat, usize::BITS as nat);
    }
    while i < bits
        invariant
            i <= bits,
            bits < usize::BITS,
            value == pow2(i as nat),
            pow2(bits as nat) < pow2(usize::BITS as nat),
            pow2(usize::BITS as nat) == usize::MAX + 1,
        decreases bits - i,
    {
        proof {
            lemma_pow2_adds(i as nat, 1);
            lemma2_to64();
            if i + 1 < bits {
                lemma_pow2_strictly_increases((i + 1) as nat, bits as nat);
            }
        }
        value = value * 2;
        i = i + 1;
    }
    proof {
        lemma_pow2_pos(bits as nat);
    }
    Some(value)
}


/// `g^k mod p`.
pub open spec fn power_residue(p: int, g: int, k: nat) -> int {
    pow(g, k) % p
}

/// The powers `g^0, ..., g^(p-2)` are pairwise distinct modulo `p`.
pub open spec fn powers_distinct(p: int, g: int) -> bool {
    forall|i: nat, j: nat|
        i < j < p - 1 ==> #[trigger] power_residue(p, g, i) != #[trigger] power_residue(p, g, j)
}

/// `g^(p-1)` is one modulo `p`.
pub open spec fn cycle_closes(p: int, g: int) -> bool {
    power_residue(p, g, (p - 1) as nat) == 1
}

/// `v` is among `g^0, ..., g^(p-2)` modulo `p`.
pub open spec fn is_low_power(p: int, g: int, v: int) -> bool {
    exists|k: nat| k < p - 1 && #[trigger] power_residue(p, g, k) == v
}

/// Every non-zero residue modulo `p` is among `g^0, ..., g^(p-2)`.
pub open spec fn powers_cover(p: int, g: int) -> bool {
    forall|v: int| 1 <= v < p ==> #[trigger] is_low_power(p, g, v)
}

/// The reason, if any, for which `g` is refused as a primitive root modulo `p`.
pub open spec fn generator_error(p: int, g: int) -> Option<Error> {
    if !is_prime_spec(p) {
        Some(Error::NotPrime)
    } else if !(0 < g < p) {
        Some(Error::InvalidGenerator)
    } else if !powers_distinct(p, g) {
        Some(Error::NotGenerator)
    } else if !cycle_closes(p, g) {
        Some(Error::InvalidGeneratorCycle)
    } else if !powers_cover(p, g) {
        Some(Error::NotPrimitiveRoot)
    } else {
        None
    }
}

/// One more factor of `g` multiplies the residue by `g`.
pub proof fn lemma_power_residue_step(p: int, g: int, k: nat)
    requires
        p > 0,
    ensures
        power_residue(p, g, k + 1) == (power_residue(p, g, k) * g) % p,
{
    lemma_pow_adds(g, k, 1);
    lemma_pow1(g);
    lemma_mul_mod_noop_left(pow(g, k), g, p);
}

/// Once `g^(p-1)` is one, the powers of `g` repeat with period `p - 1`.
pub proof fn lemma_power_residue_period(p: int, g: int, k: nat)
    requires
        p >= 2,
        cycle_closes(p, g),
    ensures
        power_residue(p, g, k) == power_residue(p, g, k % ((p - 1) as nat)),
    decreases k,
{
    let q = (p - 1) as nat;
    if k >= q {
        let r = (k - q) as nat;
        lemma_power_residue_period(p, g, r);
        lemma_pow_adds(g, r, q);
        lemma_mul_mod_noop(pow(g, r), pow(g, q), p);
        lemma_mod_bound(pow(g, r), p);
        lemma_small_mod((pow(g, r) % p) as nat, p as nat);
        lemma_mod_sub_multiples_vanish(k as int, q as int);
    } else {
        lemma_small_mod(k, q);
    }
}

/// Once `g^(p-1)` is one, no power of `g` is zero modulo `p`.
pub proof fn lemma_power_residue_nonzero(p: int, g: int, k: nat)
    requires
        p >= 2,
        cycle_closes(p, g),
    ensures
        power_residue(p, g, k) != 0,
{
    lemma_power_residue_period(p, g, k);
    let r = k % ((p - 1) as nat);
    if power_residue(p, g, r) == 0 {
        lemma_zero_stays(p, g, r, (p - 1) as nat);
    }
}

proof fn lemma_zero_stays(p: int, g: int, j: nat, k: nat)
    requires
        p >= 2,
        power_residue(p, g, j) == 0,
        j <= k,
    ensures
        power_residue(p, g, k) == 0,
    decreases k - j,
{
    if j < k {
        lemma_zero_stays(p, g, j, (k - 1) as nat);
        lemma_power_residue_step(p, g, (k - 1) as nat);
        assert((k - 1) as nat + 1 == k);
        lemma_mul_basics(g);
        lemma_small_mod(0, p as nat);
        assert(power_residue(p, g, (k - 1) as nat) * g == 0);
    }
}


/// Euclid's lemma for a factor below the prime: a prime that divides `a·b` with `0 < a < p`
/// divides `b`.
pub proof fn lemma_euclid_small(p: int, a: int, b: int)
    requires
        is_prime_spec(p),
        0 < a < p,
        (a * b) % p == 0,
    ensures
        b % p == 0,
    decreases a,
{
    if a > 1 {
        let q = p / a;
        let r = p % a;
        lemma_fundamental_div_mod(p, a);
        assert(r != 0) by {
            assert(p % a != 0);
        }
        lemma_mod_bound(p, a);
        assert(r * b == p * b - q * (a * b)) by (nonlinear_arith)
            requires
                p == a * q + r,
        ;
        lemma_mod_multiples_basic(b, p);
        lemma_mul_is_commutative(b, p);
        lemma_fundamental_div_mod(a * b, p);
        let k = (a * b) / p;
        assert(q * (a * b) == (q * k) * p) by (nonlinear_arith)
            requires
                a * b == p * k,
        ;
        assert(r * b == (b - q * k) * p) by (nonlinear_arith)
            requires
                r * b == p * b - q * (a * b),
                q * (a * b) == (q * k) * p,
        ;
        lemma_mod_multiples_basic(b - q * k, p);
        lemma_euclid_small(p, r, b);
    } else {
        lemma_mul_basics(b);
    }
}

/// Euclid's lemma: a prime that divides a product divides one of its factors.
pub proof fn lemma_euclid(p: int, a: int, b: int)
    requires
        is_prime_spec(p),
        a >= 0,
        (a * b) % p == 0,
    ensures
        a % p == 0 || b % p == 0,
{
    let r = a % p;
    if r != 0 {
        lemma_fundamental_div_mod(a, p);
        lemma_mod_bound(a, p);
        let q = a / p;
        assert(a * b == r * b + (q * b) * p) by (nonlinear_arith)
            requires
                a == p * q + r,
        ;
        lemma_mod_multiples_vanish(q * b, r * b, p);
        lemma_euclid_small(p, r, b);
    }
}


/// Divisibility is transitive.
pub proof fn lemma_divides_transitive(x: int, e: int, f: int)
    requires
        e > 0,
        f > 0,
        x % e == 0,
        e % f == 0,
    ensures
        x % f == 0,
{
    lemma_fundamental_div_mod(x, e);
    lemma_fundamental_div_mod(e, f);
    let k = x / e;
    let j = e / f;
    assert(x == f * (j * k)) by (nonlinear_arith)
        requires
            x == e * k,
            e == f * j,
    ;
    lemma_mod_multiples_basic(j * k, f);
    lemma_mul_is_commutative(j * k, f);
}

/// The greatest common divisor, by Euclid's algorithm.
pub open spec fn gcd(a: nat, b: nat) -> nat
    decreases b,
{
    if b == 0 {
        a
    } else {
        gcd(b, a % b)
    }
}

/// A common divisor of `x` and `y` divides `x - q·y`.
proof fn lemma_divides_combination(d: int, x: int, y: int, q: int)
    requires
        d > 0,
        x % d == 0,
        y % d == 0,
    ensures
        (x - q * y) % d == 0,
{
    lemma_fundamental_div_mod(x, d);
    lemma_fundamental_div_mod(y, d);
    let u = x / d;
    let v = y / d;
    assert(x - q * y == (u - q * v) * d) by (nonlinear_arith)
        requires
            x == d * u,
            y == d * v,
    ;
    lemma_mod_multiples_basic(u - q * v, d);
}

/// `gcd(a, b)` is a positive common divisor of `a` and `b` that every positive common divisor
/// divides.
pub proof fn lemma_gcd(a: nat, b: nat)
    requires
        a >= 1,
    ensures
        gcd(a, b) >= 1,
        divides(gcd(a, b) as int, a as int),
        divides(gcd(a, b) as int, b as int),
        forall|c: int|
            c >= 1 && divides(c, a as int) && divides(c, b as int) ==> #[trigger] divides(
                c,
                gcd(a, b) as int,
            ),
    decreases b,
{
    if b == 0 {
        lemma_mod_self_0(a as int);
        lemma_small_mod(0, a);
    } else {
        let r = a % b;
        let q = a / b;
        lemma_gcd(b, r);
        let g = gcd(b, r);
        lemma_fundamental_div_mod(a as int, b as int);
        lemma_divides_combination(g as int, r as int, b as int, -q);
        assert(r - (-q) * b == a) by (nonlinear_arith)
            requires
                a == b * q + r,
        ;
        assert forall|c: int| c >= 1 && divides(c, a as int) && divides(c, b as int) implies #[trigger] divides(
            c,
            g as int,
        ) by {
            lemma_divides_combination(c, a as int, b as int, q as int);
            assert(divides(c, r as int));
        }
    }
}

/// A positive divisor of a positive number is at most that number.
pub proof fn lemma_divisor_cofactor(m: int, d: int)
    requires
        m >= 1,
        d >= 1,
        m % d == 0,
    ensures
        d <= m,
        m / d >= 1,
        m == d * (m / d),
{
    lemma_fundamental_div_mod(m, d);
    let k = m / d;
    if k <= 0 {
        lemma_mul_inequality(k, 0, d);
        lemma_mul_is_commutative(k, d);
    }
    lemma_mul_increases(k, d);
    lemma_mul_is_commutative(k, d);
}

/// Among positive divisors of `m`, `x` divides `y` exactly when `m / y` divides `m / x`.
pub proof fn lemma_divisor_duality(m: int, x: int, y: int)
    requires
        m >= 1,
        x >= 1,
        y >= 1,
        m % x == 0,
        m % y == 0,
    ensures
        (y % x == 0) <==> ((m / x) % (m / y) == 0),
        m / x >= 1,
        m / y >= 1,
{
    lemma_divisor_cofactor(m, x);
    lemma_divisor_cofactor(m, y);
    let xx = m / x;
    let yy = m / y;
    if y % x == 0 {
        lemma_fundamental_div_mod(y, x);
        let k = y / x;
        assert(x * xx == x * (k * yy)) by (nonlinear_arith)
            requires
                m == x * xx,
                m == y * yy,
                y == x * k,
        ;
        lemma_mul_equality_converse(x, xx, k * yy);
        lemma_mod_multiples_basic(k, yy);
    }
    if xx % yy == 0 {
        lemma_fundamental_div_mod(xx, yy);
        let l = xx / yy;
        assert(yy * y == yy * (x * l)) by (nonlinear_arith)
            requires
                m == x * xx,
                m == y * yy,
                xx == yy * l,
        ;
        lemma_mul_equality_converse(yy, y, x * l);
        lemma_mod_multiples_basic(l, x);
        lemma_mul_is_commutative(l, x);
    }
}

/// A number with no divisor in `2..divisor`, where `divisor * divisor > rest`, is one or prime.
proof fn lemma_no_small_divisor_prime(rest: int, divisor: int)
    requires
        rest >= 2,
        divisor >= 2,
        divisor > rest / divisor,
        forall|e: int| 2 <= e < divisor ==> #[trigger] (rest % e) != 0,
    ensures
        is_prime_spec(rest),
        rest >= divisor,
{
    if divisor == 2 {
        assert(rest <= 3);
        if rest == 3 {
            assert(3int % 2 != 0);
        }
    } else {
        assert forall|d: int| 2 <= d < rest implies #[trigger] (rest % d) != 0 by {
            if d >= divisor && rest % d == 0 {
                lemma_cofactor_small(rest, divisor, d);
                let q = rest / d;
                assert(rest % q != 0);
            }
        }
    }
    if rest < divisor {
        lemma_mod_self_0(rest);
        assert(rest % rest != 0);
    }
}

/// The distinct prime factors of `value`, in increasing order: none for zero and one.
pub fn distinct_prime_factors(value: usize) -> (r: Vec<usize>)
    ensures
        forall|i: int, j: int| 0 <= i < j < r.len() ==> r@[i] < r@[j],
        forall|i: int|
            0 <= i < r.len() ==> is_prime_spec(#[trigger] r@[i] as int) && (value as int) % (
            r@[i] as int) == 0,
        value >= 1 ==> forall|q: int|
            is_prime_spec(q) && (value as int) % q == 0 ==> #[trigger] r@.contains(q as usize),
        value == 0 ==> r@.len() == 0,
{
    let ghost v0 = value as int;
    let mut rest = value;
    let mut factors: Vec<usize> = Vec::new();
    let mut divisor: usize = 2;
    while divisor <= rest / divisor
        invariant
            v0 == value,
            2 <= divisor,
            divisor == 2 || divisor % 2 == 1,
            v0 >= 1 ==> rest >= 1 && v0 % (rest as int) == 0,
            v0 == 0 ==> rest == 0 && factors@.len() == 0,
            forall|e: int| 2 <= e < divisor ==> #[trigger] ((rest as int) % e) != 0,
            forall|i: int, j: int| 0 <= i < j < factors.len() ==> factors@[i] < factors@[j],
            forall|i: int|
                0 <= i < factors.len() ==> #[trigger] factors@[i] < divisor && is_prime_spec(
                    factors@[i] as int,
                ) && v0 % (factors@[i] as int) == 0,
            v0 >= 1 ==> forall|q: int|
                is_prime_spec(q) && q < divisor && v0 % q == 0 ==> #[trigger] factors@.contains(
                    q as usize,
                ),
            v0 >= 1 ==> forall|q: int|
                is_prime_spec(q) && q >= divisor ==> (#[trigger] (v0 % q) == 0 <==> (rest as int) % q
                    == 0),
        decreases (if divisor <= rest {
            rest - divisor + 1
        } else {
            0
        }),
    {
        proof {
            lemma_fundamental_div_mod(rest as int, divisor as int);
            lemma_mul_inequality(divisor as int, (rest / divisor) as int, divisor as int);
            lemma_mul_is_commutative(divisor as int, (rest / divisor) as int);
            assert(divisor * divisor <= rest);
            lemma_mul_inequality(2, divisor as int, divisor as int);
        }
        let d = divisor;
        if rest % d == 0 {
            proof {
                assert forall|e: int| 2 <= e < d implies #[trigger] ((d as int) % e) != 0 by {
                    if (d as int) % e == 0 {
                        lemma_divides_transitive(rest as int, d as int, e);
                    }
                }
                lemma_divides_transitive(v0, rest as int, d as int);
            }
            let ghost before = factors@;
            factors.push(d);
            proof {
                assert forall|q: int|
                    v0 >= 1 && is_prime_spec(q) && q < d + 1 && v0 % q == 0 implies #[trigger] factors@.contains(
                    q as usize,
                ) by {
                    if q < d {
                        assert(before.contains(q as usize));
                        let i = choose|i: int| 0 <= i < before.len() && before[i] == q as usize;
                        assert(factors@[i] == q as usize);
                    } else {
                        assert(factors@[factors.len() - 1] == d);
                    }
                }
            }
            let ghost rest0 = rest;
            while rest % d == 0
                invariant
                    rest <= rest0,
                    v0 == value,
                    v0 >= 1,
                    2 <= d,
                    rest >= 1,
                    v0 % (rest as int) == 0,
                    forall|e: int| 2 <= e < d ==> #[trigger] ((rest as int) % e) != 0,
                    forall|q: int|
                        is_prime_spec(q) && q > d ==> (#[trigger] (v0 % q) == 0 <==> (rest as int) % q
                            == 0),
                decreases rest,
            {
                let next = rest / d;
                proof {
                    lemma_fundamental_div_mod(rest as int, d as int);
                    assert(rest == d * next);
                    lemma_mul_is_commutative(d as int, next as int);
                    assert(next >= 1) by {
                        if next == 0 {
                            lemma_mul_basics(d as int);
                        }
                    }
                    lemma_mod_multiples_basic(next as int, d as int);
                    assert((rest as int) % (next as int) == 0) by {
                        lemma_mod_multiples_basic(d as int, next as int);
                    }
                    lemma_divides_transitive(v0, rest as int, next as int);
                    assert forall|e: int| 2 <= e < d implies #[trigger] ((next as int) % e) != 0 by {
                        if (next as int) % e == 0 {
                            lemma_divides_transitive(rest as int, next as int, e);
                        }
                    }
                    assert forall|q: int|
                        is_prime_spec(q) && q > d implies (#[trigger] (v0 % q) == 0 <==> (next as int) % q
                            == 0) by {
                        if (rest as int) % q == 0 {
                            assert((d as int) % q != 0) by {
                                lemma_small_mod(d as nat, q as nat);
                            }
                            lemma_euclid(q, d as int, next as int);
                        }
                        if (next as int) % q == 0 {
                            lemma_divides_transitive(rest as int, next as int, q);
                        }
                    }
                    lemma_mul_inequality(2, d as int, next as int);
                }
                rest = next;
            }
        } else {
            proof {
                if v0 >= 1 {
                    assert forall|q: int|
                        is_prime_spec(q) && q < d + 1 && v0 % q == 0 implies #[trigger] factors@.contains(
                        q as usize,
                    ) by {
                        if q == d {
                            assert((v0 % q == 0) == ((rest as int) % q == 0));
                        }
                    }
                }
            }
        }
        proof {
            if d != 2 {
                assert forall|q: int| is_prime_spec(q) && q == d + 1 implies false by {
                    assert((q % 2) == 0);
                }
                assert((rest as int) % ((d + 1) as int) != 0) by {
                    if (rest as int) % ((d + 1) as int) == 0 {
                        lemma_divides_transitive(rest as int, (d + 1) as int, 2);
                    }
                }
            }
        }
        divisor = divisor + (if divisor != 2 {
            1
        } else {
            0
        }) + 1;
    }
    let ghost before = factors@;
    if rest > 1 {
        proof {
            lemma_no_small_divisor_prime(rest as int, divisor as int);
        }
        factors.push(rest);
    }
    proof {
        if v0 >= 1 {
            assert forall|q: int|
                is_prime_spec(q) && v0 % q == 0 implies #[trigger] factors@.contains(q as usize) by {
                if q < divisor {
                    assert(before.contains(q as usize));
                    let i = choose|i: int| 0 <= i < before.len() && before[i] == q as usize;
                    assert(factors@[i] == q as usize);
                } else {
                    assert((rest as int) % q == 0);
                    if rest == 1 {
                        lemma_small_mod(1, q as nat);
                    }
                    assert(rest > 1);
                    lemma_mod_is_zero(rest as nat, q as nat);
                    if q < rest {
                        assert((rest as int) % q != 0);
                    }
                    assert(factors@[factors.len() - 1] == rest);
                }
            }
        }
    }
    factors
}


/// `c` passes the order test modulo `p`: `c^((p-1)/q) mod p` differs from one for every prime
/// `q` that divides `p - 1`.
pub open spec fn passes_order_test(p: int, c: int) -> bool {
    forall|q: int|
        is_prime_spec(q) && (p - 1) % q == 0 ==> #[trigger] power_residue(p, c, ((p - 1) / q) as nat)
            != 1
}

/// `g` is the least primitive-root candidate modulo the prime `p`: one for two, and otherwise
/// the least `c` in `2..p` that passes the order test.
pub open spec fn least_candidate(p: int, g: int) -> bool {
    &&& is_prime_spec(p)
    &&& p == 2 ==> g == 1
    &&& p > 2 ==> {
        &&& 2 <= g < p
        &&& passes_order_test(p, g)
        &&& forall|c: int| 2 <= c < g ==> !#[trigger] passes_order_test(p, c)
    }
}

/// The least primitive-root candidate modulo a prime.
pub fn primitive_root(prime: usize) -> (r: Result<usize, Error>)
    ensures
        match r {
            Ok(g) => least_candidate(prime as int, g as int),
            Err(e) => {
                ||| !is_prime_spec(prime as int) && e == Error::NotPrime
                ||| {
                    &&& is_prime_spec(prime as int)
                    &&& prime > 2
                    &&& e == Error::NoPrimitiveRoot
                    &&& forall|c: int| 2 <= c < prime ==> !#[trigger] passes_order_test(prime as int, c)
                }
            },
        },
{
    if !is_prime(prime) {
        return Err(Error::NotPrime);
    }
    if prime == 2 {
        return Ok(1);
    }
    let order = prime - 1;
    let factors = distinct_prime_factors(order);
    let ghost p = prime as int;
    let mut candidate: usize = 2;
    while candidate < prime
        invariant
            p == prime,
            is_prime_spec(p),
            prime > 2,
            order == prime - 1,
            forall|i: int|
                0 <= i < factors.len() ==> is_prime_spec(#[trigger] factors@[i] as int) && (order as int)
                    % (factors@[i] as int) == 0,
            forall|q: int|
                is_prime_spec(q) && (order as int) % q == 0 ==> #[trigger] factors@.contains(q as usize),
            2 <= candidate <= prime,
            forall|c: int| 2 <= c < candidate ==> !#[trigger] passes_order_test(p, c),
        decreases prime - candidate,
    {
        let mut all = true;
        let mut index: usize = 0;
        while index < factors.len()
            invariant
                p == prime,
                prime > 2,
                order == prime - 1,
                forall|i: int|
                    0 <= i < factors.len() ==> is_prime_spec(#[trigger] factors@[i] as int) && (
                    order as int) % (factors@[i] as int) == 0,
                index <= factors.len(),
                all == forall|i: int|
                    0 <= i < index ==> #[trigger] power_residue(
                        p,
                        candidate as int,
                        ((order as int) / (factors@[i] as int)) as nat,
                    ) != 1,
            decreases factors.len() - index,
        {
            let factor = factors[index];
            proof {
                assert(is_prime_spec(factor as int));
                lemma_mod_is_zero(order as nat, factor as nat);
                lemma_fundamental_div_mod(order as int, factor as int);
                if order / factor == 0 {
                    lemma_mul_basics(factor as int);
                }
            }
            let residue = pow_mod(candidate, order / factor, prime);
            proof {
                assert(residue == power_residue(p, candidate as int, ((order as int) / (factor as int)) as nat));
            }
            if residue == 1 {
                all = false;
            }
            index = index + 1;
        }
        if all {
            proof {
                assert forall|q: int| is_prime_spec(q) && (p - 1) % q == 0 implies #[trigger] power_residue(
                    p,
                    candidate as int,
                    ((p - 1) / q) as nat,
                ) != 1 by {
                    lemma_mod_is_zero(order as nat, q as nat);
                    assert(factors@.contains(q as usize));
                    let i = choose|i: int| 0 <= i < factors.len() && factors@[i] == q as usize;
                    assert(factors@[i] as int == q);
                    assert(power_residue(p, candidate as int, ((order as int) / (factors@[i] as int)) as nat) != 1);
                }
            }
            return Ok(candidate);
        }
        proof {
            let i = choose|i: int|
                0 <= i < factors.len() && !(#[trigger] power_residue(
                    p,
                    candidate as int,
                    ((order as int) / (factors@[i] as int)) as nat,
                ) != 1);
            let q = factors@[i] as int;
            assert(!passes_order_test(p, candidate as int)) by {
                assert(is_prime_spec(q) && (p - 1) % q == 0);
            }
        }
        candidate = candidate + 1;
    }
    Err(Error::NoPrimitiveRoot)
}


/// `x` is a power of two.
pub open spec fn power_of_two(x: int) -> bool {
    exists|k: nat| #[trigger] pow2(k) == x
}

/// Tests whether `value` is a power of two.
pub fn is_power_of_two(value: usize) -> (r: bool)
    ensures
        r == power_of_two(value as int),
{
    if value == 0 {
        proof {
            assert forall|k: nat| #[trigger] pow2(k) != 0 by {
                lemma_pow2_pos(k);
            }
        }
        return false;
    }
    let mut rest = value;
    let ghost mut k: nat = 0;
    proof {
        lemma2_to64();
    }
    while rest % 2 == 0
        invariant
            rest >= 1,
            value == rest * pow2(k),
        decreases rest,
    {
        proof {
            lemma_pow2_adds(k, 1);
            lemma2_to64();
            lemma_fundamental_div_mod(rest as int, 2);
            lemma_mul_is_associative((rest / 2) as int, 2, pow2(k) as int);
            k = k + 1;
        }
        rest = rest / 2;
    }
    if rest == 1 {
        proof {
            lemma_mul_basics(pow2(k) as int);
        }
        true
    } else {
        proof {
            assert forall|j: nat| #[trigger] pow2(j) != value by {
                if pow2(j) == value {
                    lemma_pow2_pos(k);
                    if j <= k {
                        if j < k {
                            lemma_pow2_strictly_increases(j, k);
                        }
                        lemma_mul_inequality(2, rest as int, pow2(k) as int);
                    } else {
                        lemma_pow2_adds(k, (j - k) as nat);
                        lemma_mul_is_commutative(rest as int, pow2(k) as int);
                        lemma_mul_equality_converse(pow2(k) as int, rest as int, pow2((j - k) as nat) as int);
                        lemma_pow2_unfold((j - k) as nat);
                        lemma_mod_multiples_basic(pow2((j - k - 1) as nat) as int, 2);
                    }
                }
            }
        }
        false
    }
}

/// The least power of two that is at least `value` (one for zero).
pub fn next_power_of_two(value: usize) -> (r: usize)
    requires
        value <= pow2((usize::BITS - 1) as nat),
    ensures
        power_of_two(r as int),
        r >= value,
        r == 1 || r / 2 < value,
{
    let mut power: usize = 1;
    let ghost mut k: nat = 0;
    proof {
        lemma2_to64();
        lemma_usize_pow2_no_overflow((usize::BITS - 1) as nat);
    }
    while power < value
        invariant
            power == pow2(k),
            k < usize::BITS,
            power == 1 || power / 2 < value,
            value <= pow2((usize::BITS - 1) as nat),
            pow2((usize::BITS - 1) as nat) < usize::MAX,
        decreases usize::BITS - k,
    {
        proof {
            lemma_pow2_adds(k, 1);
            lemma2_to64();
            if k >= usize::BITS - 1 {
                if k > usize::BITS - 1 {
                    lemma_pow2_strictly_increases((usize::BITS - 1) as nat, k);
                }
                assert(false);
            }
            if k + 1 < usize::BITS - 1 {
                lemma_pow2_strictly_increases(k + 1, (usize::BITS - 1) as nat);
            }
        }
        power = power * 2;
        proof {
            k = k + 1;
        }
    }
    power
}

} // verus!
