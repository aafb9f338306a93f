use vstd::arithmetic::div_mod::*;
use vstd::arithmetic::mul::*;
use vstd::arithmetic::power2::*;
use vstd::bits::{lemma_usize_pow2_no_overflow, lemma_usize_shl_is_mul};
use vstd::prelude::*;

use super::encoding::{CleaningMode, NativeOperation};
use super::indicator::{affine_eval, lemma_affine_eval_sum};
use super::poset::{
    lemma_range_sum_ext, lemma_range_sum_pairs, lemma_range_sum_point, lemma_range_sum_scale, lemma_range_sum_skip,
    lemma_range_sum_swap, lemma_range_sum_zero, range_sum,
};
use vstd::arithmetic::power::*;

use super::number_theory::{
    checked_pow2, cycle_closes, generator_error, is_low_power, is_prime_spec, is_prime, lemma_euclid, lemma_power_residue_nonzero,
    lemma_power_residue_period, lemma_power_residue_step, least_candidate, mul_mod, passes_order_test,
    power_residue, powers_cover, powers_distinct, primitive_root,
};
use crate::error::Error;

verus! {

/// A codeword coordinate of a character encoding: a root of unity, or zero.
#[derive(Clone, Copy, Debug, PartialEq, Eq, Structural)]
pub enum Character {
    /// The Gaussian integer `re + i·im`: zero, `±1` or `±i`.
    Exact { re: i128, im: i128 },
    /// The root of unity `exp(2πi·exponent/order)`, which has no exact Gaussian form.
    Turn { exponent: usize, order: usize },
}

/// The root of unity `exp(2πi·e/order)` for `0 <= e < order`, exact where it is `±1` or `±i`.
pub open spec fn character_spec(order: int, e: int) -> Character {
    if e == 0 {
        Character::Exact { re: 1, im: 0 }
    } else if order % 2 == 0 && e == order / 2 {
        Character::Exact { re: -1i128, im: 0 }
    } else if order % 4 == 0 && e == order / 4 {
        Character::Exact { re: 0, im: 1 }
    } else if order % 4 == 0 && e == 3 * (order / 4) {
        Character::Exact { re: 0, im: -1i128 }
    } else {
        Character::Turn { exponent: e as usize, order: order as usize }
    }
}

/// Distinct exponents give distinct roots of unity.
pub proof fn lemma_character_injective(order: int, e1: int, e2: int)
    requires
        1 <= order <= usize::MAX,
        0 <= e1 < order,
        0 <= e2 < order,
        character_spec(order, e1) == character_spec(order, e2),
    ensures
        e1 == e2,
{
}

/// The root of unity `exp(2πi·exponent/order)`.
pub fn root_of_unity(order: usize, exponent: i128) -> (r: Character)
    requires
        order >= 1,
    ensures
        r == character_spec(order as int, exponent as int % order as int),
{
    let reduced = exponent.checked_rem_euclid(order as i128).unwrap();
    let e = reduced as usize;
    if e == 0 {
        return Character::Exact { re: 1, im: 0 };
    }
    if order.is_multiple_of(2) && e == order / 2 {
        return Character::Exact { re: -1, im: 0 };
    }
    if order.is_multiple_of(4) {
        if e == order / 4 {
            return Character::Exact { re: 0, im: 1 };
        }
        if e == 3 * (order / 4) {
            return Character::Exact { re: 0, im: -1 };
        }
    }
    Character::Turn { exponent: e, order }
}

/// Root-of-unity character encoding of the additive group modulo an integer.
#[derive(Clone, Copy, Debug, PartialEq, Eq, Structural)]
pub struct Bru {
    modulus: usize,
}

impl Bru {
    /// The modulus, which is also the alphabet size.
    pub closed spec fn n(&self) -> nat {
        self.modulus as nat
    }

    /// At least two symbols.
    pub open spec fn wf(&self) -> bool {
        self.n() >= 2
    }

    /// Exponent, modulo the modulus, of coordinate `c` of the codeword of `value`.
    pub open spec fn exponent(&self, value: int, c: int) -> int {
        ((c + 1) * value) % (self.n() as int)
    }

    /// The block that encodes `value`: coordinate `c` is `exp(2πi·(c + 1)·value/modulus)`.
    pub open spec fn codeword(&self, value: int) -> Seq<Character> {
        Seq::new(
            (self.n() - 1) as nat,
            |c: int| character_spec(self.n() as int, self.exponent(value, c)),
        )
    }

    /// Constructs a root-of-unity encoding for the requested modulus.
    pub fn new(modulus: usize) -> (r: Result<Self, Error>)
        ensures
            match r {
                Ok(b) => b.wf() && b.n() == modulus,
                Err(e) => modulus < 2 && e == Error::ModulusTooSmall,
            },
    {
        if modulus < 2 {
            return Err(Error::ModulusTooSmall);
        }
        Ok(Bru { modulus })
    }

    /// Returns the additive modulus and alphabet size.
    pub fn modulus(&self) -> (r: usize)
        ensures
            r == self.n(),
    {
        self.modulus
    }

    /// Returns the number of symbols in the encoded alphabet.
    pub fn alphabet_size(&self) -> (r: usize)
        ensures
            r == self.n(),
    {
        self.modulus
    }

    /// Returns the number of coordinates in one encoded block.
    pub fn block_size(&self) -> (r: usize)
        requires
            self.wf(),
        ensures
            r == self.n() - 1,
    {
        self.modulus - 1
    }

    /// Encodes `value` into `output`: coordinate `c` is `exp(2πi·(c + 1)·value/modulus)`.
    pub fn encode_into(&self, value: usize, output: &mut Vec<Character>) -> (r: Result<(), Error>)
        requires
            self.wf(),
            value < self.n() && old(output)@.len() == self.n() - 1 ==> (self.n() - 1) * value
                <= usize::MAX,
        ensures
            match r {
                Ok(()) => {
                    &&& value < self.n()
                    &&& old(output)@.len() == self.n() - 1
                    &&& final(output)@ == self.codeword(value as int)
                },
                Err(e) => {
                    &&& final(output)@ == old(output)@
                    &&& {
                        ||| value >= self.n() && e == Error::ValueOutOfRange
                        ||| value < self.n() && old(output)@.len() != self.n() - 1 && e
                            == Error::WidthMismatch
                    }
                },
            },
    {
        if value >= self.modulus {
            return Err(Error::ValueOutOfRange);
        }
        if output.len() != self.modulus - 1 {
            return Err(Error::WidthMismatch);
        }
        let width = output.len();
        let mut coordinate: usize = 0;
        while coordinate < width
            invariant
                self.wf(),
                width == self.n() - 1,
                value < self.n(),
                (self.n() - 1) * value <= usize::MAX,
                output@.len() == width,
                coordinate <= width,
                forall|c: int| 0 <= c < coordinate ==> #[trigger] output@[c] == self.codeword(value as int)[c],
            decreases width - coordinate,
        {
            proof {
                lemma_mul_inequality((coordinate + 1) as int, width as int, value as int);
            }
            let exponent = (coordinate + 1) * value;
            let root = root_of_unity(self.modulus, exponent as i128);
            output.set(coordinate, root);
            coordinate = coordinate + 1;
        }
        proof {
            assert(output@ =~= self.codeword(value as int));
        }
        Ok(())
    }

    /// Returns the operation implemented by coordinatewise multiplication.
    pub fn native_operation(&self) -> (r: Option<NativeOperation>)
        ensures
            r == Some(NativeOperation::AddMod),
    {
        Some(NativeOperation::AddMod)
    }

    /// Computes the sum of two symbols modulo the modulus, the symbol whose codeword is the
    /// coordinatewise product of theirs.
    pub fn native_product(&self, lhs: usize, rhs: usize) -> (r: Option<usize>)
        requires
            self.wf(),
            lhs < self.n() && rhs < self.n() ==> lhs + rhs <= usize::MAX,
        ensures
            r == (if lhs < self.n() && rhs < self.n() {
                Some(((lhs + rhs) % (self.n() as int)) as usize)
            } else {
                None
            }),
    {
        if lhs < self.modulus && rhs < self.modulus {
            Some((lhs + rhs) % self.modulus)
        } else {
            None
        }
    }

    /// Each coordinate of the codeword of `(a + b) mod n` carries the sum of the exponents
    /// that the codewords of `a` and `b` carry there: the product of the two roots.
    pub proof fn lemma_sum_codeword(&self, a: int, b: int, c: int)
        requires
            self.wf(),
            0 <= a < self.n(),
            0 <= b < self.n(),
            0 <= c < self.n() - 1,
        ensures
            self.exponent((a + b) % (self.n() as int), c) == (self.exponent(a, c) + self.exponent(
                b,
                c,
            )) % (self.n() as int),
    {
        let n = self.n() as int;
        let k = c + 1;
        lemma_mul_mod_noop_right(k, a + b, n);
        lemma_mul_is_distributive_add(k, a, b);
        lemma_add_mod_noop(k * a, k * b, n);
    }

    /// Each coordinate of the codeword of `-a mod n` carries the negated exponent of the
    /// codeword of `a`: conjugating a codeword gives the codeword of the negated symbol.
    pub proof fn lemma_conjugate_codeword(&self, a: int, c: int)
        requires
            self.wf(),
            0 <= a < self.n(),
            0 <= c < self.n() - 1,
        ensures
            self.exponent((self.n() - a) % (self.n() as int), c) == (self.n() - self.exponent(a, c))
                % (self.n() as int),
    {
        let n = self.n() as int;
        let k = c + 1;
        lemma_mul_mod_noop_right(k, n - a, n);
        lemma_mul_is_distributive_sub(k, n, a);
        lemma_mul_is_commutative(k, n);
        lemma_mod_multiples_vanish(k, -(k * a), n);
        lemma_mod_multiples_vanish(1, -((k * a) % n), n);
        lemma_mul_basics(n);
        lemma_sub_mod_noop(0, k * a, n);
        lemma_small_mod(0, n as nat);
    }

    /// Distinct symbols have distinct codewords.
    pub proof fn lemma_codeword_injective(&self, a: int, b: int)
        requires
            self.wf(),
            0 <= a < self.n(),
            0 <= b < self.n(),
            self.codeword(a) == self.codeword(b),
        ensures
            a == b,
    {
        let n = self.n() as int;
        assert(self.codeword(a)[0] == self.codeword(b)[0]);
        lemma_small_mod(a as nat, n as nat);
        lemma_small_mod(b as nat, n as nat);
        lemma_mul_basics(a);
        lemma_mul_basics(b);
        assert(self.exponent(a, 0) == a);
        assert(self.exponent(b, 0) == b);
        assert(self.codeword(a)[0] == character_spec(n, self.exponent(a, 0)));
        assert(self.codeword(b)[0] == character_spec(n, self.exponent(b, 0)));
        lemma_character_injective(n, a, b);
    }
}

/// Number of one bits of `x`.
pub open spec fn popcount(x: nat) -> nat
    decreases x,
{
    if x == 0 {
        0
    } else {
        x % 2 + popcount(x / 2)
    }
}

proof fn lemma_popcount_bound(x: nat, k: nat)
    requires
        x < pow2(k),
    ensures
        popcount(x) <= k,
    decreases k,
{
    if x > 0 {
        if k == 0 {
            assert(pow2(0) == 1) by {
                lemma2_to64();
            }
        } else {
            lemma_pow2_unfold(k);
            lemma_popcount_bound(x / 2, (k - 1) as nat);
        }
    }
}

/// Number of one bits of `value`.
pub fn count_ones(value: usize) -> (r: u32)
    ensures
        r == popcount(value as nat),
{
    proof {
        lemma2_to64();
        lemma_popcount_bound(value as nat, usize::BITS as nat);
    }
    let mut rest = value;
    let mut count: u32 = 0;
    while rest != 0
        invariant
            count + popcount(rest as nat) == popcount(value as nat),
            popcount(value as nat) <= 64,
        decreases rest,
    {
        proof {
            assert(rest & 1 == rest % 2) by (bit_vector);
            assert(rest >> 1 == rest / 2) by (bit_vector);
        }
        if rest & 1 == 1 {
            count = count + 1;
        }
        rest = rest >> 1;
    }
    count
}


/// `+1` when `mask & value` has an even number of one bits, `-1` otherwise.
pub open spec fn walsh_sign(mask: int, value: int) -> i128 {
    if popcount((mask as usize & value as usize) as nat) % 2 == 0 {
        1i128
    } else {
        -1i128
    }
}

proof fn lemma_popcount_step(x: nat)
    ensures
        popcount(x) == x % 2 + popcount(x / 2),
{
}

proof fn lemma_mod2_sum(a: int, b: int, c: int, d: int)
    requires
        a % 2 == c % 2,
        b % 2 == d % 2,
    ensures
        (a + b) % 2 == (c + d) % 2,
{
    lemma_add_mod_noop(a, b, 2);
    lemma_add_mod_noop(c, d, 2);
}

proof fn lemma_popcount_xor(x: usize, y: usize)
    ensures
        popcount((x ^ y) as nat) % 2 == (popcount(x as nat) + popcount(y as nat)) % 2,
    decreases x + y,
{
    if x != 0 || y != 0 {
        let z = x ^ y;
        assert(z % 2 == (x % 2 + y % 2) % 2) by (bit_vector)
            requires z == x ^ y;
        assert(z / 2 == (x / 2) ^ (y / 2)) by (bit_vector)
            requires z == x ^ y;
        lemma_popcount_xor(x / 2, y / 2);
        lemma_popcount_step(z as nat);
        lemma_popcount_step(x as nat);
        lemma_popcount_step(y as nat);
        assert((z as nat) / 2 == ((x / 2) ^ (y / 2)) as nat);
        assert((x as nat) / 2 == (x / 2) as nat);
        assert((y as nat) / 2 == (y / 2) as nat);
        let px2 = popcount((x / 2) as nat) as int;
        let py2 = popcount((y / 2) as nat) as int;
        lemma_mod2_sum((z % 2) as int, popcount((z / 2) as nat) as int, (x % 2) as int + (y % 2) as int, px2 + py2);
        assert(popcount(z as nat) == (z % 2) as int + popcount((z / 2) as nat));
        assert(popcount(x as nat) == (x % 2) as int + px2);
        assert(popcount(y as nat) == (y % 2) as int + py2);
    } else {
        assert(x ^ y == 0) by (bit_vector)
            requires x == 0 && y == 0;
    }
}

proof fn lemma_popcount_single_bit(l: usize)
    requires
        l != 0,
        l & ((l - 1) as usize) == 0,
    ensures
        popcount(l as nat) == 1,
    decreases l,
{
    lemma_popcount_step(l as nat);
    if l != 1 {
        assert(l % 2 == 0 && l / 2 != 0 && (l / 2) & ((l / 2 - 1) as usize) == 0) by (bit_vector)
            requires
                l != 0,
                l != 1,
                l & ((l - 1) as usize) == 0,
        ;
        lemma_popcount_single_bit(l / 2);
    } else {
        assert(popcount(0) == 0);
    }
}

/// The sum of `walsh_sign(mask, t)` over the masks below `2^k`.
pub open spec fn walsh_sum(t: int, k: nat) -> int {
    range_sum(|c: int| walsh_sign(c, t) as int, pow2(k) as int)
}

/// The signs of the masks below `2^k` at `t` add up to `2^k` when `t` is zero, and cancel
/// otherwise.
proof fn lemma_walsh_sum(t: int, k: nat)
    requires
        0 <= t < pow2(k),
        k < usize::BITS,
    ensures
        walsh_sum(t, k) == (if t == 0 { pow2(k) as int } else { 0 }),
    decreases k,
{
    lemma_usize_pow2_no_overflow(k);
    let f = |c: int| walsh_sign(c, t) as int;
    if k == 0 {
        lemma2_to64();
        assert(range_sum(f, 1) == range_sum(f, 0) + f(0));
        assert((0usize & 0usize) == 0usize) by (bit_vector);
        assert(popcount(0) == 0);
    } else {
        let j = (k - 1) as nat;
        let half = pow2(j) as int;
        lemma_pow2_unfold(k);
        lemma_pow2_pos(j);
        let t2 = t / 2;
        lemma_walsh_sum(t2, j);
        let g = |w: int| walsh_sign(w, t2) as int;
        let cf: int = if t % 2 == 0 { 2 } else { 0 };
        let pairs = |w: int| f(2 * w) + f(2 * w + 1);
        let scaled = |w: int| cf * g(w);
        assert forall|w: int| 0 <= w < half implies #[trigger] pairs(w) == scaled(w) by {
            let cw = w as usize;
            let tt = t as usize;
            let y = cw & (tt / 2);
            let z0 = (2 * w) as usize;
            let z1 = (2 * w + 1) as usize;
            assert((z0 & tt) == 2 * y && (z1 & tt) == 2 * y + tt % 2) by (bit_vector)
                requires
                    z0 == 2 * cw,
                    z1 == 2 * cw + 1,
                    y == cw & (tt / 2),
            ;
            lemma_popcount_step((2 * y) as nat);
            lemma_popcount_step((2 * y + tt % 2) as nat);
            assert(((2 * y) as nat) / 2 == y as nat);
            assert(((2 * y + tt % 2) as nat) / 2 == y as nat);
            assert((t2 as usize) == tt / 2);
            let p = popcount(y as nat);
            assert(f(2 * w) == g(w));
            if t % 2 == 0 {
                assert(f(2 * w + 1) == g(w));
                assert(cf * g(w) == 2 * g(w)) by (nonlinear_arith)
                    requires
                        cf == 2,
                ;
            } else {
                assert((1 + p) % 2 != p % 2);
                assert(f(2 * w + 1) == -g(w));
                assert(cf * g(w) == 0) by (nonlinear_arith)
                    requires
                        cf == 0,
                ;
            }
        }
        lemma_range_sum_pairs(f, half);
        lemma_range_sum_ext(pairs, scaled, half);
        lemma_range_sum_scale(cf, g, half);
        assert(pow2(k) as int == 2 * half);
        assert(walsh_sum(t, k) == range_sum(f, 2 * half));
        assert(walsh_sum(t2, j) == range_sum(g, half));
        let r = walsh_sum(t2, j);
        if t % 2 == 0 {
            assert(cf * r == 2 * r) by (nonlinear_arith)
                requires
                    cf == 2,
            ;
        } else {
            assert(cf * r == 0) by (nonlinear_arith)
                requires
                    cf == 0,
            ;
        }
    }
}

/// The sign vectors of two symbols below `2^k` are orthogonal unless the symbols agree.
proof fn lemma_walsh_orthogonal(s: int, v: int, k: nat)
    requires
        0 <= s < pow2(k),
        0 <= v < pow2(k),
        k < usize::BITS,
    ensures
        range_sum(|c: int| (walsh_sign(c, s) as int) * (walsh_sign(c, v) as int), pow2(k) as int) == (if s == v {
            pow2(k) as int
        } else {
            0
        }),
{
    lemma_usize_pow2_no_overflow(k);
    let bits = k as usize;
    lemma_usize_shl_is_mul(1, bits);
    let su = s as usize;
    let vu = v as usize;
    let x = su ^ vu;
    assert(x < (1usize << bits) && (x == 0 <==> su == vu)) by (bit_vector)
        requires
            x == su ^ vu,
            su < (1usize << bits),
            vu < (1usize << bits),
            bits < usize::BITS,
    ;
    let n = pow2(k) as int;
    let prod = |c: int| (walsh_sign(c, s) as int) * (walsh_sign(c, v) as int);
    let single = |c: int| walsh_sign(c, x as int) as int;
    assert forall|c: int| 0 <= c < n implies #[trigger] prod(c) == single(c) by {
        let cu = c as usize;
        assert((cu & x) == (cu & su) ^ (cu & vu)) by (bit_vector)
            requires
                x == su ^ vu,
        ;
        lemma_popcount_xor(cu & su, cu & vu);
        let ps = popcount((cu & su) as nat);
        let pv = popcount((cu & vu) as nat);
        let px = popcount((cu & x) as nat);
        assert(px % 2 == (ps + pv) % 2);
        if ps % 2 == 0 {
            if pv % 2 == 0 {
                assert(prod(c) == 1 * 1);
            } else {
                assert(prod(c) == 1 * -1);
            }
        } else {
            if pv % 2 == 0 {
                assert(prod(c) == -1 * 1);
            } else {
                assert(prod(c) == -1 * -1);
            }
        }
    }
    lemma_range_sum_ext(prod, single, n);
    lemma_walsh_sum(x as int, k);
}

/// Walsh-Hadamard character encoding of fixed-width bit strings.
#[derive(Clone, Copy, Debug, PartialEq, Eq, Structural)]
pub struct WalshHadamard {
    bits: usize,
    size: usize,
}

impl WalshHadamard {
    /// Number of bits in each symbol.
    pub closed spec fn dimension(&self) -> nat {
        self.bits as nat
    }

    /// Number of symbols.
    pub closed spec fn n(&self) -> nat {
        self.size as nat
    }

    /// A positive dimension whose symbols fit in a machine word.
    pub open spec fn wf(&self) -> bool {
        &&& 0 < self.dimension() < usize::BITS
        &&& self.n() == pow2(self.dimension())
    }

    /// The block that encodes `value`: coordinate `c` is the sign of the parity of
    /// `(c + 1) & value`.
    pub open spec fn codeword(&self, value: int) -> Seq<i128> {
        Seq::new((self.n() - 1) as nat, |c: int| walsh_sign(c + 1, value))
    }

    /// Constructs an encoding for bit strings of the requested width.
    pub fn new(bits: usize) -> (r: Result<Self, Error>)
        ensures
            match r {
                Ok(w) => w.wf() && w.dimension() == bits,
                Err(e) => {
                    ||| bits == 0 && e == Error::ZeroDimension
                    ||| bits >= usize::BITS && e == Error::AlphabetTooLarge
                },
            },
    {
        if bits == 0 {
            return Err(Error::ZeroDimension);
        }
        let size = match checked_pow2(bits) {
            Some(size) => size,
            None => return Err(Error::AlphabetTooLarge),
        };
        Ok(WalshHadamard { bits, size })
    }

    /// Returns the number of bits in each alphabet symbol.
    pub fn bits(&self) -> (r: usize)
        ensures
            r == self.dimension(),
    {
        self.bits
    }

    /// Returns the number of symbols in the encoded alphabet.
    pub fn alphabet_size(&self) -> (r: usize)
        ensures
            r == self.n(),
    {
        self.size
    }

    /// Returns the number of coordinates in one encoded block.
    pub fn block_size(&self) -> (r: usize)
        requires
            self.wf(),
        ensures
            r == self.n() - 1,
    {
        proof {
            lemma_pow2_pos(self.dimension());
        }
        self.size - 1
    }

    /// Encodes `value` into `output`: coordinate `c` is `+1` or `-1` by the parity of
    /// `(c + 1) & value`.
    pub fn encode_into(&self, value: usize, output: &mut Vec<i128>) -> (r: Result<(), Error>)
        requires
            self.wf(),
        ensures
            match r {
                Ok(()) => {
                    &&& value < self.n()
                    &&& old(output)@.len() == self.n() - 1
                    &&& final(output)@ == self.codeword(value as int)
                },
                Err(e) => {
                    &&& final(output)@ == old(output)@
                    &&& {
                        ||| value >= self.n() && e == Error::ValueOutOfRange
                        ||| value < self.n() && old(output)@.len() != self.n() - 1 && e
                            == Error::WidthMismatch
                    }
                },
            },
    {
        proof {
            lemma_pow2_pos(self.dimension());
        }
        if value >= self.size {
            return Err(Error::ValueOutOfRange);
        }
        if output.len() != self.size - 1 {
            return Err(Error::WidthMismatch);
        }
        let width = output.len();
        let mut coordinate: usize = 0;
        while coordinate < width
            invariant
                self.wf(),
                width == self.n() - 1,
                width < usize::MAX,
                output@.len() == width,
                coordinate <= width,
                forall|c: int| 0 <= c < coordinate ==> #[trigger] output@[c] == self.codeword(value as int)[c],
            decreases width - coordinate,
        {
            let mask = coordinate + 1;
            let sign: i128 = if count_ones(mask & value).is_multiple_of(2) {
                1
            } else {
                -1
            };
            output.set(coordinate, sign);
            coordinate = coordinate + 1;
        }
        proof {
            assert(output@ =~= self.codeword(value as int));
        }
        Ok(())
    }

    /// Returns the operation implemented by coordinatewise multiplication.
    pub fn native_operation(&self) -> (r: Option<NativeOperation>)
        ensures
            r == Some(NativeOperation::Xor),
    {
        Some(NativeOperation::Xor)
    }

    /// Computes the exclusive-or of two symbols, the symbol whose codeword is the
    /// coordinatewise product of theirs.
    pub fn native_product(&self, lhs: usize, rhs: usize) -> (r: Option<usize>)
        ensures
            r == (if lhs < self.n() && rhs < self.n() {
                Some(lhs ^ rhs)
            } else {
                None
            }),
    {
        if lhs < self.size && rhs < self.size {
            Some(lhs ^ rhs)
        } else {
            None
        }
    }

    /// Returns the projection that restores codewords.
    pub fn cleaning_mode(&self) -> (r: Option<CleaningMode>)
        ensures
            r == Some(CleaningMode::Sign),
    {
        Some(CleaningMode::Sign)
    }

    /// The exclusive-or of two symbols is a symbol, and its codeword is the coordinatewise
    /// product of their codewords.
    pub proof fn lemma_xor_codeword(&self, a: usize, b: usize)
        requires
            self.wf(),
            a < self.n(),
            b < self.n(),
        ensures
            (a ^ b) < self.n(),
            self.codeword((a ^ b) as int) == Seq::new(
                (self.n() - 1) as nat,
                |c: int| (self.codeword(a as int)[c] * self.codeword(b as int)[c]) as i128,
            ),
    {
        let bits = self.dimension() as usize;
        lemma_usize_pow2_no_overflow(bits as nat);
        lemma_usize_shl_is_mul(1, bits);
        let x = a ^ b;
        assert(x < (1usize << bits)) by (bit_vector)
            requires
                x == a ^ b,
                a < (1usize << bits),
                b < (1usize << bits),
                bits < usize::BITS,
        ;
        let product = Seq::new(
            (self.n() - 1) as nat,
            |c: int| (self.codeword(a as int)[c] * self.codeword(b as int)[c]) as i128,
        );
        assert forall|c: int| 0 <= c < self.n() - 1 implies #[trigger] self.codeword(x as int)[c]
            == product[c] by {
            let m = (c + 1) as usize;
            assert((m & x) == (m & a) ^ (m & b)) by (bit_vector)
                requires x == a ^ b;
            lemma_popcount_xor(m & a, m & b);
            let px = popcount((m & x) as nat);
            let pa = popcount((m & a) as nat);
            let pb = popcount((m & b) as nat);
            assert(px % 2 == (pa + pb) % 2);
            assert(self.codeword(x as int)[c] == walsh_sign(c + 1, x as int));
            assert(self.codeword(a as int)[c] == walsh_sign(c + 1, a as int));
            assert(self.codeword(b as int)[c] == walsh_sign(c + 1, b as int));
            assert(product[c] == (walsh_sign(c + 1, a as int) * walsh_sign(c + 1, b as int)) as i128);
        }
        assert(self.codeword(x as int) =~= product);
    }

    /// Distinct symbols have distinct codewords.
    pub proof fn lemma_codeword_injective(&self, a: usize, b: usize)
        requires
            self.wf(),
            a < self.n(),
            b < self.n(),
            self.codeword(a as int) == self.codeword(b as int),
        ensures
            a == b,
    {
        if a != b {
            let bits = self.dimension() as usize;
            lemma_usize_pow2_no_overflow(bits as nat);
            lemma_usize_shl_is_mul(1, bits);
            let x = a ^ b;
            assert(x != 0 && x < (1usize << bits)) by (bit_vector)
                requires
                    x == a ^ b,
                    a != b,
                    a < (1usize << bits),
                    b < (1usize << bits),
                    bits < usize::BITS,
            ;
            let l = x & !((x - 1) as usize);
            assert(l != 0 && l <= x && (l & x) == l && (l & ((l - 1) as usize)) == 0) by (bit_vector)
                requires
                    l == x & !((x - 1) as usize),
                    x != 0,
            ;
            lemma_popcount_single_bit(l);
            let c = l - 1;
            assert((l & x) == (l & a) ^ (l & b)) by (bit_vector)
                requires x == a ^ b;
            lemma_popcount_xor(l & a, l & b);
            assert(((l & a) ^ (l & b)) == l);
            let pa = popcount((l & a) as nat);
            let pb = popcount((l & b) as nat);
            assert((pa + pb) % 2 == 1);
            assert(self.codeword(a as int)[c as int] == walsh_sign(l as int, a as int));
            assert(self.codeword(b as int)[c as int] == walsh_sign(l as int, b as int));
            assert(self.codeword(a as int)[c as int] != self.codeword(b as int)[c as int]);
        }
    }

    /// `n` times the coefficient of mask `c` when `values` is interpolated over the codewords:
    /// the sum of `values[v]` times `walsh_sign(c, v)`.
    pub open spec fn scaled_coefficient(&self, values: Seq<int>, c: int) -> int {
        range_sum(|v: int| values[v] * (walsh_sign(c, v) as int), self.n() as int)
    }

    /// `n` times the weights of the interpolating affine function, one per nonzero mask.
    pub open spec fn scaled_weights(&self, values: Seq<int>) -> Seq<int> {
        Seq::new((self.n() - 1) as nat, |slot: int| self.scaled_coefficient(values, slot + 1))
    }

    /// The affine function whose bias is `scaled_coefficient(values, 0) / n` and whose weights are
    /// `scaled_weights(values) / n` takes, at the codeword of each symbol, that symbol's value:
    /// stated here multiplied by `n`, the inverse Walsh-Hadamard transform.
    pub proof fn lemma_interpolation(&self, values: Seq<int>, s: int)
        requires
            self.wf(),
            values.len() == self.n(),
            0 <= s < self.n(),
        ensures
            affine_eval(
                self.scaled_coefficient(values, 0),
                self.scaled_weights(values),
                self.codeword(s),
                self.n() - 1,
            ) == self.n() * values[s],
    {
        let k = self.dimension();
        let n = self.n() as int;
        lemma_usize_pow2_no_overflow(k);
        lemma_pow2_unfold(k);
        lemma_pow2_pos((k - 1) as nat);
        let wc = |c: int| self.scaled_coefficient(values, c);
        let w = self.scaled_weights(values);
        let x = self.codeword(s);
        lemma_affine_eval_sum(wc(0), w, x, n - 1);
        let sg = |c: int| walsh_sign(c, s) as int;
        let h = |c: int| wc(c) * sg(c);
        let hs = |slot: int| h(if slot < 0 { slot } else { slot + 1 });
        let wx = |c: int| w[c] * (x[c] as int);
        assert forall|slot: int| 0 <= slot < n - 1 implies #[trigger] wx(slot) == hs(slot) by {}
        lemma_range_sum_ext(wx, hs, n - 1);
        lemma_range_sum_skip(h, 0, n - 1);
        let su = s as usize;
        assert((0usize & su) == 0usize) by (bit_vector);
        assert(popcount(0) == 0);
        assert(sg(0) == 1);
        lemma_mul_basics(wc(0));
        let f = |c: int, v: int| values[v] * ((walsh_sign(c, v) as int) * sg(c));
        let rows = |c: int| range_sum(|v: int| f(c, v), n);
        assert forall|c: int| 0 <= c < n implies #[trigger] h(c) == rows(c) by {
            let term = |v: int| values[v] * (walsh_sign(c, v) as int);
            lemma_range_sum_scale(sg(c), term, n);
            let fc = |v: int| f(c, v);
            let sc = |v: int| sg(c) * term(v);
            assert forall|v: int| 0 <= v < n implies #[trigger] fc(v) == sc(v) by {
                lemma_mul_is_associative(values[v], walsh_sign(c, v) as int, sg(c));
                lemma_mul_is_commutative(sg(c), values[v] * (walsh_sign(c, v) as int));
            }
            lemma_range_sum_ext(fc, sc, n);
            lemma_mul_is_commutative(wc(c), sg(c));
        }
        lemma_range_sum_ext(h, rows, n);
        lemma_range_sum_swap(f, n, n);
        let cols = |v: int| range_sum(|c: int| f(c, v), n);
        let d = |v: int| if v == s { n * values[s] } else { 0 };
        assert forall|v: int| 0 <= v < n implies #[trigger] cols(v) == d(v) by {
            let pr = |c: int| (walsh_sign(c, v) as int) * (walsh_sign(c, s) as int);
            let fv = |c: int| f(c, v);
            assert forall|c: int| 0 <= c < n implies #[trigger] fv(c) == values[v] * pr(c) by {}
            lemma_range_sum_ext(fv, |c: int| values[v] * pr(c), n);
            lemma_range_sum_scale(values[v], pr, n);
            lemma_walsh_orthogonal(v, s, k);
            lemma_mul_basics(values[v]);
            lemma_mul_is_commutative(values[v], n);
        }
        lemma_range_sum_ext(cols, d, n);
        lemma_range_sum_point(d, |v: int| 0int, n, s);
        lemma_range_sum_zero(n);
    }
}


/// Multiplicative-character encoding of a prime field, extended with zero.
#[derive(Clone, Debug, PartialEq, Eq)]
pub struct Lbru {
    prime: usize,
    generator: usize,
    logarithms: Vec<usize>,
}

impl Lbru {
    /// The prime modulus, which is also the alphabet size.
    pub closed spec fn n(&self) -> nat {
        self.prime as nat
    }

    /// The primitive root that orders the non-zero residues.
    pub closed spec fn generator_of(&self) -> int {
        self.generator as int
    }

    /// The discrete logarithm of a non-zero residue `v`.
    pub closed spec fn log_of(&self, v: int) -> int {
        self.logarithms@[v] as int
    }

    /// Number of entries in the logarithm table.
    pub closed spec fn log_count(&self) -> nat {
        self.logarithms@.len()
    }

    /// The generator is a primitive root modulo a prime, and `log_of` inverts its powers.
    pub open spec fn wf(&self) -> bool {
        let p = self.n() as int;
        let g = self.generator_of();
        &&& generator_error(p, g) is None
        &&& self.log_count() == p
        &&& forall|k: nat| k < p - 1 ==> #[trigger] self.log_of(power_residue(p, g, k)) == k
        &&& forall|v: int|
            1 <= v < p ==> 0 <= #[trigger] self.log_of(v) < p - 1 && power_residue(
                p,
                g,
                self.log_of(v) as nat,
            ) == v
    }

    /// Exponent, modulo `p - 1`, of coordinate `c` of the codeword of a non-zero `value`.
    pub open spec fn exponent(&self, value: int, c: int) -> int {
        (c * self.log_of(value)) % (self.n() - 1)
    }

    /// The block that encodes `value`: all zero for zero, and otherwise coordinate `c` is
    /// `exp(2πi·c·log(value)/(p - 1))`.
    pub open spec fn codeword(&self, value: int) -> Seq<Character> {
        if value == 0 {
            Seq::new((self.n() - 1) as nat, |c: int| Character::Exact { re: 0, im: 0 })
        } else {
            Seq::new(
                (self.n() - 1) as nat,
                |c: int| character_spec(self.n() - 1, self.exponent(value, c)),
            )
        }
    }

    /// Constructs an encoding using the least primitive-root candidate.
    pub fn new(prime: usize) -> (r: Result<Self, Error>)
        ensures
            match r {
                Ok(l) => {
                    &&& l.wf()
                    &&& l.n() == prime
                    &&& least_candidate(prime as int, l.generator_of())
                    &&& l.log_of(0) == usize::MAX
                },
                Err(e) => {
                    ||| !is_prime_spec(prime as int) && e == Error::NotPrime
                    ||| {
                        &&& is_prime_spec(prime as int)
                        &&& prime > 2
                        &&& e == Error::NoPrimitiveRoot
                        &&& forall|c: int| 2 <= c < prime ==> !#[trigger] passes_order_test(prime as int, c)
                    }
                    ||| exists|g: int|
                        #[trigger] least_candidate(prime as int, g) && generator_error(prime as int, g)
                            == Some(e)
                },
            },
    {
        let generator = match primitive_root(prime) {
            Ok(g) => g,
            Err(e) => return Err(e),
        };
        let r = Self::with_generator(prime, generator);
        proof {
            assert(least_candidate(prime as int, generator as int));
        }
        r
    }

    /// Constructs an encoding using the supplied primitive root.
    pub fn with_generator(prime: usize, generator: usize) -> (r: Result<Self, Error>)
        ensures
            match r {
                Ok(l) => {
                    &&& generator_error(prime as int, generator as int) is None
                    &&& l.wf()
                    &&& l.n() == prime
                    &&& l.generator_of() == generator
                    &&& l.log_of(0) == usize::MAX
                },
                Err(e) => generator_error(prime as int, generator as int) == Some(e),
            },
    {
        if !is_prime(prime) {
            return Err(Error::NotPrime);
        }
        if !(generator > 0 && generator < prime) {
            return Err(Error::InvalidGenerator);
        }
        let ghost p = prime as int;
        let ghost g = generator as int;
        let mut logarithms: Vec<usize> = vec![usize::MAX; prime];
        let mut value: usize = 1;
        let mut logarithm: usize = 0;
        proof {
            lemma_pow0(g);
            lemma_small_mod(1, prime as nat);
        }
        while logarithm < prime - 1
            invariant
                p == prime,
                g == generator,
                is_prime_spec(p),
                prime >= 2,
                0 < generator < prime,
                logarithms@.len() == prime,
                logarithm <= prime - 1,
                value == power_residue(p, g, logarithm as nat),
                0 < value < prime,
                logarithms@[0] == usize::MAX,
                forall|i: nat, j: nat|
                    i < j < logarithm ==> #[trigger] power_residue(p, g, i) != #[trigger] power_residue(
                        p,
                        g,
                        j,
                    ),
                forall|i: nat| i < logarithm ==> #[trigger] logarithms@[power_residue(p, g, i)] == i,
                forall|v: int|
                    0 <= v < prime && #[trigger] logarithms@[v] != usize::MAX ==> logarithms@[v]
                        < logarithm && power_residue(p, g, logarithms@[v] as nat) == v,
            decreases prime - 1 - logarithm,
        {
            proof {
                lemma_mod_bound(pow(g, logarithm as nat), p);
            }
            if logarithms[value] != usize::MAX {
                proof {
                    let i = logarithms@[value as int] as nat;
                    assert(power_residue(p, g, i) == power_residue(p, g, logarithm as nat));
                    assert(!powers_distinct(p, g));
                }
                return Err(Error::NotGenerator);
            }
            let ghost before = logarithms@;
            logarithms.set(value, logarithm);
            proof {
                assert forall|i: nat| i < logarithm + 1 implies #[trigger] logarithms@[power_residue(p, g, i)] == i by {
                    if i < logarithm {
                        lemma_mod_bound(pow(g, i), p);
                        assert(before[power_residue(p, g, i)] == i);
                    }
                }
                assert forall|v: int|
                    0 <= v < prime && #[trigger] logarithms@[v] != usize::MAX implies logarithms@[v]
                        < logarithm + 1 && power_residue(p, g, logarithms@[v] as nat) == v by {
                    if v != value {
                        assert(before[v] != usize::MAX);
                    }
                }
                assert forall|i: nat, j: nat|
                    i < j < logarithm + 1 implies #[trigger] power_residue(p, g, i) != #[trigger] power_residue(
                        p,
                        g,
                        j,
                    ) by {
                    if j == logarithm {
                        lemma_mod_bound(pow(g, i), p);
                        assert(before[power_residue(p, g, i)] == i);
                    }
                }
                lemma_power_residue_step(p, g, logarithm as nat);
                if (value as int * generator as int) % p == 0 {
                    lemma_euclid(p, value as int, generator as int);
                    lemma_small_mod(value as nat, prime as nat);
                    lemma_small_mod(generator as nat, prime as nat);
                }
            }
            value = mul_mod(value, generator, prime);
            logarithm = logarithm + 1;
        }
        proof {
            assert(powers_distinct(p, g));
        }
        if value != 1 {
            return Err(Error::InvalidGeneratorCycle);
        }
        let mut v: usize = 1;
        while v < prime
            invariant
                p == prime,
                g == generator,
                is_prime_spec(p),
                0 < generator < prime,
                powers_distinct(p, g),
                cycle_closes(p, g),
                prime >= 2,
                logarithms@.len() == prime,
                1 <= v <= prime,
                forall|i: nat| i < prime - 1 ==> #[trigger] logarithms@[power_residue(p, g, i)] == i,
                forall|w: int|
                    0 <= w < prime && #[trigger] logarithms@[w] != usize::MAX ==> logarithms@[w]
                        < prime - 1 && power_residue(p, g, logarithms@[w] as nat) == w,
                forall|w: int| 1 <= w < v ==> #[trigger] logarithms@[w] != usize::MAX,
                logarithms@[0] == usize::MAX,
            decreases prime - v,
        {
            if logarithms[v] == usize::MAX {
                proof {
                    if is_low_power(p, g, v as int) {
                        let k = choose|k: nat| k < p - 1 && #[trigger] power_residue(p, g, k) == v;
                        assert(logarithms@[power_residue(p, g, k)] == k);
                    }
                    assert(!powers_cover(p, g));
                }
                return Err(Error::NotPrimitiveRoot);
            }
            v = v + 1;
        }
        proof {
            assert forall|w: int| 1 <= w < p implies #[trigger] is_low_power(p, g, w) by {
                assert(logarithms@[w] != usize::MAX);
                let k = logarithms@[w] as nat;
                assert(power_residue(p, g, k) == w);
            }
        }
        let l = Lbru { prime, generator, logarithms };
        proof {
            assert forall|k: nat| k < p - 1 implies #[trigger] l.log_of(power_residue(p, g, k)) == k by {
                assert(logarithms@[power_residue(p, g, k)] == k);
            }
            assert forall|w: int| 1 <= w < p implies 0 <= #[trigger] l.log_of(w) < p - 1 && power_residue(
                p,
                g,
                l.log_of(w) as nat,
            ) == w by {
                assert(logarithms@[w] != usize::MAX);
            }
        }
        Ok(l)
    }

    /// Returns the prime modulus and alphabet size.
    pub fn modulus(&self) -> (r: usize)
        ensures
            r == self.n(),
    {
        self.prime
    }

    /// Returns the primitive root used to order nonzero field elements.
    pub fn generator(&self) -> (r: usize)
        ensures
            r == self.generator_of(),
    {
        self.generator
    }

    /// Returns the number of symbols in the encoded alphabet.
    pub fn alphabet_size(&self) -> (r: usize)
        ensures
            r == self.n(),
    {
        self.prime
    }

    /// Returns the number of coordinates in one encoded block.
    pub fn block_size(&self) -> (r: usize)
        requires
            self.wf(),
        ensures
            r == self.n() - 1,
    {
        self.prime - 1
    }

    /// Returns the discrete logarithm of a non-zero residue.
    pub fn logarithm(&self, value: usize) -> (r: usize)
        requires
            self.wf(),
            1 <= value < self.n(),
        ensures
            r == self.log_of(value as int),
    {
        self.logarithms[value]
    }

    /// Encodes `value` into `output`: zeros for zero, and otherwise the characters of its
    /// discrete logarithm.
    pub fn encode_into(&self, value: usize, output: &mut Vec<Character>) -> (r: Result<(), Error>)
        requires
            self.wf(),
            0 < value < self.n() && old(output)@.len() == self.n() - 1 ==> (self.n() - 2) * self.log_of(
                value as int,
            ) <= usize::MAX,
        ensures
            match r {
                Ok(()) => {
                    &&& value < self.n()
                    &&& old(output)@.len() == self.n() - 1
                    &&& final(output)@ == self.codeword(value as int)
                },
                Err(e) => {
                    &&& final(output)@ == old(output)@
                    &&& {
                        ||| value >= self.n() && e == Error::ValueOutOfRange
                        ||| value < self.n() && old(output)@.len() != self.n() - 1 && e
                            == Error::WidthMismatch
                    }
                },
            },
    {
        if value >= self.prime {
            return Err(Error::ValueOutOfRange);
        }
        if output.len() != self.prime - 1 {
            return Err(Error::WidthMismatch);
        }
        let width = output.len();
        if value == 0 {
            let mut coordinate: usize = 0;
            while coordinate < width
                invariant
                    width == self.n() - 1,
                    output@.len() == width,
                    coordinate <= width,
                    forall|c: int| 0 <= c < coordinate ==> #[trigger] output@[c] == (Character::Exact { re: 0, im: 0 }),
                decreases width - coordinate,
            {
                output.set(coordinate, Character::Exact { re: 0, im: 0 });
                coordinate = coordinate + 1;
            }
            proof {
                assert(output@ =~= self.codeword(0));
            }
            return Ok(());
        }
        let logarithm = self.logarithms[value];
        output.set(0, Character::Exact { re: 1, im: 0 });
        proof {
            lemma_mul_basics(logarithm as int);
            lemma_small_mod(0, (self.n() - 1) as nat);
            assert(output@[0] == self.codeword(value as int)[0]);
        }
        let mut coordinate: usize = 1;
        while coordinate < width
            invariant
                self.wf(),
                width == self.n() - 1,
                0 < value < self.n(),
                logarithm == self.log_of(value as int),
                (self.n() - 2) * logarithm <= usize::MAX,
                output@.len() == width,
                1 <= coordinate <= width,
                forall|c: int| 0 <= c < coordinate ==> #[trigger] output@[c] == self.codeword(value as int)[c],
            decreases width - coordinate,
        {
            proof {
                lemma_mul_inequality(coordinate as int, (self.n() - 2) as int, logarithm as int);
            }
            let exponent = coordinate * logarithm;
            let root = root_of_unity(self.prime - 1, exponent as i128);
            output.set(coordinate, root);
            coordinate = coordinate + 1;
        }
        proof {
            assert(output@ =~= self.codeword(value as int));
        }
        Ok(())
    }

    /// Returns the operation implemented by coordinatewise multiplication.
    pub fn native_operation(&self) -> (r: Option<NativeOperation>)
        ensures
            r == Some(NativeOperation::MulMod),
    {
        Some(NativeOperation::MulMod)
    }

    /// Computes the product of two symbols modulo the prime, the symbol whose codeword is the
    /// coordinatewise product of theirs.
    pub fn native_product(&self, lhs: usize, rhs: usize) -> (r: Option<usize>)
        requires
            self.wf(),
        ensures
            r == (if lhs < self.n() && rhs < self.n() {
                Some(((lhs * rhs) % (self.n() as int)) as usize)
            } else {
                None
            }),
    {
        if lhs < self.prime && rhs < self.prime {
            Some(mul_mod(lhs, rhs, self.prime))
        } else {
            None
        }
    }

    /// The discrete logarithm turns products into sums: the codeword of `a·b mod p` carries
    /// at each coordinate the sum of the exponents of the codewords of `a` and `b`, and a zero
    /// factor gives the zero symbol.
    pub proof fn lemma_product_codeword(&self, a: int, b: int)
        requires
            self.wf(),
            0 <= a < self.n(),
            0 <= b < self.n(),
        ensures
            (a == 0 || b == 0) ==> (a * b) % (self.n() as int) == 0,
            (a != 0 && b != 0) ==> {
                let m = (a * b) % (self.n() as int);
                &&& m != 0
                &&& forall|c: int|
                    0 <= c < self.n() - 1 ==> #[trigger] self.exponent(m, c) == (self.exponent(a, c)
                        + self.exponent(b, c)) % (self.n() - 1)
            },
    {
        let p = self.n() as int;
        let g = self.generator_of();
        let q = p - 1;
        lemma_mul_basics(b);
        lemma_mul_basics(a);
        lemma_small_mod(0, p as nat);
        if a != 0 && b != 0 {
            let la = self.log_of(a);
            let lb = self.log_of(b);
            let m = (a * b) % p;
            lemma_pow_adds(g, la as nat, lb as nat);
            lemma_mul_mod_noop(pow(g, la as nat), pow(g, lb as nat), p);
            assert(power_residue(p, g, (la + lb) as nat) == m);
            lemma_power_residue_period(p, g, (la + lb) as nat);
            let k = ((la + lb) as nat) % (q as nat);
            lemma_power_residue_nonzero(p, g, (la + lb) as nat);
            assert(self.log_of(power_residue(p, g, k)) == k);
            assert(self.log_of(m) == (la + lb) % q);
            assert forall|c: int|
                0 <= c < self.n() - 1 implies #[trigger] self.exponent(m, c) == (self.exponent(a, c)
                    + self.exponent(b, c)) % q by {
                lemma_mul_mod_noop_right(c, la + lb, q);
                lemma_mul_is_distributive_add(c, la, lb);
                lemma_add_mod_noop(c * la, c * lb, q);
            }
        }
    }

    /// Coordinate one of the codeword of a non-zero `value` carries the discrete logarithm of
    /// `value` to the generator, and every coordinate `c` is the `c`-th power of coordinate one:
    /// its exponent is `c` times that logarithm, modulo `p - 1`.
    pub proof fn lemma_codeword_powers(&self, value: int, c: int)
        requires
            self.wf(),
            1 <= value < self.n(),
            0 <= c < self.n() - 1,
        ensures
            0 <= self.exponent(value, 1) < self.n() - 1,
            power_residue(self.n() as int, self.generator_of(), self.exponent(value, 1) as nat) == value,
            self.exponent(value, c) == (c * self.exponent(value, 1)) % (self.n() - 1),
            self.codeword(value)[c] == character_spec(
                self.n() - 1,
                (c * self.exponent(value, 1)) % (self.n() - 1),
            ),
    {
        let q = self.n() - 1;
        let l = self.log_of(value);
        lemma_mul_basics(l);
        lemma_small_mod(l as nat, q as nat);
        assert(self.exponent(value, 1) == l);
    }

    /// Conjugation inverts: where `a·b mod p` is one, each coordinate of the codeword of `b`
    /// carries the negated exponent of the codeword of `a`.
    pub proof fn lemma_conjugate_codeword(&self, a: int, b: int, c: int)
        requires
            self.wf(),
            1 <= a < self.n(),
            1 <= b < self.n(),
            (a * b) % (self.n() as int) == 1,
            0 <= c < self.n() - 1,
        ensures
            self.exponent(b, c) == (self.n() - 1 - self.exponent(a, c)) % (self.n() - 1),
    {
        let p = self.n() as int;
        let q = p - 1;
        let g = self.generator_of();
        self.lemma_product_codeword(a, b);
        lemma_pow0(g);
        lemma_small_mod(1, p as nat);
        assert(power_residue(p, g, 0) == 1);
        assert(self.log_of(1) == 0);
        lemma_mul_basics(c);
        lemma_small_mod(0, q as nat);
        assert(self.exponent(1, c) == 0);
        let ea = self.exponent(a, c);
        let eb = self.exponent(b, c);
        lemma_mod_bound(c * self.log_of(a), q);
        lemma_mod_bound(c * self.log_of(b), q);
        assert((ea + eb) % q == 0);
        if ea == 0 {
            lemma_small_mod(eb as nat, q as nat);
            lemma_mod_self_0(q);
        } else {
            lemma_small_mod((q - ea) as nat, q as nat);
            lemma_fundamental_div_mod(ea + eb, q);
            lemma_div_pos_is_pos(ea + eb, q);
            let d = (ea + eb) / q;
            assert(ea + eb == q * d);
            lemma_mul_is_commutative(q, d);
            if d >= 2 {
                lemma_mul_inequality(2, d, q);
                assert(false);
            }
            if d == 0 {
                lemma_mul_basics(q);
                assert(false);
            }
            assert(d == 1);
            lemma_mul_basics(q);
            assert(ea + eb == q);
        }
    }

    /// Distinct symbols have distinct codewords.
    pub proof fn lemma_codeword_injective(&self, a: int, b: int)
        requires
            self.wf(),
            0 <= a < self.n(),
            0 <= b < self.n(),
            self.codeword(a) == self.codeword(b),
        ensures
            a == b,
    {
        let p = self.n() as int;
        let g = self.generator_of();
        let q = p - 1;
        if a != b {
            if a == 0 || b == 0 {
                let v = if a == 0 {
                    b
                } else {
                    a
                };
                lemma_mul_basics(self.log_of(v));
                lemma_small_mod(0, q as nat);
                assert(self.codeword(v)[0] == character_spec(q, self.exponent(v, 0)));
                assert(self.codeword(a)[0] == self.codeword(b)[0]);
            } else if q == 1 {
                assert(false);
            } else {
                let la = self.log_of(a);
                let lb = self.log_of(b);
                lemma_mul_basics(la);
                lemma_mul_basics(lb);
                lemma_small_mod(la as nat, q as nat);
                lemma_small_mod(lb as nat, q as nat);
                assert(self.codeword(a)[1] == character_spec(q, self.exponent(a, 1)));
                assert(self.codeword(b)[1] == character_spec(q, self.exponent(b, 1)));
                assert(self.codeword(a)[1] == self.codeword(b)[1]);
                lemma_character_injective(q, la, lb);
            }
        }
    }
}

} // verus!
