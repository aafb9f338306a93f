use vstd::prelude::*;
use vstd::arithmetic::power2::*;
use vstd::bits::{lemma_usize_pow2_no_overflow, lemma_usize_shl_is_mul};

use super::encoding::{CleaningMode, NativeOperation};
use super::indicator::{affine_eval, lemma_affine_eval_sum};
use super::poset::{
    cell, divisor_count, is_ancestor, lemma_range_sum_ext, lemma_range_sum_point, lemma_range_sum_scale,
    lemma_range_sum_skip, lemma_range_sum_swap, lemma_range_sum_zero, lemma_root_is_ancestor,
    lemma_tree_meet, range_sum, tree_error, FinitePoset,
};
use crate::error::Error;

verus! {

/// The element of `0..n` that sits at position `slot` once `omitted` is left out.
pub open spec fn skip(slot: int, omitted: int) -> int {
    if slot < omitted {
        slot
    } else {
        slot + 1
    }
}

/// What `MeetZeta::new` gives for the poset `p`.
pub open spec fn meet_outcome(p: FinitePoset, r: Result<MeetZeta, Error>) -> bool {
    match r {
        Ok(z) => z.wf() && z.order() == p,
        Err(e) => {
            ||| e == Error::NoBottom && forall|b: int| !#[trigger] p.is_bottom(b)
            ||| e == Error::MobiusOverflow && p.mobius_overflows() && p.running_sums_overflow() && exists|b: int| #[trigger] p.is_bottom(b)
            ||| {
                &&& e == Error::NoMeet
                &&& exists|b: int| #[trigger] p.is_bottom(b)
                &&& exists|a: int, b: int|
                    0 <= a < p.n() && 0 <= b < p.n() && !#[trigger] p.has_meet(a, b)
            }
        },
    }
}

/// Lower-zeta encoding whose native product is the meet operation.
#[derive(Clone, Debug, PartialEq, Eq)]
pub struct MeetZeta {
    poset: FinitePoset,
    bottom: usize,
    mobius: Vec<i128>,
    product: Vec<usize>,
}

impl MeetZeta {
    /// The underlying poset.
    pub closed spec fn order(&self) -> FinitePoset {
        self.poset
    }

    /// The bottom element, left out of every codeword.
    pub closed spec fn bottom_element(&self) -> int {
        self.bottom as int
    }

    /// The row-major Möbius function of the poset.
    pub closed spec fn mobius_values(&self) -> Seq<i128> {
        self.mobius@
    }

    /// The row-major meet table of the poset.
    pub closed spec fn meets(&self) -> Seq<usize> {
        self.product@
    }

    /// The poset is valid, with its bottom, its Möbius function and all its meets.
    pub open spec fn wf(&self) -> bool {
        let p = self.order();
        &&& p.wf()
        &&& p.is_bottom(self.bottom_element())
        &&& p.is_mobius(self.mobius_values())
        &&& self.meets().len() == p.n() * p.n()
        &&& forall|a: int, b: int|
            0 <= a < p.n() && 0 <= b < p.n() ==> p.is_meet(
                #[trigger] cell(self.meets(), p.n() as int, a, b) as int,
                a,
                b,
            )
    }

    /// Coordinate `slot` of the codeword of `value`: one when the `slot`-th element other than
    /// the bottom lies below `value`, zero otherwise.
    pub open spec fn coordinate(&self, value: int, slot: int) -> i128 {
        if self.order().rel(skip(slot, self.bottom_element()), value) {
            1
        } else {
            0
        }
    }

    /// The block that encodes `value`.
    pub open spec fn codeword(&self, value: int) -> Seq<i128> {
        Seq::new((self.order().n() - 1) as nat, |slot: int| self.coordinate(value, slot))
    }

    /// Constructs a meet-zeta encoding for a poset with a bottom and all meets.
    pub fn new(poset: FinitePoset) -> (r: Result<Self, Error>)
        requires
            poset.wf(),
        ensures
            meet_outcome(poset, r),
    {
        let bottom = match poset.bottom() {
            Some(b) => b,
            None => return Err(Error::NoBottom),
        };
        let mobius = match poset.mobius() {
            Ok(m) => m,
            Err(e) => return Err(e),
        };
        let product = match poset.meet_table() {
            Ok(t) => t,
            Err(e) => return Err(e),
        };
        Ok(MeetZeta { poset, bottom, mobius, product })
    }

    /// Constructs a meet-zeta encoding of a Boolean lattice.
    pub fn boolean(bits: usize) -> (r: Result<Self, Error>)
        requires
            bits < usize::BITS ==> pow2(bits as nat) * pow2(bits as nat) <= usize::MAX,
        ensures
            match r {
                Ok(z) => {
                    &&& 0 < bits < usize::BITS
                    &&& z.wf()
                    &&& z.order().n() == pow2(bits as nat)
                    &&& forall|a: int, b: int|
                        0 <= a < z.order().n() && 0 <= b < z.order().n() ==> #[trigger] z.order().rel(a, b)
                            == ((a as usize & b as usize) == a as usize)
                },
                Err(e) => {
                    ||| bits == 0 && e == Error::ZeroDimension
                    ||| bits >= usize::BITS && e == Error::AlphabetTooLarge
                },
            },
    {
        let poset = match FinitePoset::boolean_lattice(bits) {
            Ok(p) => p,
            Err(e) => return Err(e),
        };
        proof {
            let n = poset.n() as int;
            lemma_pow2_pos(bits as nat);
            assert forall|v: int| 0 <= v < n implies #[trigger] poset.rel(0, v) by {
                let w = v as usize;
                assert((0usize & w) == 0usize) by (bit_vector);
            }
            assert(poset.is_bottom(0));
            assert forall|a: int, b: int| 0 <= a < n && 0 <= b < n implies #[trigger] poset.has_meet(a, b) by {
                let x = a as usize;
                let y = b as usize;
                let m = x & y;
                assert(m <= x) by (bit_vector)
                    requires m == x & y;
                assert((m & x) == m) by (bit_vector)
                    requires m == x & y;
                assert((m & y) == m) by (bit_vector)
                    requires m == x & y;
                assert forall|z: int| 0 <= z < n && #[trigger] poset.rel(z, a) && poset.rel(z, b) implies poset.rel(z, m as int) by {
                    let w = z as usize;
                    assert((w & x) == w && (w & y) == w ==> (w & m) == w) by (bit_vector)
                        requires m == x & y;
                }
                assert(poset.is_meet(m as int, a, b));
            }
            poset.lemma_boolean_mobius(bits as nat);
        }
        Self::new(poset)
    }

    /// Constructs a meet-zeta encoding of rooted-tree ancestry.
    pub fn ancestor(parents: &[Option<usize>]) -> (r: Result<Self, Error>)
        requires
            parents@.len() * parents@.len() <= usize::MAX,
        ensures
            match r {
                Ok(z) => {
                    &&& tree_error(parents@) is None
                    &&& z.wf()
                    &&& z.order().n() == parents@.len()
                    &&& forall|a: int, v: int|
                        0 <= a < z.order().n() && 0 <= v < z.order().n() ==> #[trigger] z.order().rel(a, v)
                            == is_ancestor(parents@, a, v)
                },
                Err(e) => tree_error(parents@) == Some(e),
            },
    {
        let poset = match FinitePoset::rooted_tree(parents) {
            Ok(p) => p,
            Err(e) => return Err(e),
        };
        proof {
            let ps = parents@;
            let n = poset.n() as int;
            lemma_root_is_ancestor(ps);
            let root = choose|r: int|
                0 <= r < ps.len() && ps[r] is None && forall|v: int|
                    0 <= v < ps.len() ==> #[trigger] is_ancestor(ps, r, v);
            assert forall|v: int| 0 <= v < n implies #[trigger] poset.rel(root, v) by {
                assert(is_ancestor(ps, root, v));
            }
            assert(poset.is_bottom(root));
            assert forall|a: int, b: int| 0 <= a < n && 0 <= b < n implies #[trigger] poset.has_meet(a, b) by {
                lemma_tree_meet(ps, a, b);
                let m = choose|m: int|
                    {
                        &&& 0 <= m < ps.len()
                        &&& is_ancestor(ps, m, a)
                        &&& is_ancestor(ps, m, b)
                        &&& forall|z: int|
                            0 <= z < ps.len() && #[trigger] is_ancestor(ps, z, a) && is_ancestor(ps, z, b)
                                ==> is_ancestor(ps, z, m)
                    };
                assert(poset.rel(m, a));
                assert(poset.rel(m, b));
                assert forall|z: int| 0 <= z < n && #[trigger] poset.rel(z, a) && poset.rel(z, b) implies poset.rel(z, m) by {
                    assert(is_ancestor(ps, z, a));
                    assert(is_ancestor(ps, z, b));
                }
                assert(poset.is_meet(m, a, b));
            }
            poset.lemma_tree_mobius(ps);
        }
        Self::new(poset)
    }

    /// Constructs a divisor meet-zeta encoding and its symbol-to-divisor mapping.
    pub fn divisors(modulus: usize) -> (r: Result<(Self, Vec<usize>), Error>)
        requires
            divisor_count(modulus as int) * divisor_count(modulus as int) <= usize::MAX,
        ensures
            match r {
                Ok((z, divisors)) => {
                    &&& modulus >= 2
                    &&& z.wf()
                    &&& z.order().n() == divisors.len()
                    &&& forall|i: int, j: int|
                        0 <= i < j < divisors.len() ==> divisors@[i] < divisors@[j]
                    &&& forall|x: usize|
                        #[trigger] divisors@.contains(x) <==> (1 <= x <= modulus && modulus % x == 0)
                    &&& forall|i: int, j: int|
                        0 <= i < z.order().n() && 0 <= j < z.order().n() ==> #[trigger] z.order().rel(i, j)
                            == ((divisors@[j] as int) % (divisors@[i] as int) == 0)
                },
                Err(e) => modulus < 2 && e == Error::DivisorModulusTooSmall,
            },
    {
        let (poset, divisors) = match FinitePoset::divisor_lattice(modulus) {
            Ok(pair) => pair,
            Err(e) => return Err(e),
        };
        proof {
            let d = divisors@;
            let n = poset.n() as int;
            assert(d.contains(1usize));
            let i1 = choose|i: int| 0 <= i < d.len() && d[i] == 1usize;
            assert forall|i: int| 0 <= i < d.len() implies #[trigger] d[i] >= 1 by {
                assert(d.contains(d[i]));
            }
            if i1 > 0 {
                assert(d[0] < d[i1]);
            }
            assert(d[0] == 1);
            assert forall|v: int| 0 <= v < n implies #[trigger] poset.rel(0, v) by {
                assert((d[v] as int) % 1 == 0);
            }
            assert(poset.is_bottom(0));
            poset.lemma_divisor_bounds(d, modulus as int);
            poset.lemma_divisor_mobius(d, modulus as int);
        }
        match Self::new(poset) {
            Ok(z) => Ok((z, divisors)),
            Err(e) => Err(e),
        }
    }

    /// Returns the underlying finite poset.
    pub fn poset(&self) -> (r: &FinitePoset)
        ensures
            *r == self.order(),
    {
        &self.poset
    }

    /// Returns the bottom element.
    pub fn bottom(&self) -> (r: usize)
        ensures
            r == self.bottom_element(),
    {
        self.bottom
    }

    /// Returns the row-major Möbius function of the poset.
    pub fn mobius(&self) -> (r: &Vec<i128>)
        ensures
            r@ == self.mobius_values(),
    {
        &self.mobius
    }

    /// Returns the number of symbols in the encoded alphabet.
    pub fn alphabet_size(&self) -> (r: usize)
        ensures
            r == self.order().n(),
    {
        self.poset.size()
    }

    /// Returns the number of coordinates in one encoded block.
    pub fn block_size(&self) -> (r: usize)
        requires
            self.wf(),
        ensures
            r == self.order().n() - 1,
    {
        proof {
            self.poset.lemma_partial_order();
        }
        self.poset.size() - 1
    }

    /// Encodes `value` into `output`: coordinate `slot` is one exactly when the `slot`-th
    /// element other than the bottom lies below `value`.
    pub fn encode_into(&self, value: usize, output: &mut Vec<i128>) -> (r: Result<(), Error>)
        requires
            self.wf(),
        ensures
            match r {
                Ok(()) => {
                    &&& value < self.order().n()
                    &&& old(output)@.len() == self.order().n() - 1
                    &&& final(output)@ == self.codeword(value as int)
                },
                Err(e) => {
                    &&& final(output)@ == old(output)@
                    &&& {
                        ||| value >= self.order().n() && e == Error::ValueOutOfRange
                        ||| value < self.order().n() && old(output)@.len() != self.order().n() - 1
                            && e == Error::WidthMismatch
                    }
                },
            },
    {
        let n = self.poset.size();
        proof {
            self.poset.lemma_partial_order();
        }
        if value >= n {
            return Err(Error::ValueOutOfRange);
        }
        if output.len() != n - 1 {
            return Err(Error::WidthMismatch);
        }
        let bottom = self.bottom;
        let mut slot: usize = 0;
        let mut coordinate: usize = 0;
        while coordinate < n
            invariant
                self.wf(),
                n == self.order().n(),
                bottom == self.bottom_element(),
                value < n,
                output@.len() == n - 1,
                coordinate <= n,
                slot == (if coordinate <= bottom {
                    coordinate as int
                } else {
                    coordinate - 1
                }),
                forall|s: int| 0 <= s < slot ==> #[trigger] output@[s] == self.coordinate(value as int, s),
            decreases n - coordinate,
        {
            if coordinate != bottom {
                let bit: i128 = if self.poset.leq(coordinate, value) {
                    1
                } else {
                    0
                };
                proof {
                    assert(skip(slot as int, bottom as int) == coordinate);
                }
                output.set(slot, bit);
                slot = slot + 1;
            }
            coordinate = coordinate + 1;
        }
        proof {
            assert(output@ =~= self.codeword(value as int));
        }
        Ok(())
    }

    /// Returns the operation implemented by coordinatewise multiplication.
    pub fn native_operation(&self) -> (r: Option<NativeOperation>)
        ensures
            r == Some(NativeOperation::Meet),
    {
        Some(NativeOperation::Meet)
    }

    /// Computes the meet of two symbols, the symbol whose codeword is the coordinatewise
    /// product of theirs.
    pub fn native_product(&self, lhs: usize, rhs: usize) -> (r: Option<usize>)
        requires
            self.wf(),
        ensures
            r is Some <==> (lhs < self.order().n() && rhs < self.order().n()),
            r matches Some(m) ==> self.order().is_meet(m as int, lhs as int, rhs as int),
    {
        let n = self.poset.size();
        if lhs < n && rhs < n {
            proof {
                self.poset.lemma_partial_order();
                super::poset::lemma_index(lhs as int, rhs as int, n as int);
                assert(self.order().is_meet(
                    cell(self.meets(), n as int, lhs as int, rhs as int) as int,
                    lhs as int,
                    rhs as int,
                ));
            }
            Some(self.product[lhs * n + rhs])
        } else {
            None
        }
    }

    /// Returns the coordinate projection that restores codewords.
    pub fn cleaning_mode(&self) -> (r: Option<CleaningMode>)
        ensures
            r == Some(CleaningMode::Binary),
    {
        Some(CleaningMode::Binary)
    }

    /// The codeword of the meet of two symbols is the coordinatewise product of their codewords.
    pub proof fn lemma_meet_codeword(&self, m: int, a: int, b: int)
        requires
            self.wf(),
            0 <= a < self.order().n(),
            0 <= b < self.order().n(),
            self.order().is_meet(m, a, b),
        ensures
            self.codeword(m) == Seq::new(
                (self.order().n() - 1) as nat,
                |slot: int| (self.codeword(a)[slot] * self.codeword(b)[slot]) as i128,
            ),
    {
        let p = self.order();
        p.lemma_partial_order();
        let target = Seq::new(
            (p.n() - 1) as nat,
            |slot: int| (self.codeword(a)[slot] * self.codeword(b)[slot]) as i128,
        );
        assert forall|slot: int| 0 <= slot < p.n() - 1 implies #[trigger] self.codeword(m)[slot]
            == target[slot] by {
            let c = skip(slot, self.bottom_element());
            assert(0 <= c < p.n());
            assert(self.codeword(m)[slot] == self.coordinate(m, slot));
            assert(self.codeword(a)[slot] == self.coordinate(a, slot));
            assert(self.codeword(b)[slot] == self.coordinate(b, slot));
            assert(p.rel(m, a) && p.rel(m, b));
            if p.rel(c, m) {
                assert(p.rel(c, a));
                assert(p.rel(c, b));
            } else if p.rel(c, a) && p.rel(c, b) {
                assert(p.rel(c, m));
            }
        }
        assert(self.codeword(m) =~= target);
    }

    /// Distinct symbols have distinct codewords.
    pub proof fn lemma_codeword_injective(&self, a: int, b: int)
        requires
            self.wf(),
            0 <= a < self.order().n(),
            0 <= b < self.order().n(),
            self.codeword(a) == self.codeword(b),
        ensures
            a == b,
    {
        let p = self.order();
        p.lemma_partial_order();
        let bot = self.bottom_element();
        if a != b {
            if !p.rel(a, b) {
                assert(a != bot) by {
                    if a == bot {
                        assert(p.rel(bot, b));
                    }
                }
                let slot = if a < bot {
                    a
                } else {
                    a - 1
                };
                assert(skip(slot, bot) == a);
                assert(self.codeword(a)[slot] == self.coordinate(a, slot));
                assert(self.codeword(b)[slot] == self.coordinate(b, slot));
                assert(p.rel(a, a));
            } else {
                assert(!p.rel(b, a));
                assert(b != bot) by {
                    if b == bot {
                        assert(p.rel(bot, a));
                    }
                }
                let slot = if b < bot {
                    b
                } else {
                    b - 1
                };
                assert(skip(slot, bot) == b);
                assert(self.codeword(a)[slot] == self.coordinate(a, slot));
                assert(self.codeword(b)[slot] == self.coordinate(b, slot));
                assert(p.rel(b, b));
            }
        }
    }

    /// Term `v` of the coefficient of `c`: `values[v]` times the Möbius value of `(v, c)` when
    /// `v` lies below `c`, and zero otherwise.
    pub open spec fn coefficient_term(&self, values: Seq<int>, c: int, v: int) -> int {
        if self.order().rel(v, c) {
            values[v] * (cell(self.mobius_values(), self.order().n() as int, v, c) as int)
        } else {
            0
        }
    }

    /// The coefficient of element `c` when `values` is interpolated over the codewords: the sum,
    /// over the elements `v` below `c`, of `values[v]` times the Möbius value of `(v, c)`.
    pub open spec fn interpolation_coefficient(&self, values: Seq<int>, c: int) -> int {
        range_sum(|v: int| self.coefficient_term(values, c, v), self.order().n() as int)
    }

    /// The weights of the interpolating affine function: the coefficients of the elements other
    /// than the bottom, in slot order. Its bias is the coefficient of the bottom.
    pub open spec fn interpolation_weights(&self, values: Seq<int>) -> Seq<int> {
        Seq::new(
            (self.order().n() - 1) as nat,
            |slot: int| self.interpolation_coefficient(values, skip(slot, self.bottom_element())),
        )
    }

    /// The affine function whose bias is the coefficient of the bottom and whose weights are
    /// `interpolation_weights` takes, at the codeword of each element, that element's value:
    /// Möbius inversion over the poset.
    pub proof fn lemma_interpolation(&self, values: Seq<int>, s: int)
        requires
            self.wf(),
            values.len() == self.order().n(),
            0 <= s < self.order().n(),
        ensures
            affine_eval(
                self.interpolation_coefficient(values, self.bottom_element()),
                self.interpolation_weights(values),
                self.codeword(s),
                self.order().n() - 1,
            ) == values[s],
    {
        let p = self.order();
        p.lemma_partial_order();
        let n = p.n() as int;
        let b = self.bottom_element();
        let m = self.mobius_values();
        let coef = |c: int| self.interpolation_coefficient(values, c);
        let w = self.interpolation_weights(values);
        let x = self.codeword(s);
        lemma_affine_eval_sum(coef(b), w, x, n - 1);
        let h = |c: int| if p.rel(c, s) { coef(c) } else { 0 };
        let hs = |slot: int| h(if slot < b { slot } else { slot + 1 });
        let wx = |c: int| w[c] * (x[c] as int);
        assert forall|slot: int| 0 <= slot < n - 1 implies #[trigger] wx(slot) == hs(slot) by {
            assert(x[slot] == self.coordinate(s, slot));
        }
        lemma_range_sum_ext(wx, hs, n - 1);
        lemma_range_sum_skip(h, b, n - 1);
        assert(range_sum(h, n) == range_sum(h, n - 1) + h(n - 1));
        assert(p.rel(b, s));
        assert(range_sum(wx, n - 1) == range_sum(h, n) - coef(b));
        let f = |c: int, v: int| if p.rel(c, s) { self.coefficient_term(values, c, v) } else { 0 };
        let rows = |c: int| range_sum(|v: int| f(c, v), n);
        assert forall|c: int| 0 <= c < n implies #[trigger] h(c) == rows(c) by {
            let fc = |v: int| f(c, v);
            if p.rel(c, s) {
                lemma_range_sum_ext(fc, |v: int| self.coefficient_term(values, c, v), n);
            } else {
                lemma_range_sum_ext(fc, |v: int| 0int, n);
                lemma_range_sum_zero(n);
            }
        }
        lemma_range_sum_ext(h, rows, n);
        lemma_range_sum_swap(f, n, n);
        let cols = |v: int| range_sum(|c: int| f(c, v), n);
        let d = |v: int| if v == s { values[v] } else { 0 };
        assert forall|v: int| 0 <= v < n implies #[trigger] cols(v) == d(v) by {
            let it = |c: int| p.interval_term(m, v, s, c);
            let fv = |c: int| f(c, v);
            assert forall|c: int| 0 <= c < n implies #[trigger] fv(c) == values[v] * it(c) by {}
            lemma_range_sum_ext(fv, |c: int| values[v] * it(c), n);
            lemma_range_sum_scale(values[v], it, n);
            p.lemma_mobius_row(m, v, s);
        }
        lemma_range_sum_ext(cols, d, n);
        lemma_range_sum_point(d, |v: int| 0int, n, s);
        lemma_range_sum_zero(n);
    }
}

/// What `JoinZeta::new` gives for the poset `p`.
pub open spec fn join_outcome(p: FinitePoset, r: Result<JoinZeta, Error>) -> bool {
    match r {
        Ok(z) => z.wf() && z.order() == p,
        Err(e) => {
            ||| e == Error::NoTop && forall|b: int| !#[trigger] p.is_top(b)
            ||| e == Error::MobiusOverflow && p.mobius_overflows() && p.running_sums_overflow() && exists|b: int| #[trigger] p.is_top(b)
            ||| {
                &&& e == Error::NoJoin
                &&& exists|b: int| #[trigger] p.is_top(b)
                &&& exists|a: int, b: int|
                    0 <= a < p.n() && 0 <= b < p.n() && !#[trigger] p.has_join(a, b)
            }
        },
    }
}

/// Upper-zeta encoding whose native product is the join operation.
#[derive(Clone, Debug, PartialEq, Eq)]
pub struct JoinZeta {
    poset: FinitePoset,
    top: usize,
    mobius: Vec<i128>,
    product: Vec<usize>,
}

impl JoinZeta {
    /// The underlying poset.
    pub closed spec fn order(&self) -> FinitePoset {
        self.poset
    }

    /// The top element, left out of every codeword.
    pub closed spec fn top_element(&self) -> int {
        self.top as int
    }

    /// The row-major Möbius function of the poset.
    pub closed spec fn mobius_values(&self) -> Seq<i128> {
        self.mobius@
    }

    /// The row-major join table of the poset.
    pub closed spec fn joins(&self) -> Seq<usize> {
        self.product@
    }

    /// The poset is valid, with its top, its Möbius function and all its joins.
    pub open spec fn wf(&self) -> bool {
        let p = self.order();
        &&& p.wf()
        &&& p.is_top(self.top_element())
        &&& p.is_mobius(self.mobius_values())
        &&& self.joins().len() == p.n() * p.n()
        &&& forall|a: int, b: int|
            0 <= a < p.n() && 0 <= b < p.n() ==> p.is_join(
                #[trigger] cell(self.joins(), p.n() as int, a, b) as int,
                a,
                b,
            )
    }

    /// Coordinate `slot` of the codeword of `value`: one when the `slot`-th element other than
    /// the top lies above `value`, zero otherwise.
    pub open spec fn coordinate(&self, value: int, slot: int) -> i128 {
        if self.order().rel(value, skip(slot, self.top_element())) {
            1
        } else {
            0
        }
    }

    /// The block that encodes `value`.
    pub open spec fn codeword(&self, value: int) -> Seq<i128> {
        Seq::new((self.order().n() - 1) as nat, |slot: int| self.coordinate(value, slot))
    }

    /// Constructs a join-zeta encoding for a poset with a top and all joins.
    pub fn new(poset: FinitePoset) -> (r: Result<Self, Error>)
        requires
            poset.wf(),
        ensures
            join_outcome(poset, r),
    {
        let top = match poset.top() {
            Some(b) => b,
            None => return Err(Error::NoTop),
        };
        let mobius = match poset.mobius() {
            Ok(m) => m,
            Err(e) => return Err(e),
        };
        let product = match poset.join_table() {
            Ok(t) => t,
            Err(e) => return Err(e),
        };
        Ok(JoinZeta { poset, top, mobius, product })
    }

    /// Constructs a join-zeta encoding of a Boolean lattice.
    pub fn boolean(bits: usize) -> (r: Result<Self, Error>)
        requires
            bits < usize::BITS ==> pow2(bits as nat) * pow2(bits as nat) <= usize::MAX,
        ensures
            match r {
                Ok(z) => {
                    &&& 0 < bits < usize::BITS
                    &&& z.wf()
                    &&& z.order().n() == pow2(bits as nat)
                    &&& forall|a: int, b: int|
                        0 <= a < z.order().n() && 0 <= b < z.order().n() ==> #[trigger] z.order().rel(a, b)
                            == ((a as usize & b as usize) == a as usize)
                },
                Err(e) => {
                    ||| bits == 0 && e == Error::ZeroDimension
                    ||| bits >= usize::BITS && e == Error::AlphabetTooLarge
                },
            },
    {
        let poset = match FinitePoset::boolean_lattice(bits) {
            Ok(p) => p,
            Err(e) => return Err(e),
        };
        proof {
            let n = poset.n() as int;
            lemma_usize_pow2_no_overflow(bits as nat);
            lemma_usize_shl_is_mul(1, bits);
            let full: usize = ((1usize << bits) - 1) as usize;
            assert(full == n - 1);
            assert forall|v: int| 0 <= v < n implies #[trigger] poset.rel(v, full as int) by {
                let w = v as usize;
                assert((w & full) == w) by (bit_vector)
                    requires
                        full == (1usize << bits) - 1,
                        w < (1usize << bits),
                        bits < usize::BITS,
                ;
            }
            assert(poset.is_top(full as int));
            assert forall|a: int, b: int| 0 <= a < n && 0 <= b < n implies #[trigger] poset.has_join(a, b) by {
                let x = a as usize;
                let y = b as usize;
                let m = x | y;
                assert(m < (1usize << bits)) by (bit_vector)
                    requires
                        m == x | y,
                        x < (1usize << bits),
                        y < (1usize << bits),
                        bits < usize::BITS,
                ;
                assert((x & m) == x) by (bit_vector)
                    requires m == x | y;
                assert((y & m) == y) by (bit_vector)
                    requires m == x | y;
                assert forall|z: int| 0 <= z < n && #[trigger] poset.rel(a, z) && poset.rel(b, z) implies poset.rel(m as int, z) by {
                    let w = z as usize;
                    assert((x & w) == x && (y & w) == y ==> (m & w) == m) by (bit_vector)
                        requires m == x | y;
                }
                assert(poset.is_join(m as int, a, b));
            }
            poset.lemma_boolean_mobius(bits as nat);
        }
        Self::new(poset)
    }

    /// Constructs a divisor join-zeta encoding and its symbol-to-divisor mapping.
    pub fn divisors(modulus: usize) -> (r: Result<(Self, Vec<usize>), Error>)
        requires
            divisor_count(modulus as int) * divisor_count(modulus as int) <= usize::MAX,
        ensures
            match r {
                Ok((z, divisors)) => {
                    &&& modulus >= 2
                    &&& z.wf()
                    &&& z.order().n() == divisors.len()
                    &&& forall|i: int, j: int|
                        0 <= i < j < divisors.len() ==> divisors@[i] < divisors@[j]
                    &&& forall|x: usize|
                        #[trigger] divisors@.contains(x) <==> (1 <= x <= modulus && modulus % x == 0)
                    &&& forall|i: int, j: int|
                        0 <= i < z.order().n() && 0 <= j < z.order().n() ==> #[trigger] z.order().rel(i, j)
                            == ((divisors@[j] as int) % (divisors@[i] as int) == 0)
                },
                Err(e) => modulus < 2 && e == Error::DivisorModulusTooSmall,
            },
    {
        let (poset, divisors) = match FinitePoset::divisor_lattice(modulus) {
            Ok(pair) => pair,
            Err(e) => return Err(e),
        };
        proof {
            let d = divisors@;
            let n = poset.n() as int;
            let last = n - 1;
            assert(d.contains(modulus));
            let im = choose|i: int| 0 <= i < d.len() && d[i] == modulus;
            assert(d.contains(d[last]));
            if im < last {
                assert(d[im] < d[last]);
            }
            assert(d[last] == modulus);
            assert forall|v: int| 0 <= v < n implies #[trigger] poset.rel(v, last) by {
                assert(d.contains(d[v]));
            }
            assert(poset.is_top(last));
            poset.lemma_divisor_bounds(d, modulus as int);
            poset.lemma_divisor_mobius(d, modulus as int);
        }
        match Self::new(poset) {
            Ok(z) => Ok((z, divisors)),
            Err(e) => Err(e),
        }
    }

    /// Returns the underlying finite poset.
    pub fn poset(&self) -> (r: &FinitePoset)
        ensures
            *r == self.order(),
    {
        &self.poset
    }

    /// Returns the top element.
    pub fn top(&self) -> (r: usize)
        ensures
            r == self.top_element(),
    {
        self.top
    }

    /// Returns the row-major Möbius function of the poset.
    pub fn mobius(&self) -> (r: &Vec<i128>)
        ensures
            r@ == self.mobius_values(),
    {
        &self.mobius
    }

    /// Returns the number of symbols in the encoded alphabet.
    pub fn alphabet_size(&self) -> (r: usize)
        ensures
            r == self.order().n(),
    {
        self.poset.size()
    }

    /// Returns the number of coordinates in one encoded block.
    pub fn block_size(&self) -> (r: usize)
        requires
            self.wf(),
        ensures
            r == self.order().n() - 1,
    {
        proof {
            self.poset.lemma_partial_order();
        }
        self.poset.size() - 1
    }

    /// Encodes `value` into `output`: coordinate `slot` is one exactly when the `slot`-th
    /// element other than the top lies above `value`.
    pub fn encode_into(&self, value: usize, output: &mut Vec<i128>) -> (r: Result<(), Error>)
        requires
            self.wf(),
        ensures
            match r {
                Ok(()) => {
                    &&& value < self.order().n()
                    &&& old(output)@.len() == self.order().n() - 1
                    &&& final(output)@ == self.codeword(value as int)
                },
                Err(e) => {
                    &&& final(output)@ == old(output)@
                    &&& {
                        ||| value >= self.order().n() && e == Error::ValueOutOfRange
                        ||| value < self.order().n() && old(output)@.len() != self.order().n() - 1
                            && e == Error::WidthMismatch
                    }
                },
            },
    {
        let n = self.poset.size();
        proof {
            self.poset.lemma_partial_order();
        }
        if value >= n {
            return Err(Error::ValueOutOfRange);
        }
        if output.len() != n - 1 {
            return Err(Error::WidthMismatch);
        }
        let top = self.top;
        let mut slot: usize = 0;
        let mut coordinate: usize = 0;
        while coordinate < n
            invariant
                self.wf(),
                n == self.order().n(),
                top == self.top_element(),
                value < n,
                output@.len() == n - 1,
                coordinate <= n,
                slot == (if coordinate <= top {
                    coordinate as int
                } else {
                    coordinate - 1
                }),
                forall|s: int| 0 <= s < slot ==> #[trigger] output@[s] == self.coordinate(value as int, s),
            decreases n - coordinate,
        {
            if coordinate != top {
                let bit: i128 = if self.poset.leq(value, coordinate) {
                    1
                } else {
                    0
                };
                proof {
                    assert(skip(slot as int, top as int) == coordinate);
                }
                output.set(slot, bit);
                slot = slot + 1;
            }
            coordinate = coordinate + 1;
        }
        proof {
            assert(output@ =~= self.codeword(value as int));
        }
        Ok(())
    }

    /// Returns the operation implemented by coordinatewise multiplication.
    pub fn native_operation(&self) -> (r: Option<NativeOperation>)
        ensures
            r == Some(NativeOperation::Join),
    {
        Some(NativeOperation::Join)
    }

    /// Computes the join of two symbols, the symbol whose codeword is the coordinatewise
    /// product of theirs.
    pub fn native_product(&self, lhs: usize, rhs: usize) -> (r: Option<usize>)
        requires
            self.wf(),
        ensures
            r is Some <==> (lhs < self.order().n() && rhs < self.order().n()),
            r matches Some(m) ==> self.order().is_join(m as int, lhs as int, rhs as int),
    {
        let n = self.poset.size();
        if lhs < n && rhs < n {
            proof {
                self.poset.lemma_partial_order();
                super::poset::lemma_index(lhs as int, rhs as int, n as int);
                assert(self.order().is_join(
                    cell(self.joins(), n as int, lhs as int, rhs as int) as int,
                    lhs as int,
                    rhs as int,
                ));
            }
            Some(self.product[lhs * n + rhs])
        } else {
            None
        }
    }

    /// Returns the coordinate projection that restores codewords.
    pub fn cleaning_mode(&self) -> (r: Option<CleaningMode>)
        ensures
            r == Some(CleaningMode::Binary),
    {
        Some(CleaningMode::Binary)
    }

    /// The codeword of the join of two symbols is the coordinatewise product of their codewords.
    pub proof fn lemma_join_codeword(&self, m: int, a: int, b: int)
        requires
            self.wf(),
            0 <= a < self.order().n(),
            0 <= b < self.order().n(),
            self.order().is_join(m, a, b),
        ensures
            self.codeword(m) == Seq::new(
                (self.order().n() - 1) as nat,
                |slot: int| (self.codeword(a)[slot] * self.codeword(b)[slot]) as i128,
            ),
    {
        let p = self.order();
        p.lemma_partial_order();
        let target = Seq::new(
            (p.n() - 1) as nat,
            |slot: int| (self.codeword(a)[slot] * self.codeword(b)[slot]) as i128,
        );
        assert forall|slot: int| 0 <= slot < p.n() - 1 implies #[trigger] self.codeword(m)[slot]
            == target[slot] by {
            let c = skip(slot, self.top_element());
            assert(0 <= c < p.n());
            assert(self.codeword(m)[slot] == self.coordinate(m, slot));
            assert(self.codeword(a)[slot] == self.coordinate(a, slot));
            assert(self.codeword(b)[slot] == self.coordinate(b, slot));
            assert(p.rel(a, m) && p.rel(b, m));
            if p.rel(m, c) {
                assert(p.rel(a, c));
                assert(p.rel(b, c));
            } else if p.rel(a, c) && p.rel(b, c) {
                assert(p.rel(m, c));
            }
        }
        assert(self.codeword(m) =~= target);
    }

    /// Distinct symbols have distinct codewords.
    pub proof fn lemma_codeword_injective(&self, a: int, b: int)
        requires
            self.wf(),
            0 <= a < self.order().n(),
            0 <= b < self.order().n(),
            self.codeword(a) == self.codeword(b),
        ensures
            a == b,
    {
        let p = self.order();
        p.lemma_partial_order();
        let top = self.top_element();
        if a != b {
            if !p.rel(a, b) {
                assert(b != top) by {
                    if b == top {
                        assert(p.rel(a, top));
                    }
                }
                let slot = if b < top {
                    b
                } else {
                    b - 1
                };
                assert(skip(slot, top) == b);
                assert(self.codeword(a)[slot] == self.coordinate(a, slot));
                assert(self.codeword(b)[slot] == self.coordinate(b, slot));
                assert(p.rel(b, b));
            } else {
                assert(!p.rel(b, a));
                assert(a != top) by {
                    if a == top {
                        assert(p.rel(b, top));
                    }
                }
                let slot = if a < top {
                    a
                } else {
                    a - 1
                };
                assert(skip(slot, top) == a);
                assert(self.codeword(a)[slot] == self.coordinate(a, slot));
                assert(self.codeword(b)[slot] == self.coordinate(b, slot));
                assert(p.rel(a, a));
            }
        }
    }

    /// Term `v` of the coefficient of `c`: the Möbius value of `(c, v)` times `values[v]` when
    /// `v` lies above `c`, and zero otherwise.
    pub open spec fn coefficient_term(&self, values: Seq<int>, c: int, v: int) -> int {
        if self.order().rel(c, v) {
            values[v] * (cell(self.mobius_values(), self.order().n() as int, c, v) as int)
        } else {
            0
        }
    }

    /// The coefficient of element `c` when `values` is interpolated over the codewords: the sum,
    /// over the elements `v` above `c`, of the Möbius value of `(c, v)` times `values[v]`.
    pub open spec fn interpolation_coefficient(&self, values: Seq<int>, c: int) -> int {
        range_sum(|v: int| self.coefficient_term(values, c, v), self.order().n() as int)
    }

    /// The weights of the interpolating affine function: the coefficients of the elements other
    /// than the top, in slot order. Its bias is the coefficient of the top.
    pub open spec fn interpolation_weights(&self, values: Seq<int>) -> Seq<int> {
        Seq::new(
            (self.order().n() - 1) as nat,
            |slot: int| self.interpolation_coefficient(values, skip(slot, self.top_element())),
        )
    }

    /// The affine function whose bias is the coefficient of the top and whose weights are
    /// `interpolation_weights` takes, at the codeword of each element, that element's value:
    /// Möbius inversion from above.
    pub proof fn lemma_interpolation(&self, values: Seq<int>, s: int)
        requires
            self.wf(),
            values.len() == self.order().n(),
            0 <= s < self.order().n(),
        ensures
            affine_eval(
                self.interpolation_coefficient(values, self.top_element()),
                self.interpolation_weights(values),
                self.codeword(s),
                self.order().n() - 1,
            ) == values[s],
    {
        let p = self.order();
        p.lemma_partial_order();
        let n = p.n() as int;
        let t = self.top_element();
        let m = self.mobius_values();
        let coef = |c: int| self.interpolation_coefficient(values, c);
        let w = self.interpolation_weights(values);
        let x = self.codeword(s);
        lemma_affine_eval_sum(coef(t), w, x, n - 1);
        let h = |c: int| if p.rel(s, c) { coef(c) } else { 0 };
        let hs = |slot: int| h(if slot < t { slot } else { slot + 1 });
        let wx = |c: int| w[c] * (x[c] as int);
        assert forall|slot: int| 0 <= slot < n - 1 implies #[trigger] wx(slot) == hs(slot) by {
            assert(x[slot] == self.coordinate(s, slot));
        }
        lemma_range_sum_ext(wx, hs, n - 1);
        lemma_range_sum_skip(h, t, n - 1);
        assert(range_sum(h, n) == range_sum(h, n - 1) + h(n - 1));
        assert(p.rel(s, t));
        assert(range_sum(wx, n - 1) == range_sum(h, n) - coef(t));
        let f = |c: int, v: int| if p.rel(s, c) { self.coefficient_term(values, c, v) } else { 0 };
        let rows = |c: int| range_sum(|v: int| f(c, v), n);
        assert forall|c: int| 0 <= c < n implies #[trigger] h(c) == rows(c) by {
            let fc = |v: int| f(c, v);
            if p.rel(s, c) {
                lemma_range_sum_ext(fc, |v: int| self.coefficient_term(values, c, v), n);
            } else {
                lemma_range_sum_ext(fc, |v: int| 0int, n);
                lemma_range_sum_zero(n);
            }
        }
        lemma_range_sum_ext(h, rows, n);
        lemma_range_sum_swap(f, n, n);
        let cols = |v: int| range_sum(|c: int| f(c, v), n);
        let d = |v: int| if v == s { values[v] } else { 0 };
        assert forall|v: int| 0 <= v < n implies #[trigger] cols(v) == d(v) by {
            let ct = |c: int| p.column_term(m, s, v, c);
            let fv = |c: int| f(c, v);
            assert forall|c: int| 0 <= c < n implies #[trigger] fv(c) == values[v] * ct(c) by {}
            lemma_range_sum_ext(fv, |c: int| values[v] * ct(c), n);
            lemma_range_sum_scale(values[v], ct, n);
            p.lemma_mobius_column(m, s, v);
        }
        lemma_range_sum_ext(cols, d, n);
        lemma_range_sum_point(d, |v: int| 0int, n, s);
        lemma_range_sum_zero(n);
    }
}


} // verus!
