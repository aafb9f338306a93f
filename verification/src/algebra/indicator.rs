use vstd::prelude::*;

use super::encoding::{CleaningMode, NativeOperation};
use super::poset::range_sum;
use super::zeta::skip;
use crate::error::Error;

verus! {

/// `bias` plus the weighted sum of the first `k` coordinates of `x`: the value of an affine
/// function at a codeword.
pub open spec fn affine_eval(bias: int, weights: Seq<int>, x: Seq<i128>, k: int) -> int
    decreases k,
{
    if k <= 0 {
        bias
    } else {
        affine_eval(bias, weights, x, k - 1) + weights[k - 1] * (x[k - 1] as int)
    }
}

/// An affine function's value is its bias plus the sum of its weighted coordinates.
pub proof fn lemma_affine_eval_sum(bias: int, weights: Seq<int>, x: Seq<i128>, k: int)
    requires
        k >= 0,
    ensures
        affine_eval(bias, weights, x, k) == bias + range_sum(|c: int| weights[c] * (x[c] as int), k),
    decreases k,
{
    if k > 0 {
        lemma_affine_eval_sum(bias, weights, x, k - 1);
    }
}

/// The weights that interpolate `values` over the indicator codewords with `omitted` left out:
/// each symbol's value less the omitted symbol's value.
pub open spec fn indicator_weights(values: Seq<int>, omitted: int) -> Seq<int> {
    Seq::new((values.len() - 1) as nat, |slot: int| values[skip(slot, omitted)] - values[omitted])
}

/// The weights that interpolate `values` over the thermometer codewords: successive
/// differences.
pub open spec fn thermometer_weights(values: Seq<int>) -> Seq<int> {
    Seq::new((values.len() - 1) as nat, |c: int| values[c + 1] - values[c])
}

/// One-hot encoding with one redundant coordinate omitted.
#[derive(Clone, Copy, Debug, PartialEq, Eq, Structural)]
pub struct Indicator {
    size: usize,
    omitted: usize,
}

impl Indicator {
    /// Number of symbols.
    pub closed spec fn n(&self) -> nat {
        self.size as nat
    }

    /// The symbol whose coordinate is left out.
    pub closed spec fn omitted_symbol(&self) -> int {
        self.omitted as int
    }

    /// At least two symbols, and the omitted one among them.
    pub open spec fn wf(&self) -> bool {
        self.n() >= 2 && 0 <= self.omitted_symbol() < self.n()
    }

    /// Coordinate `slot` of the codeword of `value`: one when `value` is the `slot`-th symbol
    /// other than the omitted one.
    pub open spec fn coordinate(&self, value: int, slot: int) -> i128 {
        if skip(slot, self.omitted_symbol()) == value {
            1
        } else {
            0
        }
    }

    /// The block that encodes `value`.
    pub open spec fn codeword(&self, value: int) -> Seq<i128> {
        Seq::new((self.n() - 1) as nat, |slot: int| self.coordinate(value, slot))
    }

    /// Constructs an indicator encoding and selects the omitted symbol.
    pub fn new(size: usize, omitted: usize) -> (r: Result<Self, Error>)
        ensures
            match r {
                Ok(i) => i.wf() && i.n() == size && i.omitted_symbol() == omitted,
                Err(e) => {
                    ||| size < 2 && e == Error::AlphabetTooSmall
                    ||| size >= 2 && omitted >= size && e == Error::OmittedOutOfRange
                },
            },
    {
        if size < 2 {
            return Err(Error::AlphabetTooSmall);
        }
        if omitted >= size {
            return Err(Error::OmittedOutOfRange);
        }
        Ok(Indicator { size, omitted })
    }

    /// Returns the symbol whose indicator coordinate is omitted.
    pub fn omitted(&self) -> (r: usize)
        ensures
            r == self.omitted_symbol(),
    {
        self.omitted
    }

    /// Returns the number of symbols in the encoded alphabet.
    pub fn alphabet_size(&self) -> (r: usize)
        ensures
            r == self.n(),
    {
        self.size
    }

    /// Returns the number of coordinates in one encoded block.
    pub fn block_size(&self) -> (r: usize)
        requires
            self.wf(),
        ensures
            r == self.n() - 1,
    {
        self.size - 1
    }

    /// Encodes `value` into `output` as a one-hot block without the omitted coordinate.
    pub fn encode_into(&self, value: usize, output: &mut Vec<i128>) -> (r: Result<(), Error>)
        requires
            self.wf(),
        ensures
            match r {
                Ok(()) => {
                    &&& value < self.n()
                    &&& old(output)@.len() == self.n() - 1
                    &&& final(output)@ == self.codeword(value as int)
                },
                Err(e) => {
                    &&& final(output)@ == old(output)@
                    &&& {
                        ||| value >= self.n() && e == Error::ValueOutOfRange
                        ||| value < self.n() && old(output)@.len() != self.n() - 1 && e
                            == Error::WidthMismatch
                    }
                },
            },
    {
        let n = self.size;
        if value >= n {
            return Err(Error::ValueOutOfRange);
        }
        if output.len() != n - 1 {
            return Err(Error::WidthMismatch);
        }
        let omitted = self.omitted;
        let mut slot: usize = 0;
        let mut coordinate: usize = 0;
        while coordinate < n
            invariant
                self.wf(),
                n == self.n(),
                omitted == self.omitted_symbol(),
                value < n,
                output@.len() == n - 1,
                coordinate <= n,
                slot == (if coordinate <= omitted {
                    coordinate as int
                } else {
                    coordinate - 1
                }),
                forall|s: int| 0 <= s < slot ==> #[trigger] output@[s] == self.coordinate(value as int, s),
            decreases n - coordinate,
        {
            if coordinate != omitted {
                let bit: i128 = if coordinate == value {
                    1
                } else {
                    0
                };
                proof {
                    assert(skip(slot as int, omitted as int) == coordinate);
                }
                output.set(slot, bit);
                slot = slot + 1;
            }
            coordinate = coordinate + 1;
        }
        proof {
            assert(output@ =~= self.codeword(value as int));
        }
        Ok(())
    }

    /// Returns the projection that restores codewords.
    pub fn cleaning_mode(&self) -> (r: Option<CleaningMode>)
        ensures
            r == Some(CleaningMode::Binary),
    {
        Some(CleaningMode::Binary)
    }

    /// Returns the operation implemented by coordinatewise multiplication.
    pub fn native_operation(&self) -> (r: Option<NativeOperation>)
        ensures
            r == Some(NativeOperation::EqualityGate),
    {
        Some(NativeOperation::EqualityGate)
    }

    /// Coordinatewise multiplication is an equality gate: the product of two codewords is the
    /// common codeword when the symbols agree and the zero block when they differ.
    pub proof fn lemma_equality_gate(&self, a: int, b: int)
        requires
            self.wf(),
            0 <= a < self.n(),
            0 <= b < self.n(),
        ensures
            Seq::new(
                (self.n() - 1) as nat,
                |slot: int| (self.codeword(a)[slot] * self.codeword(b)[slot]) as i128,
            ) == (if a == b {
                self.codeword(a)
            } else {
                Seq::new((self.n() - 1) as nat, |slot: int| 0i128)
            }),
    {
        let product = Seq::new(
            (self.n() - 1) as nat,
            |slot: int| (self.codeword(a)[slot] * self.codeword(b)[slot]) as i128,
        );
        let expected = if a == b {
            self.codeword(a)
        } else {
            Seq::new((self.n() - 1) as nat, |slot: int| 0i128)
        };
        assert forall|slot: int| 0 <= slot < self.n() - 1 implies #[trigger] product[slot]
            == expected[slot] by {
            assert(self.codeword(a)[slot] == self.coordinate(a, slot));
            assert(self.codeword(b)[slot] == self.coordinate(b, slot));
        }
        assert(product =~= expected);
    }

    /// Distinct symbols have distinct codewords.
    pub proof fn lemma_codeword_injective(&self, a: int, b: int)
        requires
            self.wf(),
            0 <= a < self.n(),
            0 <= b < self.n(),
            self.codeword(a) == self.codeword(b),
        ensures
            a == b,
    {
        let o = self.omitted_symbol();
        if a != b {
            let c = if a != o {
                a
            } else {
                b
            };
            let slot = if c < o {
                c
            } else {
                c - 1
            };
            assert(skip(slot, o) == c);
            assert(self.codeword(a)[slot] == self.coordinate(a, slot));
            assert(self.codeword(b)[slot] == self.coordinate(b, slot));
        }
    }

    /// The affine function with the omitted symbol's value as bias and `indicator_weights` as
    /// weights takes, at the codeword of each symbol, that symbol's value.
    pub proof fn lemma_interpolation(&self, values: Seq<int>, s: int)
        requires
            self.wf(),
            values.len() == self.n(),
            0 <= s < self.n(),
        ensures
            affine_eval(
                values[self.omitted_symbol()],
                indicator_weights(values, self.omitted_symbol()),
                self.codeword(s),
                self.n() - 1,
            ) == values[s],
    {
        self.lemma_interpolation_prefix(values, s, self.n() - 1);
    }

    proof fn lemma_interpolation_prefix(&self, values: Seq<int>, s: int, k: int)
        requires
            self.wf(),
            values.len() == self.n(),
            0 <= s < self.n(),
            0 <= k <= self.n() - 1,
        ensures
            ({
                let om = self.omitted_symbol();
                let slot = if s < om { s } else { s - 1 };
                affine_eval(values[om], indicator_weights(values, om), self.codeword(s), k) == values[om] + (
                if s != om && slot < k {
                    values[s] - values[om]
                } else {
                    0
                })
            }),
        decreases k,
    {
        if k > 0 {
            self.lemma_interpolation_prefix(values, s, k - 1);
            let om = self.omitted_symbol();
            let c = k - 1;
            let slot = if s < om { s } else { s - 1 };
            let w = indicator_weights(values, om);
            assert(w[c] == values[skip(c, om)] - values[om]);
            if skip(c, om) == s {
                assert(self.codeword(s)[c] == 1);
                assert(s != om && c == slot);
                assert(w[c] * (self.codeword(s)[c] as int) == values[s] - values[om]);
            } else {
                assert(self.codeword(s)[c] == 0);
                assert(c != slot || s == om);
                assert(w[c] * (self.codeword(s)[c] as int) == 0);
            }
        }
    }
}

/// Cumulative binary encoding of a totally ordered alphabet.
#[derive(Clone, Copy, Debug, PartialEq, Eq, Structural)]
pub struct Thermometer {
    size: usize,
}

impl Thermometer {
    /// Number of symbols.
    pub closed spec fn n(&self) -> nat {
        self.size as nat
    }

    /// At least two symbols.
    pub open spec fn wf(&self) -> bool {
        self.n() >= 2
    }

    /// The block that encodes `value`: coordinate `c` is one exactly when `value > c`.
    pub open spec fn codeword(&self, value: int) -> Seq<i128> {
        Seq::new(
            (self.n() - 1) as nat,
            |c: int|
                if value > c {
                    1i128
                } else {
                    0i128
                },
        )
    }

    /// Constructs a thermometer encoding for the requested alphabet size.
    pub fn new(size: usize) -> (r: Result<Self, Error>)
        ensures
            match r {
                Ok(t) => t.wf() && t.n() == size,
                Err(e) => size < 2 && e == Error::AlphabetTooSmall,
            },
    {
        if size < 2 {
            return Err(Error::AlphabetTooSmall);
        }
        Ok(Thermometer { size })
    }

    /// Returns the number of symbols in the encoded alphabet.
    pub fn alphabet_size(&self) -> (r: usize)
        ensures
            r == self.n(),
    {
        self.size
    }

    /// Returns the number of coordinates in one encoded block.
    pub fn block_size(&self) -> (r: usize)
        requires
            self.wf(),
        ensures
            r == self.n() - 1,
    {
        self.size - 1
    }

    /// Encodes `value` into `output`: coordinate `c` is one exactly when `value > c`.
    pub fn encode_into(&self, value: usize, output: &mut Vec<i128>) -> (r: Result<(), Error>)
        requires
            self.wf(),
        ensures
            match r {
                Ok(()) => {
                    &&& value < self.n()
                    &&& old(output)@.len() == self.n() - 1
                    &&& final(output)@ == self.codeword(value as int)
                },
                Err(e) => {
                    &&& final(output)@ == old(output)@
                    &&& {
                        ||| value >= self.n() && e == Error::ValueOutOfRange
                        ||| value < self.n() && old(output)@.len() != self.n() - 1 && e
                            == Error::WidthMismatch
                    }
                },
            },
    {
        if value >= self.size {
            return Err(Error::ValueOutOfRange);
        }
        if output.len() != self.size - 1 {
            return Err(Error::WidthMismatch);
        }
        let width = output.len();
        let mut coordinate: usize = 0;
        while coordinate < width
            invariant
                self.wf(),
                width == self.n() - 1,
                output@.len() == width,
                coordinate <= width,
                forall|c: int| 0 <= c < coordinate ==> #[trigger] output@[c] == self.codeword(value as int)[c],
            decreases width - coordinate,
        {
            let bit: i128 = if value > coordinate {
                1
            } else {
                0
            };
            output.set(coordinate, bit);
            coordinate = coordinate + 1;
        }
        proof {
            assert(output@ =~= self.codeword(value as int));
        }
        Ok(())
    }

    /// Returns the operation implemented by coordinatewise multiplication.
    pub fn native_operation(&self) -> (r: Option<NativeOperation>)
        ensures
            r == Some(NativeOperation::Min),
    {
        Some(NativeOperation::Min)
    }

    /// Computes the minimum of two symbols, the symbol whose codeword is the coordinatewise
    /// product of theirs.
    pub fn native_product(&self, lhs: usize, rhs: usize) -> (r: Option<usize>)
        ensures
            r == (if lhs < self.n() && rhs < self.n() {
                Some(if lhs <= rhs {
                    lhs
                } else {
                    rhs
                })
            } else {
                None
            }),
    {
        if lhs < self.size && rhs < self.size {
            Some(if lhs <= rhs {
                lhs
            } else {
                rhs
            })
        } else {
            None
        }
    }

    /// Returns the projection that restores codewords.
    pub fn cleaning_mode(&self) -> (r: Option<CleaningMode>)
        ensures
            r == Some(CleaningMode::Binary),
    {
        Some(CleaningMode::Binary)
    }

    /// The codeword of the minimum of two symbols is the coordinatewise product of their
    /// codewords.
    pub proof fn lemma_min_codeword(&self, a: int, b: int)
        requires
            self.wf(),
            0 <= a < self.n(),
            0 <= b < self.n(),
        ensures
            self.codeword(
                if a <= b {
                    a
                } else {
                    b
                },
            ) == Seq::new(
                (self.n() - 1) as nat,
                |c: int| (self.codeword(a)[c] * self.codeword(b)[c]) as i128,
            ),
    {
        let m = if a <= b {
            a
        } else {
            b
        };
        let product = Seq::new(
            (self.n() - 1) as nat,
            |c: int| (self.codeword(a)[c] * self.codeword(b)[c]) as i128,
        );
        assert forall|c: int| 0 <= c < self.n() - 1 implies #[trigger] self.codeword(m)[c]
            == product[c] by {}
        assert(self.codeword(m) =~= product);
    }

    /// The codeword of the maximum of two symbols is `x + y - x·y` of their codewords,
    /// coordinate by coordinate.
    pub proof fn lemma_max_codeword(&self, a: int, b: int)
        requires
            self.wf(),
            0 <= a < self.n(),
            0 <= b < self.n(),
        ensures
            self.codeword(
                if a >= b {
                    a
                } else {
                    b
                },
            ) == Seq::new(
                (self.n() - 1) as nat,
                |c: int|
                    (self.codeword(a)[c] + self.codeword(b)[c] - self.codeword(a)[c] * self.codeword(
                        b,
                    )[c]) as i128,
            ),
    {
        let m = if a >= b {
            a
        } else {
            b
        };
        let combined = Seq::new(
            (self.n() - 1) as nat,
            |c: int|
                (self.codeword(a)[c] + self.codeword(b)[c] - self.codeword(a)[c] * self.codeword(
                    b,
                )[c]) as i128,
        );
        assert forall|c: int| 0 <= c < self.n() - 1 implies #[trigger] self.codeword(m)[c]
            == combined[c] by {}
        assert(self.codeword(m) =~= combined);
    }

    /// Distinct symbols have distinct codewords.
    pub proof fn lemma_codeword_injective(&self, a: int, b: int)
        requires
            self.wf(),
            0 <= a < self.n(),
            0 <= b < self.n(),
            self.codeword(a) == self.codeword(b),
        ensures
            a == b,
    {
        if a < b {
            assert(self.codeword(a)[a] == 0i128);
            assert(self.codeword(b)[a] == 1i128);
        } else if b < a {
            assert(self.codeword(a)[b] == 1i128);
            assert(self.codeword(b)[b] == 0i128);
        }
    }

    /// The affine function with the first value as bias and `thermometer_weights` as weights
    /// takes, at the codeword of each symbol, that symbol's value.
    pub proof fn lemma_interpolation(&self, values: Seq<int>, s: int)
        requires
            self.wf(),
            values.len() == self.n(),
            0 <= s < self.n(),
        ensures
            affine_eval(values[0], thermometer_weights(values), self.codeword(s), self.n() - 1) == values[s],
    {
        self.lemma_interpolation_prefix(values, s, self.n() - 1);
    }

    proof fn lemma_interpolation_prefix(&self, values: Seq<int>, s: int, k: int)
        requires
            self.wf(),
            values.len() == self.n(),
            0 <= s < self.n(),
            0 <= k <= self.n() - 1,
        ensures
            affine_eval(values[0], thermometer_weights(values), self.codeword(s), k) == values[if k < s {
                k
            } else {
                s
            }],
        decreases k,
    {
        if k > 0 {
            self.lemma_interpolation_prefix(values, s, k - 1);
            let c = k - 1;
            if s > c {
                assert(self.codeword(s)[c] == 1);
            } else {
                assert(self.codeword(s)[c] == 0);
            }
        }
    }
}

} // verus!
