use vstd::arithmetic::div_mod::*;
use vstd::arithmetic::mul::*;
use vstd::arithmetic::power2::*;
use vstd::bits::lemma_usize_pow2_no_overflow;
use vstd::prelude::*;

use crate::algebra::number_theory::{is_power_of_two, next_power_of_two, power_of_two};
use crate::error::Error;

verus! {

/// Placement of several complete encoded blocks within one CKKS ciphertext.
#[derive(Clone, Copy, Debug, PartialEq, Eq, Structural)]
pub struct PackedLayout {
    slots: usize,
    block_width: usize,
    lane_width: usize,
    interleaved: bool,
}

/// Real and imaginary CKKS slot vectors for a packed layout.
#[derive(Clone, Debug, PartialEq)]
pub struct PackedSlots<F> {
    /// Real slot components.
    pub re: Vec<F>,
    /// Imaginary slot components.
    pub im: Vec<F>,
}

/// `words` holds blocks of `width` coordinates each.
pub open spec fn uniform_width<T>(words: Seq<Vec<T>>, width: int) -> bool {
    forall|b: int| 0 <= b < words.len() ==> #[trigger] words[b]@.len() == width
}

impl PackedLayout {
    /// Total number of complex slots.
    pub closed spec fn n_slots(&self) -> int {
        self.slots as int
    }

    /// Number of active coordinates per block.
    pub closed spec fn width(&self) -> int {
        self.block_width as int
    }

    /// Number of coordinate lanes reserved per block.
    pub closed spec fn lanes(&self) -> int {
        self.lane_width as int
    }

    /// Coordinates are stored coordinate-major in separate lanes.
    pub closed spec fn coordinate_major(&self) -> bool {
        self.interleaved
    }

    /// Slots taken by one block: its lanes when interleaved, its width otherwise.
    pub open spec fn stride(&self) -> int {
        if self.coordinate_major() {
            self.lanes()
        } else {
            self.width()
        }
    }

    /// Number of complete blocks that fit.
    pub open spec fn count(&self) -> int {
        self.n_slots() / self.stride()
    }

    /// A power-of-two slot count, a block width in `1..=slots`, and lanes that are the least
    /// power of two not below the width (interleaved) or the width itself (contiguous).
    pub open spec fn wf(&self) -> bool {
        &&& power_of_two(self.n_slots())
        &&& 0 < self.width() <= self.n_slots()
        &&& self.coordinate_major() ==> {
            &&& power_of_two(self.lanes())
            &&& self.lanes() >= self.width()
            &&& (self.lanes() == 1 || self.lanes() / 2 < self.width())
        }
        &&& !self.coordinate_major() ==> self.lanes() == self.width()
    }

    /// The slot of coordinate `c` of block `b`.
    pub open spec fn slot_of(&self, b: int, c: int) -> int {
        if self.coordinate_major() {
            c * self.count() + b
        } else {
            b * self.width() + c
        }
    }

    /// The block that slot `s` belongs to.
    pub open spec fn block_of(&self, s: int) -> int {
        if self.coordinate_major() {
            s % self.count()
        } else {
            s / self.width()
        }
    }

    /// The coordinate that slot `s` holds within its block.
    pub open spec fn coordinate_of(&self, s: int) -> int {
        if self.coordinate_major() {
            s / self.count()
        } else {
            s % self.width()
        }
    }

    /// The slot vector that placing `words`, blocks of `width` coordinates, gives: each used
    /// slot holds its coordinate and every other slot holds `zero`.
    pub open spec fn placed<T>(&self, words: Seq<Vec<T>>, width: int, zero: T) -> Seq<T> {
        Seq::new(
            self.n_slots() as nat,
            |s: int|
                if self.block_of(s) < words.len() && self.coordinate_of(s) < width {
                    words[self.block_of(s)]@[self.coordinate_of(s)]
                } else {
                    zero
                },
        )
    }

    /// A valid layout fits at least one block, and its blocks fit in its slots; interleaved
    /// lanes tile the slots exactly.
    pub proof fn lemma_geometry(&self)
        requires
            self.wf(),
        ensures
            self.count() >= 1,
            self.width() <= self.stride(),
            self.count() * self.stride() <= self.n_slots(),
            self.coordinate_major() ==> self.count() * self.stride() == self.n_slots(),
            self.n_slots() <= usize::MAX,
    {
        let s = self.n_slots();
        let d = self.stride();
        lemma_fundamental_div_mod(s, d);
        lemma_mod_bound(s, d);
        if self.coordinate_major() {
            let a = choose|a: nat| #[trigger] pow2(a) == self.lanes();
            let b = choose|b: nat| #[trigger] pow2(b) == s;
            if a > b {
                lemma_pow2_unfold(a);
                assert(self.lanes() / 2 == pow2((a - 1) as nat));
                if b < (a - 1) as nat {
                    lemma_pow2_strictly_increases(b, (a - 1) as nat);
                }
                assert(false);
            }
            lemma_pow2_adds(a, (b - a) as nat);
            lemma_pow2_pos((b - a) as nat);
            lemma_pow2_pos(a);
            lemma_div_multiples_vanish(pow2((b - a) as nat) as int, d);
            lemma_mul_is_commutative(pow2((b - a) as nat) as int, d);
        } else {
            lemma_div_pos_is_pos(s, d);
            if s / d == 0 {
                lemma_mul_basics(d);
            }
            lemma_mul_is_commutative(d, s / d);
        }
    }

    /// Slots and (block, coordinate) pairs correspond one to one: the slot of coordinate `c`
    /// of block `b` lies in the layout and gives back `b` and `c`.
    pub proof fn lemma_slot_inverse(&self, b: int, c: int)
        requires
            self.wf(),
            0 <= b < self.count(),
            0 <= c < self.width(),
        ensures
            0 <= self.slot_of(b, c) < self.n_slots(),
            self.block_of(self.slot_of(b, c)) == b,
            self.coordinate_of(self.slot_of(b, c)) == c,
    {
        self.lemma_geometry();
        let n = self.count();
        let w = self.width();
        if self.coordinate_major() {
            lemma_fundamental_div_mod_converse(c * n + b, n, c, b);
            lemma_mul_is_commutative(c, n);
            lemma_mul_inequality(c + 1, w, n);
            lemma_mul_inequality(w, self.stride(), n);
            lemma_mul_is_commutative(w, n);
            lemma_mul_is_commutative(self.stride(), n);
            lemma_mul_is_distributive_add_other_way(n, c, 1);
        } else {
            lemma_fundamental_div_mod_converse(b * w + c, w, b, c);
            lemma_mul_inequality(b + 1, n, w);
            lemma_mul_is_distributive_add_other_way(w, b, 1);
            lemma_mul_is_commutative(n, w);
        }
        lemma_mul_nonnegative(c, n);
        lemma_mul_nonnegative(b, w);
    }

    /// Every slot of the layout is the slot of its own block and coordinate.
    pub proof fn lemma_slot_decompose(&self, s: int)
        requires
            self.wf(),
            0 <= s < self.n_slots(),
        ensures
            s == self.slot_of(self.block_of(s), self.coordinate_of(s)),
            0 <= self.block_of(s),
            0 <= self.coordinate_of(s),
    {
        self.lemma_geometry();
        if self.coordinate_major() {
            lemma_fundamental_div_mod(s, self.count());
            lemma_mul_is_commutative(self.count(), s / self.count());
            lemma_div_pos_is_pos(s, self.count());
            lemma_mod_bound(s, self.count());
        } else {
            lemma_fundamental_div_mod(s, self.width());
            lemma_mul_is_commutative(self.width(), s / self.width());
            lemma_div_pos_is_pos(s, self.width());
            lemma_mod_bound(s, self.width());
        }
    }

    /// The slot vector while placing: blocks before `b` complete, and the first `c`
    /// coordinates of block `b`.
    spec fn placed_upto<T>(&self, words: Seq<Vec<T>>, width: int, zero: T, b: int, c: int) -> Seq<T> {
        Seq::new(
            self.n_slots() as nat,
            |s: int|
                if (self.block_of(s) < b && self.coordinate_of(s) < width) || (self.block_of(s) == b
                    && self.coordinate_of(s) < c) {
                    words[self.block_of(s)]@[self.coordinate_of(s)]
                } else {
                    zero
                },
        )
    }

    /// Checks that blocks of `width` coordinates fit and that `count` of them fit.
    pub fn check_blocks(&self, width: usize, count: usize) -> (r: Result<(), Error>)
        requires
            self.wf(),
        ensures
            r == (if width > self.width() {
                Err(Error::EncodingTooWide)
            } else if count > self.count() {
                Err(Error::CapacityExceeded)
            } else {
                Ok(())
            }),
    {
        if width > self.block_width {
            return Err(Error::EncodingTooWide);
        }
        if count > self.block_count() {
            return Err(Error::CapacityExceeded);
        }
        Ok(())
    }

    fn place_component<T: Copy>(&self, words: &Vec<Vec<T>>, width: usize, zero: T, target: &mut Vec<T>)
        requires
            self.wf(),
            uniform_width(words@, width as int),
            width <= self.width(),
            words.len() <= self.count(),
            old(target)@.len() == self.n_slots(),
        ensures
            final(target)@ == self.placed(words@, width as int, zero),
    {
        proof {
            self.lemma_geometry();
        }
        let n = self.slots;
        let mut s: usize = 0;
        while s < n
            invariant
                n == self.n_slots(),
                target@.len() == n,
                s <= n,
                forall|t: int| 0 <= t < s ==> #[trigger] target@[t] == zero,
            decreases n - s,
        {
            target.set(s, zero);
            s = s + 1;
        }
        proof {
            assert(target@ =~= self.placed_upto(words@, width as int, zero, 0, 0));
        }
        let count = words.len();
        let mut b: usize = 0;
        while b < count
            invariant
                self.wf(),
                n == self.n_slots(),
                count == words.len(),
                count <= self.count(),
                uniform_width(words@, width as int),
                width <= self.width(),
                b <= count,
                target@ == self.placed_upto(words@, width as int, zero, b as int, 0),
            decreases count - b,
        {
            let mut c: usize = 0;
            while c < width
                invariant
                    self.wf(),
                    n == self.n_slots(),
                    count == words.len(),
                    count <= self.count(),
                    uniform_width(words@, width as int),
                    width <= self.width(),
                    b < count,
                    c <= width,
                    target@ == self.placed_upto(words@, width as int, zero, b as int, c as int),
                decreases width - c,
            {
                let slot = self.slot(b, c);
                let value: T = words[b][c];
                let ghost before = target@;
                target.set(slot, value);
                proof {
                    self.lemma_slot_inverse(b as int, c as int);
                    assert forall|t: int| 0 <= t < n implies #[trigger] target@[t] == self.placed_upto(
                        words@,
                        width as int,
                        zero,
                        b as int,
                        c + 1,
                    )[t] by {
                        self.lemma_slot_decompose(t);
                    }
                    assert(target@ =~= self.placed_upto(words@, width as int, zero, b as int, c + 1));
                }
                c = c + 1;
            }
            proof {
                assert(target@ =~= self.placed_upto(words@, width as int, zero, b + 1, 0));
            }
            b = b + 1;
        }
        proof {
            assert(target@ =~= self.placed(words@, width as int, zero));
        }
    }

    /// Places blocks in the slots: coordinate `c` of block `b` goes to `slot(b, c)`, in the
    /// real and in the imaginary component, and every other slot is set to `zero`.
    pub fn place_into<T: Copy>(
        &self,
        re_words: &Vec<Vec<T>>,
        im_words: &Vec<Vec<T>>,
        width: usize,
        zero: T,
        slots: &mut PackedSlots<T>,
    ) -> (r: Result<(), Error>)
        requires
            self.wf(),
            re_words.len() == im_words.len(),
            uniform_width(re_words@, width as int),
            uniform_width(im_words@, width as int),
        ensures
            match r {
                Ok(()) => {
                    &&& old(slots).re@.len() == self.n_slots()
                    &&& old(slots).im@.len() == self.n_slots()
                    &&& width <= self.width()
                    &&& re_words.len() <= self.count()
                    &&& final(slots).re@ == self.placed(re_words@, width as int, zero)
                    &&& final(slots).im@ == self.placed(im_words@, width as int, zero)
                },
                Err(e) => {
                    &&& final(slots).re@ == old(slots).re@
                    &&& final(slots).im@ == old(slots).im@
                    &&& {
                        ||| (old(slots).re@.len() != self.n_slots() || old(slots).im@.len()
                            != self.n_slots()) && e == Error::SlotLengthMismatch
                        ||| old(slots).re@.len() == self.n_slots() && old(slots).im@.len()
                            == self.n_slots() && Err::<(), Error>(e) == self.check_blocks_spec(
                            width as int,
                            re_words.len() as int,
                        )
                    }
                },
            },
    {
        if slots.re.len() != self.slots || slots.im.len() != self.slots {
            return Err(Error::SlotLengthMismatch);
        }
        match self.check_blocks(width, re_words.len()) {
            Ok(()) => {},
            Err(e) => return Err(e),
        }
        self.place_component(re_words, width, zero, &mut slots.re);
        self.place_component(im_words, width, zero, &mut slots.im);
        Ok(())
    }

    /// What `check_blocks` gives.
    pub open spec fn check_blocks_spec(&self, width: int, count: int) -> Result<(), Error> {
        if width > self.width() {
            Err(Error::EncodingTooWide)
        } else if count > self.count() {
            Err(Error::CapacityExceeded)
        } else {
            Ok(())
        }
    }

    /// Checks slot vectors, a block count and a block width before decoding.
    pub fn check_decode<T>(&self, slots: &PackedSlots<T>, count: usize, width: usize) -> (r: Result<
        (),
        Error,
    >)
        requires
            self.wf(),
        ensures
            r == (if slots.re@.len() != self.n_slots() || slots.im@.len() != self.n_slots() {
                Err(Error::SlotLengthMismatch)
            } else if count > self.count() {
                Err(Error::CapacityExceeded)
            } else if width > self.width() {
                Err(Error::EncodingTooWide)
            } else {
                Ok(())
            }),
    {
        if slots.re.len() != self.slots || slots.im.len() != self.slots {
            return Err(Error::SlotLengthMismatch);
        }
        if count > self.block_count() {
            return Err(Error::CapacityExceeded);
        }
        if width > self.block_width {
            return Err(Error::EncodingTooWide);
        }
        Ok(())
    }

    /// Reads the first `width` coordinates of one block, real and imaginary parts.
    pub fn read_block<T: Copy>(&self, slots: &PackedSlots<T>, block: usize, width: usize) -> (r: (
        Vec<T>,
        Vec<T>,
    ))
        requires
            self.wf(),
            slots.re@.len() == self.n_slots(),
            slots.im@.len() == self.n_slots(),
            block < self.count(),
            width <= self.width(),
        ensures
            r.0@ == Seq::new(width as nat, |c: int| slots.re@[self.slot_of(block as int, c)]),
            r.1@ == Seq::new(width as nat, |c: int| slots.im@[self.slot_of(block as int, c)]),
    {
        let mut re: Vec<T> = Vec::new();
        let mut im: Vec<T> = Vec::new();
        let mut c: usize = 0;
        while c < width
            invariant
                self.wf(),
                slots.re@.len() == self.n_slots(),
                slots.im@.len() == self.n_slots(),
                block < self.count(),
                width <= self.width(),
                c <= width,
                re@ == Seq::new(c as nat, |k: int| slots.re@[self.slot_of(block as int, k)]),
                im@ == Seq::new(c as nat, |k: int| slots.im@[self.slot_of(block as int, k)]),
            decreases width - c,
        {
            let slot = self.slot(block, c);
            re.push(slots.re[slot]);
            im.push(slots.im[slot]);
            c = c + 1;
            proof {
                assert(re@ =~= Seq::new(c as nat, |k: int| slots.re@[self.slot_of(block as int, k)]));
                assert(im@ =~= Seq::new(c as nat, |k: int| slots.im@[self.slot_of(block as int, k)]));
            }
        }
        (re, im)
    }

    /// Reading a block back from the slots that placing gave returns the block placed there.
    pub proof fn lemma_read_after_place<T>(&self, words: Seq<Vec<T>>, width: int, zero: T, b: int)
        requires
            self.wf(),
            uniform_width(words, width),
            0 <= width <= self.width(),
            words.len() <= self.count(),
            0 <= b < words.len(),
        ensures
            Seq::new(width as nat, |c: int| self.placed(words, width, zero)[self.slot_of(b, c)])
                == words[b]@,
    {
        let got = Seq::new(width as nat, |c: int| self.placed(words, width, zero)[self.slot_of(b, c)]);
        assert forall|c: int| 0 <= c < width implies #[trigger] got[c] == words[b]@[c] by {
            self.lemma_slot_inverse(b, c);
        }
        assert(got =~= words[b]@);
    }

    /// The first row whose column `row + diagonal` lies in the matrix.
    pub open spec fn diagonal_first_row(diagonal: int) -> int {
        if diagonal < 0 {
            -diagonal
        } else {
            0
        }
    }

    /// One past the last row of a `rows` by `cols` matrix whose column `row + diagonal` lies in
    /// the matrix.
    pub open spec fn diagonal_end_row(rows: int, cols: int, diagonal: int) -> int {
        if rows < cols - diagonal {
            rows
        } else {
            cols - diagonal
        }
    }

    /// The number of rows of a `rows` by `cols` matrix that diagonal `diagonal` meets.
    pub open spec fn diagonal_rows(rows: int, cols: int, diagonal: int) -> int {
        let w = Self::diagonal_end_row(rows, cols, diagonal) - Self::diagonal_first_row(diagonal);
        if w > 0 {
            w
        } else {
            0
        }
    }

    /// Cell `k` of the diagonal, in block-major order: in block `k / w`, the row `first + k % w`
    /// where `w` is the number of rows the diagonal meets, as slot `block * width + row` and
    /// matrix entry `row * cols + row + diagonal`.
    pub open spec fn diagonal_cell(&self, rows: int, cols: int, diagonal: int, k: int) -> (usize, usize) {
        let w = Self::diagonal_rows(rows, cols, diagonal);
        let block = k / w;
        let row = Self::diagonal_first_row(diagonal) + k % w;
        ((block * self.width() + row) as usize, (row * cols + row + diagonal) as usize)
    }

    /// Cell `k` of a diagonal of a `rows` by `cols` matrix lies in block `k / w`, where `w` is
    /// the number of rows the diagonal meets, at position `first + k % w` of that block, the
    /// blocks being numbered contiguously `width` slots apart whatever the lanes or the
    /// interleaving of the layout; it takes the matrix entry of that row on the diagonal, which
    /// lies in the matrix.
    pub proof fn lemma_diagonal_cell(&self, rows: int, cols: int, diagonal: int, k: int)
        requires
            self.wf(),
            rows <= self.width(),
            cols <= self.width(),
            rows * cols <= usize::MAX,
            -rows < diagonal < cols,
            0 <= k < self.count() * Self::diagonal_rows(rows, cols, diagonal),
        ensures
            ({
                let w = Self::diagonal_rows(rows, cols, diagonal);
                let row = Self::diagonal_first_row(diagonal) + k % w;
                let cell = self.diagonal_cell(rows, cols, diagonal, k);
                &&& 0 <= row < rows
                &&& 0 <= row + diagonal < cols
                &&& (cell.0 as int) / self.width() == k / w
                &&& (cell.0 as int) % self.width() == row
                &&& cell.0 < self.n_slots()
                &&& cell.1 as int == row * cols + row + diagonal
            }),
    {
        self.lemma_geometry();
        let w = Self::diagonal_rows(rows, cols, diagonal);
        let width = self.width();
        let count = self.count();
        if w <= 0 {
            lemma_mul_basics(count);
            assert(false);
        }
        let block = k / w;
        let row = Self::diagonal_first_row(diagonal) + k % w;
        lemma_fundamental_div_mod(k, w);
        lemma_mod_bound(k, w);
        lemma_div_pos_is_pos(k, w);
        if block >= count {
            lemma_mul_inequality(count, block, w);
            lemma_mul_is_commutative(count, w);
            assert(false);
        }
        lemma_mul_inequality(block + 1, count, width);
        lemma_mul_is_distributive_add_other_way(width, block, 1);
        lemma_mul_inequality(width, self.stride(), count);
        lemma_mul_is_commutative(width, count);
        lemma_mul_is_commutative(self.stride(), count);
        lemma_mul_is_commutative(block, width);
        lemma_mul_nonnegative(block, width);
        let slot = block * width + row;
        assert(0 <= slot < self.n_slots());
        lemma_fundamental_div_mod_converse(slot, width, block, row);
        lemma_mul_inequality(row + 1, rows, cols);
        lemma_mul_is_distributive_add_other_way(cols, row, 1);
        lemma_mul_is_commutative(rows, cols);
        lemma_mul_is_commutative(row, cols);
        lemma_mul_nonnegative(row, cols);
        assert(0 <= row * cols + row + diagonal < rows * cols);
        let cell = self.diagonal_cell(rows, cols, diagonal, k);
        assert(cell.0 as int == slot);
        assert(cell.1 as int == row * cols + row + diagonal);
    }

    /// The cells of a diagonal depend on the layout only through its block width: layouts with
    /// the same block width give the same cells, whatever their slot count, lanes or
    /// interleaving.
    pub proof fn lemma_diagonal_cells_ignore_lanes(
        a: PackedLayout,
        b: PackedLayout,
        rows: int,
        cols: int,
        diagonal: int,
        k: int,
    )
        requires
            a.width() == b.width(),
        ensures
            a.diagonal_cell(rows, cols, diagonal, k) == b.diagonal_cell(rows, cols, diagonal, k),
    {
    }

    /// The number of rows below `row` that the diagonal meets.
    spec fn diagonal_rows_below(rows: int, cols: int, diagonal: int, row: int) -> int {
        let lo = Self::diagonal_first_row(diagonal);
        let hi = Self::diagonal_end_row(rows, cols, diagonal);
        let c = if row < lo {
            lo
        } else if row > hi {
            hi
        } else {
            row
        };
        if c - lo > 0 {
            c - lo
        } else {
            0
        }
    }

    /// Lists the slots that diagonal `diagonal` of a `rows` by `cols` matrix fills in every
    /// block, with the matrix entry that each takes.
    pub fn diagonal_cells(&self, rows: usize, cols: usize, diagonal: i64) -> (r: Vec<(usize, usize)>)
        requires
            self.wf(),
            rows <= self.width(),
            cols <= self.width(),
            rows * cols <= usize::MAX,
            rows + cols <= i64::MAX,
            -(rows as int) < diagonal < cols,
        ensures
            r@ == Seq::new(
                (self.count() * Self::diagonal_rows(rows as int, cols as int, diagonal as int)) as nat,
                |k: int| self.diagonal_cell(rows as int, cols as int, diagonal as int, k),
            ),
            forall|k: int| 0 <= k < r@.len() ==> #[trigger] r@[k].0 < self.n_slots() && r@[k].1 < rows * cols,
    {
        proof {
            self.lemma_geometry();
        }
        let count = self.block_count();
        let width = self.block_width;
        let mut cells: Vec<(usize, usize)> = Vec::new();
        let mut block: usize = 0;
        while block < count
            invariant
                self.wf(),
                count == self.count(),
                width == self.width(),
                rows <= width,
                cols <= width,
                rows * cols <= usize::MAX,
                rows + cols <= i64::MAX,
                -(rows as int) < diagonal < cols,
                count * self.stride() <= self.n_slots(),
                width <= self.stride(),
                self.n_slots() <= usize::MAX,
                block <= count,
                cells@ == Seq::new(
                    (block * Self::diagonal_rows(rows as int, cols as int, diagonal as int)) as nat,
                    |k: int| self.diagonal_cell(rows as int, cols as int, diagonal as int, k),
                ),
                forall|k: int| 0 <= k < cells@.len() ==> #[trigger] cells@[k].0 < self.n_slots() && cells@[k].1 < rows * cols,
            decreases count - block,
        {
            let mut row: usize = 0;
            while row < rows
                invariant
                    self.wf(),
                    count == self.count(),
                    width == self.width(),
                    rows <= width,
                    cols <= width,
                    rows * cols <= usize::MAX,
                    rows + cols <= i64::MAX,
                    -(rows as int) < diagonal < cols,
                    count * self.stride() <= self.n_slots(),
                    width <= self.stride(),
                    self.n_slots() <= usize::MAX,
                    block < count,
                    row <= rows,
                    cells@ == Seq::new(
                        (block * Self::diagonal_rows(rows as int, cols as int, diagonal as int)
                            + Self::diagonal_rows_below(rows as int, cols as int, diagonal as int, row as int)) as nat,
                        |k: int| self.diagonal_cell(rows as int, cols as int, diagonal as int, k),
                    ),
                    forall|k: int| 0 <= k < cells@.len() ==> #[trigger] cells@[k].0 < self.n_slots() && cells@[k].1 < rows * cols,
                decreases rows - row,
            {
                let ghost w = Self::diagonal_rows(rows as int, cols as int, diagonal as int);
                let ghost lo = Self::diagonal_first_row(diagonal as int);
                let ghost before = cells@;
                proof {
                    lemma_mul_inequality(block as int + 1, count as int, width as int);
                    lemma_mul_inequality(width as int, self.stride(), count as int);
                    lemma_mul_is_commutative(width as int, count as int);
                    lemma_mul_is_distributive_add_other_way(width as int, block as int, 1);
                    lemma_mul_is_commutative(self.stride(), count as int);
                }
                let col = row as i64 + diagonal;
                if 0 <= col && col < cols as i64 {
                    proof {
                        lemma_mul_inequality(row as int + 1, rows as int, cols as int);
                        lemma_mul_is_distributive_add_other_way(cols as int, row as int, 1);
                        lemma_mul_is_commutative(rows as int, cols as int);
                        lemma_mul_is_commutative(row as int, cols as int);
                    }
                    cells.push((block * width + row, row * cols + col as usize));
                    proof {
                        let k = block * w + (row - lo);
                        assert(0 <= row - lo < w);
                        lemma_fundamental_div_mod_converse(k, w, block as int, row - lo);
                        assert(cells@ =~= Seq::new(
                            (block * w + Self::diagonal_rows_below(rows as int, cols as int, diagonal as int, row + 1)) as nat,
                            |k: int| self.diagonal_cell(rows as int, cols as int, diagonal as int, k),
                        ));
                    }
                }
                row = row + 1;
            }
            block = block + 1;
            proof {
                lemma_mul_is_distributive_add_other_way(
                    Self::diagonal_rows(rows as int, cols as int, diagonal as int),
                    (block - 1) as int,
                    1,
                );
                lemma_mul_is_commutative(Self::diagonal_rows(rows as int, cols as int, diagonal as int), block as int);
                lemma_mul_is_commutative(Self::diagonal_rows(rows as int, cols as int, diagonal as int), (block - 1) as int);
            }
        }
        cells
    }

    /// Constructs the default interleaved layout.
    pub fn new(slots: usize, block_width: usize) -> (r: Result<Self, Error>)
        ensures
            r == Self::interleaved_outcome(slots, block_width),
    {
        Self::interleaved(slots, block_width)
    }

    /// What constructing an interleaved layout gives.
    pub open spec fn interleaved_outcome(slots: usize, block_width: usize) -> Result<Self, Error> {
        if !power_of_two(slots as int) {
            Err(Error::SlotsNotPowerOfTwo)
        } else if block_width == 0 {
            Err(Error::ZeroBlockWidth)
        } else if block_width > slots {
            Err(Error::BlockWidthExceedsSlots)
        } else {
            Ok(Self::interleaved_spec(slots, block_width))
        }
    }

    /// The interleaved layout of `slots` slots and blocks of `block_width` coordinates.
    pub closed spec fn interleaved_spec(slots: usize, block_width: usize) -> Self {
        PackedLayout {
            slots,
            block_width,
            lane_width: choose|l: usize|
                power_of_two(l as int) && l >= block_width && (l == 1 || l / 2 < block_width),
            interleaved: true,
        }
    }

    /// Constructs a coordinate-major layout with power-of-two lane padding.
    pub fn interleaved(slots: usize, block_width: usize) -> (r: Result<Self, Error>)
        ensures
            r == Self::interleaved_outcome(slots, block_width),
            r matches Ok(l) ==> {
                &&& l.wf()
                &&& l.n_slots() == slots
                &&& l.width() == block_width
                &&& l.coordinate_major()
            },
    {
        if !is_power_of_two(slots) {
            return Err(Error::SlotsNotPowerOfTwo);
        }
        if block_width == 0 {
            return Err(Error::ZeroBlockWidth);
        }
        if block_width > slots {
            return Err(Error::BlockWidthExceedsSlots);
        }
        proof {
            let b = choose|b: nat| #[trigger] pow2(b) == slots;
            lemma2_to64();
            if b > usize::BITS - 1 {
                lemma_pow2_strictly_increases((usize::BITS - 1) as nat, b);
                lemma_pow2_unfold(usize::BITS as nat);
                if b > usize::BITS {
                    lemma_pow2_strictly_increases(usize::BITS as nat, b);
                }
                lemma_usize_pow2_no_overflow((usize::BITS - 1) as nat);
                assert(false);
            }
            if b < usize::BITS - 1 {
                lemma_pow2_strictly_increases(b, (usize::BITS - 1) as nat);
            }
        }
        let lane_width = next_power_of_two(block_width);
        proof {
            lemma_lanes_unique(lane_width, block_width);
        }
        Ok(PackedLayout { slots, block_width, lane_width, interleaved: true })
    }

    /// Block-major packing without power-of-two padding.
    pub fn contiguous(slots: usize, block_width: usize) -> (r: Result<Self, Error>)
        ensures
            match r {
                Ok(l) => {
                    &&& power_of_two(slots as int)
                    &&& 0 < block_width <= slots
                    &&& l.wf()
                    &&& l.n_slots() == slots
                    &&& l.width() == block_width
                    &&& !l.coordinate_major()
                },
                Err(e) => {
                    ||| !power_of_two(slots as int) && e == Error::SlotsNotPowerOfTwo
                    ||| power_of_two(slots as int) && block_width == 0 && e == Error::ZeroBlockWidth
                    ||| power_of_two(slots as int) && 0 < block_width && slots < block_width && e
                        == Error::BlockWidthExceedsSlots
                },
            },
    {
        if !is_power_of_two(slots) {
            return Err(Error::SlotsNotPowerOfTwo);
        }
        if block_width == 0 {
            return Err(Error::ZeroBlockWidth);
        }
        if block_width > slots {
            return Err(Error::BlockWidthExceedsSlots);
        }
        Ok(PackedLayout { slots, block_width, lane_width: block_width, interleaved: false })
    }

    /// Constructs a layout wide enough for both input and output blocks.
    pub fn for_widths(slots: usize, input_width: usize, output_width: usize) -> (r: Result<
        Self,
        Error,
    >)
        ensures
            r == (if input_width == 0 || output_width == 0 {
                Err(Error::ZeroBlockWidth)
            } else {
                Self::interleaved_outcome(
                    slots,
                    if input_width >= output_width {
                        input_width
                    } else {
                        output_width
                    },
                )
            }),
    {
        if input_width == 0 || output_width == 0 {
            return Err(Error::ZeroBlockWidth);
        }
        let width = if input_width >= output_width {
            input_width
        } else {
            output_width
        };
        Self::new(slots, width)
    }

    /// Returns the total number of complex CKKS slots.
    pub fn slots(&self) -> (r: usize)
        ensures
            r == self.n_slots(),
    {
        self.slots
    }

    /// Returns the number of active coordinates reserved per block.
    pub fn block_width(&self) -> (r: usize)
        ensures
            r == self.width(),
    {
        self.block_width
    }

    /// Power-of-two coordinate lane count used by interleaved layouts.
    pub fn lane_width(&self) -> (r: usize)
        ensures
            r == self.lanes(),
    {
        self.lane_width
    }

    /// Reports whether coordinates are stored in separate interleaved lanes.
    pub fn is_interleaved(&self) -> (r: bool)
        ensures
            r == self.coordinate_major(),
    {
        self.interleaved
    }

    /// Returns the number of complete blocks that fit in the layout.
    pub fn block_count(&self) -> (r: usize)
        requires
            self.wf(),
        ensures
            r == self.count(),
    {
        self.slots / if self.interleaved {
            self.lane_width
        } else {
            self.block_width
        }
    }

    /// Returns the number of slots occupied by active block coordinates.
    pub fn used_slots(&self) -> (r: usize)
        requires
            self.wf(),
        ensures
            r == self.count() * self.width(),
            r <= self.n_slots(),
    {
        proof {
            self.lemma_geometry();
            lemma_mul_inequality(self.width(), self.stride(), self.count());
            lemma_mul_is_commutative(self.width(), self.count());
            lemma_mul_is_commutative(self.stride(), self.count());
        }
        self.block_count() * self.block_width
    }

    /// Returns the slot index for one block coordinate.
    pub fn slot(&self, block: usize, coordinate: usize) -> (r: usize)
        requires
            self.wf(),
            block < self.count(),
            coordinate < self.width(),
        ensures
            r == self.slot_of(block as int, coordinate as int),
            r < self.n_slots(),
    {
        proof {
            self.lemma_slot_inverse(block as int, coordinate as int);
        }
        if self.interleaved {
            coordinate * self.block_count() + block
        } else {
            block * self.block_width + coordinate
        }
    }
}

/// Lanes are the least power of two not below the block width, so there is exactly one choice.
proof fn lemma_lanes_unique(l: usize, w: usize)
    requires
        w >= 1,
        power_of_two(l as int),
        l >= w,
        l == 1 || l / 2 < w,
    ensures
        l == (choose|x: usize| power_of_two(x as int) && x >= w && (x == 1 || x / 2 < w)),
{
    let x = choose|x: usize| power_of_two(x as int) && x >= w && (x == 1 || x / 2 < w);
    assert(power_of_two(l as int) && l >= w && (l == 1 || l / 2 < w));
    let a = choose|a: nat| #[trigger] pow2(a) == l;
    let b = choose|b: nat| #[trigger] pow2(b) == x;
    if a < b {
        lemma_pow2_unfold(b);
        if a < (b - 1) as nat {
            lemma_pow2_strictly_increases(a, (b - 1) as nat);
        }
        lemma_pow2_pos(a);
        assert(x != 1);
        assert(false);
    } else if b < a {
        lemma_pow2_unfold(a);
        if b < (a - 1) as nat {
            lemma_pow2_strictly_increases(b, (a - 1) as nat);
        }
        lemma_pow2_pos(b);
        assert(l != 1);
        assert(false);
    }
}

} // verus!
