use vstd::prelude::*;

use super::packed::uniform_width;
use crate::algebra::number_theory::{is_power_of_two, power_of_two};
use crate::error::Error;

verus! {

/// Placement of each block coordinate in its own CKKS ciphertext.
#[derive(Clone, Copy, Debug, PartialEq, Eq, Structural)]
pub struct SplitLayout {
    slots: usize,
}

/// Real and imaginary coordinate-major slot vectors for a split layout.
#[derive(Clone, Debug, PartialEq)]
pub struct SplitSlots<F> {
    /// Real slot components indexed by coordinate and then slot.
    pub re: Vec<Vec<F>>,
    /// Imaginary slot components indexed by coordinate and then slot.
    pub im: Vec<Vec<F>>,
}

/// `rows` holds `width` rows of `n` entries each.
pub open spec fn grid<T>(rows: Seq<Vec<T>>, width: int, n: int) -> bool {
    &&& rows.len() == width
    &&& forall|c: int| 0 <= c < width ==> #[trigger] rows[c]@.len() == n
}

impl SplitLayout {
    /// Number of symbols each coordinate ciphertext holds.
    pub closed spec fn n_slots(&self) -> int {
        self.slots as int
    }

    /// A power-of-two slot count.
    pub open spec fn wf(&self) -> bool {
        power_of_two(self.n_slots())
    }

    /// Row `c` that placing `words`, blocks of `width` coordinates, gives: slot `s` holds
    /// coordinate `c` of block `s` where there is one, and `zero` elsewhere.
    pub open spec fn placed_row<T>(&self, words: Seq<Vec<T>>, c: int, zero: T) -> Seq<T> {
        Seq::new(
            self.n_slots() as nat,
            |s: int|
                if s < words.len() {
                    words[s]@[c]
                } else {
                    zero
                },
        )
    }

    /// Constructs a split layout for the requested slot count.
    pub fn new(slots: usize) -> (r: Result<Self, Error>)
        ensures
            match r {
                Ok(l) => l.wf() && l.n_slots() == slots,
                Err(e) => !power_of_two(slots as int) && e == Error::SlotsNotPowerOfTwo,
            },
    {
        if !is_power_of_two(slots) {
            return Err(Error::SlotsNotPowerOfTwo);
        }
        Ok(SplitLayout { slots })
    }

    /// Returns the number of symbols stored across each coordinate ciphertext.
    pub fn slots(&self) -> (r: usize)
        ensures
            r == self.n_slots(),
    {
        self.slots
    }

    /// Checks that `count` symbols fit.
    pub fn check_capacity(&self, count: usize) -> (r: Result<(), Error>)
        ensures
            r == (if count > self.n_slots() {
                Err(Error::CapacityExceeded)
            } else {
                Ok(())
            }),
    {
        if count > self.slots {
            Err(Error::CapacityExceeded)
        } else {
            Ok(())
        }
    }

    /// Whether every row of both components has one entry per slot.
    fn rows_fit<T>(&self, slots: &SplitSlots<T>) -> (r: bool)
        ensures
            r == ((forall|c: int| 0 <= c < slots.re@.len() ==> #[trigger] slots.re@[c]@.len()
                == self.n_slots()) && (forall|c: int|
                0 <= c < slots.im@.len() ==> #[trigger] slots.im@[c]@.len() == self.n_slots())),
    {
        let mut c: usize = 0;
        while c < slots.re.len()
            invariant
                c <= slots.re@.len(),
                forall|k: int| 0 <= k < c ==> #[trigger] slots.re@[k]@.len() == self.n_slots(),
            decreases slots.re@.len() - c,
        {
            if slots.re[c].len() != self.slots {
                proof {
                    assert(slots.re@[c as int]@.len() != self.n_slots());
                }
                return false;
            }
            c = c + 1;
        }
        let mut c: usize = 0;
        while c < slots.im.len()
            invariant
                c <= slots.im@.len(),
                forall|k: int| 0 <= k < slots.re@.len() ==> #[trigger] slots.re@[k]@.len()
                    == self.n_slots(),
                forall|k: int| 0 <= k < c ==> #[trigger] slots.im@[k]@.len() == self.n_slots(),
            decreases slots.im@.len() - c,
        {
            if slots.im[c].len() != self.slots {
                proof {
                    assert(slots.im@[c as int]@.len() != self.n_slots());
                }
                return false;
            }
            c = c + 1;
        }
        true
    }

    /// What the checks of a symbol count and of the slot vectors' shape give.
    pub open spec fn shape_check<T>(
        &self,
        slots: &SplitSlots<T>,
        count: int,
        width: int,
    ) -> Result<(), Error> {
        if count > self.n_slots() {
            Err(Error::CapacityExceeded)
        } else if slots.re@.len() != width || slots.im@.len() != width {
            Err(Error::CoordinateCountMismatch)
        } else if !(grid(slots.re@, width, self.n_slots()) && grid(slots.im@, width, self.n_slots())) {
            Err(Error::SlotLengthMismatch)
        } else {
            Ok(())
        }
    }

    /// Checks a symbol count and the shape of the slot vectors against blocks of `width`
    /// coordinates.
    pub fn check_shape<T>(&self, slots: &SplitSlots<T>, count: usize, width: usize) -> (r: Result<
        (),
        Error,
    >)
        ensures
            r == self.shape_check(slots, count as int, width as int),
    {
        if count > self.slots {
            return Err(Error::CapacityExceeded);
        }
        if slots.re.len() != width || slots.im.len() != width {
            return Err(Error::CoordinateCountMismatch);
        }
        if !self.rows_fit(slots) {
            return Err(Error::SlotLengthMismatch);
        }
        Ok(())
    }

    fn place_component<T: Copy>(&self, words: &Vec<Vec<T>>, width: usize, zero: T, rows: &mut Vec<Vec<T>>)
        requires
            uniform_width(words@, width as int),
            words.len() <= self.n_slots(),
            old(rows)@.len() == width,
        ensures
            final(rows)@.len() == width,
            forall|c: int| 0 <= c < width ==> #[trigger] final(rows)@[c]@ == self.placed_row(words@, c, zero),
    {
        let n = self.slots;
        let count = words.len();
        let mut c: usize = 0;
        while c < width
            invariant
                n == self.n_slots(),
                count == words.len(),
                count <= n,
                uniform_width(words@, width as int),
                rows@.len() == width,
                c <= width,
                forall|k: int| 0 <= k < c ==> #[trigger] rows@[k]@ == self.placed_row(words@, k, zero),
            decreases width - c,
        {
            let mut row: Vec<T> = Vec::new();
            let mut s: usize = 0;
            while s < n
                invariant
                    n == self.n_slots(),
                    count == words.len(),
                    count <= n,
                    uniform_width(words@, width as int),
                    c < width,
                    s <= n,
                    row@ == self.placed_row(words@, c as int, zero).take(s as int),
                decreases n - s,
            {
                let value: T = if s < count {
                    words[s][c]
                } else {
                    zero
                };
                row.push(value);
                s = s + 1;
                proof {
                    assert(row@ =~= self.placed_row(words@, c as int, zero).take(s as int));
                }
            }
            proof {
                assert(row@ =~= self.placed_row(words@, c as int, zero));
            }
            rows.set(c, row);
            c = c + 1;
        }
    }

    /// Places blocks in the coordinate rows: coordinate `c` of block `s` goes to slot `s` of
    /// row `c`, in the real and in the imaginary component, and every other slot is set to
    /// `zero`.
    pub fn place_into<T: Copy>(
        &self,
        re_words: &Vec<Vec<T>>,
        im_words: &Vec<Vec<T>>,
        width: usize,
        zero: T,
        slots: &mut SplitSlots<T>,
    ) -> (r: Result<(), Error>)
        requires
            re_words.len() == im_words.len(),
            uniform_width(re_words@, width as int),
            uniform_width(im_words@, width as int),
        ensures
            r == self.shape_check(old(slots), re_words.len() as int, width as int),
            r is Ok ==> {
                &&& final(slots).re@.len() == width
                &&& final(slots).im@.len() == width
                &&& forall|c: int|
                    0 <= c < width ==> #[trigger] final(slots).re@[c]@ == self.placed_row(
                        re_words@,
                        c,
                        zero,
                    ) && final(slots).im@[c]@ == self.placed_row(im_words@, c, zero)
            },
            r is Err ==> final(slots).re@ == old(slots).re@ && final(slots).im@ == old(slots).im@,
    {
        match self.check_shape(slots, re_words.len(), width) {
            Ok(()) => {},
            Err(e) => return Err(e),
        }
        self.place_component(re_words, width, zero, &mut slots.re);
        self.place_component(im_words, width, zero, &mut slots.im);
        Ok(())
    }

    /// Reads the `width` coordinates of the symbol in one slot, real and imaginary parts.
    pub fn read_symbol<T: Copy>(&self, slots: &SplitSlots<T>, slot: usize, width: usize) -> (r: (
        Vec<T>,
        Vec<T>,
    ))
        requires
            grid(slots.re@, width as int, self.n_slots()),
            grid(slots.im@, width as int, self.n_slots()),
            slot < self.n_slots(),
        ensures
            r.0@ == Seq::new(width as nat, |c: int| slots.re@[c]@[slot as int]),
            r.1@ == Seq::new(width as nat, |c: int| slots.im@[c]@[slot as int]),
    {
        let mut re: Vec<T> = Vec::new();
        let mut im: Vec<T> = Vec::new();
        let mut c: usize = 0;
        while c < width
            invariant
                grid(slots.re@, width as int, self.n_slots()),
                grid(slots.im@, width as int, self.n_slots()),
                slot < self.n_slots(),
                c <= width,
                re@ == Seq::new(c as nat, |k: int| slots.re@[k]@[slot as int]),
                im@ == Seq::new(c as nat, |k: int| slots.im@[k]@[slot as int]),
            decreases width - c,
        {
            re.push(slots.re[c][slot]);
            im.push(slots.im[c][slot]);
            c = c + 1;
            proof {
                assert(re@ =~= Seq::new(c as nat, |k: int| slots.re@[k]@[slot as int]));
                assert(im@ =~= Seq::new(c as nat, |k: int| slots.im@[k]@[slot as int]));
            }
        }
        (re, im)
    }

    /// Reading a slot back from the rows that placing gave returns the block placed there.
    pub proof fn lemma_read_after_place<T>(&self, words: Seq<Vec<T>>, width: int, zero: T, s: int)
        requires
            uniform_width(words, width),
            0 <= width,
            words.len() <= self.n_slots(),
            0 <= s < words.len(),
        ensures
            Seq::new(width as nat, |c: int| self.placed_row(words, c, zero)[s]) == words[s]@,
    {
        let got = Seq::new(width as nat, |c: int| self.placed_row(words, c, zero)[s]);
        assert(got =~= words[s]@);
    }
}

} // verus!
