//! Packed bit vectors, two-dimensional bit grids built on them, and a
//! line-of-sight table that marks which cells a blocker hides from the origin.
use vstd::prelude::*;

verus! {

/// Bit `b` of the word `w` (bit 0 is the least significant).
pub open spec fn bit_of(w: u64, b: u64) -> bool {
    (w >> b) & 1u64 == 1u64
}

/// The number of 64-bit words needed to hold `n` bits.
pub open spec fn words_for(n: int) -> int {
    if n % 64 == 0 {
        n / 64
    } else {
        n / 64 + 1
    }
}

proof fn lemma_get_bit(w: u64, b: u64)
    requires
        b < 64,
    ensures
        ((w & (1u64 << b)) > 0) == bit_of(w, b),
{
    assert(b < 64 ==> (((w & (1u64 << b)) > 0) == ((w >> b) & 1u64 == 1u64))) by (bit_vector);
}

proof fn lemma_set_bit(w: u64, b: u64, j: u64)
    requires
        b < 64,
        j < 64,
    ensures
        bit_of(w | (1u64 << b), j) == (j == b || bit_of(w, j)),
        bit_of(w & !(1u64 << b), j) == (j != b && bit_of(w, j)),
{
    assert(b < 64 && j < 64 ==> ((((w | (1u64 << b)) >> j) & 1u64 == 1u64) == (j == b || (w >> j)
        & 1u64 == 1u64))) by (bit_vector);
    assert(b < 64 && j < 64 ==> ((((w & !(1u64 << b)) >> j) & 1u64 == 1u64) == (j != b && (w >> j)
        & 1u64 == 1u64))) by (bit_vector);
}

proof fn lemma_combine_bits(a: u64, b: u64, j: u64)
    requires
        j < 64,
    ensures
        bit_of(a | b, j) == (bit_of(a, j) || bit_of(b, j)),
        bit_of(a & b, j) == (bit_of(a, j) && bit_of(b, j)),
        bit_of(b & !a, j) == (bit_of(b, j) && !bit_of(a, j)),
{
    assert(j < 64 ==> ((((a | b) >> j) & 1u64 == 1u64) == ((a >> j) & 1u64 == 1u64 || (b >> j)
        & 1u64 == 1u64))) by (bit_vector);
    assert(j < 64 ==> ((((a & b) >> j) & 1u64 == 1u64) == ((a >> j) & 1u64 == 1u64 && (b >> j)
        & 1u64 == 1u64))) by (bit_vector);
    assert(j < 64 ==> ((((b & !a) >> j) & 1u64 == 1u64) == ((b >> j) & 1u64 == 1u64 && !((a >> j)
        & 1u64 == 1u64)))) by (bit_vector);
}

/// A word none of whose 64 bits is set is zero.
proof fn lemma_no_bits_zero(x: u64)
    requires
        forall|j: u64| j < 64 ==> !#[trigger] bit_of(x, j),
    ensures
        x == 0,
{
    assert(!bit_of(x, 0u64) && !bit_of(x, 1u64) && !bit_of(x, 2u64) && !bit_of(x, 3u64) && !bit_of(x, 4u64) && !bit_of(x, 5u64) && !bit_of(x, 6u64) && !bit_of(x, 7u64) && !bit_of(x, 8u64) && !bit_of(x, 9u64) && !bit_of(x, 10u64) && !bit_of(x, 11u64) && !bit_of(x, 12u64) && !bit_of(x, 13u64) && !bit_of(x, 14u64) && !bit_of(x, 15u64) && !bit_of(x, 16u64) && !bit_of(x, 17u64) && !bit_of(x, 18u64) && !bit_of(x, 19u64) && !bit_of(x, 20u64) && !bit_of(x, 21u64) && !bit_of(x, 22u64) && !bit_of(x, 23u64) && !bit_of(x, 24u64) && !bit_of(x, 25u64) && !bit_of(x, 26u64) && !bit_of(x, 27u64) && !bit_of(x, 28u64) && !bit_of(x, 29u64) && !bit_of(x, 30u64) && !bit_of(x, 31u64) && !bit_of(x, 32u64) && !bit_of(x, 33u64) && !bit_of(x, 34u64) && !bit_of(x, 35u64) && !bit_of(x, 36u64) && !bit_of(x, 37u64) && !bit_of(x, 38u64) && !bit_of(x, 39u64) && !bit_of(x, 40u64) && !bit_of(x, 41u64) && !bit_of(x, 42u64) && !bit_of(x, 43u64) && !bit_of(x, 44u64) && !bit_of(x, 45u64) && !bit_of(x, 46u64) && !bit_of(x, 47u64) && !bit_of(x, 48u64) && !bit_of(x, 49u64) && !bit_of(x, 50u64) && !bit_of(x, 51u64) && !bit_of(x, 52u64) && !bit_of(x, 53u64) && !bit_of(x, 54u64) && !bit_of(x, 55u64) && !bit_of(x, 56u64) && !bit_of(x, 57u64) && !bit_of(x, 58u64) && !bit_of(x, 59u64) && !bit_of(x, 60u64) && !bit_of(x, 61u64) && !bit_of(x, 62u64) && !bit_of(x, 63u64));
    assert(!bit_of(x, 0u64) && !bit_of(x, 1u64) && !bit_of(x, 2u64) && !bit_of(x, 3u64) && !bit_of(x, 4u64) && !bit_of(x, 5u64) && !bit_of(x, 6u64) && !bit_of(x, 7u64) && !bit_of(x, 8u64) && !bit_of(x, 9u64) && !bit_of(x, 10u64) && !bit_of(x, 11u64) && !bit_of(x, 12u64) && !bit_of(x, 13u64) && !bit_of(x, 14u64) && !bit_of(x, 15u64) && !bit_of(x, 16u64) && !bit_of(x, 17u64) && !bit_of(x, 18u64) && !bit_of(x, 19u64) && !bit_of(x, 20u64) && !bit_of(x, 21u64) && !bit_of(x, 22u64) && !bit_of(x, 23u64) && !bit_of(x, 24u64) && !bit_of(x, 25u64) && !bit_of(x, 26u64) && !bit_of(x, 27u64) && !bit_of(x, 28u64) && !bit_of(x, 29u64) && !bit_of(x, 30u64) && !bit_of(x, 31u64) && !bit_of(x, 32u64) && !bit_of(x, 33u64) && !bit_of(x, 34u64) && !bit_of(x, 35u64) && !bit_of(x, 36u64) && !bit_of(x, 37u64) && !bit_of(x, 38u64) && !bit_of(x, 39u64) && !bit_of(x, 40u64) && !bit_of(x, 41u64) && !bit_of(x, 42u64) && !bit_of(x, 43u64) && !bit_of(x, 44u64) && !bit_of(x, 45u64) && !bit_of(x, 46u64) && !bit_of(x, 47u64) && !bit_of(x, 48u64) && !bit_of(x, 49u64) && !bit_of(x, 50u64) && !bit_of(x, 51u64) && !bit_of(x, 52u64) && !bit_of(x, 53u64) && !bit_of(x, 54u64) && !bit_of(x, 55u64) && !bit_of(x, 56u64) && !bit_of(x, 57u64) && !bit_of(x, 58u64) && !bit_of(x, 59u64) && !bit_of(x, 60u64) && !bit_of(x, 61u64) && !bit_of(x, 62u64) && !bit_of(x, 63u64) ==> x == 0u64) by (bit_vector);
}

/// `a & b == b` holds exactly when every bit set in `b` is set in `a`.
proof fn lemma_word_subset(a: u64, b: u64)
    ensures
        ((a & b) == b) == (forall|j: u64| j < 64 ==> (bit_of(b, j) ==> bit_of(a, j))),
{
    if (a & b) == b {
        assert forall|j: u64| j < 64 && bit_of(b, j) implies bit_of(a, j) by {
            lemma_combine_bits(a, b, j);
        }
    }
    if forall|j: u64| j < 64 ==> (bit_of(b, j) ==> bit_of(a, j)) {
        let x = b & !a;
        assert forall|j: u64| j < 64 implies !#[trigger] bit_of(x, j) by {
            lemma_combine_bits(a, b, j);
        }
        lemma_no_bits_zero(x);
        assert((b & !a) == 0u64 ==> (a & b) == b) by (bit_vector);
    }
}

proof fn lemma_split_index(ix: usize)
    ensures
        ix >> 6 == ix / 64,
        ix & 63 == ix % 64,
{
    assert(ix >> 6 == ix / 64) by (bit_vector);
    assert(ix & 63 == ix % 64) by (bit_vector);
}

/// A vector of bits packed into 64-bit words.
#[derive(Clone)]
pub struct BitVec {
    vec: Vec<u64>,
}

impl BitVec {
    /// The bits, word by word, least significant bit first.
    pub closed spec fn view(&self) -> Seq<bool> {
        Seq::new((self.vec.len() * 64) as nat, |i: int| bit_of(self.vec[i / 64], (i % 64) as u64))
    }

    /// The number of words that hold the bits.
    pub closed spec fn num_words(&self) -> nat {
        self.vec.len() as nat
    }

    proof fn lemma_view_len(&self)
        ensures
            self.view().len() == self.num_words() * 64,
    {
    }

    /// A vector of `size` bits rounded up to whole words, all clear.
    pub fn new(size: usize) -> (r: BitVec)
        ensures
            r.num_words() == words_for(size as int),
            r.view().len() == words_for(size as int) * 64,
            forall|i: int| 0 <= i < r.view().len() ==> !#[trigger] r.view()[i],
    {
        let size = {
            if size % 64 == 0 {
                size / 64
            } else {
                size / 64 + 1
            }
        };
        let mut vec: Vec<u64> = Vec::with_capacity(size);
        let mut k: usize = 0;
        while k < size
            invariant
                k <= size,
                vec.len() == k,
                forall|i: int| 0 <= i < k ==> vec[i] == 0u64,
            decreases size - k,
        {
            vec.push(0);
            k = k + 1;
        }
        let r = BitVec { vec: vec };
        assert forall|i: int| 0 <= i < r.view().len() implies !#[trigger] r.view()[i] by {
            assert(r.vec[i / 64] == 0u64);
            let b = (i % 64) as u64;
            assert((0u64 >> b) & 1u64 == 0u64) by (bit_vector);
        }
        r
    }

    /// The bit at `ix`.
    pub fn get(&self, ix: usize) -> (r: bool)
        requires
            ix < self.view().len(),
        ensures
            r == self.view()[ix as int],
    {
        proof {
            lemma_split_index(ix);
        }
        let jx = ix >> 6;
        let b = (ix & 63) as u64;
        let kx = self.vec[jx];
        let lx = kx & (1u64 << b);
        proof {
            lemma_get_bit(kx, b);
        }
        lx > 0
    }

    /// Setting a bit and reading bits back: the bit set reads as written,
    /// and every other bit reads as it did before.
    pub proof fn lemma_set_then_get(&self, ix: int, v: bool, j: int)
        requires
            0 <= ix < self.view().len(),
            0 <= j < self.view().len(),
        ensures
            self.view().update(ix, v)[j] == if j == ix {
                v
            } else {
                self.view()[j]
            },
    {
    }

    /// Sets the bit at `ix` to `v`, leaving every other bit as it was.
    pub fn set(&mut self, ix: usize, v: bool)
        requires
            ix < old(self).view().len(),
        ensures
            final(self).num_words() == old(self).num_words(),
            final(self).view() == old(self).view().update(ix as int, v),
    {
        proof {
            lemma_split_index(ix);
        }
        let jx = ix >> 6;
        let b = (ix & 63) as u64;
        let kx = self.vec[jx];
        let lx = if v {
            kx | (1u64 << b)
        } else {
            kx & !(1u64 << b)
        };
        let ghost old_view = self.view();
        self.vec.set(jx, lx);
        proof {
            assert forall|i: int| 0 <= i < self.view().len() implies #[trigger] self.view()[i]
                == old_view.update(ix as int, v)[i] by {
                if i / 64 == jx as int {
                    lemma_set_bit(kx, b, (i % 64) as u64);
                }
            }
            assert(self.view() =~= old_view.update(ix as int, v));
        }
    }

    /// True when both vectors have the same number of words and every bit
    /// set in `other` is also set in `self`.
    pub fn set_check(&self, other: &BitVec) -> (r: bool)
        ensures
            r == (self.num_words() == other.num_words() && forall|i: int|
                0 <= i < other.view().len() ==> (#[trigger] other.view()[i] ==> self.view()[i])),
    {
        if self.vec.len() != other.vec.len() {
            false
        } else {
            let n = self.vec.len();
            for i in 0..n
                invariant
                    n == self.vec.len(),
                    n == other.vec.len(),
                    forall|k: int| 0 <= k < i * 64 ==> (#[trigger] other.view()[k] ==> self.view()[k]),
            {
                let a = self.vec[i];
                let b = other.vec[i];
                proof {
                    lemma_word_subset(a, b);
                }
                if a & b != b {
                    proof {
                        let j = choose|j: u64| j < 64 && bit_of(b, j) && !bit_of(a, j);
                        let k = i as int * 64 + j as int;
                        assert(k / 64 == i as int && k % 64 == j as int);
                        assert(other.view()[k] && !self.view()[k]);
                    }
                    return false;
                }
                proof {
                    assert forall|k: int| 0 <= k < (i + 1) * 64 && #[trigger] other.view()[k]
                        implies self.view()[k] by {
                        if k >= i * 64 {
                            assert(k / 64 == i as int);
                            let j = (k % 64) as u64;
                            assert(bit_of(b, j) ==> bit_of(a, j));
                        }
                    }
                }
            }
            true
        }
    }

    /// Sets every bit that is set in `other`; the two vectors must have the
    /// same number of words.
    pub fn bitwise_or(&mut self, other: &BitVec)
        requires
            old(self).num_words() == other.num_words(),
        ensures
            final(self).num_words() == old(self).num_words(),
            forall|i: int|
                0 <= i < final(self).view().len() ==> #[trigger] final(self).view()[i] == (old(self).view()[i]
                    || other.view()[i]),
    {
        self.combine(other, true);
    }

    /// Clears every bit that is clear in `other`; the lengths must agree.
    pub fn bitwise_and(&mut self, other: &BitVec)
        requires
            old(self).num_words() == other.num_words(),
        ensures
            final(self).num_words() == old(self).num_words(),
            forall|i: int|
                0 <= i < final(self).view().len() ==> #[trigger] final(self).view()[i] == (old(self).view()[i]
                    && other.view()[i]),
    {
        self.combine(other, false);
    }

    fn combine(&mut self, other: &BitVec, or: bool)
        requires
            old(self).num_words() == other.num_words(),
        ensures
            final(self).num_words() == old(self).num_words(),
            forall|i: int|
                0 <= i < final(self).view().len() ==> #[trigger] final(self).view()[i] == if or {
                    old(self).view()[i] || other.view()[i]
                } else {
                    old(self).view()[i] && other.view()[i]
                },
    {
        let n = self.vec.len();
        let ghost start = self.view();
        for i in 0..n
            invariant
                n == self.vec.len(),
                n == other.vec.len(),
                start.len() == n * 64,
                forall|k: int|
                    0 <= k < n * 64 ==> #[trigger] self.view()[k] == if k < i * 64 {
                        if or {
                            start[k] || other.view()[k]
                        } else {
                            start[k] && other.view()[k]
                        }
                    } else {
                        start[k]
                    },
        {
            let a = self.vec[i];
            let b = other.vec[i];
            let ghost before = self.view();
            let c = if or {
                a | b
            } else {
                a & b
            };
            self.vec.set(i, c);
            proof {
                assert forall|k: int| 0 <= k < n * 64 implies #[trigger] self.view()[k] == if k < (i
                    + 1) * 64 {
                    if or {
                        start[k] || other.view()[k]
                    } else {
                        start[k] && other.view()[k]
                    }
                } else {
                    start[k]
                } by {
                    if k / 64 == i as int {
                        lemma_combine_bits(a, b, (k % 64) as u64);
                        assert(before[k] == start[k]);
                    } else {
                        assert(self.view()[k] == before[k]);
                    }
                }
            }
        }
    }
}

/// The position of cell `(x, y)` in a row-major grid of width `w`.
pub open spec fn cell_index(w: int, x: int, y: int) -> int {
    y * w + x
}

/// Distinct cells of a `w` by `h` grid have distinct positions, all below `w * h`.
pub proof fn lemma_cell_index(w: int, h: int, x: int, y: int, i: int, j: int)
    requires
        0 <= x < w,
        0 <= y < h,
        0 <= i < w,
        0 <= j < h,
    ensures
        0 <= cell_index(w, x, y) < w * h,
        (cell_index(w, x, y) == cell_index(w, i, j)) == (x == i && y == j),
{
    assert(0 <= y * w + x < w * h) by (nonlinear_arith)
        requires
            0 <= x < w,
            0 <= y < h,
    ;
    if j < y {
        assert(j * w + i < y * w + x) by (nonlinear_arith)
            requires
                j < y,
                0 <= i < w,
                0 <= x,
        ;
    } else if y < j {
        assert(y * w + x < j * w + i) by (nonlinear_arith)
            requires
                y < j,
                0 <= x < w,
                0 <= i,
        ;
    }
}

/// A `w` by `h` grid of bits, stored row by row.
#[derive(Clone)]
pub struct BitGrid {
    w: isize,
    h: isize,
    vec: BitVec,
}

impl BitGrid {
    /// The grid's size fits the machine and its storage holds every cell.
    pub closed spec fn wf(&self) -> bool {
        &&& 0 <= self.w
        &&& 0 <= self.h
        &&& self.w * self.h <= isize::MAX
        &&& self.vec.num_words() == words_for(self.w * self.h)
    }

    /// The number of columns.
    pub closed spec fn width(&self) -> int {
        self.w as int
    }

    /// The number of rows.
    pub closed spec fn height(&self) -> int {
        self.h as int
    }

    /// The bit of cell `(x, y)`, meaningful inside the grid.
    pub closed spec fn cell(&self, x: int, y: int) -> bool {
        self.vec.view()[cell_index(self.w as int, x, y)]
    }

    /// Whether `(x, y)` is a cell of the grid.
    pub open spec fn in_bounds(&self, x: int, y: int) -> bool {
        0 <= x < self.width() && 0 <= y < self.height()
    }

    /// A well-formed grid has a size that fits the machine.
    pub proof fn lemma_size(&self)
        requires
            self.wf(),
        ensures
            0 <= self.width() <= isize::MAX,
            0 <= self.height() <= isize::MAX,
            self.width() * self.height() <= isize::MAX,
    {
    }

    proof fn lemma_cell_in_vec(&self, x: int, y: int)
        requires
            self.wf(),
            self.in_bounds(x, y),
        ensures
            0 <= cell_index(self.w as int, x, y) < self.w * self.h,
            cell_index(self.w as int, x, y) < self.vec.view().len(),
    {
        lemma_cell_index(self.w as int, self.h as int, x, y, x, y);
        self.vec.lemma_view_len();
    }

    /// A grid of `w` columns and `h` rows with every cell clear.
    pub fn new(w: usize, h: usize) -> (r: BitGrid)
        requires
            w <= isize::MAX,
            h <= isize::MAX,
            w * h <= isize::MAX,
        ensures
            r.wf(),
            r.width() == w,
            r.height() == h,
            forall|x: int, y: int| r.in_bounds(x, y) ==> !#[trigger] r.cell(x, y),
    {
        proof {
            if w > 0 && h > 0 {
                assert(w <= w * h && h <= w * h) by (nonlinear_arith)
                    requires
                        w > 0,
                        h > 0,
                ;
            }
        }
        let r = BitGrid { w: w as isize, h: h as isize, vec: BitVec::new(w * h) };
        proof {
            assert forall|x: int, y: int| r.in_bounds(x, y) implies !#[trigger] r.cell(x, y) by {
                r.lemma_cell_in_vec(x, y);
            }
        }
        r
    }

    /// The cell at `(x, y)`; false outside the grid.
    pub fn get(&self, xy: (isize, isize)) -> (r: bool)
        requires
            self.wf(),
        ensures
            r == (self.in_bounds(xy.0 as int, xy.1 as int) && self.cell(xy.0 as int, xy.1 as int)),
    {
        let (x, y) = xy;
        if x >= 0 && y >= 0 && x < self.w && y < self.h {
            proof {
                self.lemma_cell_in_vec(x as int, y as int);
            }
            self.vec.get((y * self.w + x) as usize)
        } else {
            false
        }
    }

    /// Sets the cell at `(x, y)` to `v`; the cell must lie inside the grid.
    pub fn set(&mut self, xy: (isize, isize), v: bool)
        requires
            old(self).wf(),
            old(self).in_bounds(xy.0 as int, xy.1 as int),
        ensures
            final(self).wf(),
            final(self).width() == old(self).width(),
            final(self).height() == old(self).height(),
            forall|x: int, y: int|
                final(self).in_bounds(x, y) ==> #[trigger] final(self).cell(x, y) == if x == xy.0 && y
                    == xy.1 {
                    v
                } else {
                    old(self).cell(x, y)
                },
    {
        let (x, y) = xy;
        proof {
            self.lemma_cell_in_vec(x as int, y as int);
        }
        let ghost old_grid = *self;
        self.vec.set((y * self.w + x) as usize, v);
        proof {
            assert forall|i: int, j: int| self.in_bounds(i, j) implies #[trigger] self.cell(i, j)
                == if i == x && j == y {
                v
            } else {
                old_grid.cell(i, j)
            } by {
                lemma_cell_index(self.w as int, self.h as int, x as int, y as int, i, j);
                old_grid.lemma_cell_in_vec(i, j);
            }
        }
    }

    /// Clears every cell that is clear in `other`; both grids must have the
    /// same width and height.
    pub fn bitwise_and(&mut self, other: &BitGrid)
        requires
            old(self).wf(),
            other.wf(),
            old(self).width() == other.width(),
            old(self).height() == other.height(),
        ensures
            final(self).wf(),
            final(self).width() == old(self).width(),
            final(self).height() == old(self).height(),
            forall|x: int, y: int|
                final(self).in_bounds(x, y) ==> #[trigger] final(self).cell(x, y) == (old(self).cell(x, y)
                    && other.cell(x, y)),
    {
        let ghost old_grid = *self;
        self.vec.bitwise_and(&other.vec);
        proof {
            assert forall|x: int, y: int| self.in_bounds(x, y) implies #[trigger] self.cell(x, y)
                == (old_grid.cell(x, y) && other.cell(x, y)) by {
                old_grid.lemma_cell_in_vec(x, y);
            }
        }
    }

    /// Sets every cell that is set in `other`; both grids must have the same
    /// width and height.
    pub fn bitwise_or(&mut self, other: &BitGrid)
        requires
            old(self).wf(),
            other.wf(),
            old(self).width() == other.width(),
            old(self).height() == other.height(),
        ensures
            final(self).wf(),
            final(self).width() == old(self).width(),
            final(self).height() == old(self).height(),
            forall|x: int, y: int|
                final(self).in_bounds(x, y) ==> #[trigger] final(self).cell(x, y) == (old(self).cell(x, y)
                    || other.cell(x, y)),
    {
        let ghost old_grid = *self;
        self.vec.bitwise_or(&other.vec);
        proof {
            assert forall|x: int, y: int| self.in_bounds(x, y) implies #[trigger] self.cell(x, y)
                == (old_grid.cell(x, y) || other.cell(x, y)) by {
                old_grid.lemma_cell_in_vec(x, y);
            }
        }
    }

    /// Whether this grid is what `set` makes of `before` with `xy` and `v`:
    /// the same size, the cell at `xy` holding `v` and every other cell as
    /// before.
    pub open spec fn written_from(&self, before: BitGrid, xy: (isize, isize), v: bool) -> bool {
        &&& self.wf()
        &&& self.width() == before.width()
        &&& self.height() == before.height()
        &&& forall|x: int, y: int|
            self.in_bounds(x, y) ==> #[trigger] self.cell(x, y) == if x == xy.0 && y == xy.1 {
                v
            } else {
                before.cell(x, y)
            }
    }

    /// Reads across a history of writes: after a new grid (every cell clear)
    /// has been written with `writes[0]`, `writes[1]`, ... in turn, giving the
    /// grids `grids[1]`, `grids[2]`, ..., each cell of the last grid holds the
    /// value of the last write to it, and is clear if nothing was written
    /// there.
    pub proof fn lemma_reads_after_writes(
        grids: Seq<BitGrid>,
        writes: Seq<((isize, isize), bool)>,
        x: int,
        y: int,
    )
        requires
            grids.len() == writes.len() + 1,
            grids[0].wf(),
            forall|i: int, j: int| grids[0].in_bounds(i, j) ==> !#[trigger] grids[0].cell(i, j),
            forall|k: int|
                0 <= k < writes.len() ==> #[trigger] grids[k + 1].written_from(
                    grids[k],
                    writes[k].0,
                    writes[k].1,
                ),
            grids[0].in_bounds(x, y),
        ensures
            grids.last().wf(),
            grids.last().width() == grids[0].width(),
            grids.last().height() == grids[0].height(),
            grids.last().cell(x, y) == last_written(writes, x, y),
        decreases writes.len(),
    {
        if writes.len() > 0 {
            let n = writes.len() - 1;
            let gs = grids.drop_last();
            let ws = writes.drop_last();
            assert forall|k: int| 0 <= k < ws.len() implies #[trigger] gs[k + 1].written_from(
                gs[k],
                ws[k].0,
                ws[k].1,
            ) by {
                assert(grids[k + 1].written_from(grids[k], writes[k].0, writes[k].1));
            }
            BitGrid::lemma_reads_after_writes(gs, ws, x, y);
            assert(grids[n + 1].written_from(grids[n], writes[n].0, writes[n].1));
            assert(gs.last() == grids[n]);
        }
    }
}

/// The value of the last write to `(x, y)` among `writes`; false where none
/// wrote.
pub open spec fn last_written(writes: Seq<((isize, isize), bool)>, x: int, y: int) -> bool
    decreases writes.len(),
{
    if writes.len() == 0 {
        false
    } else if writes.last().0.0 == x && writes.last().0.1 == y {
        writes.last().1
    } else {
        last_written(writes.drop_last(), x, y)
    }
}

/// The distance between two numbers.
pub open spec fn abs_diff(a: int, b: int) -> int {
    if a > b {
        a - b
    } else {
        b - a
    }
}

/// How far `v` still is from `goal` when walking with step `s` (1 or -1).
pub open spec fn remaining(v: int, goal: int, s: int) -> int {
    if s == 1 {
        goal - v
    } else {
        v - goal
    }
}

/// One step of the line walk: from `(x, y)` with error term `err`, for a
/// line with extents `d` and step signs `s`, move in x, in y, or in both.
pub open spec fn trace_step(x: int, y: int, err: int, d: (int, int), s: (int, int)) -> (int, int, int) {
    let e2 = 2 * err;
    let x2 = if e2 > -d.0 { x + s.0 } else { x };
    let err1 = if e2 > -d.0 { err - d.1 } else { err };
    let y2 = if e2 < d.1 { y + s.1 } else { y };
    let err2 = if e2 < d.1 { err1 + d.0 } else { err1 };
    (x2, y2, err2)
}

/// The points the walk visits from `(x, y)` until it reaches `goal` or
/// runs out of `fuel` steps.
pub open spec fn trace_from(
    x: int,
    y: int,
    err: int,
    goal: (int, int),
    d: (int, int),
    s: (int, int),
    fuel: nat,
) -> Seq<(int, int)>
    decreases fuel,
{
    if (x == goal.0 && y == goal.1) || fuel == 0 {
        seq![(x, y)]
    } else {
        let n = trace_step(x, y, err, d, s);
        seq![(x, y)] + trace_from(n.0, n.1, n.2, goal, d, s, (fuel - 1) as nat)
    }
}

/// The extents of the line from `p0` to `p1`.
pub open spec fn trace_extents(p0: (int, int), p1: (int, int)) -> (int, int) {
    (abs_diff(p0.0, p1.0), abs_diff(p0.1, p1.1))
}

/// The step signs of the line from `p0` to `p1`.
pub open spec fn trace_signs(p0: (int, int), p1: (int, int)) -> (int, int) {
    (if p0.0 < p1.0 { 1 } else { -1 }, if p0.1 < p1.1 { 1 } else { -1 })
}

/// The starting error term: half the longer extent, signed towards it.
pub open spec fn trace_err0(d: (int, int)) -> int {
    if d.0 > d.1 {
        d.0 / 2
    } else {
        -(d.1 / 2)
    }
}

/// The integer line from `p0` to `p1` as the walk traces it.
pub open spec fn trace_spec(p0: (int, int), p1: (int, int)) -> Seq<(int, int)> {
    let d = trace_extents(p0, p1);
    trace_from(p0.0, p0.1, trace_err0(d), p1, d, trace_signs(p0, p1), (d.0 + d.1) as nat)
}

/// What holds at every point of the walk towards `goal`.
pub open spec fn trace_inv(x: int, y: int, err: int, goal: (int, int), d: (int, int), s: (int, int), err0: int) -> bool {
    let ax = remaining(x, goal.0, s.0);
    let ay = remaining(y, goal.1, s.1);
    &&& s.0 == 1 || s.0 == -1
    &&& s.1 == 1 || s.1 == -1
    &&& 0 <= ax <= d.0
    &&& 0 <= ay <= d.1
    &&& err == err0 + d.1 * ax - d.0 * ay
    &&& -d.1 <= err <= d.0
    &&& -d.1 <= 2 * err0 <= d.0
}

/// The number of single moves still needed to reach `goal`.
pub open spec fn trace_measure(x: int, y: int, goal: (int, int), s: (int, int)) -> int {
    remaining(x, goal.0, s.0) + remaining(y, goal.1, s.1)
}

pub(crate) proof fn lemma_trace_step(x: int, y: int, err: int, goal: (int, int), d: (int, int), s: (int, int), err0: int)
    requires
        trace_inv(x, y, err, goal, d, s, err0),
        !(x == goal.0 && y == goal.1),
    ensures
        ({
            let n = trace_step(x, y, err, d, s);
            &&& trace_inv(n.0, n.1, n.2, goal, d, s, err0)
            &&& trace_measure(n.0, n.1, goal, s) < trace_measure(x, y, goal, s)
            &&& abs_diff(n.0, x) <= 1 && abs_diff(n.1, y) <= 1
        }),
{
    let ax = remaining(x, goal.0, s.0);
    let ay = remaining(y, goal.1, s.1);
    if ax == 0 && ay > 0 {
        assert(d.0 * ay >= d.0) by (nonlinear_arith)
            requires
                ay >= 1,
                d.0 >= 0,
        ;
    }
    if ay == 0 && ax > 0 {
        assert(d.1 * ax >= d.1) by (nonlinear_arith)
            requires
                ax >= 1,
                d.1 >= 0,
        ;
    }
    assert(d.1 * (ax - 1) == d.1 * ax - d.1) by (nonlinear_arith);
    assert(d.0 * (ay - 1) == d.0 * ay - d.0) by (nonlinear_arith);
}

pub(crate) proof fn lemma_trace_fuel(x: int, y: int, err: int, goal: (int, int), d: (int, int), s: (int, int), err0: int, f1: nat, f2: nat)
    requires
        trace_inv(x, y, err, goal, d, s, err0),
        f1 >= trace_measure(x, y, goal, s),
        f2 >= trace_measure(x, y, goal, s),
    ensures
        trace_from(x, y, err, goal, d, s, f1) == trace_from(x, y, err, goal, d, s, f2),
    decreases f1,
{
    if !(x == goal.0 && y == goal.1) {
        lemma_trace_step(x, y, err, goal, d, s, err0);
        let n = trace_step(x, y, err, d, s);
        lemma_trace_fuel(n.0, n.1, n.2, goal, d, s, err0, (f1 - 1) as nat, (f2 - 1) as nat);
    }
}

/// Every point of `t` lies between `(x, y)` and `goal`.
pub open spec fn within_box(t: Seq<(int, int)>, x: int, y: int, goal: (int, int), s: (int, int)) -> bool {
    forall|k: int|
        0 <= k < t.len() ==> {
            &&& 0 <= remaining(#[trigger] t[k].0, goal.0, s.0) <= remaining(x, goal.0, s.0)
            &&& 0 <= remaining(t[k].1, goal.1, s.1) <= remaining(y, goal.1, s.1)
        }
}

/// Consecutive points of `t` are neighbours (diagonals included) or equal.
pub open spec fn king_steps(t: Seq<(int, int)>) -> bool {
    forall|k: int|
        0 <= k < t.len() - 1 ==> abs_diff(#[trigger] t[k].0, t[k + 1].0) <= 1 && abs_diff(t[k].1, t[k + 1].1)
            <= 1
}

/// The walk starts where it is, ends at the goal, moves one cell at a time
/// (diagonals included), and never leaves the box between start and goal.
#[verifier::rlimit(30)]
proof fn lemma_trace_from_shape(x: int, y: int, err: int, goal: (int, int), d: (int, int), s: (int, int), err0: int, fuel: nat)
    requires
        trace_inv(x, y, err, goal, d, s, err0),
        fuel >= trace_measure(x, y, goal, s),
    ensures
        trace_from(x, y, err, goal, d, s, fuel).len() >= 1,
        trace_from(x, y, err, goal, d, s, fuel)[0] == (x, y),
        trace_from(x, y, err, goal, d, s, fuel).last() == goal,
        within_box(trace_from(x, y, err, goal, d, s, fuel), x, y, goal, s),
        king_steps(trace_from(x, y, err, goal, d, s, fuel)),
    decreases fuel,
{
    let t = trace_from(x, y, err, goal, d, s, fuel);
    if x == goal.0 && y == goal.1 {
        assert(t == seq![(x, y)]);
    } else {
        lemma_trace_step(x, y, err, goal, d, s, err0);
        let n = trace_step(x, y, err, d, s);
        lemma_trace_from_shape(n.0, n.1, n.2, goal, d, s, err0, (fuel - 1) as nat);
        let rest = trace_from(n.0, n.1, n.2, goal, d, s, (fuel - 1) as nat);
        assert(t == seq![(x, y)] + rest);
        assert(t.last() == rest.last());
        assert forall|k: int| 0 <= k < t.len() - 1 implies abs_diff(#[trigger] t[k].0, t[k + 1].0) <= 1
            && abs_diff(t[k].1, t[k + 1].1) <= 1 by {
            if k > 0 {
                assert(t[k] == rest[k - 1]);
                assert(t[k + 1] == rest[k]);
                assert(abs_diff(rest[k - 1].0, rest[k].0) <= 1 && abs_diff(rest[k - 1].1, rest[k].1) <= 1);
            } else {
                assert(t[0] == (x, y));
                assert(t[1] == rest[0]);
                assert(rest[0] == (n.0, n.1));
            }
        }
        assert forall|k: int| 0 <= k < t.len() implies {
            &&& 0 <= remaining(#[trigger] t[k].0, goal.0, s.0) <= remaining(x, goal.0, s.0)
            &&& 0 <= remaining(t[k].1, goal.1, s.1) <= remaining(y, goal.1, s.1)
        } by {
            if k > 0 {
                assert(t[k] == rest[k - 1]);
            }
        }
    }
}

/// The traced line from `p0` to `p1` starts at `p0`, ends at `p1`, moves one
/// cell at a time and stays inside the rectangle spanned by the two points.
pub proof fn lemma_trace_shape(p0: (int, int), p1: (int, int))
    ensures
        trace_spec(p0, p1).len() >= 1,
        trace_spec(p0, p1)[0] == p0,
        trace_spec(p0, p1).last() == p1,
        within_box(trace_spec(p0, p1), p0.0, p0.1, p1, trace_signs(p0, p1)),
        king_steps(trace_spec(p0, p1)),
{
    let d = trace_extents(p0, p1);
    let s = trace_signs(p0, p1);
    assert(d.1 * d.0 == d.0 * d.1) by (nonlinear_arith);
    lemma_trace_from_shape(p0.0, p0.1, trace_err0(d), p1, d, s, trace_err0(d), (d.0 + d.1) as nat);
}

/// A line traced from a cell of the positive quadrant to the origin stays in
/// the rectangle between the two.
pub proof fn lemma_trace_to_origin(x: int, y: int)
    requires
        x >= 0,
        y >= 0,
    ensures
        forall|k: int|
            0 <= k < trace_spec((x, y), (0, 0)).len() ==> 0 <= #[trigger] trace_spec((x, y), (0, 0))[k].0 <= x
                && 0 <= trace_spec((x, y), (0, 0))[k].1 <= y,
{
    lemma_trace_shape((x, y), (0, 0));
    let t = trace_spec((x, y), (0, 0));
    assert forall|k: int| 0 <= k < t.len() implies 0 <= #[trigger] t[k].0 <= x && 0 <= t[k].1 <= y by {
        assert(0 <= remaining(t[k].0, 0, -1) <= remaining(x, 0, -1));
    }
}

/// The points of a vector of coordinates, as mathematical integers.
pub open spec fn points(v: Seq<(isize, isize)>) -> Seq<(int, int)> {
    v.map_values(|p: (isize, isize)| (p.0 as int, p.1 as int))
}

/// Traces the integer line from `p0` to `p1`, both ends included.
pub fn trace(p0: (isize, isize), p1: (isize, isize)) -> (r: Vec<(isize, isize)>)
    requires
        abs_diff(p0.0 as int, p1.0 as int) <= isize::MAX / 2,
        abs_diff(p0.1 as int, p1.1 as int) <= isize::MAX / 2,
    ensures
        points(r@) == trace_spec((p0.0 as int, p0.1 as int), (p1.0 as int, p1.1 as int)),
{
    let mut vec: Vec<(isize, isize)> = Vec::new();
    let (mut x0, mut y0) = p0;
    let (x1, y1) = p1;
    let dx = if x0 > x1 { x0 - x1 } else { x1 - x0 };
    let dy = if y0 > y1 { y0 - y1 } else { y1 - y0 };
    let sx: isize = if x0 < x1 { 1 } else { -1 };
    let sy: isize = if y0 < y1 { 1 } else { -1 };
    let mut err: isize = if dx > dy { dx / 2 } else { -(dy / 2) };
    let ghost goal = (x1 as int, y1 as int);
    let ghost d = (dx as int, dy as int);
    let ghost s = (sx as int, sy as int);
    let ghost err0 = err as int;
    let ghost full = trace_spec((p0.0 as int, p0.1 as int), goal);
    proof {
        assert(d.1 * d.0 == d.0 * d.1) by (nonlinear_arith);
        assert(points(vec@) =~= Seq::<(int, int)>::empty());
        assert(points(vec@) + full =~= full);
    }
    loop
        invariant
            full == trace_spec((p0.0 as int, p0.1 as int), (p1.0 as int, p1.1 as int)),
            goal == (x1 as int, y1 as int),
            d == (dx as int, dy as int),
            s == (sx as int, sy as int),
            0 <= dx <= isize::MAX / 2,
            0 <= dy <= isize::MAX / 2,
            trace_inv(x0 as int, y0 as int, err as int, goal, d, s, err0),
            points(vec@) + trace_from(x0 as int, y0 as int, err as int, goal, d, s,
                trace_measure(x0 as int, y0 as int, goal, s) as nat) == full,
        decreases trace_measure(x0 as int, y0 as int, goal, s),
    {
        let ghost m = trace_measure(x0 as int, y0 as int, goal, s);
        let ghost before = vec@;
        vec.push((x0, y0));
        assert(points(vec@) == points(before) + seq![(x0 as int, y0 as int)]);
        if x0 == x1 && y0 == y1 {
            assert(trace_from(x0 as int, y0 as int, err as int, goal, d, s, m as nat) == seq![
                (x0 as int, y0 as int)]);
            assert(points(vec@) =~= full);
            return vec;
        }
        proof {
            lemma_trace_step(x0 as int, y0 as int, err as int, goal, d, s, err0);
        }
        let ghost n = trace_step(x0 as int, y0 as int, err as int, d, s);
        let err2 = 2 * err;
        if err2 > -dx {
            err -= dy;
            x0 += sx;
        }
        if err2 < dy {
            err += dx;
            y0 += sy;
        }
        proof {
            assert((x0 as int, y0 as int, err as int) == n);
            lemma_trace_fuel(n.0, n.1, n.2, goal, d, s, err0, (m - 1) as nat,
                trace_measure(n.0, n.1, goal, s) as nat);
            assert(points(vec@) + trace_from(x0 as int, y0 as int, err as int, goal, d, s,
                trace_measure(x0 as int, y0 as int, goal, s) as nat) =~= full);
        }
    }
}

/// The position of cell `(x, y)` in row-major order divides back into it.
pub proof fn lemma_row_major(w: int, h: int, x: int, y: int)
    requires
        0 <= x < w,
        0 <= y < h,
    ensures
        (y * w + x) % w == x,
        (y * w + x) / w == y,
        0 <= y * w + x < w * h,
{
    vstd::arithmetic::div_mod::lemma_fundamental_div_mod_converse(y * w + x, w, y, x);
    assert(y * w + x < w * h) by (nonlinear_arith)
        requires
            0 <= x < w,
            0 <= y < h,
    ;
    assert(0 <= y * w) by (nonlinear_arith)
        requires
            0 <= y,
            0 <= w,
    ;
}

/// Whether the table for a `w` by `h` field traces a line back to the
/// origin from `(x, y)`: the table visits `x` below `h` and `y` below `w`,
/// and traces from the cells on the last column or the last row. For a
/// square field these are its far edges.
pub open spec fn is_source(w: int, h: int, x: int, y: int) -> bool {
    0 <= x < h && 0 <= y < w && (x == w - 1 || y == h - 1)
}

/// Whether building the table for a `w` by `h` field stays inside it: on
/// the line traced from each source, every point after the first has its
/// shading grid in the table by the time the source is visited.
pub open spec fn los_fits(w: int, h: int) -> bool {
    forall|x: int, y: int, i: int|
        is_source(w, h, x, y) && 1 <= i < trace_spec((x, y), (0, 0)).len() ==> cell_index(
            w,
            (#[trigger] trace_spec((x, y), (0, 0))[i]).0,
            trace_spec((x, y), (0, 0))[i].1,
        ) <= cell_index(h, x, y)
}

/// A square field, a field taller than wide, and a field of at most one row
/// all build their tables inside the field.
pub proof fn lemma_los_fits(w: int, h: int)
    requires
        0 <= w,
        0 <= h,
        w <= h || h <= 1,
    ensures
        los_fits(w, h),
{
    assert forall|x: int, y: int, i: int|
        is_source(w, h, x, y) && 1 <= i < trace_spec((x, y), (0, 0)).len() implies cell_index(
        w,
        (#[trigger] trace_spec((x, y), (0, 0))[i]).0,
        trace_spec((x, y), (0, 0))[i].1,
    ) <= cell_index(h, x, y) by {
        lemma_trace_to_origin(x, y);
        assert(0 <= trace_spec((x, y), (0, 0))[i].0 <= x && 0 <= trace_spec((x, y), (0, 0))[i].1 <= y);
        let p = trace_spec((x, y), (0, 0))[i];
        if w <= h {
            assert(p.1 * w + p.0 <= y * h + x) by (nonlinear_arith)
                requires
                    0 <= p.1 <= y,
                    0 <= p.0 <= x,
                    0 <= w <= h,
            ;
        } else {
            assert(x == 0 && y == 0);
            assert(trace_spec((x, y), (0, 0)) == seq![(0int, 0int)]);
        }
    }
}

/// Whether, among the first `n` points of line `t`, `(px, py)` comes
/// before `(kx, ky)`.
pub open spec fn on_line_within(t: Seq<(int, int)>, kx: int, ky: int, px: int, py: int, n: int) -> bool {
    exists|i: int, j: int| #![trigger t[i], t[j]] 0 <= j < i < n && i < t.len() && t[i] == (kx, ky) && t[j] == (px, py)
}

/// Whether `(px, py)` comes before `(kx, ky)` on line `t`.
pub open spec fn on_line_after(t: Seq<(int, int)>, kx: int, ky: int, px: int, py: int) -> bool {
    exists|i: int, j: int| #![trigger t[i], t[j]] 0 <= j < i < t.len() && t[i] == (kx, ky) && t[j] == (px, py)
}

/// Whether the line traced back to the origin from some source cell among
/// the first `c` the table visits (`y` by `y`, each over `x` below `h`)
/// passes `(px, py)` before `(kx, ky)`.
pub open spec fn shaded_before(w: int, h: int, c: int, kx: int, ky: int, px: int, py: int) -> bool {
    exists|ex: int, ey: int|
        is_source(w, h, ex, ey) && cell_index(h, ex, ey) < c && #[trigger] on_line_after(
            trace_spec((ex, ey), (0, 0)),
            kx,
            ky,
            px,
            py,
        )
}

/// Whether a blocker at `(kx, ky)` hides `(px, py)` from the origin: some
/// line traced from a source cell back to the origin passes `(px, py)`
/// before `(kx, ky)`.
pub open spec fn shaded(w: int, h: int, kx: int, ky: int, px: int, py: int) -> bool {
    shaded_before(w, h, w * h, kx, ky, px, py)
}

/// Which cells each cell hides from the origin, for a field of view.
#[derive(Clone)]
pub struct LOS {
    w: u8,
    h: u8,
    shading: Vec<BitGrid>,
}

impl LOS {
    /// One shading grid per cell, each of the table's own size.
    pub closed spec fn wf(&self) -> bool {
        &&& self.shading.len() == self.w as int * self.h as int
        &&& forall|k: int|
            0 <= k < self.shading.len() ==> {
                &&& (#[trigger] self.shading[k]).wf()
                &&& self.shading[k].width() == self.w as int
                &&& self.shading[k].height() == self.h as int
            }
    }

    /// The number of columns of the field of view.
    pub closed spec fn width(&self) -> int {
        self.w as int
    }

    /// The number of rows of the field of view.
    pub closed spec fn height(&self) -> int {
        self.h as int
    }

    /// The grid of cells that a blocker at position `k` (row-major) hides.
    pub closed spec fn shading_of(&self, k: int) -> BitGrid {
        self.shading[k]
    }

    /// Builds the table for a `w` by `h` field: for every line traced from a
    /// source cell back to the origin, each point of the line shades the
    /// points that come before it on the line. Fields where `los_fits`
    /// fails (some fields wider than tall) would index past the table's end;
    /// square fields, taller ones and single rows fit (`lemma_los_fits`).
    pub fn new(w: u8, h: u8) -> (r: LOS)
        requires
            los_fits(w as int, h as int),
            h <= 255,
        ensures
            r.wf(),
            r.width() == w,
            r.height() == h,
            forall|kx: int, ky: int, px: int, py: int|
                0 <= kx < w && 0 <= ky < h && 0 <= px < w && 0 <= py < h ==> #[trigger] r.shading_of(
                    cell_index(w as int, kx, ky),
                ).cell(px, py) == shaded(w as int, h as int, kx, ky, px, py),
    {
        let (w, h) = (w as usize, h as usize);
        proof {
            assert(w * h <= 255 * 255) by (nonlinear_arith)
                requires
                    w <= 255,
                    h <= 255,
            ;
        }
        let mut shading: Vec<BitGrid> = Vec::with_capacity(w * h);
        assert(0 * h == 0);
        for y in 0..w
            invariant
                los_fits(w as int, h as int),
                h <= 255,
                w <= 255,
                shading.len() == y * h,
                forall|k: int|
                    0 <= k < shading.len() ==> {
                        &&& (#[trigger] shading[k]).wf()
                        &&& shading[k].width() == w as int
                        &&& shading[k].height() == h as int
                    },
                forall|kx: int, ky: int, px: int, py: int|
                    0 <= kx < w && 0 <= ky < h && cell_index(w as int, kx, ky) < shading.len() && 0 <= px < w
                        && 0 <= py < h ==> #[trigger] shading[cell_index(w as int, kx, ky)].cell(px, py)
                        == shaded_before(w as int, h as int, shading.len() as int, kx, ky, px, py),
        {
            for x in 0..h
                invariant
                    los_fits(w as int, h as int),
                    h <= 255,
                    w <= 255,
                    y < w,
                    shading.len() == y * h + x,
                    forall|k: int|
                        0 <= k < shading.len() ==> {
                            &&& (#[trigger] shading[k]).wf()
                            &&& shading[k].width() == w as int
                            &&& shading[k].height() == h as int
                        },
                    forall|kx: int, ky: int, px: int, py: int|
                        0 <= kx < w && 0 <= ky < h && cell_index(w as int, kx, ky) < shading.len() && 0 <= px
                            < w && 0 <= py < h ==> #[trigger] shading[cell_index(w as int, kx, ky)].cell(px, py)
                            == shaded_before(w as int, h as int, shading.len() as int, kx, ky, px, py),
            {
                proof {
                    assert(w * h <= 255 * 255) by (nonlinear_arith)
                        requires
                            w <= 255,
                            h <= 255,
                    ;
                }
                let ghost c0 = shading.len() as int;
                shading.push(BitGrid::new(w, h));
                assert(shading.len() == y * h + x + 1);
                assert(c0 == cell_index(h as int, x as int, y as int));
                proof {
                    assert forall|kx: int, ky: int, px: int, py: int|
                        0 <= kx < w && 0 <= ky < h && cell_index(w as int, kx, ky) < shading.len() && 0 <= px
                            < w && 0 <= py < h implies #[trigger] shading[cell_index(w as int, kx, ky)].cell(px, py)
                            == shaded_before(w as int, h as int, c0, kx, ky, px, py) by {
                        if cell_index(w as int, kx, ky) == c0 {
                            if shaded_before(w as int, h as int, c0, kx, ky, px, py) {
                                let (ex, ey) = choose|ex: int, ey: int|
                                    is_source(w as int, h as int, ex, ey) && cell_index(h as int, ex, ey) < c0
                                        && #[trigger] on_line_after(
                                        trace_spec((ex, ey), (0, 0)),
                                        kx,
                                        ky,
                                        px,
                                        py,
                                    );
                                Self::lemma_source_order(w as int, h as int, ex, ey, kx, ky, px, py);
                            }
                        }
                    }
                }
                if x == (w - 1) || y == (h - 1) {
                    let line = trace((x as isize, y as isize), (0, 0));
                    let n = line.len();
                    let ghost t = trace_spec((x as int, y as int), (0, 0));
                    proof {
                        lemma_trace_to_origin(x as int, y as int);
                        assert(x < w && y < h);
                        assert(is_source(w as int, h as int, x as int, y as int));
                    }
                    for i in 0..n
                        invariant
                            los_fits(w as int, h as int),
                            h <= 255,
                            w <= 255,
                            y < w,
                            x < h,
                            x == w - 1 || y == h - 1,
                            n == line.len(),
                            points(line@) == trace_spec((x as int, y as int), (0, 0)),
                            t == trace_spec((x as int, y as int), (0, 0)),
                            c0 == cell_index(h as int, x as int, y as int),
                            x < w,
                            y < h,
                            shading.len() == y * h + x + 1,
                            shading.len() == c0 + 1,
                            forall|k: int|
                                0 <= k < t.len() ==> 0 <= #[trigger] t[k].0 <= x && 0 <= t[k].1 <= y,
                            forall|k: int|
                                0 <= k < shading.len() ==> {
                                    &&& (#[trigger] shading[k]).wf()
                                    &&& shading[k].width() == w as int
                                    &&& shading[k].height() == h as int
                                },
                            forall|kx: int, ky: int, px: int, py: int|
                                0 <= kx < w && 0 <= ky < h && cell_index(w as int, kx, ky) < shading.len() && 0
                                    <= px < w && 0 <= py < h ==> #[trigger] shading[cell_index(
                                    w as int,
                                    kx,
                                    ky,
                                )].cell(px, py) == (shaded_before(w as int, h as int, c0, kx, ky, px, py)
                                    || on_line_within(t, kx, ky, px, py, i as int)),
                    {
                        assert(t[i as int] == (line[i as int].0 as int, line[i as int].1 as int));
                        assert(0 <= line[i as int].0 <= x && 0 <= line[i as int].1 <= y);
                        proof {
                            assert(line[i as int].1 * w + line[i as int].0 <= y * w + x) by (nonlinear_arith)
                                requires
                                    0 <= line[i as int].1 <= y,
                                    0 <= line[i as int].0 <= x,
                                    0 <= w,
                            ;
                            assert(y * w + x < w * h) by (nonlinear_arith)
                                requires
                                    0 <= y < h,
                                    0 <= x < w,
                            ;
                            assert(w * h <= 255 * 255) by (nonlinear_arith)
                                requires
                                    0 <= w <= 255,
                                    0 <= h <= 255,
                            ;
                            if i >= 1 {
                                assert(is_source(w as int, h as int, x as int, y as int));
                                assert(cell_index(w as int, t[i as int].0, t[i as int].1) <= c0);
                            }
                        }
                        let ix = line[i].1 as usize * w + line[i].0 as usize;
                        let ghost ki = t[i as int];
                        assert(ix == cell_index(w as int, ki.0, ki.1));
                        for j in 0..i
                            invariant
                                los_fits(w as int, h as int),
                                h <= 255,
                                w <= 255,
                                y < w,
                                x < h,
                                x == w - 1 || y == h - 1,
                                x < w,
                                y < h,
                                i < n,
                                0 < i ==> ix < shading.len(),
                                n == line.len(),
                                points(line@) == trace_spec((x as int, y as int), (0, 0)),
                                t == trace_spec((x as int, y as int), (0, 0)),
                                ki == t[i as int],
                                ix == cell_index(w as int, ki.0, ki.1),
                                0 <= ki.0 < w && 0 <= ki.1 < h,
                                shading.len() == y * h + x + 1,
                                shading.len() == c0 + 1,
                                forall|k: int|
                                    0 <= k < t.len() ==> 0 <= #[trigger] t[k].0 <= x && 0 <= t[k].1 <= y,
                                forall|k: int|
                                    0 <= k < shading.len() ==> {
                                        &&& (#[trigger] shading[k]).wf()
                                        &&& shading[k].width() == w as int
                                        &&& shading[k].height() == h as int
                                    },
                                forall|kx: int, ky: int, px: int, py: int|
                                    0 <= kx < w && 0 <= ky < h && cell_index(w as int, kx, ky) < shading.len() && 0
                                        <= px < w && 0 <= py < h ==> #[trigger] shading[cell_index(
                                        w as int,
                                        kx,
                                        ky,
                                    )].cell(px, py) == (shaded_before(w as int, h as int, c0, kx, ky, px, py)
                                        || on_line_within(t, kx, ky, px, py, i as int) || ((kx, ky) == ki
                                        && exists|jj: int| 0 <= jj < j && #[trigger] t[jj] == (px, py))),
                        {
                            let xy = line[j];
                            assert(t[j as int] == (xy.0 as int, xy.1 as int));
                            let ghost before = shading@;
                            shading[ix].set(xy, true);
                            proof {
                                assert forall|kx: int, ky: int, px: int, py: int|
                                    0 <= kx < w && 0 <= ky < h && cell_index(w as int, kx, ky) < shading.len() && 0
                                        <= px < w && 0 <= py < h implies #[trigger] shading[cell_index(
                                        w as int,
                                        kx,
                                        ky,
                                    )].cell(px, py) == (shaded_before(w as int, h as int, c0, kx, ky, px, py)
                                        || on_line_within(t, kx, ky, px, py, i as int) || ((kx, ky) == ki
                                        && exists|jj: int| 0 <= jj < j + 1 && #[trigger] t[jj] == (px, py))) by {
                                    let kk = cell_index(w as int, kx, ky);
                                    lemma_cell_index(w as int, h as int, kx, ky, ki.0, ki.1);
                                    assert(before[kk].cell(px, py) == (shaded_before(w as int, h as int, c0, kx, ky, px, py)
                                        || on_line_within(t, kx, ky, px, py, i as int) || ((kx, ky) == ki
                                        && exists|jj: int| 0 <= jj < j && #[trigger] t[jj] == (px, py))));
                                    if (px, py) == t[j as int] && (kx, ky) == ki {
                                        assert(t[j as int] == (px, py));
                                    } else if (kx, ky) == ki {
                                        if exists|jj: int| 0 <= jj < j + 1 && #[trigger] t[jj] == (px, py) {
                                            let jj = choose|jj: int| 0 <= jj < j + 1 && #[trigger] t[jj] == (px, py);
                                            assert(jj < j);
                                        }
                                    }
                                }
                            }
                        }
                        proof {
                            assert forall|kx: int, ky: int, px: int, py: int|
                                0 <= kx < w && 0 <= ky < h && cell_index(w as int, kx, ky) < shading.len() && 0
                                    <= px < w && 0 <= py < h implies #[trigger] shading[cell_index(
                                    w as int,
                                    kx,
                                    ky,
                                )].cell(px, py) == (shaded_before(w as int, h as int, c0, kx, ky, px, py)
                                    || on_line_within(t, kx, ky, px, py, i + 1)) by {
                                if on_line_within(t, kx, ky, px, py, i + 1) && !on_line_within(t, kx, ky, px, py, i as int) {
                                    let (ii, jj) = choose|ii: int, jj: int|
                                        #![trigger t[ii], t[jj]]
                                        0 <= jj < ii < i + 1 && ii < t.len() && t[ii] == (kx, ky) && t[jj] == (px, py);
                                    assert(ii == i);
                                    assert(t[jj] == (px, py));
                                }
                                if (kx, ky) == ki && exists|jj: int| 0 <= jj < i && #[trigger] t[jj] == (px, py) {
                                    let jj = choose|jj: int| 0 <= jj < i && #[trigger] t[jj] == (px, py);
                                    assert(t[i as int] == (kx, ky));
                                    assert(on_line_within(t, kx, ky, px, py, i + 1));
                                }
                            }
                        }
                    }
                    proof {
                        assert forall|kx: int, ky: int, px: int, py: int|
                            0 <= kx < w && 0 <= ky < h && cell_index(w as int, kx, ky) < shading.len() && 0 <= px
                                < w && 0 <= py < h implies #[trigger] shading[cell_index(w as int, kx, ky)].cell(
                                px,
                                py,
                            ) == shaded_before(w as int, h as int, c0 + 1, kx, ky, px, py) by {
                            Self::lemma_shaded_step(w as int, h as int, c0, x as int, y as int, kx, ky, px, py);
                        }
                    }
                } else {
                    proof {
                        assert forall|kx: int, ky: int, px: int, py: int|
                            0 <= kx < w && 0 <= ky < h && cell_index(w as int, kx, ky) < shading.len() && 0 <= px
                                < w && 0 <= py < h implies #[trigger] shading[cell_index(w as int, kx, ky)].cell(
                                px,
                                py,
                            ) == shaded_before(w as int, h as int, c0 + 1, kx, ky, px, py) by {
                            Self::lemma_shaded_skip(w as int, h as int, c0, x as int, y as int, kx, ky, px, py);
                        }
                    }
                }
            }
            assert(shading.len() == (y + 1) * h) by (nonlinear_arith)
                requires
                    shading.len() == y * h + h,
            ;
        }
        let r = LOS { w: w as u8, h: h as u8, shading: shading };
        proof {
            assert forall|kx: int, ky: int, px: int, py: int|
                0 <= kx < w && 0 <= ky < h && 0 <= px < w && 0 <= py < h implies #[trigger] r.shading_of(
                cell_index(w as int, kx, ky),
            ).cell(px, py) == shaded(w as int, h as int, kx, ky, px, py) by {
                lemma_row_major(w as int, h as int, kx, ky);
            }
        }
        r
    }

    /// A cell that a source's line passes after another comes, in row-major
    /// order, no later than the source comes in the order of visits.
    proof fn lemma_source_order(w: int, h: int, ex: int, ey: int, kx: int, ky: int, px: int, py: int)
        requires
            los_fits(w, h),
            is_source(w, h, ex, ey),
            on_line_after(trace_spec((ex, ey), (0, 0)), kx, ky, px, py),
        ensures
            cell_index(w, kx, ky) <= cell_index(h, ex, ey),
    {
        let t = trace_spec((ex, ey), (0, 0));
        let (i, j) = choose|i: int, j: int| #![trigger t[i], t[j]] 0 <= j < i < t.len() && t[i] == (kx, ky) && t[j] == (px, py);
        assert(cell_index(w, t[i].0, t[i].1) <= cell_index(h, ex, ey));
    }

    /// Processing source cell `(x, y)`, visited at position `c0`, adds its
    /// line to what the visited source cells shade.
    proof fn lemma_shaded_step(w: int, h: int, c0: int, x: int, y: int, kx: int, ky: int, px: int, py: int)
        requires
            0 <= x < h,
            0 <= y < w,
            x == w - 1 || y == h - 1,
            c0 == cell_index(h, x, y),
        ensures
            shaded_before(w, h, c0 + 1, kx, ky, px, py) == (shaded_before(w, h, c0, kx, ky, px, py)
                || on_line_within(trace_spec((x, y), (0, 0)), kx, ky, px, py, trace_spec((x, y), (0, 0)).len() as int)),
    {
        let t = trace_spec((x, y), (0, 0));
        if on_line_within(t, kx, ky, px, py, t.len() as int) {
            assert(on_line_after(t, kx, ky, px, py));
            assert(is_source(w, h, x, y));
        }
        if shaded_before(w, h, c0 + 1, kx, ky, px, py) {
            let (ex, ey) = choose|ex: int, ey: int|
                is_source(w, h, ex, ey) && cell_index(h, ex, ey) < c0 + 1 && #[trigger] on_line_after(
                    trace_spec((ex, ey), (0, 0)),
                    kx,
                    ky,
                    px,
                    py,
                );
            if cell_index(h, ex, ey) == c0 {
                lemma_row_major(h, w, ex, ey);
                lemma_row_major(h, w, x, y);
                assert(ex == x && ey == y);
            }
        }
    }

    /// A cell that is not a source adds nothing.
    proof fn lemma_shaded_skip(w: int, h: int, c0: int, x: int, y: int, kx: int, ky: int, px: int, py: int)
        requires
            0 <= x < h,
            0 <= y < w,
            !(x == w - 1 || y == h - 1),
            c0 == cell_index(h, x, y),
        ensures
            shaded_before(w, h, c0 + 1, kx, ky, px, py) == shaded_before(w, h, c0, kx, ky, px, py),
    {
        if shaded_before(w, h, c0 + 1, kx, ky, px, py) {
            let (ex, ey) = choose|ex: int, ey: int|
                is_source(w, h, ex, ey) && cell_index(h, ex, ey) < c0 + 1 && #[trigger] on_line_after(
                    trace_spec((ex, ey), (0, 0)),
                    kx,
                    ky,
                    px,
                    py,
                );
            if cell_index(h, ex, ey) == c0 {
                lemma_row_major(h, w, ex, ey);
                lemma_row_major(h, w, x, y);
                assert(ex == x && ey == y);
            }
        }
    }

    /// Whether cell `(cx, cy)` is marked hidden once the first `k` cells of
    /// `state`, in row-major order, have been considered: a blocker that is
    /// not yet hidden marks itself and everything its shading grid marks.
    pub closed spec fn marked_after(&self, state: BitGrid, k: nat, cx: int, cy: int) -> bool
        decreases k,
    {
        if k == 0 || self.w == 0 {
            false
        } else {
            let p = k - 1;
            let x = p % (self.w as int);
            let y = p / (self.w as int);
            let prev = self.marked_after(state, (k - 1) as nat, cx, cy);
            if !self.marked_after(state, (k - 1) as nat, x, y) && state.cell(x, y) {
                (cx == x && cy == y) || prev || self.shading[p].cell(cx, cy)
            } else {
                prev
            }
        }
    }

    proof fn lemma_marked_monotone(&self, state: BitGrid, k1: nat, k2: nat, cx: int, cy: int)
        requires
            k1 <= k2,
            self.marked_after(state, k1, cx, cy),
        ensures
            self.marked_after(state, k2, cx, cy),
        decreases k2,
    {
        if k1 < k2 {
            self.lemma_marked_monotone(state, k1, (k2 - 1) as nat, cx, cy);
        }
    }

    /// Every blocking cell of `state` is marked hidden by `los_grid`.
    pub proof fn lemma_blockers_hidden(&self, state: BitGrid, x: int, y: int)
        requires
            self.wf(),
            0 <= x < self.width(),
            0 <= y < self.height(),
            state.cell(x, y),
        ensures
            self.marked_after(state, (self.width() * self.height()) as nat, x, y),
    {
        lemma_row_major(self.width(), self.height(), x, y);
        let k = (y * self.width() + x + 1) as nat;
        assert(self.marked_after(state, k, x, y));
        self.lemma_marked_monotone(state, k, (self.width() * self.height()) as nat, x, y);
    }

    /// A cell is marked hidden only if it blocks sight itself or lies in the
    /// shading grid of a blocking cell.
    pub proof fn lemma_hidden_explained(&self, state: BitGrid, k: nat, cx: int, cy: int)
        requires
            self.wf(),
            k <= self.width() * self.height(),
            self.marked_after(state, k, cx, cy),
        ensures
            state.cell(cx, cy) || exists|p: int|
                0 <= p < k && state.cell(p % self.width(), p / self.width())
                    && #[trigger] self.shading_of(p).cell(cx, cy),
        decreases k,
    {
        let p = k - 1;
        let x = p % self.width();
        let y = p / self.width();
        if self.marked_after(state, (k - 1) as nat, cx, cy) {
            self.lemma_hidden_explained(state, (k - 1) as nat, cx, cy);
        } else {
            assert(!self.marked_after(state, (k - 1) as nat, x, y) && state.cell(x, y));
            if !(cx == x && cy == y) {
                assert(self.shading_of(p).cell(cx, cy));
            }
        }
    }

    /// Given a grid whose set cells block sight, returns the grid whose set
    /// cells cannot be seen from the origin; `state` must have the table's size.
    pub fn los_grid(&self, state: &BitGrid) -> (r: BitGrid)
        requires
            self.wf(),
            state.wf(),
            state.width() == self.width(),
            state.height() == self.height(),
        ensures
            r.wf(),
            r.width() == self.width(),
            r.height() == self.height(),
            forall|cx: int, cy: int|
                r.in_bounds(cx, cy) ==> #[trigger] r.cell(cx, cy) == self.marked_after(
                    *state,
                    (self.width() * self.height()) as nat,
                    cx,
                    cy,
                ),
    {
        let sw = state.w;
        let sh = state.h;
        proof {
            state.lemma_size();
        }
        let mut output = BitGrid::new(sw as usize, sh as usize);
        assert(0 * sw == 0);
        for y in 0..sh
            invariant
                self.wf(),
                sw == self.w as isize,
                sh == self.h as isize,
                state.wf(),
                state.width() == sw,
                state.height() == sh,
                output.wf(),
                output.width() == sw,
                output.height() == sh,
                forall|cx: int, cy: int|
                    output.in_bounds(cx, cy) ==> #[trigger] output.cell(cx, cy) == self.marked_after(
                        *state,
                        (y * sw) as nat,
                        cx,
                        cy,
                    ),
        {
            for x in 0..sw
                invariant
                    self.wf(),
                    sw == self.w as isize,
                    sh == self.h as isize,
                    0 <= y < sh,
                    state.wf(),
                    state.width() == sw,
                    state.height() == sh,
                    output.wf(),
                    output.width() == sw,
                    output.height() == sh,
                    forall|cx: int, cy: int|
                        output.in_bounds(cx, cy) ==> #[trigger] output.cell(cx, cy) == self.marked_after(
                            *state,
                            (y * sw + x) as nat,
                            cx,
                            cy,
                        ),
            {
                let ghost k = y * sw + x;
                proof {
                    lemma_row_major(sw as int, sh as int, x as int, y as int);
                }
                let ghost before = output;
                if !output.get((x, y)) && state.get((x, y)) {
                    output.set((x, y), true);
                    let ix = (y * sw + x) as usize;
                    output.bitwise_or(&self.shading[ix]);
                }
                proof {
                    assert forall|cx: int, cy: int| output.in_bounds(cx, cy) implies #[trigger] output.cell(
                        cx,
                        cy,
                    ) == self.marked_after(*state, (k + 1) as nat, cx, cy) by {
                        assert(before.cell(cx, cy) == self.marked_after(*state, k as nat, cx, cy));
                        assert(before.cell(x as int, y as int) == self.marked_after(
                            *state,
                            k as nat,
                            x as int,
                            y as int,
                        ));
                    }
                }
            }
            assert((y + 1) * sw == y * sw + sw) by (nonlinear_arith);
        }
        assert(sh * sw == sw * sh) by (nonlinear_arith);
        output
    }
}

} // verus!
