//! Sets of the tiles of a grid of up to 256 tiles, stored as the bits of a 256 bit word.
use vstd::prelude::*;

use crate::grid_math::{lemma_coords_index, lemma_index_bound, lemma_index_coords};
use crate::bits128::lemma_set_bit;
use crate::text::push_char;
use crate::tile::Tile;
use crate::wide::{
    and256, bits_below256, word_bit, count_ones256, has_bit256, lemma_bits256_equal, lemma_bitwise256,
    lemma_one_and_ones256, lemma_zero256, not256, or256, shl256, shr256, xor256,
};

verus! {

/// A grid
/// A map from tiles to bools. Can store up to 256 tiles.
///
/// The set is a 256 bit word, held as its high and low 128 bit halves.
#[derive(Clone, Copy, Debug, Hash, PartialOrd, Ord)]
pub struct TileSet256<const WIDTH: u8, const HEIGHT: u8, const SIZE: usize> {
    high: u128,
    low: u128,
}

impl<const WIDTH: u8, const HEIGHT: u8, const SIZE: usize> PartialEq for TileSet256<WIDTH, HEIGHT, SIZE> {
    fn eq(&self, other: &Self) -> (r: bool) {
        self.high == other.high && self.low == other.low
    }
}

impl<const WIDTH: u8, const HEIGHT: u8, const SIZE: usize> Eq for TileSet256<WIDTH, HEIGHT, SIZE> {
}

impl<const WIDTH: u8, const HEIGHT: u8, const SIZE: usize> vstd::std_specs::cmp::PartialEqSpecImpl for TileSet256<WIDTH, HEIGHT, SIZE> {
    open spec fn obeys_eq_spec() -> bool {
        true
    }

    open spec fn eq_spec(&self, other: &Self) -> bool {
        self.words() == other.words()
    }
}

impl<const WIDTH: u8, const HEIGHT: u8, const SIZE: usize> Default for TileSet256<WIDTH, HEIGHT, SIZE> {
    fn default() -> (r: Self)
        ensures
            forall|j: int| !#[trigger] r.contains(j),
    {
        Self::empty()
    }
}

impl<const WIDTH: u8, const HEIGHT: u8, const SIZE: usize> TileSet256<WIDTH, HEIGHT, SIZE> {
    /// The high and low halves of the word of the set.
    pub closed spec fn words(self) -> (u128, u128) {
        (self.high, self.low)
    }

    /// Whether position `i` is in the set.
    pub open spec fn contains(self, i: int) -> bool {
        has_bit256(self.words(), i)
    }

    /// Whether the set holds one bit per tile of the grid and the word is wide enough.
    pub open spec fn legal() -> bool {
        SIZE == WIDTH as nat * HEIGHT as nat && SIZE <= 256
    }

    /// The textual form of the first `n` positions of the set, `*` for each position in the set
    /// and `_` for the others, with a line break before each row but the first.
    pub open spec fn text_prefix(self, n: int) -> Seq<char>
        decreases n,
    {
        if n <= 0 {
            Seq::empty()
        } else {
            let i = n - 1;
            let sep = if i > 0 && i % (WIDTH as int) == 0 {
                seq!['\n']
            } else {
                Seq::empty()
            };
            self.text_prefix(i) + sep + seq![
                if self.contains(i) {
                    '*'
                } else {
                    '_'
                },
            ]
        }
    }

    /// Sets with the same positions are equal.
    pub proof fn lemma_ext(self, other: Self)
        requires
            forall|j: int| 0 <= j < 256 ==> #[trigger] self.contains(j) == other.contains(j),
        ensures
            self == other,
    {
        assert forall|j: int| 0 <= j < 256 implies #[trigger] has_bit256(self.words(), j) == has_bit256(
            other.words(),
            j,
        ) by {
            assert(self.contains(j) == other.contains(j));
        }
        lemma_bits256_equal(self.words(), other.words());
    }

    fn from_words(w: (u128, u128)) -> (r: Self)
        ensures
            r.words() == w,
    {
        TileSet256 { high: w.0, low: w.1 }
    }

    /// The set where all tiles are missing
    pub fn empty() -> (r: Self)
        ensures
            forall|j: int| !#[trigger] r.contains(j),
    {
        let r = TileSet256 { high: 0, low: 0 };
        proof {
            lemma_zero256(r.words());
        }
        r
    }

    /// The set where all tiles are present
    pub fn all() -> (r: Self)
        requires
            1 <= SIZE <= 256,
        ensures
            forall|j: int| #[trigger] r.contains(j) == (0 <= j < SIZE),
    {
        Self::empty().negate()
    }

    /// The set of the tiles for which a function returns true.
    pub fn from_fn<F: Fn(Tile<WIDTH, HEIGHT>) -> bool>(cb: F) -> (r: Self)
        requires
            Self::legal(),
            Tile::<WIDTH, HEIGHT>::legal(),
            forall|t: Tile<WIDTH, HEIGHT>| t.wf() ==> #[trigger] cb.requires((t,)),
        ensures
            forall|t: Tile<WIDTH, HEIGHT>| t.wf() ==> #[trigger] cb.ensures((t,), r.contains(t.index() as int)),
            forall|j: int| !(0 <= j < SIZE) ==> !#[trigger] r.contains(j),
    {
        let tiles = Tile::<WIDTH, HEIGHT>::iter_by_row();
        let mut result = Self::empty();
        let mut i: usize = 0;
        while i < tiles.len()
            invariant
                Self::legal(),
                tiles@.len() == SIZE,
                i <= tiles@.len(),
                forall|k: int| 0 <= k < tiles@.len() ==> (#[trigger] tiles@[k]).wf() && tiles@[k].index() == k,
                forall|t: Tile<WIDTH, HEIGHT>| t.wf() ==> #[trigger] cb.requires((t,)),
                forall|k: int| 0 <= k < i ==> #[trigger] cb.ensures((tiles@[k],), result.contains(k)),
                forall|j: int| !(0 <= j < i) ==> !#[trigger] result.contains(j),
            decreases tiles@.len() - i,
        {
            let t = tiles[i];
            let b = cb(t);
            let ghost before = result;
            if b {
                result.set_bit(&t, true);
            }
            proof {
                assert forall|k: int| 0 <= k < i + 1 implies #[trigger] cb.ensures(
                    (tiles@[k],),
                    result.contains(k),
                ) by {
                    if k < i {
                        assert(cb.ensures((tiles@[k],), before.contains(k)));
                        assert(result.contains(k) == before.contains(k));
                    } else {
                        assert(tiles@[k] == t);
                        assert(result.contains(k) == b);
                    }
                }
                assert forall|j: int| !(0 <= j < i + 1) implies !#[trigger] result.contains(j) by {
                    assert(result.contains(j) == before.contains(j));
                }
            }
            i = i + 1;
        }
        proof {
            assert forall|t: Tile<WIDTH, HEIGHT>| t.wf() implies #[trigger] cb.ensures(
                (t,),
                result.contains(t.index() as int),
            ) by {
                let k = t.index() as int;
                assert(tiles@[k].index() == t.index());
                t.lemma_index_injective(tiles@[k]);
            }
        }
        result
    }

    /// The set whose word has the given high and low halves.
    pub fn from_inner(inner: (u128, u128)) -> (r: Self)
        ensures
            r.words() == inner,
    {
        Self::from_words(inner)
    }

    /// The high and low halves of the word of the set.
    pub fn into_inner(self) -> (r: (u128, u128))
        ensures
            r == self.words(),
    {
        (self.high, self.low)
    }

    /// Whether no position is in the set.
    pub fn is_empty(self) -> (r: bool)
        ensures
            r == forall|j: int| !#[trigger] self.contains(j),
    {
        proof {
            lemma_zero256(self.words());
            if forall|j: int| !#[trigger] self.contains(j) {
                assert forall|j: int| !#[trigger] has_bit256(self.words(), j) by {
                    assert(!self.contains(j));
                }
            }
        }
        self.high == 0 && self.low == 0
    }

    /// Adds a tile to the set, or removes it.
    pub fn set_bit(&mut self, tile: &Tile<WIDTH, HEIGHT>, bit: bool)
        ensures
            forall|j: int| #[trigger] final(self).contains(j) == if j == tile.index() {
                bit
            } else {
                old(self).contains(j)
            },
    {
        *self = self.with_bit_set(tile, bit);
    }

    /// Returns a copy of self with the bit at `tile` set to `bit`
    pub fn with_bit_set(&self, tile: &Tile<WIDTH, HEIGHT>, bit: bool) -> (r: Self)
        ensures
            forall|j: int| #[trigger] r.contains(j) == if j == tile.index() {
                bit
            } else {
                self.contains(j)
            },
    {
        let i = tile.inner() as u32;
        let w = (self.high, self.low);
        let mask = shl256((0, 1), i);
        let nw = if bit {
            or256(w, mask)
        } else {
            and256(w, not256(mask))
        };
        proof {
            lemma_one_and_ones256();
            lemma_bitwise256(w, mask);
            lemma_bitwise256(mask, mask);
            lemma_bitwise256(w, (!mask.0, !mask.1));
            assert forall|j: int| #[trigger] has_bit256(mask, j) == (j == i) by {
                assert(has_bit256((0u128, 1u128), j - i) == (j - i == 0));
            }
            assert(w == self.words());
            assert forall|j: int| #[trigger] has_bit256(nw, j) == if j == tile.index() {
                bit
            } else {
                has_bit256(w, j)
            } by {
                if bit {
                    assert(has_bit256((w.0 | mask.0, w.1 | mask.1), j) == (has_bit256(w, j) || has_bit256(mask, j)));
                } else {
                    let m = (!mask.0, !mask.1);
                    assert(has_bit256(m, j) == (0 <= j < 256 && !has_bit256(mask, j)));
                    assert(has_bit256((w.0 & m.0, w.1 & m.1), j) == (has_bit256(w, j) && has_bit256(m, j)));
                }
            }
        }
        Self::from_words(nw)
    }

    /// Whether a tile is in the set.
    pub fn get_bit(&self, tile: &Tile<WIDTH, HEIGHT>) -> (r: bool)
        ensures
            r == self.contains(tile.index() as int),
    {
        word_bit((self.high, self.low), tile.inner() as u32)
    }
    /// A 256 bit word with one more bit set, set in the half that holds it.
    fn set_word_bit(w: (u128, u128), i: u16) -> (r: (u128, u128))
        requires
            i < 256,
        ensures
            forall|j: int| #[trigger] has_bit256(r, j) == (j == i || has_bit256(w, j)),
    {
        if i >= 128 {
            let k = (i - 128) as u128;
            proof {
                lemma_set_bit(w.0, k);
            }
            (w.0 | (1u128 << k), w.1)
        } else {
            let k = i as u128;
            proof {
                lemma_set_bit(w.1, k);
            }
            (w.0, w.1 | (1u128 << k))
        }
    }

    /// The positions from `bottom` (inclusive) up to `top` (exclusive), every `step`.
    fn read_bits(&self, bottom: usize, top: usize, step: usize) -> (r: Vec<bool>)
        requires
            top <= 256,
            1 <= step <= 255,
        ensures
            bottom + r@.len() * step >= top,
            r@.len() > 0 ==> bottom + (r@.len() - 1) * step < top,
            step == 1 ==> r@.len() == if bottom < top {
                top - bottom
            } else {
                0
            },
            forall|k: int|
                0 <= k < r@.len() ==> #[trigger] r@[k] == self.contains(bottom + k * step),
    {
        let mut result: Vec<bool> = Vec::new();
        let mut index: usize = bottom;
        proof {
            assert(bottom + 0 * step == bottom) by (nonlinear_arith);
        }
        while index < top
            invariant
                top <= 256,
                1 <= step <= 255,
                index == bottom + result@.len() * step,
                result@.len() > 0 ==> bottom + (result@.len() - 1) * step < top,
                bottom <= index,
                step == 1 ==> result@.len() == index - bottom,
                step == 1 && bottom <= top ==> index <= top,
                forall|k: int|
                    0 <= k < result@.len() ==> #[trigger] result@[k] == self.contains(
                        bottom + k * step,
                    ),
            decreases if index <= top {
                top - index
            } else {
                0
            },
        {
            let b = word_bit((self.high, self.low), index as u32);
            let ghost len = result@.len() as int;
            let ghost before = result@;
            result.push(b);
            proof {
                assert forall|k: int| 0 <= k < result@.len() implies #[trigger] result@[k]
                    == self.contains(bottom + k * step) by {
                    if k < len {
                        assert(result@[k] == before[k]);
                    }
                }
                assert(bottom + len * step + step == bottom + (len + 1) * step) by (nonlinear_arith);
                if step == 1 {
                    assert(len * step == len);
                }
            }
            index = index + step;
        }
        result
    }

    /// The positions of the set in order.
    pub fn iter(&self) -> (r: Vec<bool>)
        requires
            SIZE <= 256,
        ensures
            r@.len() == SIZE,
            forall|k: int| 0 <= k < r@.len() ==> #[trigger] r@[k] == self.contains(k),
    {
        let r = self.read_bits(0, SIZE, 1);
        proof {
            assert forall|k: int| 0 <= k < r@.len() implies #[trigger] r@[k] == self.contains(k) by {
                assert(0 + k * 1 == k);
            }
        }
        r
    }

    /// The positions of a row of the set, from west to east.
    pub fn row(&self, y: u8) -> (r: Vec<bool>)
        requires
            y < 255,
            (y as int + 1) * WIDTH <= 255,
        ensures
            r@.len() == WIDTH,
            forall|k: int| 0 <= k < r@.len() ==> #[trigger] r@[k] == self.contains(y * WIDTH + k),
    {
        proof {
            assert((y as int + 1) * WIDTH == y * WIDTH + WIDTH) by (nonlinear_arith);
            assert(0 <= y * WIDTH) by (nonlinear_arith);
        }
        let bottom = (y * WIDTH) as usize;
        let top = ((y + 1) * WIDTH) as usize;
        let r = self.read_bits(bottom, top, 1);
        proof {
            assert forall|k: int| 0 <= k < r@.len() implies #[trigger] r@[k] == self.contains(y * WIDTH + k) by {
                assert(bottom + k * 1 == y * WIDTH + k);
            }
        }
        r
    }

    /// The positions `x`, `x + HEIGHT`, `x + 2 * HEIGHT`, ... below
    /// `WIDTH * (HEIGHT - 1) + x + 1`, in order.
    pub fn col(&self, x: u8) -> (r: Vec<bool>)
        requires
            1 <= HEIGHT,
            WIDTH * (HEIGHT - 1) + x + 1 <= 255,
        ensures
            x + r@.len() * HEIGHT >= WIDTH * (HEIGHT - 1) + x + 1,
            r@.len() > 0 ==> x + (r@.len() - 1) * HEIGHT < WIDTH * (HEIGHT - 1) + x + 1,
            forall|k: int| 0 <= k < r@.len() ==> #[trigger] r@[k] == self.contains(x + k * HEIGHT),
    {
        proof {
            assert(0 <= WIDTH * (HEIGHT - 1)) by (nonlinear_arith)
                requires
                    1 <= HEIGHT,
            ;
        }
        let top = ((WIDTH * (HEIGHT - 1)) + x + 1) as usize;
        let r = self.read_bits(x as usize, top, HEIGHT as usize);
        proof {
            assert(top == WIDTH * (HEIGHT - 1) + x + 1);
        }
        r
    }

    /// The word of the positions below `SIZE`.
    fn size_mask() -> (r: (u128, u128))
        requires
            1 <= SIZE <= 256,
        ensures
            forall|j: int| #[trigger] has_bit256(r, j) == (0 <= j < SIZE),
    {
        let r = shr256((u128::MAX, u128::MAX), (256 - SIZE) as u32);
        proof {
            lemma_one_and_ones256();
            assert forall|j: int| #[trigger] has_bit256(r, j) == (0 <= j < SIZE) by {
                assert(has_bit256((u128::MAX, u128::MAX), j + (256 - SIZE)) == (0 <= j + (256
                    - SIZE) < 256));
            }
        }
        r
    }

    /// The set of the tiles of the grid that are not in self.
    pub fn negate(&self) -> (r: Self)
        requires
            1 <= SIZE <= 256,
        ensures
            forall|j: int| #[trigger] r.contains(j) == (0 <= j < SIZE && !self.contains(j)),
    {
        let mask = Self::size_mask();
        let w = (self.high, self.low);
        let n = not256(w);
        let nw = and256(n, mask);
        proof {
            lemma_bitwise256(w, w);
            lemma_bitwise256(n, mask);
        }
        Self::from_words(nw)
    }

    /// The set moved `rows` rows towards the north; rows leaving the grid are lost.
    pub fn shift_north(&self, rows: u8) -> (r: Self)
        requires
            rows * WIDTH <= 255,
            1 <= SIZE <= 256,
        ensures
            forall|j: int| #[trigger] r.contains(j) == (0 <= j < SIZE && self.contains(j + rows * WIDTH)),
    {
        proof {
            assert(0 <= rows * WIDTH) by (nonlinear_arith);
        }
        let k = (rows * WIDTH) as u32;
        let w = (self.high, self.low);
        let shifted = shr256(w, k);
        let mask = Self::size_mask();
        let nw = and256(shifted, mask);
        proof {
            lemma_bitwise256(shifted, mask);
        }
        Self::from_words(nw)
    }

    /// The set moved `rows` rows towards the south; rows leaving the grid are lost.
    pub fn shift_south(&self, rows: u8) -> (r: Self)
        requires
            rows * WIDTH <= 255,
            1 <= SIZE <= 256,
        ensures
            forall|j: int| #[trigger] r.contains(j) == (rows * WIDTH <= j < SIZE && self.contains(j - rows * WIDTH)),
    {
        proof {
            assert(0 <= rows * WIDTH) by (nonlinear_arith);
        }
        let k = (rows * WIDTH) as u32;
        let w = (self.high, self.low);
        let shifted = shl256(w, k);
        let mask = Self::size_mask();
        let nw = and256(shifted, mask);
        proof {
            lemma_bitwise256(shifted, mask);
        }
        Self::from_words(nw)
    }

    /// The set of the tiles of row `y`.
    pub fn row_mask(y: u8) -> (r: Self)
        requires
            Tile::<WIDTH, HEIGHT>::legal(),
        ensures
            forall|j: int| #[trigger] r.contains(j) == (y < HEIGHT && y * WIDTH <= j < y * WIDTH + WIDTH),
    {
        let mut w: (u128, u128) = (0, 0);
        proof {
            lemma_zero256(w);
        }
        if y < HEIGHT {
            let mut x: u8 = 0;
            while x < WIDTH
                invariant
                    Tile::<WIDTH, HEIGHT>::legal(),
                    y < HEIGHT,
                    x <= WIDTH,
                    forall|j: int| #[trigger] has_bit256(w, j) == (y * WIDTH <= j < y * WIDTH + x),
                decreases WIDTH - x,
            {
                proof {
                    lemma_index_bound(x as int, y as int, WIDTH as int, HEIGHT as int);
                }
                proof {
                    assert(y as int * WIDTH as int == WIDTH as int * y as int) by (nonlinear_arith);
                }
                let i: u16 = (y as u16) * (WIDTH as u16) + (x as u16);
                w = Self::set_word_bit(w, i);
                x = x + 1;
            }
        }
        Self::from_words(w)
    }

    /// The set of the tiles of column `x`.
    pub fn col_mask(x: u8) -> (r: Self)
        requires
            Tile::<WIDTH, HEIGHT>::legal(),
        ensures
            forall|j: int| #[trigger] r.contains(j) == (x < WIDTH && 0 <= j && j % (WIDTH as int) == x
                && j / (WIDTH as int) < HEIGHT),
    {
        let mut w: (u128, u128) = (0, 0);
        proof {
            lemma_zero256(w);
        }
        if x < WIDTH {
            let mut y: u8 = 0;
            while y < HEIGHT
                invariant
                    Tile::<WIDTH, HEIGHT>::legal(),
                    x < WIDTH,
                    y <= HEIGHT,
                    forall|j: int| #[trigger] has_bit256(w, j) == (0 <= j && j % (WIDTH as int) == x
                        && j / (WIDTH as int) < y),
                decreases HEIGHT - y,
            {
                proof {
                    lemma_index_bound(x as int, y as int, WIDTH as int, HEIGHT as int);
                    lemma_index_coords(x as int, y as int, WIDTH as int);
                }
                proof {
                    assert(y as int * WIDTH as int == WIDTH as int * y as int) by (nonlinear_arith);
                }
                let i: u16 = (y as u16) * (WIDTH as u16) + (x as u16);
                let ghost before = w;
                w = Self::set_word_bit(w, i);
                proof {
                    assert forall|j: int| #[trigger] has_bit256(w, j) == (0 <= j && j % (WIDTH as int)
                        == x && j / (WIDTH as int) < y + 1) by {
                        if 0 <= j {
                            lemma_coords_index(j, WIDTH as int);
                            if j % (WIDTH as int) == x && j / (WIDTH as int) == y {
                                assert(j == i);
                            }
                        }
                    }
                }
                y = y + 1;
            }
        }
        Self::from_words(w)
    }

    /// Each tile of the grid, in order, with whether it is in the set.
    pub fn enumerate(&self) -> (r: Vec<(Tile<WIDTH, HEIGHT>, bool)>)
        requires
            Self::legal(),
            Tile::<WIDTH, HEIGHT>::legal(),
        ensures
            r@.len() == SIZE,
            forall|k: int| 0 <= k < r@.len() ==> (#[trigger] r@[k]).0.wf() && r@[k].0.index() == k && r@[k].1 == self.contains(k),
    {
        let bits = self.iter();
        let mut result: Vec<(Tile<WIDTH, HEIGHT>, bool)> = Vec::new();
        let mut i: usize = 0;
        while i < bits.len()
            invariant
                Self::legal(),
                bits@.len() == SIZE,
                forall|k: int| 0 <= k < bits@.len() ==> #[trigger] bits@[k] == self.contains(k),
                i <= bits@.len(),
                result@.len() == i,
                forall|k: int| 0 <= k < result@.len() ==> (#[trigger] result@[k]).0.wf() && result@[k].0.index() == k && result@[k].1 == self.contains(k),
            decreases bits@.len() - i,
        {
            let t = Tile::<WIDTH, HEIGHT>::try_from_usize(i).unwrap();
            result.push((t, bits[i]));
            i = i + 1;
        }
        result
    }

    /// The tiles of the set, from first to last.
    pub fn iter_true_tiles(&self) -> (r: Vec<Tile<WIDTH, HEIGHT>>)
        requires
            Self::legal(),
            Tile::<WIDTH, HEIGHT>::legal(),
        ensures
            forall|k: int| 0 <= k < r@.len() ==> (#[trigger] r@[k]).wf() && self.contains(r@[k].index() as int),
            forall|k1: int, k2: int| 0 <= k1 < k2 < r@.len() ==> #[trigger] r@[k1].index() < #[trigger] r@[k2].index(),
            forall|j: int| 0 <= j < SIZE && #[trigger] self.contains(j) ==> exists|k: int| 0 <= k < r@.len() && #[trigger] r@[k].index() == j,
    {
        let bits = self.iter();
        let mut result: Vec<Tile<WIDTH, HEIGHT>> = Vec::new();
        let mut i: usize = 0;
        while i < bits.len()
            invariant
                Self::legal(),
                bits@.len() == SIZE,
                forall|k: int| 0 <= k < bits@.len() ==> #[trigger] bits@[k] == self.contains(k),
                i <= bits@.len(),
                forall|k: int| 0 <= k < result@.len() ==> (#[trigger] result@[k]).wf() && self.contains(result@[k].index() as int) && result@[k].index() < i,
                forall|k1: int, k2: int| 0 <= k1 < k2 < result@.len() ==> #[trigger] result@[k1].index() < #[trigger] result@[k2].index(),
                forall|j: int| 0 <= j < i && #[trigger] self.contains(j) ==> exists|k: int| 0 <= k < result@.len() && #[trigger] result@[k].index() == j,
            decreases bits@.len() - i,
        {
            if bits[i] {
                let t = Tile::<WIDTH, HEIGHT>::try_from_usize(i).unwrap();
                let ghost before = result@;
                result.push(t);
                proof {
                    assert(result@[result@.len() - 1] == t);
                    assert forall|j: int| 0 <= j < i + 1 && #[trigger] self.contains(j) implies exists|k: int| 0 <= k < result@.len() && #[trigger] result@[k].index() == j by {
                        if j < i {
                            let k = choose|k: int| 0 <= k < before.len() && #[trigger] before[k].index() == j;
                            assert(result@[k] == before[k]);
                        } else {
                            assert(result@[result@.len() - 1].index() == j);
                        }
                    }
                }
            }
            i = i + 1;
        }
        result
    }

    /// The number of tiles in the set.
    pub fn count(&self) -> (r: usize)
        ensures
            r == bits_below256(self.words(), 256),
    {
        count_ones256((self.high, self.low)) as usize
    }

    /// Return the set of tiles in both self and `rhs`.
    pub fn intersect(&self, rhs: &Self) -> (r: Self)
        ensures
            forall|j: int| #[trigger] r.contains(j) == (self.contains(j) && rhs.contains(j)),
    {
        proof {
            lemma_bitwise256(self.words(), rhs.words());
        }
        let r = TileSet256 { high: self.high & rhs.high, low: self.low & rhs.low };
        assert(r.words() == (self.words().0 & rhs.words().0, self.words().1 & rhs.words().1));
        r
    }

    /// Return the set of tiles in either self or `rhs` or both.
    pub fn union(&self, rhs: &Self) -> (r: Self)
        ensures
            forall|j: int| #[trigger] r.contains(j) == (self.contains(j) || rhs.contains(j)),
    {
        proof {
            lemma_bitwise256(self.words(), rhs.words());
        }
        let r = TileSet256 { high: self.high | rhs.high, low: self.low | rhs.low };
        assert(r.words() == (self.words().0 | rhs.words().0, self.words().1 | rhs.words().1));
        r
    }

    /// Whether every tile of self is in `rhs`.
    pub fn is_subset(&self, rhs: &Self) -> (r: bool)
        ensures
            r == forall|j: int| #[trigger] self.contains(j) ==> rhs.contains(j),
    {
        let i = self.intersect(rhs);
        proof {
            if forall|j: int| #[trigger] self.contains(j) ==> rhs.contains(j) {
                i.lemma_ext(*self);
            }
        }
        self.high == i.high && self.low == i.low
    }

    /// Whether every tile of `rhs` is in self.
    pub fn is_superset(&self, rhs: &Self) -> (r: bool)
        ensures
            r == forall|j: int| #[trigger] rhs.contains(j) ==> self.contains(j),
    {
        let i = self.intersect(rhs);
        proof {
            if forall|j: int| #[trigger] rhs.contains(j) ==> self.contains(j) {
                i.lemma_ext(*rhs);
            }
        }
        rhs.high == i.high && rhs.low == i.low
    }

    /// Returns a new set containing all elements which belong to one set but not both
    pub fn symmetric_difference(&self, rhs: &Self) -> (r: Self)
        ensures
            forall|j: int| #[trigger] r.contains(j) == (self.contains(j) != rhs.contains(j)),
    {
        let nw = xor256((self.high, self.low), (rhs.high, rhs.low));
        proof {
            lemma_bitwise256(self.words(), rhs.words());
        }
        Self::from_words(nw)
    }

    /// The set of the given tiles.
    pub fn from_iter(tiles: Vec<Tile<WIDTH, HEIGHT>>) -> (r: Self)
        ensures
            forall|j: int| #[trigger] r.contains(j) == exists|k: int| 0 <= k < tiles@.len() && (#[trigger] tiles@[k]).index() == j,
    {
        let mut r = Self::empty();
        let mut i: usize = 0;
        while i < tiles.len()
            invariant
                i <= tiles@.len(),
                forall|j: int| #[trigger] r.contains(j) == exists|k: int| 0 <= k < i && (#[trigger] tiles@[k]).index() == j,
            decreases tiles@.len() - i,
        {
            let t = tiles[i];
            let ghost before = r;
            r.set_bit(&t, true);
            proof {
                assert forall|j: int| #[trigger] r.contains(j) == exists|k: int| 0 <= k < i + 1 && (#[trigger] tiles@[k]).index() == j by {
                    if j == t.index() {
                        assert(tiles@[i as int].index() == j);
                    } else {
                        if exists|k: int| 0 <= k < i + 1 && (#[trigger] tiles@[k]).index() == j {
                            let k = choose|k: int| 0 <= k < i + 1 && (#[trigger] tiles@[k]).index() == j;
                            assert(k != i);
                        }
                    }
                }
            }
            i = i + 1;
        }
        r
    }

    /// The text of the set, one line per row (its `Display` form).
    pub fn to_string(&self) -> (s: String)
        requires
            1 <= WIDTH,
            SIZE <= 256,
        ensures
            s@ == self.text_prefix(SIZE as int),
    {
        let bits = self.iter();
        let mut s = String::new();
        let mut i: usize = 0;
        while i < bits.len()
            invariant
                1 <= WIDTH,
                bits@.len() == SIZE,
                forall|k: int| 0 <= k < bits@.len() ==> #[trigger] bits@[k] == self.contains(k),
                i <= bits@.len(),
                s@ == self.text_prefix(i as int),
            decreases bits@.len() - i,
        {
            if i > 0 && i % (WIDTH as usize) == 0 {
                push_char(&mut s, '\n');
            }
            if bits[i] {
                push_char(&mut s, '*');
            } else {
                push_char(&mut s, '_');
            }
            i = i + 1;
        }
        s
    }
}

/// Iterates the bits of a set from `bottom_index` (inclusive) up to `top_index` (exclusive),
/// every `STEP` bits, from either end.
#[derive(Clone, Copy, Debug)]
pub struct TileSetIter256<const STEP: u8> {
    inner: (u128, u128),
    bottom_index: usize,
    top_index: usize,
}

impl<const STEP: u8> TileSetIter256<STEP> {
    /// The high and low halves of the word of the set.
    pub closed spec fn words(self) -> (u128, u128) {
        self.inner
    }

    /// The index of the next bit from the bottom.
    pub closed spec fn bottom(self) -> int {
        self.bottom_index as int
    }

    /// The index just past the next bit from the top.
    pub closed spec fn top(self) -> int {
        self.top_index as int
    }

    /// The number of bits still to come.
    pub open spec fn remaining_count(self) -> int {
        if self.top() > self.bottom() {
            (self.top() - self.bottom()) / STEP as int
        } else {
            0
        }
    }

    pub fn new(inner: (u128, u128), bottom_index: usize, top_index: usize) -> (r: Self)
        ensures
            r.words() == inner,
            r.bottom() == bottom_index,
            r.top() == top_index,
    {
        TileSetIter256 { inner, bottom_index, top_index }
    }

    /// The number of bits still to come.
    pub fn len(&self) -> (r: usize)
        requires
            STEP > 0,
        ensures
            r == self.remaining_count(),
    {
        self.count()
    }

    /// The number of bits still to come.
    pub fn count(self) -> (r: usize)
        requires
            STEP > 0,
        ensures
            r == self.remaining_count(),
    {
        let distance: usize = if self.top_index > self.bottom_index {
            self.top_index - self.bottom_index
        } else {
            0
        };
        distance / (STEP as usize)
    }

    /// The next bit from the bottom, if the bottom is below the top.
    pub fn next(&mut self) -> (r: Option<bool>)
        requires
            old(self).bottom() < old(self).top() ==> old(self).bottom() < 256,
        ensures
            final(self).words() == old(self).words(),
            final(self).top() == old(self).top(),
            old(self).bottom() >= old(self).top() ==> r is None && final(self).bottom() == old(self).bottom(),
            old(self).bottom() < old(self).top() ==> r == Some(has_bit256(old(self).words(), old(self).bottom()))
                && final(self).bottom() == old(self).bottom() + STEP,
    {
        if self.bottom_index >= self.top_index {
            None
        } else {
            let r = word_bit(self.inner, self.bottom_index as u32);
            self.bottom_index = self.bottom_index + (STEP as usize);
            Some(r)
        }
    }

    /// The next bit from the top, if one lies at or above the bottom.
    pub fn next_back(&mut self) -> (r: Option<bool>)
        requires
            old(self).top() <= 256,
            STEP > 0 || old(self).top() < 256,
        ensures
            final(self).words() == old(self).words(),
            final(self).bottom() == old(self).bottom(),
            ({
                let next = if old(self).top() >= STEP { old(self).top() - STEP } else { 0 };
                if old(self).top() == 0 || old(self).bottom() > next {
                    r is None && final(self).top() == old(self).top()
                } else {
                    r == Some(has_bit256(old(self).words(), next)) && final(self).top() == next
                }
            }),
    {
        if self.top_index == 0 {
            return None;
        }
        let next_index: usize = if self.top_index >= STEP as usize {
            self.top_index - STEP as usize
        } else {
            0
        };
        if self.bottom_index > next_index {
            None
        } else {
            self.top_index = next_index;
            let r = word_bit(self.inner, self.top_index as u32);
            Some(r)
        }
    }
}

} // verus!
