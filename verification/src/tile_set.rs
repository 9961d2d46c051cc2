//! Sets of the tiles of a fixed size grid, stored as the bits of an unsigned integer.
use vstd::prelude::*;

use crate::bits;
use crate::bits128;
use crate::grid_math::{lemma_byte_product, lemma_coords_index, lemma_index_bound, lemma_index_coords};
use crate::text::push_char;
use crate::tile::Tile;

verus! {
/// A grid
/// A map from tiles to bools. Can store up to 8 tiles.
#[derive(Clone, Copy, Debug, Hash, PartialOrd, Ord)]
pub struct TileSet8<const WIDTH: u8, const HEIGHT: u8, const SIZE: usize>(u8);

impl<const WIDTH: u8, const HEIGHT: u8, const SIZE: usize> PartialEq for TileSet8<WIDTH, HEIGHT, SIZE> {
    fn eq(&self, other: &Self) -> (r: bool) {
        self.0 == other.0
    }
}

impl<const WIDTH: u8, const HEIGHT: u8, const SIZE: usize> Eq for TileSet8<WIDTH, HEIGHT, SIZE> {
}

impl<const WIDTH: u8, const HEIGHT: u8, const SIZE: usize> vstd::std_specs::cmp::PartialEqSpecImpl for TileSet8<WIDTH, HEIGHT, SIZE> {
    open spec fn obeys_eq_spec() -> bool {
        true
    }

    open spec fn eq_spec(&self, other: &Self) -> bool {
        self.bits() == other.bits()
    }
}

impl<const WIDTH: u8, const HEIGHT: u8, const SIZE: usize> Default for TileSet8<WIDTH, HEIGHT, SIZE> {
    fn default() -> (r: Self)
        ensures
            forall|j: int| !#[trigger] r.contains(j),
    {
        let r = TileSet8(0);
        proof {
            r.lemma_empty();
        }
        r
    }
}

impl<const WIDTH: u8, const HEIGHT: u8, const SIZE: usize> TileSet8<WIDTH, HEIGHT, SIZE> {
    /// The bits of the set, as a 64 bit word.
    pub closed spec fn bits(self) -> u64 {
        self.0 as u64
    }

    /// Whether position `i` is in the set.
    pub open spec fn contains(self, i: int) -> bool {
        bits::has_bit(self.bits(), i)
    }

    /// Whether the set holds one bit per tile of the grid and the word is wide enough.
    pub open spec fn legal() -> bool {
        SIZE == WIDTH as nat * HEIGHT as nat && SIZE <= 8
    }

    /// The textual form of the first `n` positions of the set, `*` for each position in the set
    /// and `_` for the others, with a line break before each row but the first when `lines`.
    pub open spec fn text_prefix(self, n: int, lines: bool) -> Seq<char>
        decreases n,
    {
        if n <= 0 {
            Seq::empty()
        } else {
            let i = n - 1;
            let sep = if lines && i > 0 && i % (WIDTH as int) == 0 {
                seq!['\n']
            } else {
                Seq::empty()
            };
            self.text_prefix(i, lines) + sep + seq![
                if self.contains(i) {
                    '*'
                } else {
                    '_'
                },
            ]
        }
    }

    /// Sets with the same bits are equal.
    pub proof fn lemma_bits_injective(self, other: Self)
        ensures
            self.bits() == other.bits() <==> self == other,
    {
    }

    /// No position at or above the width of the word is in the set.
    pub proof fn lemma_width(self)
        ensures
            forall|j: int| 8 <= j ==> !#[trigger] self.contains(j),
            forall|j: int| 8 <= j ==> !#[trigger] bits::has_bit(self.bits(), j),
    {
        assert((1u64 << 8u64) == 256u64) by (bit_vector);
        bits::lemma_below_power(self.bits(), 8u64);
    }

    /// Sets with the same positions are equal.
    pub proof fn lemma_ext(self, other: Self)
        requires
            forall|j: int| 0 <= j < 8 ==> #[trigger] self.contains(j) == other.contains(j),
        ensures
            self == other,
    {
        self.lemma_width();
        other.lemma_width();
        assert forall|j: int| 0 <= j < 64 implies #[trigger] bits::has_bit(self.bits(), j) == bits::has_bit(other.bits(), j) by {
            if j < 8 {
                assert(self.contains(j) == other.contains(j));
            }
        }
        bits::lemma_bits_equal(self.bits(), other.bits());
        
    }

    proof fn lemma_empty(self)
        requires
            self.0 == 0,
        ensures
            forall|j: int| !#[trigger] self.contains(j),
    {
        bits::lemma_empty_word();
    }

    /// The set whose bits are those of a word with no bit beyond the width of the set.
    fn from_word(w: u64) -> (r: Self)
        requires
            forall|j: int| 8 <= j ==> !#[trigger] bits::has_bit(w, j),
        ensures
            r.bits() == w,
    {
        proof {
            bits::lemma_fits(w, 8u64);
            assert((1u64 << 8u64) == 256u64) by (bit_vector);
        }
        TileSet8(w as u8)
    }

    /// The set where all tiles are missing
    pub fn empty() -> (r: Self)
        requires
            Self::legal(),
        ensures
            forall|j: int| !#[trigger] r.contains(j),
    {
        let r = TileSet8(0);
        proof {
            r.lemma_empty();
        }
        r
    }

    /// The set where all tiles are present
    pub fn all() -> (r: Self)
        requires
            Self::legal(),
            1 <= SIZE,
        ensures
            forall|j: int| #[trigger] r.contains(j) == (0 <= j < SIZE),
    {
        Self::empty().negate()
    }

    /// The set of the tiles for which a function returns true.
    pub fn from_fn<F: Fn(Tile<WIDTH, HEIGHT>) -> bool>(cb: F) -> (r: Self)
        requires
            Self::legal(),
            Tile::<WIDTH, HEIGHT>::legal(),
            forall|t: Tile<WIDTH, HEIGHT>| t.wf() ==> #[trigger] cb.requires((t,)),
        ensures
            forall|t: Tile<WIDTH, HEIGHT>| t.wf() ==> #[trigger] cb.ensures((t,), r.contains(t.index() as int)),
            forall|j: int| !(0 <= j < SIZE) ==> !#[trigger] r.contains(j),
    {
        let tiles = Tile::<WIDTH, HEIGHT>::iter_by_row();
        let mut result = Self::empty();
        let mut i: usize = 0;
        while i < tiles.len()
            invariant
                Self::legal(),
                tiles@.len() == SIZE,
                i <= tiles@.len(),
                forall|k: int| 0 <= k < tiles@.len() ==> (#[trigger] tiles@[k]).wf() && tiles@[k].index() == k,
                forall|t: Tile<WIDTH, HEIGHT>| t.wf() ==> #[trigger] cb.requires((t,)),
                forall|k: int| 0 <= k < i ==> #[trigger] cb.ensures((tiles@[k],), result.contains(k)),
                forall|j: int| !(0 <= j < i) ==> !#[trigger] result.contains(j),
            decreases tiles@.len() - i,
        {
            let t = tiles[i];
            let b = cb(t);
            let ghost before = result;
            if b {
                result.set_bit(&t, true);
            }
            proof {
                assert forall|k: int| 0 <= k < i + 1 implies #[trigger] cb.ensures(
                    (tiles@[k],),
                    result.contains(k),
                ) by {
                    if k < i {
                        assert(cb.ensures((tiles@[k],), before.contains(k)));
                        assert(result.contains(k) == before.contains(k));
                    } else {
                        assert(tiles@[k] == t);
                        assert(result.contains(k) == b);
                    }
                }
                assert forall|j: int| !(0 <= j < i + 1) implies !#[trigger] result.contains(j) by {
                    assert(result.contains(j) == before.contains(j));
                }
            }
            i = i + 1;
        }
        proof {
            assert forall|t: Tile<WIDTH, HEIGHT>| t.wf() implies #[trigger] cb.ensures(
                (t,),
                result.contains(t.index() as int),
            ) by {
                let k = t.index() as int;
                assert(tiles@[k].index() == t.index());
                t.lemma_index_injective(tiles@[k]);
            }
        }
        result
    }

    pub fn from_inner(inner: u8) -> (r: Self)
        requires
            Self::legal(),
        ensures
            r.bits() == inner,
    {
        TileSet8(inner)
    }

    pub fn into_inner(self) -> (r: u8)
        ensures
            r == self.bits(),
    {
        self.0
    }

    /// Whether no position is in the set.
    pub fn is_empty(self) -> (r: bool)
        ensures
            r == forall|j: int| !#[trigger] self.contains(j),
    {
        if self.0 == 0 {
            proof {
                self.lemma_empty();
            }
            true
        } else {
            proof {
                bits::lemma_empty_word();
                if forall|j: int| !#[trigger] self.contains(j) {
                    assert forall|j: int| 0 <= j < 64 implies #[trigger] bits::has_bit(self.bits(), j) == bits::has_bit(
                        0u64,
                        j,
                    ) by {
                        assert(!self.contains(j));
                    }
                    bits::lemma_bits_equal(self.bits(), 0u64);
                }
            }
            false
        }
    }

    /// Adds a tile to the set, or removes it.
    pub fn set_bit(&mut self, tile: &Tile<WIDTH, HEIGHT>, bit: bool)
        requires
            tile.index() < 8,
        ensures
            forall|j: int| #[trigger] final(self).contains(j) == if j == tile.index() {
                bit
            } else {
                old(self).contains(j)
            },
    {
        *self = self.with_bit_set(tile, bit);
    }

    /// Returns a copy of self with the bit at `tile` set to `bit`
    pub fn with_bit_set(&self, tile: &Tile<WIDTH, HEIGHT>, bit: bool) -> (r: Self)
        requires
            tile.index() < 8,
        ensures
            forall|j: int| #[trigger] r.contains(j) == if j == tile.index() {
                bit
            } else {
                self.contains(j)
            },
    {
        let i = tile.inner() as u64;
        let w = self.0 as u64;
        let nw = if bit {
            w | (1u64 << i)
        } else {
            w & !(1u64 << i)
        };
        proof {
            self.lemma_width();
            bits::lemma_set_bit(w, i);
            bits::lemma_clear_bit(w, i);
            assert(forall|j: int| #[trigger] bits::has_bit(nw, j) == if j == i {
                bit
            } else {
                bits::has_bit(w, j)
            });
            assert(self.bits() == w);
            assert(forall|j: int| 8 <= j ==> !#[trigger] bits::has_bit(w, j));
            assert(forall|j: int| 8 <= j ==> !#[trigger] bits::has_bit(nw, j));
        }
        Self::from_word(nw)
    }

    /// Whether a tile is in the set.
    pub fn get_bit(&self, tile: &Tile<WIDTH, HEIGHT>) -> (r: bool)
        requires
            tile.index() < 8,
        ensures
            r == self.contains(tile.index() as int),
    {
        ((self.0 as u64) >> (tile.inner() as u64)) & 1 == 1
    }

    /// The positions from `bottom` (inclusive) up to `top` (exclusive), every `step`.
    fn read_bits(&self, bottom: usize, top: usize, step: usize) -> (r: Vec<bool>)
        requires
            top <= 8,
            1 <= step <= 255,
        ensures
            bottom + r@.len() * step >= top,
            r@.len() > 0 ==> bottom + (r@.len() - 1) * step < top,
            step == 1 ==> r@.len() == if bottom < top {
                top - bottom
            } else {
                0
            },
            forall|k: int|
                0 <= k < r@.len() ==> #[trigger] r@[k] == self.contains(bottom + k * step),
    {
        let mut result: Vec<bool> = Vec::new();
        let mut index: usize = bottom;
        proof {
            assert(bottom + 0 * step == bottom) by (nonlinear_arith);
        }
        while index < top
            invariant
                top <= 8,
                1 <= step <= 255,
                index == bottom + result@.len() * step,
                result@.len() > 0 ==> bottom + (result@.len() - 1) * step < top,
                bottom <= index,
                step == 1 ==> result@.len() == index - bottom,
                step == 1 && bottom <= top ==> index <= top,
                forall|k: int|
                    0 <= k < result@.len() ==> #[trigger] result@[k] == self.contains(
                        bottom + k * step,
                    ),
            decreases if index <= top {
                top - index
            } else {
                0
            },
        {
            let b = ((self.0 as u64) >> (index as u64)) & 1 == 1;
            let ghost len = result@.len() as int;
            let ghost before = result@;
            proof {
                assert(b == self.contains(index as int));
            }
            result.push(b);
            proof {
                assert forall|k: int| 0 <= k < result@.len() implies #[trigger] result@[k]
                    == self.contains(bottom + k * step) by {
                    if k < len {
                        assert(result@[k] == before[k]);
                    }
                }
                assert(bottom + len * step + step == bottom + (len + 1) * step) by (nonlinear_arith);
                if step == 1 {
                    assert(len * step == len);
                }
            }
            index = index + step;
        }
        result
    }

    /// The positions of the set in order.
    pub fn iter(&self) -> (r: Vec<bool>)
        requires
            SIZE <= 8,
        ensures
            r@.len() == SIZE,
            forall|k: int| 0 <= k < r@.len() ==> #[trigger] r@[k] == self.contains(k),
    {
        let r = self.read_bits(0, SIZE, 1);
        proof {
            assert forall|k: int| 0 <= k < r@.len() implies #[trigger] r@[k] == self.contains(k) by {
                assert(0 + k * 1 == k);
            }
        }
        r
    }

    /// The positions of a row of the set, from west to east.
    pub fn row(&self, y: u8) -> (r: Vec<bool>)
        requires
            y < 255,
            (y as int + 1) * WIDTH <= 8,
        ensures
            r@.len() == WIDTH,
            forall|k: int| 0 <= k < r@.len() ==> #[trigger] r@[k] == self.contains(y * WIDTH + k),
    {
        proof {
            assert((y as int + 1) * WIDTH == y * WIDTH + WIDTH) by (nonlinear_arith);
            assert(0 <= y * WIDTH) by (nonlinear_arith);
        }
        let bottom = (y * WIDTH) as usize;
        let top = ((y + 1) * WIDTH) as usize;
        let r = self.read_bits(bottom, top, 1);
        proof {
            assert forall|k: int| 0 <= k < r@.len() implies #[trigger] r@[k] == self.contains(y * WIDTH + k) by {
                assert(bottom + k * 1 == y * WIDTH + k);
            }
        }
        r
    }

    /// The positions `x`, `x + HEIGHT`, `x + 2 * HEIGHT`, ... below
    /// `WIDTH * (HEIGHT - 1) + x + 1`, in order.
    pub fn col(&self, x: u8) -> (r: Vec<bool>)
        requires
            1 <= HEIGHT,
            WIDTH * (HEIGHT - 1) + x + 1 <= 8,
        ensures
            x + r@.len() * HEIGHT >= WIDTH * (HEIGHT - 1) + x + 1,
            r@.len() > 0 ==> x + (r@.len() - 1) * HEIGHT < WIDTH * (HEIGHT - 1) + x + 1,
            forall|k: int| 0 <= k < r@.len() ==> #[trigger] r@[k] == self.contains(x + k * HEIGHT),
    {
        proof {
            assert(0 <= WIDTH * (HEIGHT - 1)) by (nonlinear_arith)
                requires
                    1 <= HEIGHT,
            ;
        }
        let top = ((WIDTH * (HEIGHT - 1)) + x + 1) as usize;
        let r = self.read_bits(x as usize, top, HEIGHT as usize);
        proof {
            assert(top == WIDTH * (HEIGHT - 1) + x + 1);
        }
        r
    }

    /// The set moved `rows` rows towards the north; rows leaving the grid are lost.
    pub fn shift_north(&self, rows: u8) -> (r: Self)
        requires
            rows * WIDTH < 8,
            1 <= SIZE <= 8,
        ensures
            forall|j: int| #[trigger] r.contains(j) == (0 <= j < SIZE && self.contains(j + rows * WIDTH)),
    {
        proof {
            assert(0 <= rows * WIDTH) by (nonlinear_arith);
        }
        let k = (rows * WIDTH) as u64;
        let n = SIZE as u64;
        let w = self.0 as u64;
        let mask: u64 = u64::MAX >> (64 - n);
        let shifted = w >> k;
        let nw = shifted & mask;
        proof {
            bits::lemma_shift(w, k);
            bits::lemma_low_mask(0u64, n);
            bits::lemma_bitwise(shifted, mask);
            assert(forall|j: int| #[trigger] bits::has_bit(nw, j) == (0 <= j < SIZE && bits::has_bit(w, j + k)));
            assert(forall|j: int| 8 <= j ==> !#[trigger] bits::has_bit(nw, j));
        }
        Self::from_word(nw)
    }

    /// The set moved `rows` rows towards the south; rows leaving the grid are lost.
    pub fn shift_south(&self, rows: u8) -> (r: Self)
        requires
            rows * WIDTH < 8,
            1 <= SIZE <= 8,
        ensures
            forall|j: int| #[trigger] r.contains(j) == (rows * WIDTH <= j < SIZE && self.contains(j - rows * WIDTH)),
    {
        proof {
            assert(0 <= rows * WIDTH) by (nonlinear_arith);
        }
        let k = (rows * WIDTH) as u64;
        let n = SIZE as u64;
        let w = self.0 as u64;
        let mask: u64 = u64::MAX >> (64 - n);
        let shifted = w << k;
        let nw = shifted & mask;
        proof {
            bits::lemma_shift(w, k);
            bits::lemma_low_mask(0u64, n);
            bits::lemma_bitwise(shifted, mask);
            assert(forall|j: int| #[trigger] bits::has_bit(nw, j) == (k <= j < SIZE && bits::has_bit(w, j - k)));
            assert(forall|j: int| 8 <= j ==> !#[trigger] bits::has_bit(nw, j));
        }
        Self::from_word(nw)
    }

    /// The set of the tiles of row `y`.
    pub fn row_mask(y: u8) -> (r: Self)
        requires
            Self::legal(),
            Tile::<WIDTH, HEIGHT>::legal(),
            1 <= WIDTH,
            1 <= HEIGHT,
            y * WIDTH < 8,
        ensures
            forall|j: int| #[trigger] r.contains(j) == (y * WIDTH <= j < y * WIDTH + WIDTH && j < 8),
    {
        let mut row_zero: u64 = 0;
        let mut x: u8 = 0;
        proof {
            bits::lemma_empty_word();
            assert(WIDTH <= 8) by (nonlinear_arith)
                requires
                    1 <= HEIGHT,
                    WIDTH as nat * HEIGHT as nat <= 8,
            ;
        }
        while x < WIDTH
            invariant
                Tile::<WIDTH, HEIGHT>::legal(),
                WIDTH <= 8,
                x <= WIDTH,
                forall|j: int| #[trigger] bits::has_bit(row_zero, j) == (0 <= j < x),
            decreases WIDTH - x,
        {
            proof {
                bits::lemma_set_bit(row_zero, x as u64);
            }
            row_zero = row_zero | (1u64 << (x as u64));
            x = x + 1;
        }
        proof {
            assert(0 <= y * WIDTH) by (nonlinear_arith);
        }
        let k = (y * WIDTH) as u64;
        proof {
            bits::lemma_shift(row_zero, k);
        }
        let shifted = row_zero << k;
        let mask: u64 = u64::MAX >> (64 - 8u64);
        let nw = shifted & mask;
        proof {
            bits::lemma_low_mask(0u64, 8u64);
            bits::lemma_bitwise(shifted, mask);
            assert(forall|j: int| #[trigger] bits::has_bit(nw, j) == (k <= j < 8 && bits::has_bit(row_zero, j - k)));
            assert(forall|j: int| 8 <= j ==> !#[trigger] bits::has_bit(nw, j));
        }
        Self::from_word(nw)
    }

    /// The set of the tiles of column `x`.
    pub fn col_mask(x: u8) -> (r: Self)
        requires
            Self::legal(),
            Tile::<WIDTH, HEIGHT>::legal(),
            1 <= WIDTH,
            1 <= HEIGHT,
            x < 8,
        ensures
            forall|j: int| #[trigger] r.contains(j) == (x <= j < 8 && (j - x) % (WIDTH as int) == 0
                && (j - x) / (WIDTH as int) < HEIGHT),
    {
        let mut col_zero: u64 = 0;
        let mut y: u8 = 0;
        proof {
            bits::lemma_empty_word();
        }
        while y < HEIGHT
            invariant
                Self::legal(),
                Tile::<WIDTH, HEIGHT>::legal(),
                1 <= WIDTH,
                y <= HEIGHT,
                forall|j: int| #[trigger] bits::has_bit(col_zero, j) == (0 <= j && j % (WIDTH as int) == 0 && j / (WIDTH as int) < y),
            decreases HEIGHT - y,
        {
            proof {
                lemma_index_bound(0, y as int, WIDTH as int, HEIGHT as int);
                lemma_byte_product(WIDTH as int, y as int);
            }
            let i = (WIDTH as u64) * (y as u64);
            proof {
                bits::lemma_set_bit(col_zero, i);
                lemma_index_coords(0, y as int, WIDTH as int);
                assert forall|j: int| #[trigger] bits::has_bit(col_zero | (1u64 << i), j) == (0 <= j && j % (WIDTH as int) == 0 && j / (WIDTH as int) < y + 1) by {
                    if 0 <= j {
                        lemma_coords_index(j, WIDTH as int);
                        if j % (WIDTH as int) == 0 && j / (WIDTH as int) == y {
                            assert(j == i);
                        }
                        if j % (WIDTH as int) == 0 && j / (WIDTH as int) < y + 1 {
                            assert(WIDTH * (j / (WIDTH as int)) <= WIDTH * y) by (nonlinear_arith)
                                requires
                                    j / (WIDTH as int) <= y,
                                    0 <= WIDTH,
                            ;
                        }
                        if j == i {
                            assert(j % (WIDTH as int) == 0 && j / (WIDTH as int) == y);
                        }
                    }
                }
            }
            col_zero = col_zero | (1u64 << i);
            y = y + 1;
        }
        let k = x as u64;
        proof {
            bits::lemma_shift(col_zero, k);
        }
        let shifted = col_zero << k;
        let mask: u64 = u64::MAX >> (64 - 8u64);
        let nw = shifted & mask;
        proof {
            bits::lemma_low_mask(0u64, 8u64);
            bits::lemma_bitwise(shifted, mask);
            assert(forall|j: int| #[trigger] bits::has_bit(nw, j) == (k <= j < 8 && bits::has_bit(col_zero, j - k)));
            assert(forall|j: int| 8 <= j ==> !#[trigger] bits::has_bit(nw, j));
        }
        Self::from_word(nw)
    }

    /// Each tile of the grid, in order, with whether it is in the set.
    pub fn enumerate(&self) -> (r: Vec<(Tile<WIDTH, HEIGHT>, bool)>)
        requires
            Self::legal(),
            Tile::<WIDTH, HEIGHT>::legal(),
        ensures
            r@.len() == SIZE,
            forall|k: int| 0 <= k < r@.len() ==> (#[trigger] r@[k]).0.wf() && r@[k].0.index() == k && r@[k].1 == self.contains(k),
    {
        let bits = self.iter();
        let mut result: Vec<(Tile<WIDTH, HEIGHT>, bool)> = Vec::new();
        let mut i: usize = 0;
        while i < bits.len()
            invariant
                Self::legal(),
                bits@.len() == SIZE,
                forall|k: int| 0 <= k < bits@.len() ==> #[trigger] bits@[k] == self.contains(k),
                i <= bits@.len(),
                result@.len() == i,
                forall|k: int| 0 <= k < result@.len() ==> (#[trigger] result@[k]).0.wf() && result@[k].0.index() == k && result@[k].1 == self.contains(k),
            decreases bits@.len() - i,
        {
            let t = Tile::<WIDTH, HEIGHT>::try_from_usize(i).unwrap();
            result.push((t, bits[i]));
            i = i + 1;
        }
        result
    }

    /// The tiles of the set, from first to last.
    pub fn iter_true_tiles(&self) -> (r: TrueTilesIter8<WIDTH, HEIGHT, SIZE>)
        ensures
            r.remaining() == *self,
    {
        TrueTilesIter8::new(self)
    }

    /// The number of tiles in the set.
    pub fn count(&self) -> (r: u32)
        ensures
            r == bits::bits_below(self.bits(), 8),
    {
        proof {
            self.lemma_width();
            bits::lemma_bits_below_split(self.bits(), 8);
        }
        bits::count_ones(self.0 as u64)
    }

    /// Return the set of tiles in both self and `rhs`.
    pub fn intersect(&self, rhs: &Self) -> (r: Self)
        ensures
            forall|j: int| #[trigger] r.contains(j) == (self.contains(j) && rhs.contains(j)),
    {
        proof {
            self.lemma_width();
            rhs.lemma_width();
            bits::lemma_bitwise(self.0 as u64, rhs.0 as u64);
        }
        let nw = (self.0 as u64) & (rhs.0 as u64);
        proof {
            assert(forall|j: int| #[trigger] bits::has_bit(nw, j) == (bits::has_bit(self.bits(), j) && bits::has_bit(rhs.bits(), j)));
            assert(forall|j: int| 8 <= j ==> !#[trigger] bits::has_bit(nw, j));
        }
        Self::from_word(nw)
    }

    /// Return the set of tiles in either self or `rhs` or both.
    pub fn union(&self, rhs: &Self) -> (r: Self)
        ensures
            forall|j: int| #[trigger] r.contains(j) == (self.contains(j) || rhs.contains(j)),
    {
        proof {
            self.lemma_width();
            rhs.lemma_width();
            bits::lemma_bitwise(self.0 as u64, rhs.0 as u64);
        }
        let nw = (self.0 as u64) | (rhs.0 as u64);
        proof {
            assert(forall|j: int| #[trigger] bits::has_bit(nw, j) == (bits::has_bit(self.bits(), j) || bits::has_bit(rhs.bits(), j)));
            assert(forall|j: int| 8 <= j ==> !#[trigger] bits::has_bit(nw, j));
        }
        Self::from_word(nw)
    }

    /// Whether every tile of self is in `rhs`.
    pub fn is_subset(&self, rhs: &Self) -> (r: bool)
        ensures
            r == forall|j: int| #[trigger] self.contains(j) ==> rhs.contains(j),
    {
        let i = self.intersect(rhs);
        proof {
            if forall|j: int| #[trigger] self.contains(j) ==> rhs.contains(j) {
                i.lemma_ext(*self);
            }
        }
        i.0 == self.0
    }

    /// Whether every tile of `rhs` is in self.
    pub fn is_superset(&self, rhs: &Self) -> (r: bool)
        ensures
            r == forall|j: int| #[trigger] rhs.contains(j) ==> self.contains(j),
    {
        let i = self.intersect(rhs);
        proof {
            if forall|j: int| #[trigger] rhs.contains(j) ==> self.contains(j) {
                i.lemma_ext(*rhs);
            }
        }
        i.0 == rhs.0
    }

    /// Returns a new set containing all elements which belong to one set but not both
    pub fn symmetric_difference(&self, rhs: &Self) -> (r: Self)
        ensures
            forall|j: int| #[trigger] r.contains(j) == (self.contains(j) != rhs.contains(j)),
    {
        proof {
            self.lemma_width();
            rhs.lemma_width();
            bits::lemma_bitwise(self.0 as u64, rhs.0 as u64);
        }
        let nw = (self.0 as u64) ^ (rhs.0 as u64);
        proof {
            assert(forall|j: int| #[trigger] bits::has_bit(nw, j) == (bits::has_bit(self.bits(), j) != bits::has_bit(rhs.bits(), j)));
            assert(forall|j: int| 8 <= j ==> !#[trigger] bits::has_bit(nw, j));
        }
        Self::from_word(nw)
    }

    /// The set of the tiles of the grid that are not in self.
    pub fn negate(&self) -> (r: Self)
        requires
            1 <= SIZE <= 8,
        ensures
            forall|j: int| #[trigger] r.contains(j) == (0 <= j < SIZE && !self.contains(j)),
    {
        let n = SIZE as u64;
        let mask: u64 = u64::MAX >> (64 - n);
        let nw = !(self.0 as u64) & mask;
        proof {
            bits::lemma_low_mask(self.0 as u64, n);
            assert(forall|j: int| #[trigger] bits::has_bit(nw, j) == (0 <= j < SIZE && !bits::has_bit(self.bits(), j)));
            assert(forall|j: int| 8 <= j ==> !#[trigger] bits::has_bit(nw, j));
        }
        Self::from_word(nw)
    }

    /// The first tile in this set
    pub fn first(&self) -> (r: Option<Tile<WIDTH, HEIGHT>>)
        requires
            Self::legal(),
        ensures
            r is None <==> forall|j: int| 0 <= j < Tile::<WIDTH, HEIGHT>::tile_count() ==> !#[trigger] self.contains(j),
            r matches Some(t) ==> t.wf() && self.contains(t.index() as int) && forall|j: int| 0 <= j < t.index() ==> !#[trigger] self.contains(j),
    {
        let w = self.0 as u64;
        let tz = bits::trailing_zeros(w);
        let r = Tile::<WIDTH, HEIGHT>::try_from_inner(tz as u8);
        proof {
            assert(self.bits() == w);
            assert(forall|j: int| 0 <= j < tz ==> !#[trigger] bits::has_bit(w, j));
            assert(forall|j: int| 0 <= j < tz ==> !#[trigger] self.contains(j));
            if w != 0 {
                assert(self.contains(tz as int));
            } else {
                bits::lemma_empty_word();
            }
        }
        r
    }

    /// Removes the first tile in this set and returns it
    /// Returns `None` if the set is empty
    pub fn pop(&mut self) -> (r: Option<Tile<WIDTH, HEIGHT>>)
        ensures
            r is None <==> forall|j: int| !#[trigger] old(self).contains(j),
            r is None ==> *final(self) == *old(self),
            r matches Some(t) ==> old(self).contains(t.index() as int) && (forall|j: int|
                0 <= j < t.index() ==> !#[trigger] old(self).contains(j)) && (forall|j: int| #[trigger] final(self).contains(j) == (j != t.index() && old(self).contains(j))),
    {
        let w = self.0 as u64;
        proof {
            self.lemma_width();
        }
        if w == 0 {
            proof {
                self.lemma_empty();
            }
            return None;
        }
        let index = bits::trailing_zeros(w) as u64;
        let nw = w & !(1u64 << index);
        proof {
            bits::lemma_clear_bit(w, index);
            assert(forall|j: int| #[trigger] bits::has_bit(nw, j) == (j != index && bits::has_bit(w, j)));
            assert(self.bits() == w);
            assert(forall|j: int| 8 <= j ==> !#[trigger] bits::has_bit(w, j));
            assert(forall|j: int| 8 <= j ==> !#[trigger] bits::has_bit(nw, j));
            assert(old(self).contains(index as int));
        }
        *self = Self::from_word(nw);
        Some(Tile::<WIDTH, HEIGHT>::from_inner_unchecked(index as u8))
    }

    /// The last tile in this set
    pub fn last(&self) -> (r: Option<Tile<WIDTH, HEIGHT>>)
        ensures
            r is None <==> forall|j: int| !#[trigger] self.contains(j),
            r matches Some(t) ==> self.contains(t.index() as int) && forall|j: int| t.index() < j ==> !#[trigger] self.contains(j),
    {
        let w = self.0 as u64;
        proof {
            self.lemma_width();
        }
        if w == 0 {
            proof {
                self.lemma_empty();
            }
            return None;
        }
        let index = bits::highest_bit(w);
        proof {
            assert(self.bits() == w);
            assert(self.contains(index as int));
            assert(forall|j: int| index < j ==> !#[trigger] bits::has_bit(w, j));
        }
        Some(Tile::<WIDTH, HEIGHT>::from_inner_unchecked(index as u8))
    }

    /// Removes the last tile in this set and returns it
    /// Returns `None` if the set is empty
    pub fn pop_last(&mut self) -> (r: Option<Tile<WIDTH, HEIGHT>>)
        ensures
            r is None <==> forall|j: int| !#[trigger] old(self).contains(j),
            r is None ==> *final(self) == *old(self),
            r matches Some(t) ==> old(self).contains(t.index() as int) && (forall|j: int|
                t.index() < j ==> !#[trigger] old(self).contains(j)) && (forall|j: int| #[trigger] final(self).contains(j) == (j != t.index() && old(self).contains(j))),
    {
        let w = self.0 as u64;
        proof {
            self.lemma_width();
        }
        if w == 0 {
            proof {
                self.lemma_empty();
            }
            return None;
        }
        let index = bits::highest_bit(w) as u64;
        let nw = w & !(1u64 << index);
        proof {
            bits::lemma_clear_bit(w, index);
            assert(forall|j: int| #[trigger] bits::has_bit(nw, j) == (j != index && bits::has_bit(w, j)));
            assert(self.bits() == w);
            assert(forall|j: int| 8 <= j ==> !#[trigger] bits::has_bit(w, j));
            assert(forall|j: int| 8 <= j ==> !#[trigger] bits::has_bit(nw, j));
            assert(old(self).contains(index as int));
        }
        *self = Self::from_word(nw);
        Some(Tile::<WIDTH, HEIGHT>::from_inner_unchecked(index as u8))
    }

    /// The set of the given tiles.
    pub fn from_iter(tiles: Vec<Tile<WIDTH, HEIGHT>>) -> (r: Self)
        requires
            Self::legal(),
            forall|k: int| 0 <= k < tiles@.len() ==> (#[trigger] tiles@[k]).index() < 8,
        ensures
            forall|j: int| #[trigger] r.contains(j) == exists|k: int| 0 <= k < tiles@.len() && (#[trigger] tiles@[k]).index() == j,
    {
        let mut r = Self::empty();
        let mut i: usize = 0;
        while i < tiles.len()
            invariant
                forall|k: int| 0 <= k < tiles@.len() ==> (#[trigger] tiles@[k]).index() < 8,
                i <= tiles@.len(),
                forall|j: int| #[trigger] r.contains(j) == exists|k: int| 0 <= k < i && (#[trigger] tiles@[k]).index() == j,
            decreases tiles@.len() - i,
        {
            let t = tiles[i];
            let ghost before = r;
            r.set_bit(&t, true);
            proof {
                assert forall|j: int| #[trigger] r.contains(j) == exists|k: int| 0 <= k < i + 1 && (#[trigger] tiles@[k]).index() == j by {
                    if j == t.index() {
                        assert(tiles@[i as int].index() == j);
                    } else {
                        if exists|k: int| 0 <= k < i + 1 && (#[trigger] tiles@[k]).index() == j {
                            let k = choose|k: int| 0 <= k < i + 1 && (#[trigger] tiles@[k]).index() == j;
                            assert(k != i);
                        }
                    }
                }
            }
            i = i + 1;
        }
        r
    }

    /// The text of the set, one line per row (its `Display` form).
    pub fn to_string(&self) -> (s: String)
        requires
            1 <= WIDTH,
            SIZE <= 8,
        ensures
            s@ == self.text_prefix(SIZE as int, true),
    {
        self.write_text(true)
    }

    /// The text of the set on a single line (its alternate `Display` form).
    pub fn to_string_alternate(&self) -> (s: String)
        requires
            1 <= WIDTH,
            SIZE <= 8,
        ensures
            s@ == self.text_prefix(SIZE as int, false),
    {
        self.write_text(false)
    }

    fn write_text(&self, lines: bool) -> (s: String)
        requires
            1 <= WIDTH,
            SIZE <= 8,
        ensures
            s@ == self.text_prefix(SIZE as int, lines),
    {
        let bits = self.iter();
        let mut s = String::new();
        let mut i: usize = 0;
        while i < bits.len()
            invariant
                1 <= WIDTH,
                bits@.len() == SIZE,
                forall|k: int| 0 <= k < bits@.len() ==> #[trigger] bits@[k] == self.contains(k),
                i <= bits@.len(),
                s@ == self.text_prefix(i as int, lines),
            decreases bits@.len() - i,
        {
            if lines && i > 0 && i % (WIDTH as usize) == 0 {
                push_char(&mut s, '\n');
            }
            if bits[i] {
                push_char(&mut s, '*');
            } else {
                push_char(&mut s, '_');
            }
            i = i + 1;
        }
        s
    }
}

/// Iterates through the tiles of a set, from either end.
#[derive(Clone, Debug)]
pub struct TrueTilesIter8<const WIDTH: u8, const HEIGHT: u8, const SIZE: usize> {
    inner: TileSet8<WIDTH, HEIGHT, SIZE>,
}

impl<const WIDTH: u8, const HEIGHT: u8, const SIZE: usize> TrueTilesIter8<WIDTH, HEIGHT, SIZE> {
    /// The tiles that are still to come.
    pub closed spec fn remaining(self) -> TileSet8<WIDTH, HEIGHT, SIZE> {
        self.inner
    }

    pub fn new(set: &TileSet8<WIDTH, HEIGHT, SIZE>) -> (r: Self)
        ensures
            r.remaining() == *set,
    {
        TrueTilesIter8 { inner: *set }
    }

    /// The first remaining tile, which is no longer to come.
    pub fn next(&mut self) -> (r: Option<Tile<WIDTH, HEIGHT>>)
        ensures
            r is None <==> forall|j: int| !#[trigger] old(self).remaining().contains(j),
            r is None ==> final(self).remaining() == old(self).remaining(),
            r matches Some(t) ==> old(self).remaining().contains(t.index() as int) && (forall|j: int|
                0 <= j < t.index() ==> !#[trigger] old(self).remaining().contains(j)) && (forall|j: int| #[trigger] final(self).remaining().contains(j) == (j != t.index() && old(self).remaining().contains(j))),
    {
        let ghost before = self.inner;
        let r = self.inner.pop();
        proof {
            assert(before == old(self).remaining());
            assert((forall|j: int| !#[trigger] before.contains(j)) == (forall|j: int|
                !#[trigger] old(self).remaining().contains(j)));
        }
        r
    }

    /// The last remaining tile, which is no longer to come.
    pub fn next_back(&mut self) -> (r: Option<Tile<WIDTH, HEIGHT>>)
        ensures
            r is None <==> forall|j: int| !#[trigger] old(self).remaining().contains(j),
            r is None ==> final(self).remaining() == old(self).remaining(),
            r matches Some(t) ==> old(self).remaining().contains(t.index() as int) && (forall|j: int|
                t.index() < j ==> !#[trigger] old(self).remaining().contains(j)) && (forall|j: int| #[trigger] final(self).remaining().contains(j) == (j != t.index() && old(self).remaining().contains(j))),
    {
        let ghost before = self.inner;
        let r = self.inner.pop_last();
        proof {
            assert(before == old(self).remaining());
            assert((forall|j: int| !#[trigger] before.contains(j)) == (forall|j: int|
                !#[trigger] old(self).remaining().contains(j)));
        }
        r
    }

    /// The number of remaining tiles.
    pub fn len(&self) -> (r: usize)
        ensures
            r == bits::bits_below(self.remaining().bits(), 8),
    {
        self.inner.count() as usize
    }

    /// The number of remaining tiles.
    pub fn count(self) -> (r: usize)
        ensures
            r == bits::bits_below(self.remaining().bits(), 8),
    {
        self.inner.count() as usize
    }

    /// The last remaining tile.
    pub fn last(self) -> (r: Option<Tile<WIDTH, HEIGHT>>)
        ensures
            r is None <==> forall|j: int| !#[trigger] self.remaining().contains(j),
            r matches Some(t) ==> self.remaining().contains(t.index() as int) && forall|j: int| t.index() < j ==> !#[trigger] self.remaining().contains(j),
    {
        let r = self.inner.last();
        proof {
            assert(self.inner == self.remaining());
        }
        r
    }

    /// The greatest remaining tile, which is the last.
    pub fn max(self) -> (r: Option<Tile<WIDTH, HEIGHT>>)
        ensures
            r is None <==> forall|j: int| !#[trigger] self.remaining().contains(j),
            r matches Some(t) ==> self.remaining().contains(t.index() as int) && forall|j: int| t.index() < j ==> !#[trigger] self.remaining().contains(j),
    {
        self.last()
    }

    /// Skips `n` tiles (`n` taken modulo `2^32`, as a `u32`) from the front and gives the next one; where
    /// too few tiles remain, gives none and leaves none.
    pub fn nth(&mut self, n: usize) -> (r: Option<Tile<WIDTH, HEIGHT>>)
        ensures
            ({
                let m = (n as int) % 0x1_0000_0000int;
                let old_bits = old(self).remaining().bits();
                if bits::bits_below(old_bits, 8) <= m {
                    r is None && forall|j: int| !#[trigger] final(self).remaining().contains(j)
                } else {
                    r matches Some(t) && old(self).remaining().contains(t.index() as int) && bits::bits_below(
                        old_bits,
                        t.index() as int,
                    ) == m && forall|j: int| #[trigger] final(self).remaining().contains(j) == (j > t.index()
                        && old(self).remaining().contains(j))
                }
            }),
    {
        let wide: u64 = n as u64 % 0x1_0000_0000;
        assert(wide < 0x1_0000_0000);
        let m: u32 = wide as u32;
        assert(m == (n as int) % 0x1_0000_0000int);
        if self.inner.count() <= m {
            self.inner = TileSet8::default();
            return None;
        }
        let ghost old_set = self.inner;
        let ghost mut lo: int = 0;
        proof {
            old_set.lemma_width();
        }
        let mut k: u32 = 0;
        loop
            invariant
                old_set == old(self).remaining(),
                m == (n as int) % 0x1_0000_0000int,
                forall|j: int| 8 <= j ==> !#[trigger] bits::has_bit(old_set.bits(), j),
                k <= m,
                bits::bits_below(old_set.bits(), 8) > m,
                0 <= lo <= 8,
                bits::bits_below(old_set.bits(), lo) == k,
                forall|j: int| #[trigger] self.inner.contains(j) == (old_set.contains(j) && j >= lo),
            decreases m - k,
        {
            proof {
                if forall|j: int| !#[trigger] self.inner.contains(j) {
                    assert forall|j: int| lo <= j < 8 implies !#[trigger] bits::has_bit(old_set.bits(), j) by {
                        assert(!self.inner.contains(j));
                    }
                    bits::lemma_bits_below_gap(old_set.bits(), lo, 8);
                }
            }
            let ghost before = self.inner;
            let t = self.inner.pop().unwrap();
            proof {
                assert forall|j: int| lo <= j < t.index() implies !#[trigger] bits::has_bit(old_set.bits(), j) by {
                    assert(!before.contains(j));
                }
                bits::lemma_bits_below_gap(old_set.bits(), lo, t.index() as int);
                assert(old_set.contains(t.index() as int));
                assert(bits::bits_below(old_set.bits(), (t.index() + 1) as int) == k + 1);
                lo = (t.index() + 1) as int;
                assert forall|j: int| #[trigger] self.inner.contains(j) == (old_set.contains(j) && j >= lo) by {
                    assert(before.contains(j) == (old_set.contains(j) && j >= t.index()));
                }
            }
            if k == m {
                return Some(t);
            }
            k = k + 1;
        }
    }

    /// Skips `n` tiles (`n` taken modulo `2^32`, as a `u32`) from the back and gives the next one; where too
    /// few tiles remain, gives none and leaves none.
    pub fn nth_back(&mut self, n: usize) -> (r: Option<Tile<WIDTH, HEIGHT>>)
        ensures
            ({
                let m = (n as int) % 0x1_0000_0000int;
                let old_bits = old(self).remaining().bits();
                if bits::bits_below(old_bits, 8) <= m {
                    r is None && forall|j: int| !#[trigger] final(self).remaining().contains(j)
                } else {
                    r matches Some(t) && old(self).remaining().contains(t.index() as int) && bits::bits_below(
                        old_bits,
                        8,
                    ) - bits::bits_below(old_bits, (t.index() + 1) as int) == m && forall|j: int|
                        #[trigger] final(self).remaining().contains(j) == (j < t.index() && old(self).remaining().contains(j))
                }
            }),
    {
        let wide: u64 = n as u64 % 0x1_0000_0000;
        assert(wide < 0x1_0000_0000);
        let m: u32 = wide as u32;
        assert(m == (n as int) % 0x1_0000_0000int);
        if self.inner.count() <= m {
            self.inner = TileSet8::default();
            return None;
        }
        let ghost old_set = self.inner;
        let ghost total = bits::bits_below(old_set.bits(), 8);
        let ghost mut hi: int = 8;
        proof {
            old_set.lemma_width();
            bits::lemma_bits_below_bounds(old_set.bits(), 8);
        }
        let mut k: u32 = 0;
        loop
            invariant
                old_set == old(self).remaining(),
                total == bits::bits_below(old_set.bits(), 8),
                m == (n as int) % 0x1_0000_0000int,
                forall|j: int| 8 <= j ==> !#[trigger] bits::has_bit(old_set.bits(), j),
                k <= m,
                total > m,
                0 <= hi <= 8,
                total - bits::bits_below(old_set.bits(), hi) == k,
                forall|j: int| #[trigger] self.inner.contains(j) == (old_set.contains(j) && j < hi),
            decreases m - k,
        {
            proof {
                if forall|j: int| !#[trigger] self.inner.contains(j) {
                    assert forall|j: int| 0 <= j < hi implies !#[trigger] bits::has_bit(old_set.bits(), j) by {
                        assert(!self.inner.contains(j));
                    }
                    bits::lemma_bits_below_gap(old_set.bits(), 0, hi);
                }
            }
            let ghost before = self.inner;
            let t = self.inner.pop_last().unwrap();
            proof {
                assert forall|j: int| t.index() < j < hi implies !#[trigger] bits::has_bit(old_set.bits(), j) by {
                    assert(!before.contains(j));
                }
                bits::lemma_bits_below_gap(old_set.bits(), (t.index() + 1) as int, hi);
                assert(old_set.contains(t.index() as int));
                assert(bits::bits_below(old_set.bits(), (t.index() + 1) as int) == bits::bits_below(old_set.bits(), t.index() as int) + 1);
                hi = t.index() as int;
                assert forall|j: int| #[trigger] self.inner.contains(j) == (old_set.contains(j) && j < hi) by {
                    assert(before.contains(j) == (old_set.contains(j) && j <= t.index()));
                }
            }
            if k == m {
                return Some(t);
            }
            k = k + 1;
        }
    }

    /// The least remaining tile, which is the first.
    pub fn min(self) -> (r: Option<Tile<WIDTH, HEIGHT>>)
        ensures
            r is None <==> forall|j: int| !#[trigger] self.remaining().contains(j),
            r matches Some(t) ==> self.remaining().contains(t.index() as int) && forall|j: int| 0 <= j < t.index() ==> !#[trigger] self.remaining().contains(j),
    {
        let mut it = self;
        it.next()
    }
}


/// Iterates the bits of a set from `bottom_index` (inclusive) up to `top_index` (exclusive),
/// every `STEP` bits, from either end.
#[derive(Clone, Copy, Debug)]
pub struct TileSetIter8<const STEP: u8> {
    inner: u8,
    bottom_index: usize,
    top_index: usize,
}

impl<const STEP: u8> TileSetIter8<STEP> {
    /// The bits of the set.
    pub closed spec fn word(self) -> u64 {
        self.inner as u64
    }

    /// The index of the next bit from the bottom.
    pub closed spec fn bottom(self) -> int {
        self.bottom_index as int
    }

    /// The index just past the next bit from the top.
    pub closed spec fn top(self) -> int {
        self.top_index as int
    }

    /// The number of bits still to come.
    pub open spec fn remaining_count(self) -> int {
        if self.top() > self.bottom() {
            (self.top() - self.bottom()) / STEP as int
        } else {
            0
        }
    }

    pub fn new(inner: u8, bottom_index: usize, top_index: usize) -> (r: Self)
        ensures
            r.word() == inner as u64,
            r.bottom() == bottom_index,
            r.top() == top_index,
    {
        TileSetIter8 { inner, bottom_index, top_index }
    }

    /// The number of bits still to come.
    pub fn len(&self) -> (r: usize)
        requires
            STEP > 0,
        ensures
            r == self.remaining_count(),
    {
        self.count()
    }

    /// The number of bits still to come.
    pub fn count(self) -> (r: usize)
        requires
            STEP > 0,
        ensures
            r == self.remaining_count(),
    {
        let distance: usize = if self.top_index > self.bottom_index {
            self.top_index - self.bottom_index
        } else {
            0
        };
        distance / (STEP as usize)
    }

    /// The next bit from the bottom, if the bottom is below the top.
    pub fn next(&mut self) -> (r: Option<bool>)
        requires
            old(self).bottom() < old(self).top() ==> old(self).bottom() < 8,
        ensures
            final(self).word() == old(self).word(),
            final(self).top() == old(self).top(),
            old(self).bottom() >= old(self).top() ==> r is None && final(self).bottom() == old(self).bottom(),
            old(self).bottom() < old(self).top() ==> r == Some(bits::has_bit(old(self).word(), old(self).bottom()))
                && final(self).bottom() == old(self).bottom() + STEP,
    {
        if self.bottom_index >= self.top_index {
            None
        } else {
            let r = ((self.inner as u64) >> (self.bottom_index as u64)) & 1 == 1;
            self.bottom_index = self.bottom_index + (STEP as usize);
            Some(r)
        }
    }

    /// The next bit from the top, if one lies at or above the bottom.
    pub fn next_back(&mut self) -> (r: Option<bool>)
        requires
            old(self).top() <= 8,
            STEP > 0 || old(self).top() < 8,
        ensures
            final(self).word() == old(self).word(),
            final(self).bottom() == old(self).bottom(),
            ({
                let next = if old(self).top() >= STEP { old(self).top() - STEP } else { 0 };
                if old(self).top() == 0 || old(self).bottom() > next {
                    r is None && final(self).top() == old(self).top()
                } else {
                    r == Some(bits::has_bit(old(self).word(), next)) && final(self).top() == next
                }
            }),
    {
        if self.top_index == 0 {
            return None;
        }
        let next_index: usize = if self.top_index >= STEP as usize {
            self.top_index - STEP as usize
        } else {
            0
        };
        if self.bottom_index > next_index {
            None
        } else {
            self.top_index = next_index;
            let r = ((self.inner as u64) >> (self.top_index as u64)) & 1 == 1;
            Some(r)
        }
    }
}
/// A grid
/// A map from tiles to bools. Can store up to 16 tiles.
#[derive(Clone, Copy, Debug, Hash, PartialOrd, Ord)]
pub struct TileSet16<const WIDTH: u8, const HEIGHT: u8, const SIZE: usize>(u16);

impl<const WIDTH: u8, const HEIGHT: u8, const SIZE: usize> PartialEq for TileSet16<WIDTH, HEIGHT, SIZE> {
    fn eq(&self, other: &Self) -> (r: bool) {
        self.0 == other.0
    }
}

impl<const WIDTH: u8, const HEIGHT: u8, const SIZE: usize> Eq for TileSet16<WIDTH, HEIGHT, SIZE> {
}

impl<const WIDTH: u8, const HEIGHT: u8, const SIZE: usize> vstd::std_specs::cmp::PartialEqSpecImpl for TileSet16<WIDTH, HEIGHT, SIZE> {
    open spec fn obeys_eq_spec() -> bool {
        true
    }

    open spec fn eq_spec(&self, other: &Self) -> bool {
        self.bits() == other.bits()
    }
}

impl<const WIDTH: u8, const HEIGHT: u8, const SIZE: usize> Default for TileSet16<WIDTH, HEIGHT, SIZE> {
    fn default() -> (r: Self)
        ensures
            forall|j: int| !#[trigger] r.contains(j),
    {
        let r = TileSet16(0);
        proof {
            r.lemma_empty();
        }
        r
    }
}

impl<const WIDTH: u8, const HEIGHT: u8, const SIZE: usize> TileSet16<WIDTH, HEIGHT, SIZE> {
    /// The bits of the set, as a 64 bit word.
    pub closed spec fn bits(self) -> u64 {
        self.0 as u64
    }

    /// Whether position `i` is in the set.
    pub open spec fn contains(self, i: int) -> bool {
        bits::has_bit(self.bits(), i)
    }

    /// Whether the set holds one bit per tile of the grid and the word is wide enough.
    pub open spec fn legal() -> bool {
        SIZE == WIDTH as nat * HEIGHT as nat && SIZE <= 16
    }

    /// The textual form of the first `n` positions of the set, `*` for each position in the set
    /// and `_` for the others, with a line break before each row but the first when `lines`.
    pub open spec fn text_prefix(self, n: int, lines: bool) -> Seq<char>
        decreases n,
    {
        if n <= 0 {
            Seq::empty()
        } else {
            let i = n - 1;
            let sep = if lines && i > 0 && i % (WIDTH as int) == 0 {
                seq!['\n']
            } else {
                Seq::empty()
            };
            self.text_prefix(i, lines) + sep + seq![
                if self.contains(i) {
                    '*'
                } else {
                    '_'
                },
            ]
        }
    }

    /// Sets with the same bits are equal.
    pub proof fn lemma_bits_injective(self, other: Self)
        ensures
            self.bits() == other.bits() <==> self == other,
    {
    }

    /// No position at or above the width of the word is in the set.
    pub proof fn lemma_width(self)
        ensures
            forall|j: int| 16 <= j ==> !#[trigger] self.contains(j),
            forall|j: int| 16 <= j ==> !#[trigger] bits::has_bit(self.bits(), j),
    {
        assert((1u64 << 16u64) == 65536u64) by (bit_vector);
        bits::lemma_below_power(self.bits(), 16u64);
    }

    /// Sets with the same positions are equal.
    pub proof fn lemma_ext(self, other: Self)
        requires
            forall|j: int| 0 <= j < 16 ==> #[trigger] self.contains(j) == other.contains(j),
        ensures
            self == other,
    {
        self.lemma_width();
        other.lemma_width();
        assert forall|j: int| 0 <= j < 64 implies #[trigger] bits::has_bit(self.bits(), j) == bits::has_bit(other.bits(), j) by {
            if j < 16 {
                assert(self.contains(j) == other.contains(j));
            }
        }
        bits::lemma_bits_equal(self.bits(), other.bits());
        
    }

    proof fn lemma_empty(self)
        requires
            self.0 == 0,
        ensures
            forall|j: int| !#[trigger] self.contains(j),
    {
        bits::lemma_empty_word();
    }

    /// The set whose bits are those of a word with no bit beyond the width of the set.
    fn from_word(w: u64) -> (r: Self)
        requires
            forall|j: int| 16 <= j ==> !#[trigger] bits::has_bit(w, j),
        ensures
            r.bits() == w,
    {
        proof {
            bits::lemma_fits(w, 16u64);
            assert((1u64 << 16u64) == 65536u64) by (bit_vector);
        }
        TileSet16(w as u16)
    }

    /// The set where all tiles are missing
    pub fn empty() -> (r: Self)
        requires
            Self::legal(),
        ensures
            forall|j: int| !#[trigger] r.contains(j),
    {
        let r = TileSet16(0);
        proof {
            r.lemma_empty();
        }
        r
    }

    /// The set where all tiles are present
    pub fn all() -> (r: Self)
        requires
            Self::legal(),
            1 <= SIZE,
        ensures
            forall|j: int| #[trigger] r.contains(j) == (0 <= j < SIZE),
    {
        Self::empty().negate()
    }

    /// The set of the tiles for which a function returns true.
    pub fn from_fn<F: Fn(Tile<WIDTH, HEIGHT>) -> bool>(cb: F) -> (r: Self)
        requires
            Self::legal(),
            Tile::<WIDTH, HEIGHT>::legal(),
            forall|t: Tile<WIDTH, HEIGHT>| t.wf() ==> #[trigger] cb.requires((t,)),
        ensures
            forall|t: Tile<WIDTH, HEIGHT>| t.wf() ==> #[trigger] cb.ensures((t,), r.contains(t.index() as int)),
            forall|j: int| !(0 <= j < SIZE) ==> !#[trigger] r.contains(j),
    {
        let tiles = Tile::<WIDTH, HEIGHT>::iter_by_row();
        let mut result = Self::empty();
        let mut i: usize = 0;
        while i < tiles.len()
            invariant
                Self::legal(),
                tiles@.len() == SIZE,
                i <= tiles@.len(),
                forall|k: int| 0 <= k < tiles@.len() ==> (#[trigger] tiles@[k]).wf() && tiles@[k].index() == k,
                forall|t: Tile<WIDTH, HEIGHT>| t.wf() ==> #[trigger] cb.requires((t,)),
                forall|k: int| 0 <= k < i ==> #[trigger] cb.ensures((tiles@[k],), result.contains(k)),
                forall|j: int| !(0 <= j < i) ==> !#[trigger] result.contains(j),
            decreases tiles@.len() - i,
        {
            let t = tiles[i];
            let b = cb(t);
            let ghost before = result;
            if b {
                result.set_bit(&t, true);
            }
            proof {
                assert forall|k: int| 0 <= k < i + 1 implies #[trigger] cb.ensures(
                    (tiles@[k],),
                    result.contains(k),
                ) by {
                    if k < i {
                        assert(cb.ensures((tiles@[k],), before.contains(k)));
                        assert(result.contains(k) == before.contains(k));
                    } else {
                        assert(tiles@[k] == t);
                        assert(result.contains(k) == b);
                    }
                }
                assert forall|j: int| !(0 <= j < i + 1) implies !#[trigger] result.contains(j) by {
                    assert(result.contains(j) == before.contains(j));
                }
            }
            i = i + 1;
        }
        proof {
            assert forall|t: Tile<WIDTH, HEIGHT>| t.wf() implies #[trigger] cb.ensures(
                (t,),
                result.contains(t.index() as int),
            ) by {
                let k = t.index() as int;
                assert(tiles@[k].index() == t.index());
                t.lemma_index_injective(tiles@[k]);
            }
        }
        result
    }

    pub fn from_inner(inner: u16) -> (r: Self)
        requires
            Self::legal(),
        ensures
            r.bits() == inner,
    {
        TileSet16(inner)
    }

    pub fn into_inner(self) -> (r: u16)
        ensures
            r == self.bits(),
    {
        self.0
    }

    /// Whether no position is in the set.
    pub fn is_empty(self) -> (r: bool)
        ensures
            r == forall|j: int| !#[trigger] self.contains(j),
    {
        if self.0 == 0 {
            proof {
                self.lemma_empty();
            }
            true
        } else {
            proof {
                bits::lemma_empty_word();
                if forall|j: int| !#[trigger] self.contains(j) {
                    assert forall|j: int| 0 <= j < 64 implies #[trigger] bits::has_bit(self.bits(), j) == bits::has_bit(
                        0u64,
                        j,
                    ) by {
                        assert(!self.contains(j));
                    }
                    bits::lemma_bits_equal(self.bits(), 0u64);
                }
            }
            false
        }
    }

    /// Adds a tile to the set, or removes it.
    pub fn set_bit(&mut self, tile: &Tile<WIDTH, HEIGHT>, bit: bool)
        requires
            tile.index() < 16,
        ensures
            forall|j: int| #[trigger] final(self).contains(j) == if j == tile.index() {
                bit
            } else {
                old(self).contains(j)
            },
    {
        *self = self.with_bit_set(tile, bit);
    }

    /// Returns a copy of self with the bit at `tile` set to `bit`
    pub fn with_bit_set(&self, tile: &Tile<WIDTH, HEIGHT>, bit: bool) -> (r: Self)
        requires
            tile.index() < 16,
        ensures
            forall|j: int| #[trigger] r.contains(j) == if j == tile.index() {
                bit
            } else {
                self.contains(j)
            },
    {
        let i = tile.inner() as u64;
        let w = self.0 as u64;
        let nw = if bit {
            w | (1u64 << i)
        } else {
            w & !(1u64 << i)
        };
        proof {
            self.lemma_width();
            bits::lemma_set_bit(w, i);
            bits::lemma_clear_bit(w, i);
            assert(forall|j: int| #[trigger] bits::has_bit(nw, j) == if j == i {
                bit
            } else {
                bits::has_bit(w, j)
            });
            assert(self.bits() == w);
            assert(forall|j: int| 16 <= j ==> !#[trigger] bits::has_bit(w, j));
            assert(forall|j: int| 16 <= j ==> !#[trigger] bits::has_bit(nw, j));
        }
        Self::from_word(nw)
    }

    /// Whether a tile is in the set.
    pub fn get_bit(&self, tile: &Tile<WIDTH, HEIGHT>) -> (r: bool)
        requires
            tile.index() < 16,
        ensures
            r == self.contains(tile.index() as int),
    {
        ((self.0 as u64) >> (tile.inner() as u64)) & 1 == 1
    }

    /// The positions from `bottom` (inclusive) up to `top` (exclusive), every `step`.
    fn read_bits(&self, bottom: usize, top: usize, step: usize) -> (r: Vec<bool>)
        requires
            top <= 16,
            1 <= step <= 255,
        ensures
            bottom + r@.len() * step >= top,
            r@.len() > 0 ==> bottom + (r@.len() - 1) * step < top,
            step == 1 ==> r@.len() == if bottom < top {
                top - bottom
            } else {
                0
            },
            forall|k: int|
                0 <= k < r@.len() ==> #[trigger] r@[k] == self.contains(bottom + k * step),
    {
        let mut result: Vec<bool> = Vec::new();
        let mut index: usize = bottom;
        proof {
            assert(bottom + 0 * step == bottom) by (nonlinear_arith);
        }
        while index < top
            invariant
                top <= 16,
                1 <= step <= 255,
                index == bottom + result@.len() * step,
                result@.len() > 0 ==> bottom + (result@.len() - 1) * step < top,
                bottom <= index,
                step == 1 ==> result@.len() == index - bottom,
                step == 1 && bottom <= top ==> index <= top,
                forall|k: int|
                    0 <= k < result@.len() ==> #[trigger] result@[k] == self.contains(
                        bottom + k * step,
                    ),
            decreases if index <= top {
                top - index
            } else {
                0
            },
        {
            let b = ((self.0 as u64) >> (index as u64)) & 1 == 1;
            let ghost len = result@.len() as int;
            let ghost before = result@;
            proof {
                assert(b == self.contains(index as int));
            }
            result.push(b);
            proof {
                assert forall|k: int| 0 <= k < result@.len() implies #[trigger] result@[k]
                    == self.contains(bottom + k * step) by {
                    if k < len {
                        assert(result@[k] == before[k]);
                    }
                }
                assert(bottom + len * step + step == bottom + (len + 1) * step) by (nonlinear_arith);
                if step == 1 {
                    assert(len * step == len);
                }
            }
            index = index + step;
        }
        result
    }

    /// The positions of the set in order.
    pub fn iter(&self) -> (r: Vec<bool>)
        requires
            SIZE <= 16,
        ensures
            r@.len() == SIZE,
            forall|k: int| 0 <= k < r@.len() ==> #[trigger] r@[k] == self.contains(k),
    {
        let r = self.read_bits(0, SIZE, 1);
        proof {
            assert forall|k: int| 0 <= k < r@.len() implies #[trigger] r@[k] == self.contains(k) by {
                assert(0 + k * 1 == k);
            }
        }
        r
    }

    /// The positions of a row of the set, from west to east.
    pub fn row(&self, y: u8) -> (r: Vec<bool>)
        requires
            y < 255,
            (y as int + 1) * WIDTH <= 16,
        ensures
            r@.len() == WIDTH,
            forall|k: int| 0 <= k < r@.len() ==> #[trigger] r@[k] == self.contains(y * WIDTH + k),
    {
        proof {
            assert((y as int + 1) * WIDTH == y * WIDTH + WIDTH) by (nonlinear_arith);
            assert(0 <= y * WIDTH) by (nonlinear_arith);
        }
        let bottom = (y * WIDTH) as usize;
        let top = ((y + 1) * WIDTH) as usize;
        let r = self.read_bits(bottom, top, 1);
        proof {
            assert forall|k: int| 0 <= k < r@.len() implies #[trigger] r@[k] == self.contains(y * WIDTH + k) by {
                assert(bottom + k * 1 == y * WIDTH + k);
            }
        }
        r
    }

    /// The positions `x`, `x + HEIGHT`, `x + 2 * HEIGHT`, ... below
    /// `WIDTH * (HEIGHT - 1) + x + 1`, in order.
    pub fn col(&self, x: u8) -> (r: Vec<bool>)
        requires
            1 <= HEIGHT,
            WIDTH * (HEIGHT - 1) + x + 1 <= 16,
        ensures
            x + r@.len() * HEIGHT >= WIDTH * (HEIGHT - 1) + x + 1,
            r@.len() > 0 ==> x + (r@.len() - 1) * HEIGHT < WIDTH * (HEIGHT - 1) + x + 1,
            forall|k: int| 0 <= k < r@.len() ==> #[trigger] r@[k] == self.contains(x + k * HEIGHT),
    {
        proof {
            assert(0 <= WIDTH * (HEIGHT - 1)) by (nonlinear_arith)
                requires
                    1 <= HEIGHT,
            ;
        }
        let top = ((WIDTH * (HEIGHT - 1)) + x + 1) as usize;
        let r = self.read_bits(x as usize, top, HEIGHT as usize);
        proof {
            assert(top == WIDTH * (HEIGHT - 1) + x + 1);
        }
        r
    }

    /// The set moved `rows` rows towards the north; rows leaving the grid are lost.
    pub fn shift_north(&self, rows: u8) -> (r: Self)
        requires
            rows * WIDTH < 16,
            1 <= SIZE <= 16,
        ensures
            forall|j: int| #[trigger] r.contains(j) == (0 <= j < SIZE && self.contains(j + rows * WIDTH)),
    {
        proof {
            assert(0 <= rows * WIDTH) by (nonlinear_arith);
        }
        let k = (rows * WIDTH) as u64;
        let n = SIZE as u64;
        let w = self.0 as u64;
        let mask: u64 = u64::MAX >> (64 - n);
        let shifted = w >> k;
        let nw = shifted & mask;
        proof {
            bits::lemma_shift(w, k);
            bits::lemma_low_mask(0u64, n);
            bits::lemma_bitwise(shifted, mask);
            assert(forall|j: int| #[trigger] bits::has_bit(nw, j) == (0 <= j < SIZE && bits::has_bit(w, j + k)));
            assert(forall|j: int| 16 <= j ==> !#[trigger] bits::has_bit(nw, j));
        }
        Self::from_word(nw)
    }

    /// The set moved `rows` rows towards the south; rows leaving the grid are lost.
    pub fn shift_south(&self, rows: u8) -> (r: Self)
        requires
            rows * WIDTH < 16,
            1 <= SIZE <= 16,
        ensures
            forall|j: int| #[trigger] r.contains(j) == (rows * WIDTH <= j < SIZE && self.contains(j - rows * WIDTH)),
    {
        proof {
            assert(0 <= rows * WIDTH) by (nonlinear_arith);
        }
        let k = (rows * WIDTH) as u64;
        let n = SIZE as u64;
        let w = self.0 as u64;
        let mask: u64 = u64::MAX >> (64 - n);
        let shifted = w << k;
        let nw = shifted & mask;
        proof {
            bits::lemma_shift(w, k);
            bits::lemma_low_mask(0u64, n);
            bits::lemma_bitwise(shifted, mask);
            assert(forall|j: int| #[trigger] bits::has_bit(nw, j) == (k <= j < SIZE && bits::has_bit(w, j - k)));
            assert(forall|j: int| 16 <= j ==> !#[trigger] bits::has_bit(nw, j));
        }
        Self::from_word(nw)
    }

    /// The set of the tiles of row `y`.
    pub fn row_mask(y: u8) -> (r: Self)
        requires
            Self::legal(),
            Tile::<WIDTH, HEIGHT>::legal(),
            1 <= WIDTH,
            1 <= HEIGHT,
            y * WIDTH < 16,
        ensures
            forall|j: int| #[trigger] r.contains(j) == (y * WIDTH <= j < y * WIDTH + WIDTH && j < 16),
    {
        let mut row_zero: u64 = 0;
        let mut x: u8 = 0;
        proof {
            bits::lemma_empty_word();
            assert(WIDTH <= 16) by (nonlinear_arith)
                requires
                    1 <= HEIGHT,
                    WIDTH as nat * HEIGHT as nat <= 16,
            ;
        }
        while x < WIDTH
            invariant
                Tile::<WIDTH, HEIGHT>::legal(),
                WIDTH <= 16,
                x <= WIDTH,
                forall|j: int| #[trigger] bits::has_bit(row_zero, j) == (0 <= j < x),
            decreases WIDTH - x,
        {
            proof {
                bits::lemma_set_bit(row_zero, x as u64);
            }
            row_zero = row_zero | (1u64 << (x as u64));
            x = x + 1;
        }
        proof {
            assert(0 <= y * WIDTH) by (nonlinear_arith);
        }
        let k = (y * WIDTH) as u64;
        proof {
            bits::lemma_shift(row_zero, k);
        }
        let shifted = row_zero << k;
        let mask: u64 = u64::MAX >> (64 - 16u64);
        let nw = shifted & mask;
        proof {
            bits::lemma_low_mask(0u64, 16u64);
            bits::lemma_bitwise(shifted, mask);
            assert(forall|j: int| #[trigger] bits::has_bit(nw, j) == (k <= j < 16 && bits::has_bit(row_zero, j - k)));
            assert(forall|j: int| 16 <= j ==> !#[trigger] bits::has_bit(nw, j));
        }
        Self::from_word(nw)
    }

    /// The set of the tiles of column `x`.
    pub fn col_mask(x: u8) -> (r: Self)
        requires
            Self::legal(),
            Tile::<WIDTH, HEIGHT>::legal(),
            1 <= WIDTH,
            1 <= HEIGHT,
            x < 16,
        ensures
            forall|j: int| #[trigger] r.contains(j) == (x <= j < 16 && (j - x) % (WIDTH as int) == 0
                && (j - x) / (WIDTH as int) < HEIGHT),
    {
        let mut col_zero: u64 = 0;
        let mut y: u8 = 0;
        proof {
            bits::lemma_empty_word();
        }
        while y < HEIGHT
            invariant
                Self::legal(),
                Tile::<WIDTH, HEIGHT>::legal(),
                1 <= WIDTH,
                y <= HEIGHT,
                forall|j: int| #[trigger] bits::has_bit(col_zero, j) == (0 <= j && j % (WIDTH as int) == 0 && j / (WIDTH as int) < y),
            decreases HEIGHT - y,
        {
            proof {
                lemma_index_bound(0, y as int, WIDTH as int, HEIGHT as int);
                lemma_byte_product(WIDTH as int, y as int);
            }
            let i = (WIDTH as u64) * (y as u64);
            proof {
                bits::lemma_set_bit(col_zero, i);
                lemma_index_coords(0, y as int, WIDTH as int);
                assert forall|j: int| #[trigger] bits::has_bit(col_zero | (1u64 << i), j) == (0 <= j && j % (WIDTH as int) == 0 && j / (WIDTH as int) < y + 1) by {
                    if 0 <= j {
                        lemma_coords_index(j, WIDTH as int);
                        if j % (WIDTH as int) == 0 && j / (WIDTH as int) == y {
                            assert(j == i);
                        }
                        if j % (WIDTH as int) == 0 && j / (WIDTH as int) < y + 1 {
                            assert(WIDTH * (j / (WIDTH as int)) <= WIDTH * y) by (nonlinear_arith)
                                requires
                                    j / (WIDTH as int) <= y,
                                    0 <= WIDTH,
                            ;
                        }
                        if j == i {
                            assert(j % (WIDTH as int) == 0 && j / (WIDTH as int) == y);
                        }
                    }
                }
            }
            col_zero = col_zero | (1u64 << i);
            y = y + 1;
        }
        let k = x as u64;
        proof {
            bits::lemma_shift(col_zero, k);
        }
        let shifted = col_zero << k;
        let mask: u64 = u64::MAX >> (64 - 16u64);
        let nw = shifted & mask;
        proof {
            bits::lemma_low_mask(0u64, 16u64);
            bits::lemma_bitwise(shifted, mask);
            assert(forall|j: int| #[trigger] bits::has_bit(nw, j) == (k <= j < 16 && bits::has_bit(col_zero, j - k)));
            assert(forall|j: int| 16 <= j ==> !#[trigger] bits::has_bit(nw, j));
        }
        Self::from_word(nw)
    }

    /// Each tile of the grid, in order, with whether it is in the set.
    pub fn enumerate(&self) -> (r: Vec<(Tile<WIDTH, HEIGHT>, bool)>)
        requires
            Self::legal(),
            Tile::<WIDTH, HEIGHT>::legal(),
        ensures
            r@.len() == SIZE,
            forall|k: int| 0 <= k < r@.len() ==> (#[trigger] r@[k]).0.wf() && r@[k].0.index() == k && r@[k].1 == self.contains(k),
    {
        let bits = self.iter();
        let mut result: Vec<(Tile<WIDTH, HEIGHT>, bool)> = Vec::new();
        let mut i: usize = 0;
        while i < bits.len()
            invariant
                Self::legal(),
                bits@.len() == SIZE,
                forall|k: int| 0 <= k < bits@.len() ==> #[trigger] bits@[k] == self.contains(k),
                i <= bits@.len(),
                result@.len() == i,
                forall|k: int| 0 <= k < result@.len() ==> (#[trigger] result@[k]).0.wf() && result@[k].0.index() == k && result@[k].1 == self.contains(k),
            decreases bits@.len() - i,
        {
            let t = Tile::<WIDTH, HEIGHT>::try_from_usize(i).unwrap();
            result.push((t, bits[i]));
            i = i + 1;
        }
        result
    }

    /// The tiles of the set, from first to last.
    pub fn iter_true_tiles(&self) -> (r: TrueTilesIter16<WIDTH, HEIGHT, SIZE>)
        ensures
            r.remaining() == *self,
    {
        TrueTilesIter16::new(self)
    }

    /// The number of tiles in the set.
    pub fn count(&self) -> (r: u32)
        ensures
            r == bits::bits_below(self.bits(), 16),
    {
        proof {
            self.lemma_width();
            bits::lemma_bits_below_split(self.bits(), 16);
        }
        bits::count_ones(self.0 as u64)
    }

    /// Return the set of tiles in both self and `rhs`.
    pub fn intersect(&self, rhs: &Self) -> (r: Self)
        ensures
            forall|j: int| #[trigger] r.contains(j) == (self.contains(j) && rhs.contains(j)),
    {
        proof {
            self.lemma_width();
            rhs.lemma_width();
            bits::lemma_bitwise(self.0 as u64, rhs.0 as u64);
        }
        let nw = (self.0 as u64) & (rhs.0 as u64);
        proof {
            assert(forall|j: int| #[trigger] bits::has_bit(nw, j) == (bits::has_bit(self.bits(), j) && bits::has_bit(rhs.bits(), j)));
            assert(forall|j: int| 16 <= j ==> !#[trigger] bits::has_bit(nw, j));
        }
        Self::from_word(nw)
    }

    /// Return the set of tiles in either self or `rhs` or both.
    pub fn union(&self, rhs: &Self) -> (r: Self)
        ensures
            forall|j: int| #[trigger] r.contains(j) == (self.contains(j) || rhs.contains(j)),
    {
        proof {
            self.lemma_width();
            rhs.lemma_width();
            bits::lemma_bitwise(self.0 as u64, rhs.0 as u64);
        }
        let nw = (self.0 as u64) | (rhs.0 as u64);
        proof {
            assert(forall|j: int| #[trigger] bits::has_bit(nw, j) == (bits::has_bit(self.bits(), j) || bits::has_bit(rhs.bits(), j)));
            assert(forall|j: int| 16 <= j ==> !#[trigger] bits::has_bit(nw, j));
        }
        Self::from_word(nw)
    }

    /// Whether every tile of self is in `rhs`.
    pub fn is_subset(&self, rhs: &Self) -> (r: bool)
        ensures
            r == forall|j: int| #[trigger] self.contains(j) ==> rhs.contains(j),
    {
        let i = self.intersect(rhs);
        proof {
            if forall|j: int| #[trigger] self.contains(j) ==> rhs.contains(j) {
                i.lemma_ext(*self);
            }
        }
        i.0 == self.0
    }

    /// Whether every tile of `rhs` is in self.
    pub fn is_superset(&self, rhs: &Self) -> (r: bool)
        ensures
            r == forall|j: int| #[trigger] rhs.contains(j) ==> self.contains(j),
    {
        let i = self.intersect(rhs);
        proof {
            if forall|j: int| #[trigger] rhs.contains(j) ==> self.contains(j) {
                i.lemma_ext(*rhs);
            }
        }
        i.0 == rhs.0
    }

    /// Returns a new set containing all elements which belong to one set but not both
    pub fn symmetric_difference(&self, rhs: &Self) -> (r: Self)
        ensures
            forall|j: int| #[trigger] r.contains(j) == (self.contains(j) != rhs.contains(j)),
    {
        proof {
            self.lemma_width();
            rhs.lemma_width();
            bits::lemma_bitwise(self.0 as u64, rhs.0 as u64);
        }
        let nw = (self.0 as u64) ^ (rhs.0 as u64);
        proof {
            assert(forall|j: int| #[trigger] bits::has_bit(nw, j) == (bits::has_bit(self.bits(), j) != bits::has_bit(rhs.bits(), j)));
            assert(forall|j: int| 16 <= j ==> !#[trigger] bits::has_bit(nw, j));
        }
        Self::from_word(nw)
    }

    /// The set of the tiles of the grid that are not in self.
    pub fn negate(&self) -> (r: Self)
        requires
            1 <= SIZE <= 16,
        ensures
            forall|j: int| #[trigger] r.contains(j) == (0 <= j < SIZE && !self.contains(j)),
    {
        let n = SIZE as u64;
        let mask: u64 = u64::MAX >> (64 - n);
        let nw = !(self.0 as u64) & mask;
        proof {
            bits::lemma_low_mask(self.0 as u64, n);
            assert(forall|j: int| #[trigger] bits::has_bit(nw, j) == (0 <= j < SIZE && !bits::has_bit(self.bits(), j)));
            assert(forall|j: int| 16 <= j ==> !#[trigger] bits::has_bit(nw, j));
        }
        Self::from_word(nw)
    }

    /// The first tile in this set
    pub fn first(&self) -> (r: Option<Tile<WIDTH, HEIGHT>>)
        requires
            Self::legal(),
        ensures
            r is None <==> forall|j: int| 0 <= j < Tile::<WIDTH, HEIGHT>::tile_count() ==> !#[trigger] self.contains(j),
            r matches Some(t) ==> t.wf() && self.contains(t.index() as int) && forall|j: int| 0 <= j < t.index() ==> !#[trigger] self.contains(j),
    {
        let w = self.0 as u64;
        let tz = bits::trailing_zeros(w);
        let r = Tile::<WIDTH, HEIGHT>::try_from_inner(tz as u8);
        proof {
            assert(self.bits() == w);
            assert(forall|j: int| 0 <= j < tz ==> !#[trigger] bits::has_bit(w, j));
            assert(forall|j: int| 0 <= j < tz ==> !#[trigger] self.contains(j));
            if w != 0 {
                assert(self.contains(tz as int));
            } else {
                bits::lemma_empty_word();
            }
        }
        r
    }

    /// Removes the first tile in this set and returns it
    /// Returns `None` if the set is empty
    pub fn pop(&mut self) -> (r: Option<Tile<WIDTH, HEIGHT>>)
        ensures
            r is None <==> forall|j: int| !#[trigger] old(self).contains(j),
            r is None ==> *final(self) == *old(self),
            r matches Some(t) ==> old(self).contains(t.index() as int) && (forall|j: int|
                0 <= j < t.index() ==> !#[trigger] old(self).contains(j)) && (forall|j: int| #[trigger] final(self).contains(j) == (j != t.index() && old(self).contains(j))),
    {
        let w = self.0 as u64;
        proof {
            self.lemma_width();
        }
        if w == 0 {
            proof {
                self.lemma_empty();
            }
            return None;
        }
        let index = bits::trailing_zeros(w) as u64;
        let nw = w & !(1u64 << index);
        proof {
            bits::lemma_clear_bit(w, index);
            assert(forall|j: int| #[trigger] bits::has_bit(nw, j) == (j != index && bits::has_bit(w, j)));
            assert(self.bits() == w);
            assert(forall|j: int| 16 <= j ==> !#[trigger] bits::has_bit(w, j));
            assert(forall|j: int| 16 <= j ==> !#[trigger] bits::has_bit(nw, j));
            assert(old(self).contains(index as int));
        }
        *self = Self::from_word(nw);
        Some(Tile::<WIDTH, HEIGHT>::from_inner_unchecked(index as u8))
    }

    /// The last tile in this set
    pub fn last(&self) -> (r: Option<Tile<WIDTH, HEIGHT>>)
        ensures
            r is None <==> forall|j: int| !#[trigger] self.contains(j),
            r matches Some(t) ==> self.contains(t.index() as int) && forall|j: int| t.index() < j ==> !#[trigger] self.contains(j),
    {
        let w = self.0 as u64;
        proof {
            self.lemma_width();
        }
        if w == 0 {
            proof {
                self.lemma_empty();
            }
            return None;
        }
        let index = bits::highest_bit(w);
        proof {
            assert(self.bits() == w);
            assert(self.contains(index as int));
            assert(forall|j: int| index < j ==> !#[trigger] bits::has_bit(w, j));
        }
        Some(Tile::<WIDTH, HEIGHT>::from_inner_unchecked(index as u8))
    }

    /// Removes the last tile in this set and returns it
    /// Returns `None` if the set is empty
    pub fn pop_last(&mut self) -> (r: Option<Tile<WIDTH, HEIGHT>>)
        ensures
            r is None <==> forall|j: int| !#[trigger] old(self).contains(j),
            r is None ==> *final(self) == *old(self),
            r matches Some(t) ==> old(self).contains(t.index() as int) && (forall|j: int|
                t.index() < j ==> !#[trigger] old(self).contains(j)) && (forall|j: int| #[trigger] final(self).contains(j) == (j != t.index() && old(self).contains(j))),
    {
        let w = self.0 as u64;
        proof {
            self.lemma_width();
        }
        if w == 0 {
            proof {
                self.lemma_empty();
            }
            return None;
        }
        let index = bits::highest_bit(w) as u64;
        let nw = w & !(1u64 << index);
        proof {
            bits::lemma_clear_bit(w, index);
            assert(forall|j: int| #[trigger] bits::has_bit(nw, j) == (j != index && bits::has_bit(w, j)));
            assert(self.bits() == w);
            assert(forall|j: int| 16 <= j ==> !#[trigger] bits::has_bit(w, j));
            assert(forall|j: int| 16 <= j ==> !#[trigger] bits::has_bit(nw, j));
            assert(old(self).contains(index as int));
        }
        *self = Self::from_word(nw);
        Some(Tile::<WIDTH, HEIGHT>::from_inner_unchecked(index as u8))
    }

    /// The set of the given tiles.
    pub fn from_iter(tiles: Vec<Tile<WIDTH, HEIGHT>>) -> (r: Self)
        requires
            Self::legal(),
            forall|k: int| 0 <= k < tiles@.len() ==> (#[trigger] tiles@[k]).index() < 16,
        ensures
            forall|j: int| #[trigger] r.contains(j) == exists|k: int| 0 <= k < tiles@.len() && (#[trigger] tiles@[k]).index() == j,
    {
        let mut r = Self::empty();
        let mut i: usize = 0;
        while i < tiles.len()
            invariant
                forall|k: int| 0 <= k < tiles@.len() ==> (#[trigger] tiles@[k]).index() < 16,
                i <= tiles@.len(),
                forall|j: int| #[trigger] r.contains(j) == exists|k: int| 0 <= k < i && (#[trigger] tiles@[k]).index() == j,
            decreases tiles@.len() - i,
        {
            let t = tiles[i];
            let ghost before = r;
            r.set_bit(&t, true);
            proof {
                assert forall|j: int| #[trigger] r.contains(j) == exists|k: int| 0 <= k < i + 1 && (#[trigger] tiles@[k]).index() == j by {
                    if j == t.index() {
                        assert(tiles@[i as int].index() == j);
                    } else {
                        if exists|k: int| 0 <= k < i + 1 && (#[trigger] tiles@[k]).index() == j {
                            let k = choose|k: int| 0 <= k < i + 1 && (#[trigger] tiles@[k]).index() == j;
                            assert(k != i);
                        }
                    }
                }
            }
            i = i + 1;
        }
        r
    }

    /// The text of the set, one line per row (its `Display` form).
    pub fn to_string(&self) -> (s: String)
        requires
            1 <= WIDTH,
            SIZE <= 16,
        ensures
            s@ == self.text_prefix(SIZE as int, true),
    {
        self.write_text(true)
    }

    /// The text of the set on a single line (its alternate `Display` form).
    pub fn to_string_alternate(&self) -> (s: String)
        requires
            1 <= WIDTH,
            SIZE <= 16,
        ensures
            s@ == self.text_prefix(SIZE as int, false),
    {
        self.write_text(false)
    }

    fn write_text(&self, lines: bool) -> (s: String)
        requires
            1 <= WIDTH,
            SIZE <= 16,
        ensures
            s@ == self.text_prefix(SIZE as int, lines),
    {
        let bits = self.iter();
        let mut s = String::new();
        let mut i: usize = 0;
        while i < bits.len()
            invariant
                1 <= WIDTH,
                bits@.len() == SIZE,
                forall|k: int| 0 <= k < bits@.len() ==> #[trigger] bits@[k] == self.contains(k),
                i <= bits@.len(),
                s@ == self.text_prefix(i as int, lines),
            decreases bits@.len() - i,
        {
            if lines && i > 0 && i % (WIDTH as usize) == 0 {
                push_char(&mut s, '\n');
            }
            if bits[i] {
                push_char(&mut s, '*');
            } else {
                push_char(&mut s, '_');
            }
            i = i + 1;
        }
        s
    }
}

/// Iterates through the tiles of a set, from either end.
#[derive(Clone, Debug)]
pub struct TrueTilesIter16<const WIDTH: u8, const HEIGHT: u8, const SIZE: usize> {
    inner: TileSet16<WIDTH, HEIGHT, SIZE>,
}

impl<const WIDTH: u8, const HEIGHT: u8, const SIZE: usize> TrueTilesIter16<WIDTH, HEIGHT, SIZE> {
    /// The tiles that are still to come.
    pub closed spec fn remaining(self) -> TileSet16<WIDTH, HEIGHT, SIZE> {
        self.inner
    }

    pub fn new(set: &TileSet16<WIDTH, HEIGHT, SIZE>) -> (r: Self)
        ensures
            r.remaining() == *set,
    {
        TrueTilesIter16 { inner: *set }
    }

    /// The first remaining tile, which is no longer to come.
    pub fn next(&mut self) -> (r: Option<Tile<WIDTH, HEIGHT>>)
        ensures
            r is None <==> forall|j: int| !#[trigger] old(self).remaining().contains(j),
            r is None ==> final(self).remaining() == old(self).remaining(),
            r matches Some(t) ==> old(self).remaining().contains(t.index() as int) && (forall|j: int|
                0 <= j < t.index() ==> !#[trigger] old(self).remaining().contains(j)) && (forall|j: int| #[trigger] final(self).remaining().contains(j) == (j != t.index() && old(self).remaining().contains(j))),
    {
        let ghost before = self.inner;
        let r = self.inner.pop();
        proof {
            assert(before == old(self).remaining());
            assert((forall|j: int| !#[trigger] before.contains(j)) == (forall|j: int|
                !#[trigger] old(self).remaining().contains(j)));
        }
        r
    }

    /// The last remaining tile, which is no longer to come.
    pub fn next_back(&mut self) -> (r: Option<Tile<WIDTH, HEIGHT>>)
        ensures
            r is None <==> forall|j: int| !#[trigger] old(self).remaining().contains(j),
            r is None ==> final(self).remaining() == old(self).remaining(),
            r matches Some(t) ==> old(self).remaining().contains(t.index() as int) && (forall|j: int|
                t.index() < j ==> !#[trigger] old(self).remaining().contains(j)) && (forall|j: int| #[trigger] final(self).remaining().contains(j) == (j != t.index() && old(self).remaining().contains(j))),
    {
        let ghost before = self.inner;
        let r = self.inner.pop_last();
        proof {
            assert(before == old(self).remaining());
            assert((forall|j: int| !#[trigger] before.contains(j)) == (forall|j: int|
                !#[trigger] old(self).remaining().contains(j)));
        }
        r
    }

    /// The number of remaining tiles.
    pub fn len(&self) -> (r: usize)
        ensures
            r == bits::bits_below(self.remaining().bits(), 16),
    {
        self.inner.count() as usize
    }

    /// The number of remaining tiles.
    pub fn count(self) -> (r: usize)
        ensures
            r == bits::bits_below(self.remaining().bits(), 16),
    {
        self.inner.count() as usize
    }

    /// The last remaining tile.
    pub fn last(self) -> (r: Option<Tile<WIDTH, HEIGHT>>)
        ensures
            r is None <==> forall|j: int| !#[trigger] self.remaining().contains(j),
            r matches Some(t) ==> self.remaining().contains(t.index() as int) && forall|j: int| t.index() < j ==> !#[trigger] self.remaining().contains(j),
    {
        let r = self.inner.last();
        proof {
            assert(self.inner == self.remaining());
        }
        r
    }

    /// The greatest remaining tile, which is the last.
    pub fn max(self) -> (r: Option<Tile<WIDTH, HEIGHT>>)
        ensures
            r is None <==> forall|j: int| !#[trigger] self.remaining().contains(j),
            r matches Some(t) ==> self.remaining().contains(t.index() as int) && forall|j: int| t.index() < j ==> !#[trigger] self.remaining().contains(j),
    {
        self.last()
    }

    /// Skips `n` tiles (`n` taken modulo `2^32`, as a `u32`) from the front and gives the next one; where
    /// too few tiles remain, gives none and leaves none.
    pub fn nth(&mut self, n: usize) -> (r: Option<Tile<WIDTH, HEIGHT>>)
        ensures
            ({
                let m = (n as int) % 0x1_0000_0000int;
                let old_bits = old(self).remaining().bits();
                if bits::bits_below(old_bits, 16) <= m {
                    r is None && forall|j: int| !#[trigger] final(self).remaining().contains(j)
                } else {
                    r matches Some(t) && old(self).remaining().contains(t.index() as int) && bits::bits_below(
                        old_bits,
                        t.index() as int,
                    ) == m && forall|j: int| #[trigger] final(self).remaining().contains(j) == (j > t.index()
                        && old(self).remaining().contains(j))
                }
            }),
    {
        let wide: u64 = n as u64 % 0x1_0000_0000;
        assert(wide < 0x1_0000_0000);
        let m: u32 = wide as u32;
        assert(m == (n as int) % 0x1_0000_0000int);
        if self.inner.count() <= m {
            self.inner = TileSet16::default();
            return None;
        }
        let ghost old_set = self.inner;
        let ghost mut lo: int = 0;
        proof {
            old_set.lemma_width();
        }
        let mut k: u32 = 0;
        loop
            invariant
                old_set == old(self).remaining(),
                m == (n as int) % 0x1_0000_0000int,
                forall|j: int| 16 <= j ==> !#[trigger] bits::has_bit(old_set.bits(), j),
                k <= m,
                bits::bits_below(old_set.bits(), 16) > m,
                0 <= lo <= 16,
                bits::bits_below(old_set.bits(), lo) == k,
                forall|j: int| #[trigger] self.inner.contains(j) == (old_set.contains(j) && j >= lo),
            decreases m - k,
        {
            proof {
                if forall|j: int| !#[trigger] self.inner.contains(j) {
                    assert forall|j: int| lo <= j < 16 implies !#[trigger] bits::has_bit(old_set.bits(), j) by {
                        assert(!self.inner.contains(j));
                    }
                    bits::lemma_bits_below_gap(old_set.bits(), lo, 16);
                }
            }
            let ghost before = self.inner;
            let t = self.inner.pop().unwrap();
            proof {
                assert forall|j: int| lo <= j < t.index() implies !#[trigger] bits::has_bit(old_set.bits(), j) by {
                    assert(!before.contains(j));
                }
                bits::lemma_bits_below_gap(old_set.bits(), lo, t.index() as int);
                assert(old_set.contains(t.index() as int));
                assert(bits::bits_below(old_set.bits(), (t.index() + 1) as int) == k + 1);
                lo = (t.index() + 1) as int;
                assert forall|j: int| #[trigger] self.inner.contains(j) == (old_set.contains(j) && j >= lo) by {
                    assert(before.contains(j) == (old_set.contains(j) && j >= t.index()));
                }
            }
            if k == m {
                return Some(t);
            }
            k = k + 1;
        }
    }

    /// Skips `n` tiles (`n` taken modulo `2^32`, as a `u32`) from the back and gives the next one; where too
    /// few tiles remain, gives none and leaves none.
    pub fn nth_back(&mut self, n: usize) -> (r: Option<Tile<WIDTH, HEIGHT>>)
        ensures
            ({
                let m = (n as int) % 0x1_0000_0000int;
                let old_bits = old(self).remaining().bits();
                if bits::bits_below(old_bits, 16) <= m {
                    r is None && forall|j: int| !#[trigger] final(self).remaining().contains(j)
                } else {
                    r matches Some(t) && old(self).remaining().contains(t.index() as int) && bits::bits_below(
                        old_bits,
                        16,
                    ) - bits::bits_below(old_bits, (t.index() + 1) as int) == m && forall|j: int|
                        #[trigger] final(self).remaining().contains(j) == (j < t.index() && old(self).remaining().contains(j))
                }
            }),
    {
        let wide: u64 = n as u64 % 0x1_0000_0000;
        assert(wide < 0x1_0000_0000);
        let m: u32 = wide as u32;
        assert(m == (n as int) % 0x1_0000_0000int);
        if self.inner.count() <= m {
            self.inner = TileSet16::default();
            return None;
        }
        let ghost old_set = self.inner;
        let ghost total = bits::bits_below(old_set.bits(), 16);
        let ghost mut hi: int = 16;
        proof {
            old_set.lemma_width();
            bits::lemma_bits_below_bounds(old_set.bits(), 16);
        }
        let mut k: u32 = 0;
        loop
            invariant
                old_set == old(self).remaining(),
                total == bits::bits_below(old_set.bits(), 16),
                m == (n as int) % 0x1_0000_0000int,
                forall|j: int| 16 <= j ==> !#[trigger] bits::has_bit(old_set.bits(), j),
                k <= m,
                total > m,
                0 <= hi <= 16,
                total - bits::bits_below(old_set.bits(), hi) == k,
                forall|j: int| #[trigger] self.inner.contains(j) == (old_set.contains(j) && j < hi),
            decreases m - k,
        {
            proof {
                if forall|j: int| !#[trigger] self.inner.contains(j) {
                    assert forall|j: int| 0 <= j < hi implies !#[trigger] bits::has_bit(old_set.bits(), j) by {
                        assert(!self.inner.contains(j));
                    }
                    bits::lemma_bits_below_gap(old_set.bits(), 0, hi);
                }
            }
            let ghost before = self.inner;
            let t = self.inner.pop_last().unwrap();
            proof {
                assert forall|j: int| t.index() < j < hi implies !#[trigger] bits::has_bit(old_set.bits(), j) by {
                    assert(!before.contains(j));
                }
                bits::lemma_bits_below_gap(old_set.bits(), (t.index() + 1) as int, hi);
                assert(old_set.contains(t.index() as int));
                assert(bits::bits_below(old_set.bits(), (t.index() + 1) as int) == bits::bits_below(old_set.bits(), t.index() as int) + 1);
                hi = t.index() as int;
                assert forall|j: int| #[trigger] self.inner.contains(j) == (old_set.contains(j) && j < hi) by {
                    assert(before.contains(j) == (old_set.contains(j) && j <= t.index()));
                }
            }
            if k == m {
                return Some(t);
            }
            k = k + 1;
        }
    }

    /// The least remaining tile, which is the first.
    pub fn min(self) -> (r: Option<Tile<WIDTH, HEIGHT>>)
        ensures
            r is None <==> forall|j: int| !#[trigger] self.remaining().contains(j),
            r matches Some(t) ==> self.remaining().contains(t.index() as int) && forall|j: int| 0 <= j < t.index() ==> !#[trigger] self.remaining().contains(j),
    {
        let mut it = self;
        it.next()
    }
}


/// Iterates the bits of a set from `bottom_index` (inclusive) up to `top_index` (exclusive),
/// every `STEP` bits, from either end.
#[derive(Clone, Copy, Debug)]
pub struct TileSetIter16<const STEP: u8> {
    inner: u16,
    bottom_index: usize,
    top_index: usize,
}

impl<const STEP: u8> TileSetIter16<STEP> {
    /// The bits of the set.
    pub closed spec fn word(self) -> u64 {
        self.inner as u64
    }

    /// The index of the next bit from the bottom.
    pub closed spec fn bottom(self) -> int {
        self.bottom_index as int
    }

    /// The index just past the next bit from the top.
    pub closed spec fn top(self) -> int {
        self.top_index as int
    }

    /// The number of bits still to come.
    pub open spec fn remaining_count(self) -> int {
        if self.top() > self.bottom() {
            (self.top() - self.bottom()) / STEP as int
        } else {
            0
        }
    }

    pub fn new(inner: u16, bottom_index: usize, top_index: usize) -> (r: Self)
        ensures
            r.word() == inner as u64,
            r.bottom() == bottom_index,
            r.top() == top_index,
    {
        TileSetIter16 { inner, bottom_index, top_index }
    }

    /// The number of bits still to come.
    pub fn len(&self) -> (r: usize)
        requires
            STEP > 0,
        ensures
            r == self.remaining_count(),
    {
        self.count()
    }

    /// The number of bits still to come.
    pub fn count(self) -> (r: usize)
        requires
            STEP > 0,
        ensures
            r == self.remaining_count(),
    {
        let distance: usize = if self.top_index > self.bottom_index {
            self.top_index - self.bottom_index
        } else {
            0
        };
        distance / (STEP as usize)
    }

    /// The next bit from the bottom, if the bottom is below the top.
    pub fn next(&mut self) -> (r: Option<bool>)
        requires
            old(self).bottom() < old(self).top() ==> old(self).bottom() < 16,
        ensures
            final(self).word() == old(self).word(),
            final(self).top() == old(self).top(),
            old(self).bottom() >= old(self).top() ==> r is None && final(self).bottom() == old(self).bottom(),
            old(self).bottom() < old(self).top() ==> r == Some(bits::has_bit(old(self).word(), old(self).bottom()))
                && final(self).bottom() == old(self).bottom() + STEP,
    {
        if self.bottom_index >= self.top_index {
            None
        } else {
            let r = ((self.inner as u64) >> (self.bottom_index as u64)) & 1 == 1;
            self.bottom_index = self.bottom_index + (STEP as usize);
            Some(r)
        }
    }

    /// The next bit from the top, if one lies at or above the bottom.
    pub fn next_back(&mut self) -> (r: Option<bool>)
        requires
            old(self).top() <= 16,
            STEP > 0 || old(self).top() < 16,
        ensures
            final(self).word() == old(self).word(),
            final(self).bottom() == old(self).bottom(),
            ({
                let next = if old(self).top() >= STEP { old(self).top() - STEP } else { 0 };
                if old(self).top() == 0 || old(self).bottom() > next {
                    r is None && final(self).top() == old(self).top()
                } else {
                    r == Some(bits::has_bit(old(self).word(), next)) && final(self).top() == next
                }
            }),
    {
        if self.top_index == 0 {
            return None;
        }
        let next_index: usize = if self.top_index >= STEP as usize {
            self.top_index - STEP as usize
        } else {
            0
        };
        if self.bottom_index > next_index {
            None
        } else {
            self.top_index = next_index;
            let r = ((self.inner as u64) >> (self.top_index as u64)) & 1 == 1;
            Some(r)
        }
    }
}
/// A grid
/// A map from tiles to bools. Can store up to 32 tiles.
#[derive(Clone, Copy, Debug, Hash, PartialOrd, Ord)]
pub struct TileSet32<const WIDTH: u8, const HEIGHT: u8, const SIZE: usize>(u32);

impl<const WIDTH: u8, const HEIGHT: u8, const SIZE: usize> PartialEq for TileSet32<WIDTH, HEIGHT, SIZE> {
    fn eq(&self, other: &Self) -> (r: bool) {
        self.0 == other.0
    }
}

impl<const WIDTH: u8, const HEIGHT: u8, const SIZE: usize> Eq for TileSet32<WIDTH, HEIGHT, SIZE> {
}

impl<const WIDTH: u8, const HEIGHT: u8, const SIZE: usize> vstd::std_specs::cmp::PartialEqSpecImpl for TileSet32<WIDTH, HEIGHT, SIZE> {
    open spec fn obeys_eq_spec() -> bool {
        true
    }

    open spec fn eq_spec(&self, other: &Self) -> bool {
        self.bits() == other.bits()
    }
}

impl<const WIDTH: u8, const HEIGHT: u8, const SIZE: usize> Default for TileSet32<WIDTH, HEIGHT, SIZE> {
    fn default() -> (r: Self)
        ensures
            forall|j: int| !#[trigger] r.contains(j),
    {
        let r = TileSet32(0);
        proof {
            r.lemma_empty();
        }
        r
    }
}

impl<const WIDTH: u8, const HEIGHT: u8, const SIZE: usize> TileSet32<WIDTH, HEIGHT, SIZE> {
    /// The bits of the set, as a 64 bit word.
    pub closed spec fn bits(self) -> u64 {
        self.0 as u64
    }

    /// Whether position `i` is in the set.
    pub open spec fn contains(self, i: int) -> bool {
        bits::has_bit(self.bits(), i)
    }

    /// Whether the set holds one bit per tile of the grid and the word is wide enough.
    pub open spec fn legal() -> bool {
        SIZE == WIDTH as nat * HEIGHT as nat && SIZE <= 32
    }

    /// The textual form of the first `n` positions of the set, `*` for each position in the set
    /// and `_` for the others, with a line break before each row but the first when `lines`.
    pub open spec fn text_prefix(self, n: int, lines: bool) -> Seq<char>
        decreases n,
    {
        if n <= 0 {
            Seq::empty()
        } else {
            let i = n - 1;
            let sep = if lines && i > 0 && i % (WIDTH as int) == 0 {
                seq!['\n']
            } else {
                Seq::empty()
            };
            self.text_prefix(i, lines) + sep + seq![
                if self.contains(i) {
                    '*'
                } else {
                    '_'
                },
            ]
        }
    }

    /// Sets with the same bits are equal.
    pub proof fn lemma_bits_injective(self, other: Self)
        ensures
            self.bits() == other.bits() <==> self == other,
    {
    }

    /// No position at or above the width of the word is in the set.
    pub proof fn lemma_width(self)
        ensures
            forall|j: int| 32 <= j ==> !#[trigger] self.contains(j),
            forall|j: int| 32 <= j ==> !#[trigger] bits::has_bit(self.bits(), j),
    {
        assert((1u64 << 32u64) == 4294967296u64) by (bit_vector);
        bits::lemma_below_power(self.bits(), 32u64);
    }

    /// Sets with the same positions are equal.
    pub proof fn lemma_ext(self, other: Self)
        requires
            forall|j: int| 0 <= j < 32 ==> #[trigger] self.contains(j) == other.contains(j),
        ensures
            self == other,
    {
        self.lemma_width();
        other.lemma_width();
        assert forall|j: int| 0 <= j < 64 implies #[trigger] bits::has_bit(self.bits(), j) == bits::has_bit(other.bits(), j) by {
            if j < 32 {
                assert(self.contains(j) == other.contains(j));
            }
        }
        bits::lemma_bits_equal(self.bits(), other.bits());
        
    }

    proof fn lemma_empty(self)
        requires
            self.0 == 0,
        ensures
            forall|j: int| !#[trigger] self.contains(j),
    {
        bits::lemma_empty_word();
    }

    /// The set whose bits are those of a word with no bit beyond the width of the set.
    fn from_word(w: u64) -> (r: Self)
        requires
            forall|j: int| 32 <= j ==> !#[trigger] bits::has_bit(w, j),
        ensures
            r.bits() == w,
    {
        proof {
            bits::lemma_fits(w, 32u64);
            assert((1u64 << 32u64) == 4294967296u64) by (bit_vector);
        }
        TileSet32(w as u32)
    }

    /// The set where all tiles are missing
    pub fn empty() -> (r: Self)
        requires
            Self::legal(),
        ensures
            forall|j: int| !#[trigger] r.contains(j),
    {
        let r = TileSet32(0);
        proof {
            r.lemma_empty();
        }
        r
    }

    /// The set where all tiles are present
    pub fn all() -> (r: Self)
        requires
            Self::legal(),
            1 <= SIZE,
        ensures
            forall|j: int| #[trigger] r.contains(j) == (0 <= j < SIZE),
    {
        Self::empty().negate()
    }

    /// The set of the tiles for which a function returns true.
    pub fn from_fn<F: Fn(Tile<WIDTH, HEIGHT>) -> bool>(cb: F) -> (r: Self)
        requires
            Self::legal(),
            Tile::<WIDTH, HEIGHT>::legal(),
            forall|t: Tile<WIDTH, HEIGHT>| t.wf() ==> #[trigger] cb.requires((t,)),
        ensures
            forall|t: Tile<WIDTH, HEIGHT>| t.wf() ==> #[trigger] cb.ensures((t,), r.contains(t.index() as int)),
            forall|j: int| !(0 <= j < SIZE) ==> !#[trigger] r.contains(j),
    {
        let tiles = Tile::<WIDTH, HEIGHT>::iter_by_row();
        let mut result = Self::empty();
        let mut i: usize = 0;
        while i < tiles.len()
            invariant
                Self::legal(),
                tiles@.len() == SIZE,
                i <= tiles@.len(),
                forall|k: int| 0 <= k < tiles@.len() ==> (#[trigger] tiles@[k]).wf() && tiles@[k].index() == k,
                forall|t: Tile<WIDTH, HEIGHT>| t.wf() ==> #[trigger] cb.requires((t,)),
                forall|k: int| 0 <= k < i ==> #[trigger] cb.ensures((tiles@[k],), result.contains(k)),
                forall|j: int| !(0 <= j < i) ==> !#[trigger] result.contains(j),
            decreases tiles@.len() - i,
        {
            let t = tiles[i];
            let b = cb(t);
            let ghost before = result;
            if b {
                result.set_bit(&t, true);
            }
            proof {
                assert forall|k: int| 0 <= k < i + 1 implies #[trigger] cb.ensures(
                    (tiles@[k],),
                    result.contains(k),
                ) by {
                    if k < i {
                        assert(cb.ensures((tiles@[k],), before.contains(k)));
                        assert(result.contains(k) == before.contains(k));
                    } else {
                        assert(tiles@[k] == t);
                        assert(result.contains(k) == b);
                    }
                }
                assert forall|j: int| !(0 <= j < i + 1) implies !#[trigger] result.contains(j) by {
                    assert(result.contains(j) == before.contains(j));
                }
            }
            i = i + 1;
        }
        proof {
            assert forall|t: Tile<WIDTH, HEIGHT>| t.wf() implies #[trigger] cb.ensures(
                (t,),
                result.contains(t.index() as int),
            ) by {
                let k = t.index() as int;
                assert(tiles@[k].index() == t.index());
                t.lemma_index_injective(tiles@[k]);
            }
        }
        result
    }

    pub fn from_inner(inner: u32) -> (r: Self)
        requires
            Self::legal(),
        ensures
            r.bits() == inner,
    {
        TileSet32(inner)
    }

    pub fn into_inner(self) -> (r: u32)
        ensures
            r == self.bits(),
    {
        self.0
    }

    /// Whether no position is in the set.
    pub fn is_empty(self) -> (r: bool)
        ensures
            r == forall|j: int| !#[trigger] self.contains(j),
    {
        if self.0 == 0 {
            proof {
                self.lemma_empty();
            }
            true
        } else {
            proof {
                bits::lemma_empty_word();
                if forall|j: int| !#[trigger] self.contains(j) {
                    assert forall|j: int| 0 <= j < 64 implies #[trigger] bits::has_bit(self.bits(), j) == bits::has_bit(
                        0u64,
                        j,
                    ) by {
                        assert(!self.contains(j));
                    }
                    bits::lemma_bits_equal(self.bits(), 0u64);
                }
            }
            false
        }
    }

    /// Adds a tile to the set, or removes it.
    pub fn set_bit(&mut self, tile: &Tile<WIDTH, HEIGHT>, bit: bool)
        requires
            tile.index() < 32,
        ensures
            forall|j: int| #[trigger] final(self).contains(j) == if j == tile.index() {
                bit
            } else {
                old(self).contains(j)
            },
    {
        *self = self.with_bit_set(tile, bit);
    }

    /// Returns a copy of self with the bit at `tile` set to `bit`
    pub fn with_bit_set(&self, tile: &Tile<WIDTH, HEIGHT>, bit: bool) -> (r: Self)
        requires
            tile.index() < 32,
        ensures
            forall|j: int| #[trigger] r.contains(j) == if j == tile.index() {
                bit
            } else {
                self.contains(j)
            },
    {
        let i = tile.inner() as u64;
        let w = self.0 as u64;
        let nw = if bit {
            w | (1u64 << i)
        } else {
            w & !(1u64 << i)
        };
        proof {
            self.lemma_width();
            bits::lemma_set_bit(w, i);
            bits::lemma_clear_bit(w, i);
            assert(forall|j: int| #[trigger] bits::has_bit(nw, j) == if j == i {
                bit
            } else {
                bits::has_bit(w, j)
            });
            assert(self.bits() == w);
            assert(forall|j: int| 32 <= j ==> !#[trigger] bits::has_bit(w, j));
            assert(forall|j: int| 32 <= j ==> !#[trigger] bits::has_bit(nw, j));
        }
        Self::from_word(nw)
    }

    /// Whether a tile is in the set.
    pub fn get_bit(&self, tile: &Tile<WIDTH, HEIGHT>) -> (r: bool)
        requires
            tile.index() < 32,
        ensures
            r == self.contains(tile.index() as int),
    {
        ((self.0 as u64) >> (tile.inner() as u64)) & 1 == 1
    }

    /// The positions from `bottom` (inclusive) up to `top` (exclusive), every `step`.
    fn read_bits(&self, bottom: usize, top: usize, step: usize) -> (r: Vec<bool>)
        requires
            top <= 32,
            1 <= step <= 255,
        ensures
            bottom + r@.len() * step >= top,
            r@.len() > 0 ==> bottom + (r@.len() - 1) * step < top,
            step == 1 ==> r@.len() == if bottom < top {
                top - bottom
            } else {
                0
            },
            forall|k: int|
                0 <= k < r@.len() ==> #[trigger] r@[k] == self.contains(bottom + k * step),
    {
        let mut result: Vec<bool> = Vec::new();
        let mut index: usize = bottom;
        proof {
            assert(bottom + 0 * step == bottom) by (nonlinear_arith);
        }
        while index < top
            invariant
                top <= 32,
                1 <= step <= 255,
                index == bottom + result@.len() * step,
                result@.len() > 0 ==> bottom + (result@.len() - 1) * step < top,
                bottom <= index,
                step == 1 ==> result@.len() == index - bottom,
                step == 1 && bottom <= top ==> index <= top,
                forall|k: int|
                    0 <= k < result@.len() ==> #[trigger] result@[k] == self.contains(
                        bottom + k * step,
                    ),
            decreases if index <= top {
                top - index
            } else {
                0
            },
        {
            let b = ((self.0 as u64) >> (index as u64)) & 1 == 1;
            let ghost len = result@.len() as int;
            let ghost before = result@;
            proof {
                assert(b == self.contains(index as int));
            }
            result.push(b);
            proof {
                assert forall|k: int| 0 <= k < result@.len() implies #[trigger] result@[k]
                    == self.contains(bottom + k * step) by {
                    if k < len {
                        assert(result@[k] == before[k]);
                    }
                }
                assert(bottom + len * step + step == bottom + (len + 1) * step) by (nonlinear_arith);
                if step == 1 {
                    assert(len * step == len);
                }
            }
            index = index + step;
        }
        result
    }

    /// The positions of the set in order.
    pub fn iter(&self) -> (r: Vec<bool>)
        requires
            SIZE <= 32,
        ensures
            r@.len() == SIZE,
            forall|k: int| 0 <= k < r@.len() ==> #[trigger] r@[k] == self.contains(k),
    {
        let r = self.read_bits(0, SIZE, 1);
        proof {
            assert forall|k: int| 0 <= k < r@.len() implies #[trigger] r@[k] == self.contains(k) by {
                assert(0 + k * 1 == k);
            }
        }
        r
    }

    /// The positions of a row of the set, from west to east.
    pub fn row(&self, y: u8) -> (r: Vec<bool>)
        requires
            y < 255,
            (y as int + 1) * WIDTH <= 32,
        ensures
            r@.len() == WIDTH,
            forall|k: int| 0 <= k < r@.len() ==> #[trigger] r@[k] == self.contains(y * WIDTH + k),
    {
        proof {
            assert((y as int + 1) * WIDTH == y * WIDTH + WIDTH) by (nonlinear_arith);
            assert(0 <= y * WIDTH) by (nonlinear_arith);
        }
        let bottom = (y * WIDTH) as usize;
        let top = ((y + 1) * WIDTH) as usize;
        let r = self.read_bits(bottom, top, 1);
        proof {
            assert forall|k: int| 0 <= k < r@.len() implies #[trigger] r@[k] == self.contains(y * WIDTH + k) by {
                assert(bottom + k * 1 == y * WIDTH + k);
            }
        }
        r
    }

    /// The positions `x`, `x + HEIGHT`, `x + 2 * HEIGHT`, ... below
    /// `WIDTH * (HEIGHT - 1) + x + 1`, in order.
    pub fn col(&self, x: u8) -> (r: Vec<bool>)
        requires
            1 <= HEIGHT,
            WIDTH * (HEIGHT - 1) + x + 1 <= 32,
        ensures
            x + r@.len() * HEIGHT >= WIDTH * (HEIGHT - 1) + x + 1,
            r@.len() > 0 ==> x + (r@.len() - 1) * HEIGHT < WIDTH * (HEIGHT - 1) + x + 1,
            forall|k: int| 0 <= k < r@.len() ==> #[trigger] r@[k] == self.contains(x + k * HEIGHT),
    {
        proof {
            assert(0 <= WIDTH * (HEIGHT - 1)) by (nonlinear_arith)
                requires
                    1 <= HEIGHT,
            ;
        }
        let top = ((WIDTH * (HEIGHT - 1)) + x + 1) as usize;
        let r = self.read_bits(x as usize, top, HEIGHT as usize);
        proof {
            assert(top == WIDTH * (HEIGHT - 1) + x + 1);
        }
        r
    }

    /// The set moved `rows` rows towards the north; rows leaving the grid are lost.
    pub fn shift_north(&self, rows: u8) -> (r: Self)
        requires
            rows * WIDTH < 32,
            1 <= SIZE <= 32,
        ensures
            forall|j: int| #[trigger] r.contains(j) == (0 <= j < SIZE && self.contains(j + rows * WIDTH)),
    {
        proof {
            assert(0 <= rows * WIDTH) by (nonlinear_arith);
        }
        let k = (rows * WIDTH) as u64;
        let n = SIZE as u64;
        let w = self.0 as u64;
        let mask: u64 = u64::MAX >> (64 - n);
        let shifted = w >> k;
        let nw = shifted & mask;
        proof {
            bits::lemma_shift(w, k);
            bits::lemma_low_mask(0u64, n);
            bits::lemma_bitwise(shifted, mask);
            assert(forall|j: int| #[trigger] bits::has_bit(nw, j) == (0 <= j < SIZE && bits::has_bit(w, j + k)));
            assert(forall|j: int| 32 <= j ==> !#[trigger] bits::has_bit(nw, j));
        }
        Self::from_word(nw)
    }

    /// The set moved `rows` rows towards the south; rows leaving the grid are lost.
    pub fn shift_south(&self, rows: u8) -> (r: Self)
        requires
            rows * WIDTH < 32,
            1 <= SIZE <= 32,
        ensures
            forall|j: int| #[trigger] r.contains(j) == (rows * WIDTH <= j < SIZE && self.contains(j - rows * WIDTH)),
    {
        proof {
            assert(0 <= rows * WIDTH) by (nonlinear_arith);
        }
        let k = (rows * WIDTH) as u64;
        let n = SIZE as u64;
        let w = self.0 as u64;
        let mask: u64 = u64::MAX >> (64 - n);
        let shifted = w << k;
        let nw = shifted & mask;
        proof {
            bits::lemma_shift(w, k);
            bits::lemma_low_mask(0u64, n);
            bits::lemma_bitwise(shifted, mask);
            assert(forall|j: int| #[trigger] bits::has_bit(nw, j) == (k <= j < SIZE && bits::has_bit(w, j - k)));
            assert(forall|j: int| 32 <= j ==> !#[trigger] bits::has_bit(nw, j));
        }
        Self::from_word(nw)
    }

    /// The set of the tiles of row `y`.
    pub fn row_mask(y: u8) -> (r: Self)
        requires
            Self::legal(),
            Tile::<WIDTH, HEIGHT>::legal(),
            1 <= WIDTH,
            1 <= HEIGHT,
            y * WIDTH < 32,
        ensures
            forall|j: int| #[trigger] r.contains(j) == (y * WIDTH <= j < y * WIDTH + WIDTH && j < 32),
    {
        let mut row_zero: u64 = 0;
        let mut x: u8 = 0;
        proof {
            bits::lemma_empty_word();
            assert(WIDTH <= 32) by (nonlinear_arith)
                requires
                    1 <= HEIGHT,
                    WIDTH as nat * HEIGHT as nat <= 32,
            ;
        }
        while x < WIDTH
            invariant
                Tile::<WIDTH, HEIGHT>::legal(),
                WIDTH <= 32,
                x <= WIDTH,
                forall|j: int| #[trigger] bits::has_bit(row_zero, j) == (0 <= j < x),
            decreases WIDTH - x,
        {
            proof {
                bits::lemma_set_bit(row_zero, x as u64);
            }
            row_zero = row_zero | (1u64 << (x as u64));
            x = x + 1;
        }
        proof {
            assert(0 <= y * WIDTH) by (nonlinear_arith);
        }
        let k = (y * WIDTH) as u64;
        proof {
            bits::lemma_shift(row_zero, k);
        }
        let shifted = row_zero << k;
        let mask: u64 = u64::MAX >> (64 - 32u64);
        let nw = shifted & mask;
        proof {
            bits::lemma_low_mask(0u64, 32u64);
            bits::lemma_bitwise(shifted, mask);
            assert(forall|j: int| #[trigger] bits::has_bit(nw, j) == (k <= j < 32 && bits::has_bit(row_zero, j - k)));
            assert(forall|j: int| 32 <= j ==> !#[trigger] bits::has_bit(nw, j));
        }
        Self::from_word(nw)
    }

    /// The set of the tiles of column `x`.
    pub fn col_mask(x: u8) -> (r: Self)
        requires
            Self::legal(),
            Tile::<WIDTH, HEIGHT>::legal(),
            1 <= WIDTH,
            1 <= HEIGHT,
            x < 32,
        ensures
            forall|j: int| #[trigger] r.contains(j) == (x <= j < 32 && (j - x) % (WIDTH as int) == 0
                && (j - x) / (WIDTH as int) < HEIGHT),
    {
        let mut col_zero: u64 = 0;
        let mut y: u8 = 0;
        proof {
            bits::lemma_empty_word();
        }
        while y < HEIGHT
            invariant
                Self::legal(),
                Tile::<WIDTH, HEIGHT>::legal(),
                1 <= WIDTH,
                y <= HEIGHT,
                forall|j: int| #[trigger] bits::has_bit(col_zero, j) == (0 <= j && j % (WIDTH as int) == 0 && j / (WIDTH as int) < y),
            decreases HEIGHT - y,
        {
            proof {
                lemma_index_bound(0, y as int, WIDTH as int, HEIGHT as int);
                lemma_byte_product(WIDTH as int, y as int);
            }
            let i = (WIDTH as u64) * (y as u64);
            proof {
                bits::lemma_set_bit(col_zero, i);
                lemma_index_coords(0, y as int, WIDTH as int);
                assert forall|j: int| #[trigger] bits::has_bit(col_zero | (1u64 << i), j) == (0 <= j && j % (WIDTH as int) == 0 && j / (WIDTH as int) < y + 1) by {
                    if 0 <= j {
                        lemma_coords_index(j, WIDTH as int);
                        if j % (WIDTH as int) == 0 && j / (WIDTH as int) == y {
                            assert(j == i);
                        }
                        if j % (WIDTH as int) == 0 && j / (WIDTH as int) < y + 1 {
                            assert(WIDTH * (j / (WIDTH as int)) <= WIDTH * y) by (nonlinear_arith)
                                requires
                                    j / (WIDTH as int) <= y,
                                    0 <= WIDTH,
                            ;
                        }
                        if j == i {
                            assert(j % (WIDTH as int) == 0 && j / (WIDTH as int) == y);
                        }
                    }
                }
            }
            col_zero = col_zero | (1u64 << i);
            y = y + 1;
        }
        let k = x as u64;
        proof {
            bits::lemma_shift(col_zero, k);
        }
        let shifted = col_zero << k;
        let mask: u64 = u64::MAX >> (64 - 32u64);
        let nw = shifted & mask;
        proof {
            bits::lemma_low_mask(0u64, 32u64);
            bits::lemma_bitwise(shifted, mask);
            assert(forall|j: int| #[trigger] bits::has_bit(nw, j) == (k <= j < 32 && bits::has_bit(col_zero, j - k)));
            assert(forall|j: int| 32 <= j ==> !#[trigger] bits::has_bit(nw, j));
        }
        Self::from_word(nw)
    }

    /// Each tile of the grid, in order, with whether it is in the set.
    pub fn enumerate(&self) -> (r: Vec<(Tile<WIDTH, HEIGHT>, bool)>)
        requires
            Self::legal(),
            Tile::<WIDTH, HEIGHT>::legal(),
        ensures
            r@.len() == SIZE,
            forall|k: int| 0 <= k < r@.len() ==> (#[trigger] r@[k]).0.wf() && r@[k].0.index() == k && r@[k].1 == self.contains(k),
    {
        let bits = self.iter();
        let mut result: Vec<(Tile<WIDTH, HEIGHT>, bool)> = Vec::new();
        let mut i: usize = 0;
        while i < bits.len()
            invariant
                Self::legal(),
                bits@.len() == SIZE,
                forall|k: int| 0 <= k < bits@.len() ==> #[trigger] bits@[k] == self.contains(k),
                i <= bits@.len(),
                result@.len() == i,
                forall|k: int| 0 <= k < result@.len() ==> (#[trigger] result@[k]).0.wf() && result@[k].0.index() == k && result@[k].1 == self.contains(k),
            decreases bits@.len() - i,
        {
            let t = Tile::<WIDTH, HEIGHT>::try_from_usize(i).unwrap();
            result.push((t, bits[i]));
            i = i + 1;
        }
        result
    }

    /// The tiles of the set, from first to last.
    pub fn iter_true_tiles(&self) -> (r: TrueTilesIter32<WIDTH, HEIGHT, SIZE>)
        ensures
            r.remaining() == *self,
    {
        TrueTilesIter32::new(self)
    }

    /// The number of tiles in the set.
    pub fn count(&self) -> (r: u32)
        ensures
            r == bits::bits_below(self.bits(), 32),
    {
        proof {
            self.lemma_width();
            bits::lemma_bits_below_split(self.bits(), 32);
        }
        bits::count_ones(self.0 as u64)
    }

    /// Return the set of tiles in both self and `rhs`.
    pub fn intersect(&self, rhs: &Self) -> (r: Self)
        ensures
            forall|j: int| #[trigger] r.contains(j) == (self.contains(j) && rhs.contains(j)),
    {
        proof {
            self.lemma_width();
            rhs.lemma_width();
            bits::lemma_bitwise(self.0 as u64, rhs.0 as u64);
        }
        let nw = (self.0 as u64) & (rhs.0 as u64);
        proof {
            assert(forall|j: int| #[trigger] bits::has_bit(nw, j) == (bits::has_bit(self.bits(), j) && bits::has_bit(rhs.bits(), j)));
            assert(forall|j: int| 32 <= j ==> !#[trigger] bits::has_bit(nw, j));
        }
        Self::from_word(nw)
    }

    /// Return the set of tiles in either self or `rhs` or both.
    pub fn union(&self, rhs: &Self) -> (r: Self)
        ensures
            forall|j: int| #[trigger] r.contains(j) == (self.contains(j) || rhs.contains(j)),
    {
        proof {
            self.lemma_width();
            rhs.lemma_width();
            bits::lemma_bitwise(self.0 as u64, rhs.0 as u64);
        }
        let nw = (self.0 as u64) | (rhs.0 as u64);
        proof {
            assert(forall|j: int| #[trigger] bits::has_bit(nw, j) == (bits::has_bit(self.bits(), j) || bits::has_bit(rhs.bits(), j)));
            assert(forall|j: int| 32 <= j ==> !#[trigger] bits::has_bit(nw, j));
        }
        Self::from_word(nw)
    }

    /// Whether every tile of self is in `rhs`.
    pub fn is_subset(&self, rhs: &Self) -> (r: bool)
        ensures
            r == forall|j: int| #[trigger] self.contains(j) ==> rhs.contains(j),
    {
        let i = self.intersect(rhs);
        proof {
            if forall|j: int| #[trigger] self.contains(j) ==> rhs.contains(j) {
                i.lemma_ext(*self);
            }
        }
        i.0 == self.0
    }

    /// Whether every tile of `rhs` is in self.
    pub fn is_superset(&self, rhs: &Self) -> (r: bool)
        ensures
            r == forall|j: int| #[trigger] rhs.contains(j) ==> self.contains(j),
    {
        let i = self.intersect(rhs);
        proof {
            if forall|j: int| #[trigger] rhs.contains(j) ==> self.contains(j) {
                i.lemma_ext(*rhs);
            }
        }
        i.0 == rhs.0
    }

    /// Returns a new set containing all elements which belong to one set but not both
    pub fn symmetric_difference(&self, rhs: &Self) -> (r: Self)
        ensures
            forall|j: int| #[trigger] r.contains(j) == (self.contains(j) != rhs.contains(j)),
    {
        proof {
            self.lemma_width();
            rhs.lemma_width();
            bits::lemma_bitwise(self.0 as u64, rhs.0 as u64);
        }
        let nw = (self.0 as u64) ^ (rhs.0 as u64);
        proof {
            assert(forall|j: int| #[trigger] bits::has_bit(nw, j) == (bits::has_bit(self.bits(), j) != bits::has_bit(rhs.bits(), j)));
            assert(forall|j: int| 32 <= j ==> !#[trigger] bits::has_bit(nw, j));
        }
        Self::from_word(nw)
    }

    /// The set of the tiles of the grid that are not in self.
    pub fn negate(&self) -> (r: Self)
        requires
            1 <= SIZE <= 32,
        ensures
            forall|j: int| #[trigger] r.contains(j) == (0 <= j < SIZE && !self.contains(j)),
    {
        let n = SIZE as u64;
        let mask: u64 = u64::MAX >> (64 - n);
        let nw = !(self.0 as u64) & mask;
        proof {
            bits::lemma_low_mask(self.0 as u64, n);
            assert(forall|j: int| #[trigger] bits::has_bit(nw, j) == (0 <= j < SIZE && !bits::has_bit(self.bits(), j)));
            assert(forall|j: int| 32 <= j ==> !#[trigger] bits::has_bit(nw, j));
        }
        Self::from_word(nw)
    }

    /// The first tile in this set
    pub fn first(&self) -> (r: Option<Tile<WIDTH, HEIGHT>>)
        requires
            Self::legal(),
        ensures
            r is None <==> forall|j: int| 0 <= j < Tile::<WIDTH, HEIGHT>::tile_count() ==> !#[trigger] self.contains(j),
            r matches Some(t) ==> t.wf() && self.contains(t.index() as int) && forall|j: int| 0 <= j < t.index() ==> !#[trigger] self.contains(j),
    {
        let w = self.0 as u64;
        let tz = bits::trailing_zeros(w);
        let r = Tile::<WIDTH, HEIGHT>::try_from_inner(tz as u8);
        proof {
            assert(self.bits() == w);
            assert(forall|j: int| 0 <= j < tz ==> !#[trigger] bits::has_bit(w, j));
            assert(forall|j: int| 0 <= j < tz ==> !#[trigger] self.contains(j));
            if w != 0 {
                assert(self.contains(tz as int));
            } else {
                bits::lemma_empty_word();
            }
        }
        r
    }

    /// Removes the first tile in this set and returns it
    /// Returns `None` if the set is empty
    pub fn pop(&mut self) -> (r: Option<Tile<WIDTH, HEIGHT>>)
        ensures
            r is None <==> forall|j: int| !#[trigger] old(self).contains(j),
            r is None ==> *final(self) == *old(self),
            r matches Some(t) ==> old(self).contains(t.index() as int) && (forall|j: int|
                0 <= j < t.index() ==> !#[trigger] old(self).contains(j)) && (forall|j: int| #[trigger] final(self).contains(j) == (j != t.index() && old(self).contains(j))),
    {
        let w = self.0 as u64;
        proof {
            self.lemma_width();
        }
        if w == 0 {
            proof {
                self.lemma_empty();
            }
            return None;
        }
        let index = bits::trailing_zeros(w) as u64;
        let nw = w & !(1u64 << index);
        proof {
            bits::lemma_clear_bit(w, index);
            assert(forall|j: int| #[trigger] bits::has_bit(nw, j) == (j != index && bits::has_bit(w, j)));
            assert(self.bits() == w);
            assert(forall|j: int| 32 <= j ==> !#[trigger] bits::has_bit(w, j));
            assert(forall|j: int| 32 <= j ==> !#[trigger] bits::has_bit(nw, j));
            assert(old(self).contains(index as int));
        }
        *self = Self::from_word(nw);
        Some(Tile::<WIDTH, HEIGHT>::from_inner_unchecked(index as u8))
    }

    /// The last tile in this set
    pub fn last(&self) -> (r: Option<Tile<WIDTH, HEIGHT>>)
        ensures
            r is None <==> forall|j: int| !#[trigger] self.contains(j),
            r matches Some(t) ==> self.contains(t.index() as int) && forall|j: int| t.index() < j ==> !#[trigger] self.contains(j),
    {
        let w = self.0 as u64;
        proof {
            self.lemma_width();
        }
        if w == 0 {
            proof {
                self.lemma_empty();
            }
            return None;
        }
        let index = bits::highest_bit(w);
        proof {
            assert(self.bits() == w);
            assert(self.contains(index as int));
            assert(forall|j: int| index < j ==> !#[trigger] bits::has_bit(w, j));
        }
        Some(Tile::<WIDTH, HEIGHT>::from_inner_unchecked(index as u8))
    }

    /// Removes the last tile in this set and returns it
    /// Returns `None` if the set is empty
    pub fn pop_last(&mut self) -> (r: Option<Tile<WIDTH, HEIGHT>>)
        ensures
            r is None <==> forall|j: int| !#[trigger] old(self).contains(j),
            r is None ==> *final(self) == *old(self),
            r matches Some(t) ==> old(self).contains(t.index() as int) && (forall|j: int|
                t.index() < j ==> !#[trigger] old(self).contains(j)) && (forall|j: int| #[trigger] final(self).contains(j) == (j != t.index() && old(self).contains(j))),
    {
        let w = self.0 as u64;
        proof {
            self.lemma_width();
        }
        if w == 0 {
            proof {
                self.lemma_empty();
            }
            return None;
        }
        let index = bits::highest_bit(w) as u64;
        let nw = w & !(1u64 << index);
        proof {
            bits::lemma_clear_bit(w, index);
            assert(forall|j: int| #[trigger] bits::has_bit(nw, j) == (j != index && bits::has_bit(w, j)));
            assert(self.bits() == w);
            assert(forall|j: int| 32 <= j ==> !#[trigger] bits::has_bit(w, j));
            assert(forall|j: int| 32 <= j ==> !#[trigger] bits::has_bit(nw, j));
            assert(old(self).contains(index as int));
        }
        *self = Self::from_word(nw);
        Some(Tile::<WIDTH, HEIGHT>::from_inner_unchecked(index as u8))
    }

    /// The set of the given tiles.
    pub fn from_iter(tiles: Vec<Tile<WIDTH, HEIGHT>>) -> (r: Self)
        requires
            Self::legal(),
            forall|k: int| 0 <= k < tiles@.len() ==> (#[trigger] tiles@[k]).index() < 32,
        ensures
            forall|j: int| #[trigger] r.contains(j) == exists|k: int| 0 <= k < tiles@.len() && (#[trigger] tiles@[k]).index() == j,
    {
        let mut r = Self::empty();
        let mut i: usize = 0;
        while i < tiles.len()
            invariant
                forall|k: int| 0 <= k < tiles@.len() ==> (#[trigger] tiles@[k]).index() < 32,
                i <= tiles@.len(),
                forall|j: int| #[trigger] r.contains(j) == exists|k: int| 0 <= k < i && (#[trigger] tiles@[k]).index() == j,
            decreases tiles@.len() - i,
        {
            let t = tiles[i];
            let ghost before = r;
            r.set_bit(&t, true);
            proof {
                assert forall|j: int| #[trigger] r.contains(j) == exists|k: int| 0 <= k < i + 1 && (#[trigger] tiles@[k]).index() == j by {
                    if j == t.index() {
                        assert(tiles@[i as int].index() == j);
                    } else {
                        if exists|k: int| 0 <= k < i + 1 && (#[trigger] tiles@[k]).index() == j {
                            let k = choose|k: int| 0 <= k < i + 1 && (#[trigger] tiles@[k]).index() == j;
                            assert(k != i);
                        }
                    }
                }
            }
            i = i + 1;
        }
        r
    }

    /// The text of the set, one line per row (its `Display` form).
    pub fn to_string(&self) -> (s: String)
        requires
            1 <= WIDTH,
            SIZE <= 32,
        ensures
            s@ == self.text_prefix(SIZE as int, true),
    {
        self.write_text(true)
    }

    /// The text of the set on a single line (its alternate `Display` form).
    pub fn to_string_alternate(&self) -> (s: String)
        requires
            1 <= WIDTH,
            SIZE <= 32,
        ensures
            s@ == self.text_prefix(SIZE as int, false),
    {
        self.write_text(false)
    }

    fn write_text(&self, lines: bool) -> (s: String)
        requires
            1 <= WIDTH,
            SIZE <= 32,
        ensures
            s@ == self.text_prefix(SIZE as int, lines),
    {
        let bits = self.iter();
        let mut s = String::new();
        let mut i: usize = 0;
        while i < bits.len()
            invariant
                1 <= WIDTH,
                bits@.len() == SIZE,
                forall|k: int| 0 <= k < bits@.len() ==> #[trigger] bits@[k] == self.contains(k),
                i <= bits@.len(),
                s@ == self.text_prefix(i as int, lines),
            decreases bits@.len() - i,
        {
            if lines && i > 0 && i % (WIDTH as usize) == 0 {
                push_char(&mut s, '\n');
            }
            if bits[i] {
                push_char(&mut s, '*');
            } else {
                push_char(&mut s, '_');
            }
            i = i + 1;
        }
        s
    }
}

/// Iterates through the tiles of a set, from either end.
#[derive(Clone, Debug)]
pub struct TrueTilesIter32<const WIDTH: u8, const HEIGHT: u8, const SIZE: usize> {
    inner: TileSet32<WIDTH, HEIGHT, SIZE>,
}

impl<const WIDTH: u8, const HEIGHT: u8, const SIZE: usize> TrueTilesIter32<WIDTH, HEIGHT, SIZE> {
    /// The tiles that are still to come.
    pub closed spec fn remaining(self) -> TileSet32<WIDTH, HEIGHT, SIZE> {
        self.inner
    }

    pub fn new(set: &TileSet32<WIDTH, HEIGHT, SIZE>) -> (r: Self)
        ensures
            r.remaining() == *set,
    {
        TrueTilesIter32 { inner: *set }
    }

    /// The first remaining tile, which is no longer to come.
    pub fn next(&mut self) -> (r: Option<Tile<WIDTH, HEIGHT>>)
        ensures
            r is None <==> forall|j: int| !#[trigger] old(self).remaining().contains(j),
            r is None ==> final(self).remaining() == old(self).remaining(),
            r matches Some(t) ==> old(self).remaining().contains(t.index() as int) && (forall|j: int|
                0 <= j < t.index() ==> !#[trigger] old(self).remaining().contains(j)) && (forall|j: int| #[trigger] final(self).remaining().contains(j) == (j != t.index() && old(self).remaining().contains(j))),
    {
        let ghost before = self.inner;
        let r = self.inner.pop();
        proof {
            assert(before == old(self).remaining());
            assert((forall|j: int| !#[trigger] before.contains(j)) == (forall|j: int|
                !#[trigger] old(self).remaining().contains(j)));
        }
        r
    }

    /// The last remaining tile, which is no longer to come.
    pub fn next_back(&mut self) -> (r: Option<Tile<WIDTH, HEIGHT>>)
        ensures
            r is None <==> forall|j: int| !#[trigger] old(self).remaining().contains(j),
            r is None ==> final(self).remaining() == old(self).remaining(),
            r matches Some(t) ==> old(self).remaining().contains(t.index() as int) && (forall|j: int|
                t.index() < j ==> !#[trigger] old(self).remaining().contains(j)) && (forall|j: int| #[trigger] final(self).remaining().contains(j) == (j != t.index() && old(self).remaining().contains(j))),
    {
        let ghost before = self.inner;
        let r = self.inner.pop_last();
        proof {
            assert(before == old(self).remaining());
            assert((forall|j: int| !#[trigger] before.contains(j)) == (forall|j: int|
                !#[trigger] old(self).remaining().contains(j)));
        }
        r
    }

    /// The number of remaining tiles.
    pub fn len(&self) -> (r: usize)
        ensures
            r == bits::bits_below(self.remaining().bits(), 32),
    {
        self.inner.count() as usize
    }

    /// The number of remaining tiles.
    pub fn count(self) -> (r: usize)
        ensures
            r == bits::bits_below(self.remaining().bits(), 32),
    {
        self.inner.count() as usize
    }

    /// The last remaining tile.
    pub fn last(self) -> (r: Option<Tile<WIDTH, HEIGHT>>)
        ensures
            r is None <==> forall|j: int| !#[trigger] self.remaining().contains(j),
            r matches Some(t) ==> self.remaining().contains(t.index() as int) && forall|j: int| t.index() < j ==> !#[trigger] self.remaining().contains(j),
    {
        let r = self.inner.last();
        proof {
            assert(self.inner == self.remaining());
        }
        r
    }

    /// The greatest remaining tile, which is the last.
    pub fn max(self) -> (r: Option<Tile<WIDTH, HEIGHT>>)
        ensures
            r is None <==> forall|j: int| !#[trigger] self.remaining().contains(j),
            r matches Some(t) ==> self.remaining().contains(t.index() as int) && forall|j: int| t.index() < j ==> !#[trigger] self.remaining().contains(j),
    {
        self.last()
    }

    /// Skips `n` tiles (`n` taken modulo `2^32`, as a `u32`) from the front and gives the next one; where
    /// too few tiles remain, gives none and leaves none.
    pub fn nth(&mut self, n: usize) -> (r: Option<Tile<WIDTH, HEIGHT>>)
        ensures
            ({
                let m = (n as int) % 0x1_0000_0000int;
                let old_bits = old(self).remaining().bits();
                if bits::bits_below(old_bits, 32) <= m {
                    r is None && forall|j: int| !#[trigger] final(self).remaining().contains(j)
                } else {
                    r matches Some(t) && old(self).remaining().contains(t.index() as int) && bits::bits_below(
                        old_bits,
                        t.index() as int,
                    ) == m && forall|j: int| #[trigger] final(self).remaining().contains(j) == (j > t.index()
                        && old(self).remaining().contains(j))
                }
            }),
    {
        let wide: u64 = n as u64 % 0x1_0000_0000;
        assert(wide < 0x1_0000_0000);
        let m: u32 = wide as u32;
        assert(m == (n as int) % 0x1_0000_0000int);
        if self.inner.count() <= m {
            self.inner = TileSet32::default();
            return None;
        }
        let ghost old_set = self.inner;
        let ghost mut lo: int = 0;
        proof {
            old_set.lemma_width();
        }
        let mut k: u32 = 0;
        loop
            invariant
                old_set == old(self).remaining(),
                m == (n as int) % 0x1_0000_0000int,
                forall|j: int| 32 <= j ==> !#[trigger] bits::has_bit(old_set.bits(), j),
                k <= m,
                bits::bits_below(old_set.bits(), 32) > m,
                0 <= lo <= 32,
                bits::bits_below(old_set.bits(), lo) == k,
                forall|j: int| #[trigger] self.inner.contains(j) == (old_set.contains(j) && j >= lo),
            decreases m - k,
        {
            proof {
                if forall|j: int| !#[trigger] self.inner.contains(j) {
                    assert forall|j: int| lo <= j < 32 implies !#[trigger] bits::has_bit(old_set.bits(), j) by {
                        assert(!self.inner.contains(j));
                    }
                    bits::lemma_bits_below_gap(old_set.bits(), lo, 32);
                }
            }
            let ghost before = self.inner;
            let t = self.inner.pop().unwrap();
            proof {
                assert forall|j: int| lo <= j < t.index() implies !#[trigger] bits::has_bit(old_set.bits(), j) by {
                    assert(!before.contains(j));
                }
                bits::lemma_bits_below_gap(old_set.bits(), lo, t.index() as int);
                assert(old_set.contains(t.index() as int));
                assert(bits::bits_below(old_set.bits(), (t.index() + 1) as int) == k + 1);
                lo = (t.index() + 1) as int;
                assert forall|j: int| #[trigger] self.inner.contains(j) == (old_set.contains(j) && j >= lo) by {
                    assert(before.contains(j) == (old_set.contains(j) && j >= t.index()));
                }
            }
            if k == m {
                return Some(t);
            }
            k = k + 1;
        }
    }

    /// Skips `n` tiles (`n` taken modulo `2^32`, as a `u32`) from the back and gives the next one; where too
    /// few tiles remain, gives none and leaves none.
    pub fn nth_back(&mut self, n: usize) -> (r: Option<Tile<WIDTH, HEIGHT>>)
        ensures
            ({
                let m = (n as int) % 0x1_0000_0000int;
                let old_bits = old(self).remaining().bits();
                if bits::bits_below(old_bits, 32) <= m {
                    r is None && forall|j: int| !#[trigger] final(self).remaining().contains(j)
                } else {
                    r matches Some(t) && old(self).remaining().contains(t.index() as int) && bits::bits_below(
                        old_bits,
                        32,
                    ) - bits::bits_below(old_bits, (t.index() + 1) as int) == m && forall|j: int|
                        #[trigger] final(self).remaining().contains(j) == (j < t.index() && old(self).remaining().contains(j))
                }
            }),
    {
        let wide: u64 = n as u64 % 0x1_0000_0000;
        assert(wide < 0x1_0000_0000);
        let m: u32 = wide as u32;
        assert(m == (n as int) % 0x1_0000_0000int);
        if self.inner.count() <= m {
            self.inner = TileSet32::default();
            return None;
        }
        let ghost old_set = self.inner;
        let ghost total = bits::bits_below(old_set.bits(), 32);
        let ghost mut hi: int = 32;
        proof {
            old_set.lemma_width();
            bits::lemma_bits_below_bounds(old_set.bits(), 32);
        }
        let mut k: u32 = 0;
        loop
            invariant
                old_set == old(self).remaining(),
                total == bits::bits_below(old_set.bits(), 32),
                m == (n as int) % 0x1_0000_0000int,
                forall|j: int| 32 <= j ==> !#[trigger] bits::has_bit(old_set.bits(), j),
                k <= m,
                total > m,
                0 <= hi <= 32,
                total - bits::bits_below(old_set.bits(), hi) == k,
                forall|j: int| #[trigger] self.inner.contains(j) == (old_set.contains(j) && j < hi),
            decreases m - k,
        {
            proof {
                if forall|j: int| !#[trigger] self.inner.contains(j) {
                    assert forall|j: int| 0 <= j < hi implies !#[trigger] bits::has_bit(old_set.bits(), j) by {
                        assert(!self.inner.contains(j));
                    }
                    bits::lemma_bits_below_gap(old_set.bits(), 0, hi);
                }
            }
            let ghost before = self.inner;
            let t = self.inner.pop_last().unwrap();
            proof {
                assert forall|j: int| t.index() < j < hi implies !#[trigger] bits::has_bit(old_set.bits(), j) by {
                    assert(!before.contains(j));
                }
                bits::lemma_bits_below_gap(old_set.bits(), (t.index() + 1) as int, hi);
                assert(old_set.contains(t.index() as int));
                assert(bits::bits_below(old_set.bits(), (t.index() + 1) as int) == bits::bits_below(old_set.bits(), t.index() as int) + 1);
                hi = t.index() as int;
                assert forall|j: int| #[trigger] self.inner.contains(j) == (old_set.contains(j) && j < hi) by {
                    assert(before.contains(j) == (old_set.contains(j) && j <= t.index()));
                }
            }
            if k == m {
                return Some(t);
            }
            k = k + 1;
        }
    }

    /// The least remaining tile, which is the first.
    pub fn min(self) -> (r: Option<Tile<WIDTH, HEIGHT>>)
        ensures
            r is None <==> forall|j: int| !#[trigger] self.remaining().contains(j),
            r matches Some(t) ==> self.remaining().contains(t.index() as int) && forall|j: int| 0 <= j < t.index() ==> !#[trigger] self.remaining().contains(j),
    {
        let mut it = self;
        it.next()
    }
}


/// Iterates the bits of a set from `bottom_index` (inclusive) up to `top_index` (exclusive),
/// every `STEP` bits, from either end.
#[derive(Clone, Copy, Debug)]
pub struct TileSetIter32<const STEP: u8> {
    inner: u32,
    bottom_index: usize,
    top_index: usize,
}

impl<const STEP: u8> TileSetIter32<STEP> {
    /// The bits of the set.
    pub closed spec fn word(self) -> u64 {
        self.inner as u64
    }

    /// The index of the next bit from the bottom.
    pub closed spec fn bottom(self) -> int {
        self.bottom_index as int
    }

    /// The index just past the next bit from the top.
    pub closed spec fn top(self) -> int {
        self.top_index as int
    }

    /// The number of bits still to come.
    pub open spec fn remaining_count(self) -> int {
        if self.top() > self.bottom() {
            (self.top() - self.bottom()) / STEP as int
        } else {
            0
        }
    }

    pub fn new(inner: u32, bottom_index: usize, top_index: usize) -> (r: Self)
        ensures
            r.word() == inner as u64,
            r.bottom() == bottom_index,
            r.top() == top_index,
    {
        TileSetIter32 { inner, bottom_index, top_index }
    }

    /// The number of bits still to come.
    pub fn len(&self) -> (r: usize)
        requires
            STEP > 0,
        ensures
            r == self.remaining_count(),
    {
        self.count()
    }

    /// The number of bits still to come.
    pub fn count(self) -> (r: usize)
        requires
            STEP > 0,
        ensures
            r == self.remaining_count(),
    {
        let distance: usize = if self.top_index > self.bottom_index {
            self.top_index - self.bottom_index
        } else {
            0
        };
        distance / (STEP as usize)
    }

    /// The next bit from the bottom, if the bottom is below the top.
    pub fn next(&mut self) -> (r: Option<bool>)
        requires
            old(self).bottom() < old(self).top() ==> old(self).bottom() < 32,
        ensures
            final(self).word() == old(self).word(),
            final(self).top() == old(self).top(),
            old(self).bottom() >= old(self).top() ==> r is None && final(self).bottom() == old(self).bottom(),
            old(self).bottom() < old(self).top() ==> r == Some(bits::has_bit(old(self).word(), old(self).bottom()))
                && final(self).bottom() == old(self).bottom() + STEP,
    {
        if self.bottom_index >= self.top_index {
            None
        } else {
            let r = ((self.inner as u64) >> (self.bottom_index as u64)) & 1 == 1;
            self.bottom_index = self.bottom_index + (STEP as usize);
            Some(r)
        }
    }

    /// The next bit from the top, if one lies at or above the bottom.
    pub fn next_back(&mut self) -> (r: Option<bool>)
        requires
            old(self).top() <= 32,
            STEP > 0 || old(self).top() < 32,
        ensures
            final(self).word() == old(self).word(),
            final(self).bottom() == old(self).bottom(),
            ({
                let next = if old(self).top() >= STEP { old(self).top() - STEP } else { 0 };
                if old(self).top() == 0 || old(self).bottom() > next {
                    r is None && final(self).top() == old(self).top()
                } else {
                    r == Some(bits::has_bit(old(self).word(), next)) && final(self).top() == next
                }
            }),
    {
        if self.top_index == 0 {
            return None;
        }
        let next_index: usize = if self.top_index >= STEP as usize {
            self.top_index - STEP as usize
        } else {
            0
        };
        if self.bottom_index > next_index {
            None
        } else {
            self.top_index = next_index;
            let r = ((self.inner as u64) >> (self.top_index as u64)) & 1 == 1;
            Some(r)
        }
    }
}
/// A grid
/// A map from tiles to bools. Can store up to 64 tiles.
#[derive(Clone, Copy, Debug, Hash, PartialOrd, Ord)]
pub struct TileSet64<const WIDTH: u8, const HEIGHT: u8, const SIZE: usize>(u64);

impl<const WIDTH: u8, const HEIGHT: u8, const SIZE: usize> PartialEq for TileSet64<WIDTH, HEIGHT, SIZE> {
    fn eq(&self, other: &Self) -> (r: bool) {
        self.0 == other.0
    }
}

impl<const WIDTH: u8, const HEIGHT: u8, const SIZE: usize> Eq for TileSet64<WIDTH, HEIGHT, SIZE> {
}

impl<const WIDTH: u8, const HEIGHT: u8, const SIZE: usize> vstd::std_specs::cmp::PartialEqSpecImpl for TileSet64<WIDTH, HEIGHT, SIZE> {
    open spec fn obeys_eq_spec() -> bool {
        true
    }

    open spec fn eq_spec(&self, other: &Self) -> bool {
        self.bits() == other.bits()
    }
}

impl<const WIDTH: u8, const HEIGHT: u8, const SIZE: usize> Default for TileSet64<WIDTH, HEIGHT, SIZE> {
    fn default() -> (r: Self)
        ensures
            forall|j: int| !#[trigger] r.contains(j),
    {
        let r = TileSet64(0);
        proof {
            r.lemma_empty();
        }
        r
    }
}

impl<const WIDTH: u8, const HEIGHT: u8, const SIZE: usize> TileSet64<WIDTH, HEIGHT, SIZE> {
    /// The bits of the set, as a 64 bit word.
    pub closed spec fn bits(self) -> u64 {
        self.0 as u64
    }

    /// Whether position `i` is in the set.
    pub open spec fn contains(self, i: int) -> bool {
        bits::has_bit(self.bits(), i)
    }

    /// Whether the set holds one bit per tile of the grid and the word is wide enough.
    pub open spec fn legal() -> bool {
        SIZE == WIDTH as nat * HEIGHT as nat && SIZE <= 64
    }

    /// The textual form of the first `n` positions of the set, `*` for each position in the set
    /// and `_` for the others, with a line break before each row but the first when `lines`.
    pub open spec fn text_prefix(self, n: int, lines: bool) -> Seq<char>
        decreases n,
    {
        if n <= 0 {
            Seq::empty()
        } else {
            let i = n - 1;
            let sep = if lines && i > 0 && i % (WIDTH as int) == 0 {
                seq!['\n']
            } else {
                Seq::empty()
            };
            self.text_prefix(i, lines) + sep + seq![
                if self.contains(i) {
                    '*'
                } else {
                    '_'
                },
            ]
        }
    }

    /// Sets with the same bits are equal.
    pub proof fn lemma_bits_injective(self, other: Self)
        ensures
            self.bits() == other.bits() <==> self == other,
    {
    }

    /// No position at or above the width of the word is in the set.
    pub proof fn lemma_width(self)
        ensures
            forall|j: int| 64 <= j ==> !#[trigger] self.contains(j),
            forall|j: int| 64 <= j ==> !#[trigger] bits::has_bit(self.bits(), j),
    {
        
    }

    /// Sets with the same positions are equal.
    pub proof fn lemma_ext(self, other: Self)
        requires
            forall|j: int| 0 <= j < 64 ==> #[trigger] self.contains(j) == other.contains(j),
        ensures
            self == other,
    {
        self.lemma_width();
        other.lemma_width();
        assert forall|j: int| 0 <= j < 64 implies #[trigger] bits::has_bit(self.bits(), j) == bits::has_bit(other.bits(), j) by {
            if j < 64 {
                assert(self.contains(j) == other.contains(j));
            }
        }
        bits::lemma_bits_equal(self.bits(), other.bits());
        
    }

    proof fn lemma_empty(self)
        requires
            self.0 == 0,
        ensures
            forall|j: int| !#[trigger] self.contains(j),
    {
        bits::lemma_empty_word();
    }

    /// The set whose bits are those of a word with no bit beyond the width of the set.
    fn from_word(w: u64) -> (r: Self)
        requires
            forall|j: int| 64 <= j ==> !#[trigger] bits::has_bit(w, j),
        ensures
            r.bits() == w,
    {
        TileSet64(w)
    }

    /// The set where all tiles are missing
    pub fn empty() -> (r: Self)
        requires
            Self::legal(),
        ensures
            forall|j: int| !#[trigger] r.contains(j),
    {
        let r = TileSet64(0);
        proof {
            r.lemma_empty();
        }
        r
    }

    /// The set where all tiles are present
    pub fn all() -> (r: Self)
        requires
            Self::legal(),
            1 <= SIZE,
        ensures
            forall|j: int| #[trigger] r.contains(j) == (0 <= j < SIZE),
    {
        Self::empty().negate()
    }

    /// The set of the tiles for which a function returns true.
    pub fn from_fn<F: Fn(Tile<WIDTH, HEIGHT>) -> bool>(cb: F) -> (r: Self)
        requires
            Self::legal(),
            Tile::<WIDTH, HEIGHT>::legal(),
            forall|t: Tile<WIDTH, HEIGHT>| t.wf() ==> #[trigger] cb.requires((t,)),
        ensures
            forall|t: Tile<WIDTH, HEIGHT>| t.wf() ==> #[trigger] cb.ensures((t,), r.contains(t.index() as int)),
            forall|j: int| !(0 <= j < SIZE) ==> !#[trigger] r.contains(j),
    {
        let tiles = Tile::<WIDTH, HEIGHT>::iter_by_row();
        let mut result = Self::empty();
        let mut i: usize = 0;
        while i < tiles.len()
            invariant
                Self::legal(),
                tiles@.len() == SIZE,
                i <= tiles@.len(),
                forall|k: int| 0 <= k < tiles@.len() ==> (#[trigger] tiles@[k]).wf() && tiles@[k].index() == k,
                forall|t: Tile<WIDTH, HEIGHT>| t.wf() ==> #[trigger] cb.requires((t,)),
                forall|k: int| 0 <= k < i ==> #[trigger] cb.ensures((tiles@[k],), result.contains(k)),
                forall|j: int| !(0 <= j < i) ==> !#[trigger] result.contains(j),
            decreases tiles@.len() - i,
        {
            let t = tiles[i];
            let b = cb(t);
            let ghost before = result;
            if b {
                result.set_bit(&t, true);
            }
            proof {
                assert forall|k: int| 0 <= k < i + 1 implies #[trigger] cb.ensures(
                    (tiles@[k],),
                    result.contains(k),
                ) by {
                    if k < i {
                        assert(cb.ensures((tiles@[k],), before.contains(k)));
                        assert(result.contains(k) == before.contains(k));
                    } else {
                        assert(tiles@[k] == t);
                        assert(result.contains(k) == b);
                    }
                }
                assert forall|j: int| !(0 <= j < i + 1) implies !#[trigger] result.contains(j) by {
                    assert(result.contains(j) == before.contains(j));
                }
            }
            i = i + 1;
        }
        proof {
            assert forall|t: Tile<WIDTH, HEIGHT>| t.wf() implies #[trigger] cb.ensures(
                (t,),
                result.contains(t.index() as int),
            ) by {
                let k = t.index() as int;
                assert(tiles@[k].index() == t.index());
                t.lemma_index_injective(tiles@[k]);
            }
        }
        result
    }

    pub fn from_inner(inner: u64) -> (r: Self)
        requires
            Self::legal(),
        ensures
            r.bits() == inner,
    {
        TileSet64(inner)
    }

    pub fn into_inner(self) -> (r: u64)
        ensures
            r == self.bits(),
    {
        self.0
    }

    /// Whether no position is in the set.
    pub fn is_empty(self) -> (r: bool)
        ensures
            r == forall|j: int| !#[trigger] self.contains(j),
    {
        if self.0 == 0 {
            proof {
                self.lemma_empty();
            }
            true
        } else {
            proof {
                bits::lemma_empty_word();
                if forall|j: int| !#[trigger] self.contains(j) {
                    assert forall|j: int| 0 <= j < 64 implies #[trigger] bits::has_bit(self.bits(), j) == bits::has_bit(
                        0u64,
                        j,
                    ) by {
                        assert(!self.contains(j));
                    }
                    bits::lemma_bits_equal(self.bits(), 0u64);
                }
            }
            false
        }
    }

    /// Adds a tile to the set, or removes it.
    pub fn set_bit(&mut self, tile: &Tile<WIDTH, HEIGHT>, bit: bool)
        requires
            tile.index() < 64,
        ensures
            forall|j: int| #[trigger] final(self).contains(j) == if j == tile.index() {
                bit
            } else {
                old(self).contains(j)
            },
    {
        *self = self.with_bit_set(tile, bit);
    }

    /// Returns a copy of self with the bit at `tile` set to `bit`
    pub fn with_bit_set(&self, tile: &Tile<WIDTH, HEIGHT>, bit: bool) -> (r: Self)
        requires
            tile.index() < 64,
        ensures
            forall|j: int| #[trigger] r.contains(j) == if j == tile.index() {
                bit
            } else {
                self.contains(j)
            },
    {
        let i = tile.inner() as u64;
        let w = self.0 as u64;
        let nw = if bit {
            w | (1u64 << i)
        } else {
            w & !(1u64 << i)
        };
        proof {
            self.lemma_width();
            bits::lemma_set_bit(w, i);
            bits::lemma_clear_bit(w, i);
            assert(forall|j: int| #[trigger] bits::has_bit(nw, j) == if j == i {
                bit
            } else {
                bits::has_bit(w, j)
            });
            assert(self.bits() == w);
            assert(forall|j: int| 64 <= j ==> !#[trigger] bits::has_bit(w, j));
            assert(forall|j: int| 64 <= j ==> !#[trigger] bits::has_bit(nw, j));
        }
        Self::from_word(nw)
    }

    /// Whether a tile is in the set.
    pub fn get_bit(&self, tile: &Tile<WIDTH, HEIGHT>) -> (r: bool)
        requires
            tile.index() < 64,
        ensures
            r == self.contains(tile.index() as int),
    {
        ((self.0 as u64) >> (tile.inner() as u64)) & 1 == 1
    }

    /// The positions from `bottom` (inclusive) up to `top` (exclusive), every `step`.
    fn read_bits(&self, bottom: usize, top: usize, step: usize) -> (r: Vec<bool>)
        requires
            top <= 64,
            1 <= step <= 255,
        ensures
            bottom + r@.len() * step >= top,
            r@.len() > 0 ==> bottom + (r@.len() - 1) * step < top,
            step == 1 ==> r@.len() == if bottom < top {
                top - bottom
            } else {
                0
            },
            forall|k: int|
                0 <= k < r@.len() ==> #[trigger] r@[k] == self.contains(bottom + k * step),
    {
        let mut result: Vec<bool> = Vec::new();
        let mut index: usize = bottom;
        proof {
            assert(bottom + 0 * step == bottom) by (nonlinear_arith);
        }
        while index < top
            invariant
                top <= 64,
                1 <= step <= 255,
                index == bottom + result@.len() * step,
                result@.len() > 0 ==> bottom + (result@.len() - 1) * step < top,
                bottom <= index,
                step == 1 ==> result@.len() == index - bottom,
                step == 1 && bottom <= top ==> index <= top,
                forall|k: int|
                    0 <= k < result@.len() ==> #[trigger] result@[k] == self.contains(
                        bottom + k * step,
                    ),
            decreases if index <= top {
                top - index
            } else {
                0
            },
        {
            let b = ((self.0 as u64) >> (index as u64)) & 1 == 1;
            let ghost len = result@.len() as int;
            let ghost before = result@;
            proof {
                assert(b == self.contains(index as int));
            }
            result.push(b);
            proof {
                assert forall|k: int| 0 <= k < result@.len() implies #[trigger] result@[k]
                    == self.contains(bottom + k * step) by {
                    if k < len {
                        assert(result@[k] == before[k]);
                    }
                }
                assert(bottom + len * step + step == bottom + (len + 1) * step) by (nonlinear_arith);
                if step == 1 {
                    assert(len * step == len);
                }
            }
            index = index + step;
        }
        result
    }

    /// The positions of the set in order.
    pub fn iter(&self) -> (r: Vec<bool>)
        requires
            SIZE <= 64,
        ensures
            r@.len() == SIZE,
            forall|k: int| 0 <= k < r@.len() ==> #[trigger] r@[k] == self.contains(k),
    {
        let r = self.read_bits(0, SIZE, 1);
        proof {
            assert forall|k: int| 0 <= k < r@.len() implies #[trigger] r@[k] == self.contains(k) by {
                assert(0 + k * 1 == k);
            }
        }
        r
    }

    /// The positions of a row of the set, from west to east.
    pub fn row(&self, y: u8) -> (r: Vec<bool>)
        requires
            y < 255,
            (y as int + 1) * WIDTH <= 64,
        ensures
            r@.len() == WIDTH,
            forall|k: int| 0 <= k < r@.len() ==> #[trigger] r@[k] == self.contains(y * WIDTH + k),
    {
        proof {
            assert((y as int + 1) * WIDTH == y * WIDTH + WIDTH) by (nonlinear_arith);
            assert(0 <= y * WIDTH) by (nonlinear_arith);
        }
        let bottom = (y * WIDTH) as usize;
        let top = ((y + 1) * WIDTH) as usize;
        let r = self.read_bits(bottom, top, 1);
        proof {
            assert forall|k: int| 0 <= k < r@.len() implies #[trigger] r@[k] == self.contains(y * WIDTH + k) by {
                assert(bottom + k * 1 == y * WIDTH + k);
            }
        }
        r
    }

    /// The positions `x`, `x + HEIGHT`, `x + 2 * HEIGHT`, ... below
    /// `WIDTH * (HEIGHT - 1) + x + 1`, in order.
    pub fn col(&self, x: u8) -> (r: Vec<bool>)
        requires
            1 <= HEIGHT,
            WIDTH * (HEIGHT - 1) + x + 1 <= 64,
        ensures
            x + r@.len() * HEIGHT >= WIDTH * (HEIGHT - 1) + x + 1,
            r@.len() > 0 ==> x + (r@.len() - 1) * HEIGHT < WIDTH * (HEIGHT - 1) + x + 1,
            forall|k: int| 0 <= k < r@.len() ==> #[trigger] r@[k] == self.contains(x + k * HEIGHT),
    {
        proof {
            assert(0 <= WIDTH * (HEIGHT - 1)) by (nonlinear_arith)
                requires
                    1 <= HEIGHT,
            ;
        }
        let top = ((WIDTH * (HEIGHT - 1)) + x + 1) as usize;
        let r = self.read_bits(x as usize, top, HEIGHT as usize);
        proof {
            assert(top == WIDTH * (HEIGHT - 1) + x + 1);
        }
        r
    }

    /// The set moved `rows` rows towards the north; rows leaving the grid are lost.
    pub fn shift_north(&self, rows: u8) -> (r: Self)
        requires
            rows * WIDTH < 64,
            1 <= SIZE <= 64,
        ensures
            forall|j: int| #[trigger] r.contains(j) == (0 <= j < SIZE && self.contains(j + rows * WIDTH)),
    {
        proof {
            assert(0 <= rows * WIDTH) by (nonlinear_arith);
        }
        let k = (rows * WIDTH) as u64;
        let n = SIZE as u64;
        let w = self.0 as u64;
        let mask: u64 = u64::MAX >> (64 - n);
        let shifted = w >> k;
        let nw = shifted & mask;
        proof {
            bits::lemma_shift(w, k);
            bits::lemma_low_mask(0u64, n);
            bits::lemma_bitwise(shifted, mask);
            assert(forall|j: int| #[trigger] bits::has_bit(nw, j) == (0 <= j < SIZE && bits::has_bit(w, j + k)));
            assert(forall|j: int| 64 <= j ==> !#[trigger] bits::has_bit(nw, j));
        }
        Self::from_word(nw)
    }

    /// The set moved `rows` rows towards the south; rows leaving the grid are lost.
    pub fn shift_south(&self, rows: u8) -> (r: Self)
        requires
            rows * WIDTH < 64,
            1 <= SIZE <= 64,
        ensures
            forall|j: int| #[trigger] r.contains(j) == (rows * WIDTH <= j < SIZE && self.contains(j - rows * WIDTH)),
    {
        proof {
            assert(0 <= rows * WIDTH) by (nonlinear_arith);
        }
        let k = (rows * WIDTH) as u64;
        let n = SIZE as u64;
        let w = self.0 as u64;
        let mask: u64 = u64::MAX >> (64 - n);
        let shifted = w << k;
        let nw = shifted & mask;
        proof {
            bits::lemma_shift(w, k);
            bits::lemma_low_mask(0u64, n);
            bits::lemma_bitwise(shifted, mask);
            assert(forall|j: int| #[trigger] bits::has_bit(nw, j) == (k <= j < SIZE && bits::has_bit(w, j - k)));
            assert(forall|j: int| 64 <= j ==> !#[trigger] bits::has_bit(nw, j));
        }
        Self::from_word(nw)
    }

    /// The set of the tiles of row `y`.
    pub fn row_mask(y: u8) -> (r: Self)
        requires
            Self::legal(),
            Tile::<WIDTH, HEIGHT>::legal(),
            1 <= WIDTH,
            1 <= HEIGHT,
            y * WIDTH < 64,
        ensures
            forall|j: int| #[trigger] r.contains(j) == (y * WIDTH <= j < y * WIDTH + WIDTH && j < 64),
    {
        let mut row_zero: u64 = 0;
        let mut x: u8 = 0;
        proof {
            bits::lemma_empty_word();
            assert(WIDTH <= 64) by (nonlinear_arith)
                requires
                    1 <= HEIGHT,
                    WIDTH as nat * HEIGHT as nat <= 64,
            ;
        }
        while x < WIDTH
            invariant
                Tile::<WIDTH, HEIGHT>::legal(),
                WIDTH <= 64,
                x <= WIDTH,
                forall|j: int| #[trigger] bits::has_bit(row_zero, j) == (0 <= j < x),
            decreases WIDTH - x,
        {
            proof {
                bits::lemma_set_bit(row_zero, x as u64);
            }
            row_zero = row_zero | (1u64 << (x as u64));
            x = x + 1;
        }
        proof {
            assert(0 <= y * WIDTH) by (nonlinear_arith);
        }
        let k = (y * WIDTH) as u64;
        proof {
            bits::lemma_shift(row_zero, k);
        }
        let shifted = row_zero << k;
        let mask: u64 = u64::MAX >> (64 - 64u64);
        let nw = shifted & mask;
        proof {
            bits::lemma_low_mask(0u64, 64u64);
            bits::lemma_bitwise(shifted, mask);
            assert(forall|j: int| #[trigger] bits::has_bit(nw, j) == (k <= j < 64 && bits::has_bit(row_zero, j - k)));
            assert(forall|j: int| 64 <= j ==> !#[trigger] bits::has_bit(nw, j));
        }
        Self::from_word(nw)
    }

    /// The set of the tiles of column `x`.
    pub fn col_mask(x: u8) -> (r: Self)
        requires
            Self::legal(),
            Tile::<WIDTH, HEIGHT>::legal(),
            1 <= WIDTH,
            1 <= HEIGHT,
            x < 64,
        ensures
            forall|j: int| #[trigger] r.contains(j) == (x <= j < 64 && (j - x) % (WIDTH as int) == 0
                && (j - x) / (WIDTH as int) < HEIGHT),
    {
        let mut col_zero: u64 = 0;
        let mut y: u8 = 0;
        proof {
            bits::lemma_empty_word();
        }
        while y < HEIGHT
            invariant
                Self::legal(),
                Tile::<WIDTH, HEIGHT>::legal(),
                1 <= WIDTH,
                y <= HEIGHT,
                forall|j: int| #[trigger] bits::has_bit(col_zero, j) == (0 <= j && j % (WIDTH as int) == 0 && j / (WIDTH as int) < y),
            decreases HEIGHT - y,
        {
            proof {
                lemma_index_bound(0, y as int, WIDTH as int, HEIGHT as int);
                lemma_byte_product(WIDTH as int, y as int);
            }
            let i = (WIDTH as u64) * (y as u64);
            proof {
                bits::lemma_set_bit(col_zero, i);
                lemma_index_coords(0, y as int, WIDTH as int);
                assert forall|j: int| #[trigger] bits::has_bit(col_zero | (1u64 << i), j) == (0 <= j && j % (WIDTH as int) == 0 && j / (WIDTH as int) < y + 1) by {
                    if 0 <= j {
                        lemma_coords_index(j, WIDTH as int);
                        if j % (WIDTH as int) == 0 && j / (WIDTH as int) == y {
                            assert(j == i);
                        }
                        if j % (WIDTH as int) == 0 && j / (WIDTH as int) < y + 1 {
                            assert(WIDTH * (j / (WIDTH as int)) <= WIDTH * y) by (nonlinear_arith)
                                requires
                                    j / (WIDTH as int) <= y,
                                    0 <= WIDTH,
                            ;
                        }
                        if j == i {
                            assert(j % (WIDTH as int) == 0 && j / (WIDTH as int) == y);
                        }
                    }
                }
            }
            col_zero = col_zero | (1u64 << i);
            y = y + 1;
        }
        let k = x as u64;
        proof {
            bits::lemma_shift(col_zero, k);
        }
        let shifted = col_zero << k;
        let mask: u64 = u64::MAX >> (64 - 64u64);
        let nw = shifted & mask;
        proof {
            bits::lemma_low_mask(0u64, 64u64);
            bits::lemma_bitwise(shifted, mask);
            assert(forall|j: int| #[trigger] bits::has_bit(nw, j) == (k <= j < 64 && bits::has_bit(col_zero, j - k)));
            assert(forall|j: int| 64 <= j ==> !#[trigger] bits::has_bit(nw, j));
        }
        Self::from_word(nw)
    }

    /// Each tile of the grid, in order, with whether it is in the set.
    pub fn enumerate(&self) -> (r: Vec<(Tile<WIDTH, HEIGHT>, bool)>)
        requires
            Self::legal(),
            Tile::<WIDTH, HEIGHT>::legal(),
        ensures
            r@.len() == SIZE,
            forall|k: int| 0 <= k < r@.len() ==> (#[trigger] r@[k]).0.wf() && r@[k].0.index() == k && r@[k].1 == self.contains(k),
    {
        let bits = self.iter();
        let mut result: Vec<(Tile<WIDTH, HEIGHT>, bool)> = Vec::new();
        let mut i: usize = 0;
        while i < bits.len()
            invariant
                Self::legal(),
                bits@.len() == SIZE,
                forall|k: int| 0 <= k < bits@.len() ==> #[trigger] bits@[k] == self.contains(k),
                i <= bits@.len(),
                result@.len() == i,
                forall|k: int| 0 <= k < result@.len() ==> (#[trigger] result@[k]).0.wf() && result@[k].0.index() == k && result@[k].1 == self.contains(k),
            decreases bits@.len() - i,
        {
            let t = Tile::<WIDTH, HEIGHT>::try_from_usize(i).unwrap();
            result.push((t, bits[i]));
            i = i + 1;
        }
        result
    }

    /// The tiles of the set, from first to last.
    pub fn iter_true_tiles(&self) -> (r: TrueTilesIter64<WIDTH, HEIGHT, SIZE>)
        ensures
            r.remaining() == *self,
    {
        TrueTilesIter64::new(self)
    }

    /// The number of tiles in the set.
    pub fn count(&self) -> (r: u32)
        ensures
            r == bits::bits_below(self.bits(), 64),
    {
        proof {
            self.lemma_width();
            bits::lemma_bits_below_split(self.bits(), 64);
        }
        bits::count_ones(self.0 as u64)
    }

    /// Return the set of tiles in both self and `rhs`.
    pub fn intersect(&self, rhs: &Self) -> (r: Self)
        ensures
            forall|j: int| #[trigger] r.contains(j) == (self.contains(j) && rhs.contains(j)),
    {
        proof {
            self.lemma_width();
            rhs.lemma_width();
            bits::lemma_bitwise(self.0 as u64, rhs.0 as u64);
        }
        let nw = (self.0 as u64) & (rhs.0 as u64);
        proof {
            assert(forall|j: int| #[trigger] bits::has_bit(nw, j) == (bits::has_bit(self.bits(), j) && bits::has_bit(rhs.bits(), j)));
            assert(forall|j: int| 64 <= j ==> !#[trigger] bits::has_bit(nw, j));
        }
        Self::from_word(nw)
    }

    /// Return the set of tiles in either self or `rhs` or both.
    pub fn union(&self, rhs: &Self) -> (r: Self)
        ensures
            forall|j: int| #[trigger] r.contains(j) == (self.contains(j) || rhs.contains(j)),
    {
        proof {
            self.lemma_width();
            rhs.lemma_width();
            bits::lemma_bitwise(self.0 as u64, rhs.0 as u64);
        }
        let nw = (self.0 as u64) | (rhs.0 as u64);
        proof {
            assert(forall|j: int| #[trigger] bits::has_bit(nw, j) == (bits::has_bit(self.bits(), j) || bits::has_bit(rhs.bits(), j)));
            assert(forall|j: int| 64 <= j ==> !#[trigger] bits::has_bit(nw, j));
        }
        Self::from_word(nw)
    }

    /// Whether every tile of self is in `rhs`.
    pub fn is_subset(&self, rhs: &Self) -> (r: bool)
        ensures
            r == forall|j: int| #[trigger] self.contains(j) ==> rhs.contains(j),
    {
        let i = self.intersect(rhs);
        proof {
            if forall|j: int| #[trigger] self.contains(j) ==> rhs.contains(j) {
                i.lemma_ext(*self);
            }
        }
        i.0 == self.0
    }

    /// Whether every tile of `rhs` is in self.
    pub fn is_superset(&self, rhs: &Self) -> (r: bool)
        ensures
            r == forall|j: int| #[trigger] rhs.contains(j) ==> self.contains(j),
    {
        let i = self.intersect(rhs);
        proof {
            if forall|j: int| #[trigger] rhs.contains(j) ==> self.contains(j) {
                i.lemma_ext(*rhs);
            }
        }
        i.0 == rhs.0
    }

    /// Returns a new set containing all elements which belong to one set but not both
    pub fn symmetric_difference(&self, rhs: &Self) -> (r: Self)
        ensures
            forall|j: int| #[trigger] r.contains(j) == (self.contains(j) != rhs.contains(j)),
    {
        proof {
            self.lemma_width();
            rhs.lemma_width();
            bits::lemma_bitwise(self.0 as u64, rhs.0 as u64);
        }
        let nw = (self.0 as u64) ^ (rhs.0 as u64);
        proof {
            assert(forall|j: int| #[trigger] bits::has_bit(nw, j) == (bits::has_bit(self.bits(), j) != bits::has_bit(rhs.bits(), j)));
            assert(forall|j: int| 64 <= j ==> !#[trigger] bits::has_bit(nw, j));
        }
        Self::from_word(nw)
    }

    /// The set of the tiles of the grid that are not in self.
    pub fn negate(&self) -> (r: Self)
        requires
            1 <= SIZE <= 64,
        ensures
            forall|j: int| #[trigger] r.contains(j) == (0 <= j < SIZE && !self.contains(j)),
    {
        let n = SIZE as u64;
        let mask: u64 = u64::MAX >> (64 - n);
        let nw = !(self.0 as u64) & mask;
        proof {
            bits::lemma_low_mask(self.0 as u64, n);
            assert(forall|j: int| #[trigger] bits::has_bit(nw, j) == (0 <= j < SIZE && !bits::has_bit(self.bits(), j)));
            assert(forall|j: int| 64 <= j ==> !#[trigger] bits::has_bit(nw, j));
        }
        Self::from_word(nw)
    }

    /// The first tile in this set
    pub fn first(&self) -> (r: Option<Tile<WIDTH, HEIGHT>>)
        requires
            Self::legal(),
        ensures
            r is None <==> forall|j: int| 0 <= j < Tile::<WIDTH, HEIGHT>::tile_count() ==> !#[trigger] self.contains(j),
            r matches Some(t) ==> t.wf() && self.contains(t.index() as int) && forall|j: int| 0 <= j < t.index() ==> !#[trigger] self.contains(j),
    {
        let w = self.0 as u64;
        let tz = bits::trailing_zeros(w);
        let r = Tile::<WIDTH, HEIGHT>::try_from_inner(tz as u8);
        proof {
            assert(self.bits() == w);
            assert(forall|j: int| 0 <= j < tz ==> !#[trigger] bits::has_bit(w, j));
            assert(forall|j: int| 0 <= j < tz ==> !#[trigger] self.contains(j));
            if w != 0 {
                assert(self.contains(tz as int));
            } else {
                bits::lemma_empty_word();
            }
        }
        r
    }

    /// Removes the first tile in this set and returns it
    /// Returns `None` if the set is empty
    pub fn pop(&mut self) -> (r: Option<Tile<WIDTH, HEIGHT>>)
        ensures
            r is None <==> forall|j: int| !#[trigger] old(self).contains(j),
            r is None ==> *final(self) == *old(self),
            r matches Some(t) ==> old(self).contains(t.index() as int) && (forall|j: int|
                0 <= j < t.index() ==> !#[trigger] old(self).contains(j)) && (forall|j: int| #[trigger] final(self).contains(j) == (j != t.index() && old(self).contains(j))),
    {
        let w = self.0 as u64;
        proof {
            self.lemma_width();
        }
        if w == 0 {
            proof {
                self.lemma_empty();
            }
            return None;
        }
        let index = bits::trailing_zeros(w) as u64;
        let nw = w & !(1u64 << index);
        proof {
            bits::lemma_clear_bit(w, index);
            assert(forall|j: int| #[trigger] bits::has_bit(nw, j) == (j != index && bits::has_bit(w, j)));
            assert(self.bits() == w);
            assert(forall|j: int| 64 <= j ==> !#[trigger] bits::has_bit(w, j));
            assert(forall|j: int| 64 <= j ==> !#[trigger] bits::has_bit(nw, j));
            assert(old(self).contains(index as int));
        }
        *self = Self::from_word(nw);
        Some(Tile::<WIDTH, HEIGHT>::from_inner_unchecked(index as u8))
    }

    /// The last tile in this set
    pub fn last(&self) -> (r: Option<Tile<WIDTH, HEIGHT>>)
        ensures
            r is None <==> forall|j: int| !#[trigger] self.contains(j),
            r matches Some(t) ==> self.contains(t.index() as int) && forall|j: int| t.index() < j ==> !#[trigger] self.contains(j),
    {
        let w = self.0 as u64;
        proof {
            self.lemma_width();
        }
        if w == 0 {
            proof {
                self.lemma_empty();
            }
            return None;
        }
        let index = bits::highest_bit(w);
        proof {
            assert(self.bits() == w);
            assert(self.contains(index as int));
            assert(forall|j: int| index < j ==> !#[trigger] bits::has_bit(w, j));
        }
        Some(Tile::<WIDTH, HEIGHT>::from_inner_unchecked(index as u8))
    }

    /// Removes the last tile in this set and returns it
    /// Returns `None` if the set is empty
    pub fn pop_last(&mut self) -> (r: Option<Tile<WIDTH, HEIGHT>>)
        ensures
            r is None <==> forall|j: int| !#[trigger] old(self).contains(j),
            r is None ==> *final(self) == *old(self),
            r matches Some(t) ==> old(self).contains(t.index() as int) && (forall|j: int|
                t.index() < j ==> !#[trigger] old(self).contains(j)) && (forall|j: int| #[trigger] final(self).contains(j) == (j != t.index() && old(self).contains(j))),
    {
        let w = self.0 as u64;
        proof {
            self.lemma_width();
        }
        if w == 0 {
            proof {
                self.lemma_empty();
            }
            return None;
        }
        let index = bits::highest_bit(w) as u64;
        let nw = w & !(1u64 << index);
        proof {
            bits::lemma_clear_bit(w, index);
            assert(forall|j: int| #[trigger] bits::has_bit(nw, j) == (j != index && bits::has_bit(w, j)));
            assert(self.bits() == w);
            assert(forall|j: int| 64 <= j ==> !#[trigger] bits::has_bit(w, j));
            assert(forall|j: int| 64 <= j ==> !#[trigger] bits::has_bit(nw, j));
            assert(old(self).contains(index as int));
        }
        *self = Self::from_word(nw);
        Some(Tile::<WIDTH, HEIGHT>::from_inner_unchecked(index as u8))
    }

    /// The set of the given tiles.
    pub fn from_iter(tiles: Vec<Tile<WIDTH, HEIGHT>>) -> (r: Self)
        requires
            Self::legal(),
            forall|k: int| 0 <= k < tiles@.len() ==> (#[trigger] tiles@[k]).index() < 64,
        ensures
            forall|j: int| #[trigger] r.contains(j) == exists|k: int| 0 <= k < tiles@.len() && (#[trigger] tiles@[k]).index() == j,
    {
        let mut r = Self::empty();
        let mut i: usize = 0;
        while i < tiles.len()
            invariant
                forall|k: int| 0 <= k < tiles@.len() ==> (#[trigger] tiles@[k]).index() < 64,
                i <= tiles@.len(),
                forall|j: int| #[trigger] r.contains(j) == exists|k: int| 0 <= k < i && (#[trigger] tiles@[k]).index() == j,
            decreases tiles@.len() - i,
        {
            let t = tiles[i];
            let ghost before = r;
            r.set_bit(&t, true);
            proof {
                assert forall|j: int| #[trigger] r.contains(j) == exists|k: int| 0 <= k < i + 1 && (#[trigger] tiles@[k]).index() == j by {
                    if j == t.index() {
                        assert(tiles@[i as int].index() == j);
                    } else {
                        if exists|k: int| 0 <= k < i + 1 && (#[trigger] tiles@[k]).index() == j {
                            let k = choose|k: int| 0 <= k < i + 1 && (#[trigger] tiles@[k]).index() == j;
                            assert(k != i);
                        }
                    }
                }
            }
            i = i + 1;
        }
        r
    }

    /// The text of the set, one line per row (its `Display` form).
    pub fn to_string(&self) -> (s: String)
        requires
            1 <= WIDTH,
            SIZE <= 64,
        ensures
            s@ == self.text_prefix(SIZE as int, true),
    {
        self.write_text(true)
    }

    /// The text of the set on a single line (its alternate `Display` form).
    pub fn to_string_alternate(&self) -> (s: String)
        requires
            1 <= WIDTH,
            SIZE <= 64,
        ensures
            s@ == self.text_prefix(SIZE as int, false),
    {
        self.write_text(false)
    }

    fn write_text(&self, lines: bool) -> (s: String)
        requires
            1 <= WIDTH,
            SIZE <= 64,
        ensures
            s@ == self.text_prefix(SIZE as int, lines),
    {
        let bits = self.iter();
        let mut s = String::new();
        let mut i: usize = 0;
        while i < bits.len()
            invariant
                1 <= WIDTH,
                bits@.len() == SIZE,
                forall|k: int| 0 <= k < bits@.len() ==> #[trigger] bits@[k] == self.contains(k),
                i <= bits@.len(),
                s@ == self.text_prefix(i as int, lines),
            decreases bits@.len() - i,
        {
            if lines && i > 0 && i % (WIDTH as usize) == 0 {
                push_char(&mut s, '\n');
            }
            if bits[i] {
                push_char(&mut s, '*');
            } else {
                push_char(&mut s, '_');
            }
            i = i + 1;
        }
        s
    }
}

/// Iterates through the tiles of a set, from either end.
#[derive(Clone, Debug)]
pub struct TrueTilesIter64<const WIDTH: u8, const HEIGHT: u8, const SIZE: usize> {
    inner: TileSet64<WIDTH, HEIGHT, SIZE>,
}

impl<const WIDTH: u8, const HEIGHT: u8, const SIZE: usize> TrueTilesIter64<WIDTH, HEIGHT, SIZE> {
    /// The tiles that are still to come.
    pub closed spec fn remaining(self) -> TileSet64<WIDTH, HEIGHT, SIZE> {
        self.inner
    }

    pub fn new(set: &TileSet64<WIDTH, HEIGHT, SIZE>) -> (r: Self)
        ensures
            r.remaining() == *set,
    {
        TrueTilesIter64 { inner: *set }
    }

    /// The first remaining tile, which is no longer to come.
    pub fn next(&mut self) -> (r: Option<Tile<WIDTH, HEIGHT>>)
        ensures
            r is None <==> forall|j: int| !#[trigger] old(self).remaining().contains(j),
            r is None ==> final(self).remaining() == old(self).remaining(),
            r matches Some(t) ==> old(self).remaining().contains(t.index() as int) && (forall|j: int|
                0 <= j < t.index() ==> !#[trigger] old(self).remaining().contains(j)) && (forall|j: int| #[trigger] final(self).remaining().contains(j) == (j != t.index() && old(self).remaining().contains(j))),
    {
        let ghost before = self.inner;
        let r = self.inner.pop();
        proof {
            assert(before == old(self).remaining());
            assert((forall|j: int| !#[trigger] before.contains(j)) == (forall|j: int|
                !#[trigger] old(self).remaining().contains(j)));
        }
        r
    }

    /// The last remaining tile, which is no longer to come.
    pub fn next_back(&mut self) -> (r: Option<Tile<WIDTH, HEIGHT>>)
        ensures
            r is None <==> forall|j: int| !#[trigger] old(self).remaining().contains(j),
            r is None ==> final(self).remaining() == old(self).remaining(),
            r matches Some(t) ==> old(self).remaining().contains(t.index() as int) && (forall|j: int|
                t.index() < j ==> !#[trigger] old(self).remaining().contains(j)) && (forall|j: int| #[trigger] final(self).remaining().contains(j) == (j != t.index() && old(self).remaining().contains(j))),
    {
        let ghost before = self.inner;
        let r = self.inner.pop_last();
        proof {
            assert(before == old(self).remaining());
            assert((forall|j: int| !#[trigger] before.contains(j)) == (forall|j: int|
                !#[trigger] old(self).remaining().contains(j)));
        }
        r
    }

    /// The number of remaining tiles.
    pub fn len(&self) -> (r: usize)
        ensures
            r == bits::bits_below(self.remaining().bits(), 64),
    {
        self.inner.count() as usize
    }

    /// The number of remaining tiles.
    pub fn count(self) -> (r: usize)
        ensures
            r == bits::bits_below(self.remaining().bits(), 64),
    {
        self.inner.count() as usize
    }

    /// The last remaining tile.
    pub fn last(self) -> (r: Option<Tile<WIDTH, HEIGHT>>)
        ensures
            r is None <==> forall|j: int| !#[trigger] self.remaining().contains(j),
            r matches Some(t) ==> self.remaining().contains(t.index() as int) && forall|j: int| t.index() < j ==> !#[trigger] self.remaining().contains(j),
    {
        let r = self.inner.last();
        proof {
            assert(self.inner == self.remaining());
        }
        r
    }

    /// The greatest remaining tile, which is the last.
    pub fn max(self) -> (r: Option<Tile<WIDTH, HEIGHT>>)
        ensures
            r is None <==> forall|j: int| !#[trigger] self.remaining().contains(j),
            r matches Some(t) ==> self.remaining().contains(t.index() as int) && forall|j: int| t.index() < j ==> !#[trigger] self.remaining().contains(j),
    {
        self.last()
    }

    /// Skips `n` tiles (`n` taken modulo `2^32`, as a `u32`) from the front and gives the next one; where
    /// too few tiles remain, gives none and leaves none.
    pub fn nth(&mut self, n: usize) -> (r: Option<Tile<WIDTH, HEIGHT>>)
        ensures
            ({
                let m = (n as int) % 0x1_0000_0000int;
                let old_bits = old(self).remaining().bits();
                if bits::bits_below(old_bits, 64) <= m {
                    r is None && forall|j: int| !#[trigger] final(self).remaining().contains(j)
                } else {
                    r matches Some(t) && old(self).remaining().contains(t.index() as int) && bits::bits_below(
                        old_bits,
                        t.index() as int,
                    ) == m && forall|j: int| #[trigger] final(self).remaining().contains(j) == (j > t.index()
                        && old(self).remaining().contains(j))
                }
            }),
    {
        let wide: u64 = n as u64 % 0x1_0000_0000;
        assert(wide < 0x1_0000_0000);
        let m: u32 = wide as u32;
        assert(m == (n as int) % 0x1_0000_0000int);
        if self.inner.count() <= m {
            self.inner = TileSet64::default();
            return None;
        }
        let ghost old_set = self.inner;
        let ghost mut lo: int = 0;
        proof {
            old_set.lemma_width();
        }
        let mut k: u32 = 0;
        loop
            invariant
                old_set == old(self).remaining(),
                m == (n as int) % 0x1_0000_0000int,
                forall|j: int| 64 <= j ==> !#[trigger] bits::has_bit(old_set.bits(), j),
                k <= m,
                bits::bits_below(old_set.bits(), 64) > m,
                0 <= lo <= 64,
                bits::bits_below(old_set.bits(), lo) == k,
                forall|j: int| #[trigger] self.inner.contains(j) == (old_set.contains(j) && j >= lo),
            decreases m - k,
        {
            proof {
                if forall|j: int| !#[trigger] self.inner.contains(j) {
                    assert forall|j: int| lo <= j < 64 implies !#[trigger] bits::has_bit(old_set.bits(), j) by {
                        assert(!self.inner.contains(j));
                    }
                    bits::lemma_bits_below_gap(old_set.bits(), lo, 64);
                }
            }
            let ghost before = self.inner;
            let t = self.inner.pop().unwrap();
            proof {
                assert forall|j: int| lo <= j < t.index() implies !#[trigger] bits::has_bit(old_set.bits(), j) by {
                    assert(!before.contains(j));
                }
                bits::lemma_bits_below_gap(old_set.bits(), lo, t.index() as int);
                assert(old_set.contains(t.index() as int));
                assert(bits::bits_below(old_set.bits(), (t.index() + 1) as int) == k + 1);
                lo = (t.index() + 1) as int;
                assert forall|j: int| #[trigger] self.inner.contains(j) == (old_set.contains(j) && j >= lo) by {
                    assert(before.contains(j) == (old_set.contains(j) && j >= t.index()));
                }
            }
            if k == m {
                return Some(t);
            }
            k = k + 1;
        }
    }

    /// Skips `n` tiles (`n` taken modulo `2^32`, as a `u32`) from the back and gives the next one; where too
    /// few tiles remain, gives none and leaves none.
    pub fn nth_back(&mut self, n: usize) -> (r: Option<Tile<WIDTH, HEIGHT>>)
        ensures
            ({
                let m = (n as int) % 0x1_0000_0000int;
                let old_bits = old(self).remaining().bits();
                if bits::bits_below(old_bits, 64) <= m {
                    r is None && forall|j: int| !#[trigger] final(self).remaining().contains(j)
                } else {
                    r matches Some(t) && old(self).remaining().contains(t.index() as int) && bits::bits_below(
                        old_bits,
                        64,
                    ) - bits::bits_below(old_bits, (t.index() + 1) as int) == m && forall|j: int|
                        #[trigger] final(self).remaining().contains(j) == (j < t.index() && old(self).remaining().contains(j))
                }
            }),
    {
        let wide: u64 = n as u64 % 0x1_0000_0000;
        assert(wide < 0x1_0000_0000);
        let m: u32 = wide as u32;
        assert(m == (n as int) % 0x1_0000_0000int);
        if self.inner.count() <= m {
            self.inner = TileSet64::default();
            return None;
        }
        let ghost old_set = self.inner;
        let ghost total = bits::bits_below(old_set.bits(), 64);
        let ghost mut hi: int = 64;
        proof {
            old_set.lemma_width();
            bits::lemma_bits_below_bounds(old_set.bits(), 64);
        }
        let mut k: u32 = 0;
        loop
            invariant
                old_set == old(self).remaining(),
                total == bits::bits_below(old_set.bits(), 64),
                m == (n as int) % 0x1_0000_0000int,
                forall|j: int| 64 <= j ==> !#[trigger] bits::has_bit(old_set.bits(), j),
                k <= m,
                total > m,
                0 <= hi <= 64,
                total - bits::bits_below(old_set.bits(), hi) == k,
                forall|j: int| #[trigger] self.inner.contains(j) == (old_set.contains(j) && j < hi),
            decreases m - k,
        {
            proof {
                if forall|j: int| !#[trigger] self.inner.contains(j) {
                    assert forall|j: int| 0 <= j < hi implies !#[trigger] bits::has_bit(old_set.bits(), j) by {
                        assert(!self.inner.contains(j));
                    }
                    bits::lemma_bits_below_gap(old_set.bits(), 0, hi);
                }
            }
            let ghost before = self.inner;
            let t = self.inner.pop_last().unwrap();
            proof {
                assert forall|j: int| t.index() < j < hi implies !#[trigger] bits::has_bit(old_set.bits(), j) by {
                    assert(!before.contains(j));
                }
                bits::lemma_bits_below_gap(old_set.bits(), (t.index() + 1) as int, hi);
                assert(old_set.contains(t.index() as int));
                assert(bits::bits_below(old_set.bits(), (t.index() + 1) as int) == bits::bits_below(old_set.bits(), t.index() as int) + 1);
                hi = t.index() as int;
                assert forall|j: int| #[trigger] self.inner.contains(j) == (old_set.contains(j) && j < hi) by {
                    assert(before.contains(j) == (old_set.contains(j) && j <= t.index()));
                }
            }
            if k == m {
                return Some(t);
            }
            k = k + 1;
        }
    }

    /// The least remaining tile, which is the first.
    pub fn min(self) -> (r: Option<Tile<WIDTH, HEIGHT>>)
        ensures
            r is None <==> forall|j: int| !#[trigger] self.remaining().contains(j),
            r matches Some(t) ==> self.remaining().contains(t.index() as int) && forall|j: int| 0 <= j < t.index() ==> !#[trigger] self.remaining().contains(j),
    {
        let mut it = self;
        it.next()
    }
}


/// Iterates the bits of a set from `bottom_index` (inclusive) up to `top_index` (exclusive),
/// every `STEP` bits, from either end.
#[derive(Clone, Copy, Debug)]
pub struct TileSetIter64<const STEP: u8> {
    inner: u64,
    bottom_index: usize,
    top_index: usize,
}

impl<const STEP: u8> TileSetIter64<STEP> {
    /// The bits of the set.
    pub closed spec fn word(self) -> u64 {
        self.inner as u64
    }

    /// The index of the next bit from the bottom.
    pub closed spec fn bottom(self) -> int {
        self.bottom_index as int
    }

    /// The index just past the next bit from the top.
    pub closed spec fn top(self) -> int {
        self.top_index as int
    }

    /// The number of bits still to come.
    pub open spec fn remaining_count(self) -> int {
        if self.top() > self.bottom() {
            (self.top() - self.bottom()) / STEP as int
        } else {
            0
        }
    }

    pub fn new(inner: u64, bottom_index: usize, top_index: usize) -> (r: Self)
        ensures
            r.word() == inner as u64,
            r.bottom() == bottom_index,
            r.top() == top_index,
    {
        TileSetIter64 { inner, bottom_index, top_index }
    }

    /// The number of bits still to come.
    pub fn len(&self) -> (r: usize)
        requires
            STEP > 0,
        ensures
            r == self.remaining_count(),
    {
        self.count()
    }

    /// The number of bits still to come.
    pub fn count(self) -> (r: usize)
        requires
            STEP > 0,
        ensures
            r == self.remaining_count(),
    {
        let distance: usize = if self.top_index > self.bottom_index {
            self.top_index - self.bottom_index
        } else {
            0
        };
        distance / (STEP as usize)
    }

    /// The next bit from the bottom, if the bottom is below the top.
    pub fn next(&mut self) -> (r: Option<bool>)
        requires
            old(self).bottom() < old(self).top() ==> old(self).bottom() < 64,
        ensures
            final(self).word() == old(self).word(),
            final(self).top() == old(self).top(),
            old(self).bottom() >= old(self).top() ==> r is None && final(self).bottom() == old(self).bottom(),
            old(self).bottom() < old(self).top() ==> r == Some(bits::has_bit(old(self).word(), old(self).bottom()))
                && final(self).bottom() == old(self).bottom() + STEP,
    {
        if self.bottom_index >= self.top_index {
            None
        } else {
            let r = ((self.inner as u64) >> (self.bottom_index as u64)) & 1 == 1;
            self.bottom_index = self.bottom_index + (STEP as usize);
            Some(r)
        }
    }

    /// The next bit from the top, if one lies at or above the bottom.
    pub fn next_back(&mut self) -> (r: Option<bool>)
        requires
            old(self).top() <= 64,
            STEP > 0 || old(self).top() < 64,
        ensures
            final(self).word() == old(self).word(),
            final(self).bottom() == old(self).bottom(),
            ({
                let next = if old(self).top() >= STEP { old(self).top() - STEP } else { 0 };
                if old(self).top() == 0 || old(self).bottom() > next {
                    r is None && final(self).top() == old(self).top()
                } else {
                    r == Some(bits::has_bit(old(self).word(), next)) && final(self).top() == next
                }
            }),
    {
        if self.top_index == 0 {
            return None;
        }
        let next_index: usize = if self.top_index >= STEP as usize {
            self.top_index - STEP as usize
        } else {
            0
        };
        if self.bottom_index > next_index {
            None
        } else {
            self.top_index = next_index;
            let r = ((self.inner as u64) >> (self.top_index as u64)) & 1 == 1;
            Some(r)
        }
    }
}
/// A grid
/// A map from tiles to bools. Can store up to 128 tiles.
#[derive(Clone, Copy, Debug, Hash, PartialOrd, Ord)]
pub struct TileSet128<const WIDTH: u8, const HEIGHT: u8, const SIZE: usize>(u128);

impl<const WIDTH: u8, const HEIGHT: u8, const SIZE: usize> PartialEq for TileSet128<WIDTH, HEIGHT, SIZE> {
    fn eq(&self, other: &Self) -> (r: bool) {
        self.0 == other.0
    }
}

impl<const WIDTH: u8, const HEIGHT: u8, const SIZE: usize> Eq for TileSet128<WIDTH, HEIGHT, SIZE> {
}

impl<const WIDTH: u8, const HEIGHT: u8, const SIZE: usize> vstd::std_specs::cmp::PartialEqSpecImpl for TileSet128<WIDTH, HEIGHT, SIZE> {
    open spec fn obeys_eq_spec() -> bool {
        true
    }

    open spec fn eq_spec(&self, other: &Self) -> bool {
        self.bits() == other.bits()
    }
}

impl<const WIDTH: u8, const HEIGHT: u8, const SIZE: usize> Default for TileSet128<WIDTH, HEIGHT, SIZE> {
    fn default() -> (r: Self)
        ensures
            forall|j: int| !#[trigger] r.contains(j),
    {
        let r = TileSet128(0);
        proof {
            r.lemma_empty();
        }
        r
    }
}

impl<const WIDTH: u8, const HEIGHT: u8, const SIZE: usize> TileSet128<WIDTH, HEIGHT, SIZE> {
    /// The bits of the set, as a 128 bit word.
    pub closed spec fn bits(self) -> u128 {
        self.0 as u128
    }

    /// Whether position `i` is in the set.
    pub open spec fn contains(self, i: int) -> bool {
        bits128::has_bit(self.bits(), i)
    }

    /// Whether the set holds one bit per tile of the grid and the word is wide enough.
    pub open spec fn legal() -> bool {
        SIZE == WIDTH as nat * HEIGHT as nat && SIZE <= 128
    }

    /// The textual form of the first `n` positions of the set, `*` for each position in the set
    /// and `_` for the others, with a line break before each row but the first when `lines`.
    pub open spec fn text_prefix(self, n: int, lines: bool) -> Seq<char>
        decreases n,
    {
        if n <= 0 {
            Seq::empty()
        } else {
            let i = n - 1;
            let sep = if lines && i > 0 && i % (WIDTH as int) == 0 {
                seq!['\n']
            } else {
                Seq::empty()
            };
            self.text_prefix(i, lines) + sep + seq![
                if self.contains(i) {
                    '*'
                } else {
                    '_'
                },
            ]
        }
    }

    /// Sets with the same bits are equal.
    pub proof fn lemma_bits_injective(self, other: Self)
        ensures
            self.bits() == other.bits() <==> self == other,
    {
    }

    /// No position at or above the width of the word is in the set.
    pub proof fn lemma_width(self)
        ensures
            forall|j: int| 128 <= j ==> !#[trigger] self.contains(j),
            forall|j: int| 128 <= j ==> !#[trigger] bits128::has_bit(self.bits(), j),
    {
        
    }

    /// Sets with the same positions are equal.
    pub proof fn lemma_ext(self, other: Self)
        requires
            forall|j: int| 0 <= j < 128 ==> #[trigger] self.contains(j) == other.contains(j),
        ensures
            self == other,
    {
        self.lemma_width();
        other.lemma_width();
        assert forall|j: int| 0 <= j < 128 implies #[trigger] bits128::has_bit(self.bits(), j) == bits128::has_bit(other.bits(), j) by {
            if j < 128 {
                assert(self.contains(j) == other.contains(j));
            }
        }
        bits128::lemma_bits_equal(self.bits(), other.bits());
        
    }

    proof fn lemma_empty(self)
        requires
            self.0 == 0,
        ensures
            forall|j: int| !#[trigger] self.contains(j),
    {
        bits128::lemma_empty_word();
    }

    /// The set whose bits are those of a word with no bit beyond the width of the set.
    fn from_word(w: u128) -> (r: Self)
        requires
            forall|j: int| 128 <= j ==> !#[trigger] bits128::has_bit(w, j),
        ensures
            r.bits() == w,
    {
        TileSet128(w)
    }

    /// The set where all tiles are missing
    pub fn empty() -> (r: Self)
        requires
            Self::legal(),
        ensures
            forall|j: int| !#[trigger] r.contains(j),
    {
        let r = TileSet128(0);
        proof {
            r.lemma_empty();
        }
        r
    }

    /// The set where all tiles are present
    pub fn all() -> (r: Self)
        requires
            Self::legal(),
            1 <= SIZE,
        ensures
            forall|j: int| #[trigger] r.contains(j) == (0 <= j < SIZE),
    {
        Self::empty().negate()
    }

    /// The set of the tiles for which a function returns true.
    pub fn from_fn<F: Fn(Tile<WIDTH, HEIGHT>) -> bool>(cb: F) -> (r: Self)
        requires
            Self::legal(),
            Tile::<WIDTH, HEIGHT>::legal(),
            forall|t: Tile<WIDTH, HEIGHT>| t.wf() ==> #[trigger] cb.requires((t,)),
        ensures
            forall|t: Tile<WIDTH, HEIGHT>| t.wf() ==> #[trigger] cb.ensures((t,), r.contains(t.index() as int)),
            forall|j: int| !(0 <= j < SIZE) ==> !#[trigger] r.contains(j),
    {
        let tiles = Tile::<WIDTH, HEIGHT>::iter_by_row();
        let mut result = Self::empty();
        let mut i: usize = 0;
        while i < tiles.len()
            invariant
                Self::legal(),
                tiles@.len() == SIZE,
                i <= tiles@.len(),
                forall|k: int| 0 <= k < tiles@.len() ==> (#[trigger] tiles@[k]).wf() && tiles@[k].index() == k,
                forall|t: Tile<WIDTH, HEIGHT>| t.wf() ==> #[trigger] cb.requires((t,)),
                forall|k: int| 0 <= k < i ==> #[trigger] cb.ensures((tiles@[k],), result.contains(k)),
                forall|j: int| !(0 <= j < i) ==> !#[trigger] result.contains(j),
            decreases tiles@.len() - i,
        {
            let t = tiles[i];
            let b = cb(t);
            let ghost before = result;
            if b {
                result.set_bit(&t, true);
            }
            proof {
                assert forall|k: int| 0 <= k < i + 1 implies #[trigger] cb.ensures(
                    (tiles@[k],),
                    result.contains(k),
                ) by {
                    if k < i {
                        assert(cb.ensures((tiles@[k],), before.contains(k)));
                        assert(result.contains(k) == before.contains(k));
                    } else {
                        assert(tiles@[k] == t);
                        assert(result.contains(k) == b);
                    }
                }
                assert forall|j: int| !(0 <= j < i + 1) implies !#[trigger] result.contains(j) by {
                    assert(result.contains(j) == before.contains(j));
                }
            }
            i = i + 1;
        }
        proof {
            assert forall|t: Tile<WIDTH, HEIGHT>| t.wf() implies #[trigger] cb.ensures(
                (t,),
                result.contains(t.index() as int),
            ) by {
                let k = t.index() as int;
                assert(tiles@[k].index() == t.index());
                t.lemma_index_injective(tiles@[k]);
            }
        }
        result
    }

    pub fn from_inner(inner: u128) -> (r: Self)
        requires
            Self::legal(),
        ensures
            r.bits() == inner,
    {
        TileSet128(inner)
    }

    pub fn into_inner(self) -> (r: u128)
        ensures
            r == self.bits(),
    {
        self.0
    }

    /// Whether no position is in the set.
    pub fn is_empty(self) -> (r: bool)
        ensures
            r == forall|j: int| !#[trigger] self.contains(j),
    {
        if self.0 == 0 {
            proof {
                self.lemma_empty();
            }
            true
        } else {
            proof {
                bits128::lemma_empty_word();
                if forall|j: int| !#[trigger] self.contains(j) {
                    assert forall|j: int| 0 <= j < 128 implies #[trigger] bits128::has_bit(self.bits(), j) == bits128::has_bit(
                        0u128,
                        j,
                    ) by {
                        assert(!self.contains(j));
                    }
                    bits128::lemma_bits_equal(self.bits(), 0u128);
                }
            }
            false
        }
    }

    /// Adds a tile to the set, or removes it.
    pub fn set_bit(&mut self, tile: &Tile<WIDTH, HEIGHT>, bit: bool)
        requires
            tile.index() < 128,
        ensures
            forall|j: int| #[trigger] final(self).contains(j) == if j == tile.index() {
                bit
            } else {
                old(self).contains(j)
            },
    {
        *self = self.with_bit_set(tile, bit);
    }

    /// Returns a copy of self with the bit at `tile` set to `bit`
    pub fn with_bit_set(&self, tile: &Tile<WIDTH, HEIGHT>, bit: bool) -> (r: Self)
        requires
            tile.index() < 128,
        ensures
            forall|j: int| #[trigger] r.contains(j) == if j == tile.index() {
                bit
            } else {
                self.contains(j)
            },
    {
        let i = tile.inner() as u128;
        let w = self.0 as u128;
        let nw = if bit {
            w | (1u128 << i)
        } else {
            w & !(1u128 << i)
        };
        proof {
            self.lemma_width();
            bits128::lemma_set_bit(w, i);
            bits128::lemma_clear_bit(w, i);
            assert(forall|j: int| #[trigger] bits128::has_bit(nw, j) == if j == i {
                bit
            } else {
                bits128::has_bit(w, j)
            });
            assert(self.bits() == w);
            assert(forall|j: int| 128 <= j ==> !#[trigger] bits128::has_bit(w, j));
            assert(forall|j: int| 128 <= j ==> !#[trigger] bits128::has_bit(nw, j));
        }
        Self::from_word(nw)
    }

    /// Whether a tile is in the set.
    pub fn get_bit(&self, tile: &Tile<WIDTH, HEIGHT>) -> (r: bool)
        requires
            tile.index() < 128,
        ensures
            r == self.contains(tile.index() as int),
    {
        ((self.0 as u128) >> (tile.inner() as u128)) & 1 == 1
    }

    /// The positions from `bottom` (inclusive) up to `top` (exclusive), every `step`.
    fn read_bits(&self, bottom: usize, top: usize, step: usize) -> (r: Vec<bool>)
        requires
            top <= 128,
            1 <= step <= 255,
        ensures
            bottom + r@.len() * step >= top,
            r@.len() > 0 ==> bottom + (r@.len() - 1) * step < top,
            step == 1 ==> r@.len() == if bottom < top {
                top - bottom
            } else {
                0
            },
            forall|k: int|
                0 <= k < r@.len() ==> #[trigger] r@[k] == self.contains(bottom + k * step),
    {
        let mut result: Vec<bool> = Vec::new();
        let mut index: usize = bottom;
        proof {
            assert(bottom + 0 * step == bottom) by (nonlinear_arith);
        }
        while index < top
            invariant
                top <= 128,
                1 <= step <= 255,
                index == bottom + result@.len() * step,
                result@.len() > 0 ==> bottom + (result@.len() - 1) * step < top,
                bottom <= index,
                step == 1 ==> result@.len() == index - bottom,
                step == 1 && bottom <= top ==> index <= top,
                forall|k: int|
                    0 <= k < result@.len() ==> #[trigger] result@[k] == self.contains(
                        bottom + k * step,
                    ),
            decreases if index <= top {
                top - index
            } else {
                0
            },
        {
            let b = ((self.0 as u128) >> (index as u128)) & 1 == 1;
            let ghost len = result@.len() as int;
            let ghost before = result@;
            proof {
                assert(b == self.contains(index as int));
            }
            result.push(b);
            proof {
                assert forall|k: int| 0 <= k < result@.len() implies #[trigger] result@[k]
                    == self.contains(bottom + k * step) by {
                    if k < len {
                        assert(result@[k] == before[k]);
                    }
                }
                assert(bottom + len * step + step == bottom + (len + 1) * step) by (nonlinear_arith);
                if step == 1 {
                    assert(len * step == len);
                }
            }
            index = index + step;
        }
        result
    }

    /// The positions of the set in order.
    pub fn iter(&self) -> (r: Vec<bool>)
        requires
            SIZE <= 128,
        ensures
            r@.len() == SIZE,
            forall|k: int| 0 <= k < r@.len() ==> #[trigger] r@[k] == self.contains(k),
    {
        let r = self.read_bits(0, SIZE, 1);
        proof {
            assert forall|k: int| 0 <= k < r@.len() implies #[trigger] r@[k] == self.contains(k) by {
                assert(0 + k * 1 == k);
            }
        }
        r
    }

    /// The positions of a row of the set, from west to east.
    pub fn row(&self, y: u8) -> (r: Vec<bool>)
        requires
            y < 255,
            (y as int + 1) * WIDTH <= 128,
        ensures
            r@.len() == WIDTH,
            forall|k: int| 0 <= k < r@.len() ==> #[trigger] r@[k] == self.contains(y * WIDTH + k),
    {
        proof {
            assert((y as int + 1) * WIDTH == y * WIDTH + WIDTH) by (nonlinear_arith);
            assert(0 <= y * WIDTH) by (nonlinear_arith);
        }
        let bottom = (y * WIDTH) as usize;
        let top = ((y + 1) * WIDTH) as usize;
        let r = self.read_bits(bottom, top, 1);
        proof {
            assert forall|k: int| 0 <= k < r@.len() implies #[trigger] r@[k] == self.contains(y * WIDTH + k) by {
                assert(bottom + k * 1 == y * WIDTH + k);
            }
        }
        r
    }

    /// The positions `x`, `x + HEIGHT`, `x + 2 * HEIGHT`, ... below
    /// `WIDTH * (HEIGHT - 1) + x + 1`, in order.
    pub fn col(&self, x: u8) -> (r: Vec<bool>)
        requires
            1 <= HEIGHT,
            WIDTH * (HEIGHT - 1) + x + 1 <= 128,
        ensures
            x + r@.len() * HEIGHT >= WIDTH * (HEIGHT - 1) + x + 1,
            r@.len() > 0 ==> x + (r@.len() - 1) * HEIGHT < WIDTH * (HEIGHT - 1) + x + 1,
            forall|k: int| 0 <= k < r@.len() ==> #[trigger] r@[k] == self.contains(x + k * HEIGHT),
    {
        proof {
            assert(0 <= WIDTH * (HEIGHT - 1)) by (nonlinear_arith)
                requires
                    1 <= HEIGHT,
            ;
        }
        let top = ((WIDTH * (HEIGHT - 1)) + x + 1) as usize;
        let r = self.read_bits(x as usize, top, HEIGHT as usize);
        proof {
            assert(top == WIDTH * (HEIGHT - 1) + x + 1);
        }
        r
    }

    /// The set moved `rows` rows towards the north; rows leaving the grid are lost.
    pub fn shift_north(&self, rows: u8) -> (r: Self)
        requires
            rows * WIDTH < 128,
            1 <= SIZE <= 128,
        ensures
            forall|j: int| #[trigger] r.contains(j) == (0 <= j < SIZE && self.contains(j + rows * WIDTH)),
    {
        proof {
            assert(0 <= rows * WIDTH) by (nonlinear_arith);
        }
        let k = (rows * WIDTH) as u128;
        let n = SIZE as u128;
        let w = self.0 as u128;
        let mask: u128 = u128::MAX >> (128 - n);
        let shifted = w >> k;
        let nw = shifted & mask;
        proof {
            bits128::lemma_shift(w, k);
            bits128::lemma_low_mask(0u128, n);
            bits128::lemma_bitwise(shifted, mask);
            assert(forall|j: int| #[trigger] bits128::has_bit(nw, j) == (0 <= j < SIZE && bits128::has_bit(w, j + k)));
            assert(forall|j: int| 128 <= j ==> !#[trigger] bits128::has_bit(nw, j));
        }
        Self::from_word(nw)
    }

    /// The set moved `rows` rows towards the south; rows leaving the grid are lost.
    pub fn shift_south(&self, rows: u8) -> (r: Self)
        requires
            rows * WIDTH < 128,
            1 <= SIZE <= 128,
        ensures
            forall|j: int| #[trigger] r.contains(j) == (rows * WIDTH <= j < SIZE && self.contains(j - rows * WIDTH)),
    {
        proof {
            assert(0 <= rows * WIDTH) by (nonlinear_arith);
        }
        let k = (rows * WIDTH) as u128;
        let n = SIZE as u128;
        let w = self.0 as u128;
        let mask: u128 = u128::MAX >> (128 - n);
        let shifted = w << k;
        let nw = shifted & mask;
        proof {
            bits128::lemma_shift(w, k);
            bits128::lemma_low_mask(0u128, n);
            bits128::lemma_bitwise(shifted, mask);
            assert(forall|j: int| #[trigger] bits128::has_bit(nw, j) == (k <= j < SIZE && bits128::has_bit(w, j - k)));
            assert(forall|j: int| 128 <= j ==> !#[trigger] bits128::has_bit(nw, j));
        }
        Self::from_word(nw)
    }

    /// The set of the tiles of row `y`.
    pub fn row_mask(y: u8) -> (r: Self)
        requires
            Self::legal(),
            Tile::<WIDTH, HEIGHT>::legal(),
            1 <= WIDTH,
            1 <= HEIGHT,
            y * WIDTH < 128,
        ensures
            forall|j: int| #[trigger] r.contains(j) == (y * WIDTH <= j < y * WIDTH + WIDTH && j < 128),
    {
        let mut row_zero: u128 = 0;
        let mut x: u8 = 0;
        proof {
            bits128::lemma_empty_word();
            assert(WIDTH <= 128) by (nonlinear_arith)
                requires
                    1 <= HEIGHT,
                    WIDTH as nat * HEIGHT as nat <= 128,
            ;
        }
        while x < WIDTH
            invariant
                Tile::<WIDTH, HEIGHT>::legal(),
                WIDTH <= 128,
                x <= WIDTH,
                forall|j: int| #[trigger] bits128::has_bit(row_zero, j) == (0 <= j < x),
            decreases WIDTH - x,
        {
            proof {
                bits128::lemma_set_bit(row_zero, x as u128);
            }
            row_zero = row_zero | (1u128 << (x as u128));
            x = x + 1;
        }
        proof {
            assert(0 <= y * WIDTH) by (nonlinear_arith);
        }
        let k = (y * WIDTH) as u128;
        proof {
            bits128::lemma_shift(row_zero, k);
        }
        let shifted = row_zero << k;
        let mask: u128 = u128::MAX >> (128 - 128u128);
        let nw = shifted & mask;
        proof {
            bits128::lemma_low_mask(0u128, 128u128);
            bits128::lemma_bitwise(shifted, mask);
            assert(forall|j: int| #[trigger] bits128::has_bit(nw, j) == (k <= j < 128 && bits128::has_bit(row_zero, j - k)));
            assert(forall|j: int| 128 <= j ==> !#[trigger] bits128::has_bit(nw, j));
        }
        Self::from_word(nw)
    }

    /// The set of the tiles of column `x`.
    pub fn col_mask(x: u8) -> (r: Self)
        requires
            Self::legal(),
            Tile::<WIDTH, HEIGHT>::legal(),
            1 <= WIDTH,
            1 <= HEIGHT,
            x < 128,
        ensures
            forall|j: int| #[trigger] r.contains(j) == (x <= j < 128 && (j - x) % (WIDTH as int) == 0
                && (j - x) / (WIDTH as int) < HEIGHT),
    {
        let mut col_zero: u128 = 0;
        let mut y: u8 = 0;
        proof {
            bits128::lemma_empty_word();
        }
        while y < HEIGHT
            invariant
                Self::legal(),
                Tile::<WIDTH, HEIGHT>::legal(),
                1 <= WIDTH,
                y <= HEIGHT,
                forall|j: int| #[trigger] bits128::has_bit(col_zero, j) == (0 <= j && j % (WIDTH as int) == 0 && j / (WIDTH as int) < y),
            decreases HEIGHT - y,
        {
            proof {
                lemma_index_bound(0, y as int, WIDTH as int, HEIGHT as int);
                lemma_byte_product(WIDTH as int, y as int);
            }
            let i = (WIDTH as u128) * (y as u128);
            proof {
                bits128::lemma_set_bit(col_zero, i);
                lemma_index_coords(0, y as int, WIDTH as int);
                assert forall|j: int| #[trigger] bits128::has_bit(col_zero | (1u128 << i), j) == (0 <= j && j % (WIDTH as int) == 0 && j / (WIDTH as int) < y + 1) by {
                    if 0 <= j {
                        lemma_coords_index(j, WIDTH as int);
                        if j % (WIDTH as int) == 0 && j / (WIDTH as int) == y {
                            assert(j == i);
                        }
                        if j % (WIDTH as int) == 0 && j / (WIDTH as int) < y + 1 {
                            assert(WIDTH * (j / (WIDTH as int)) <= WIDTH * y) by (nonlinear_arith)
                                requires
                                    j / (WIDTH as int) <= y,
                                    0 <= WIDTH,
                            ;
                        }
                        if j == i {
                            assert(j % (WIDTH as int) == 0 && j / (WIDTH as int) == y);
                        }
                    }
                }
            }
            col_zero = col_zero | (1u128 << i);
            y = y + 1;
        }
        let k = x as u128;
        proof {
            bits128::lemma_shift(col_zero, k);
        }
        let shifted = col_zero << k;
        let mask: u128 = u128::MAX >> (128 - 128u128);
        let nw = shifted & mask;
        proof {
            bits128::lemma_low_mask(0u128, 128u128);
            bits128::lemma_bitwise(shifted, mask);
            assert(forall|j: int| #[trigger] bits128::has_bit(nw, j) == (k <= j < 128 && bits128::has_bit(col_zero, j - k)));
            assert(forall|j: int| 128 <= j ==> !#[trigger] bits128::has_bit(nw, j));
        }
        Self::from_word(nw)
    }

    /// Each tile of the grid, in order, with whether it is in the set.
    pub fn enumerate(&self) -> (r: Vec<(Tile<WIDTH, HEIGHT>, bool)>)
        requires
            Self::legal(),
            Tile::<WIDTH, HEIGHT>::legal(),
        ensures
            r@.len() == SIZE,
            forall|k: int| 0 <= k < r@.len() ==> (#[trigger] r@[k]).0.wf() && r@[k].0.index() == k && r@[k].1 == self.contains(k),
    {
        let bits = self.iter();
        let mut result: Vec<(Tile<WIDTH, HEIGHT>, bool)> = Vec::new();
        let mut i: usize = 0;
        while i < bits.len()
            invariant
                Self::legal(),
                bits@.len() == SIZE,
                forall|k: int| 0 <= k < bits@.len() ==> #[trigger] bits@[k] == self.contains(k),
                i <= bits@.len(),
                result@.len() == i,
                forall|k: int| 0 <= k < result@.len() ==> (#[trigger] result@[k]).0.wf() && result@[k].0.index() == k && result@[k].1 == self.contains(k),
            decreases bits@.len() - i,
        {
            let t = Tile::<WIDTH, HEIGHT>::try_from_usize(i).unwrap();
            result.push((t, bits[i]));
            i = i + 1;
        }
        result
    }

    /// The tiles of the set, from first to last.
    pub fn iter_true_tiles(&self) -> (r: TrueTilesIter128<WIDTH, HEIGHT, SIZE>)
        ensures
            r.remaining() == *self,
    {
        TrueTilesIter128::new(self)
    }

    /// The number of tiles in the set.
    pub fn count(&self) -> (r: u32)
        ensures
            r == bits128::bits_below(self.bits(), 128),
    {
        proof {
            self.lemma_width();
            bits128::lemma_bits_below_split(self.bits(), 128);
        }
        bits128::count_ones(self.0 as u128)
    }

    /// Return the set of tiles in both self and `rhs`.
    pub fn intersect(&self, rhs: &Self) -> (r: Self)
        ensures
            forall|j: int| #[trigger] r.contains(j) == (self.contains(j) && rhs.contains(j)),
    {
        proof {
            self.lemma_width();
            rhs.lemma_width();
            bits128::lemma_bitwise(self.0 as u128, rhs.0 as u128);
        }
        let nw = (self.0 as u128) & (rhs.0 as u128);
        proof {
            assert(forall|j: int| #[trigger] bits128::has_bit(nw, j) == (bits128::has_bit(self.bits(), j) && bits128::has_bit(rhs.bits(), j)));
            assert(forall|j: int| 128 <= j ==> !#[trigger] bits128::has_bit(nw, j));
        }
        Self::from_word(nw)
    }

    /// Return the set of tiles in either self or `rhs` or both.
    pub fn union(&self, rhs: &Self) -> (r: Self)
        ensures
            forall|j: int| #[trigger] r.contains(j) == (self.contains(j) || rhs.contains(j)),
    {
        proof {
            self.lemma_width();
            rhs.lemma_width();
            bits128::lemma_bitwise(self.0 as u128, rhs.0 as u128);
        }
        let nw = (self.0 as u128) | (rhs.0 as u128);
        proof {
            assert(forall|j: int| #[trigger] bits128::has_bit(nw, j) == (bits128::has_bit(self.bits(), j) || bits128::has_bit(rhs.bits(), j)));
            assert(forall|j: int| 128 <= j ==> !#[trigger] bits128::has_bit(nw, j));
        }
        Self::from_word(nw)
    }

    /// Whether every tile of self is in `rhs`.
    pub fn is_subset(&self, rhs: &Self) -> (r: bool)
        ensures
            r == forall|j: int| #[trigger] self.contains(j) ==> rhs.contains(j),
    {
        let i = self.intersect(rhs);
        proof {
            if forall|j: int| #[trigger] self.contains(j) ==> rhs.contains(j) {
                i.lemma_ext(*self);
            }
        }
        i.0 == self.0
    }

    /// Whether every tile of `rhs` is in self.
    pub fn is_superset(&self, rhs: &Self) -> (r: bool)
        ensures
            r == forall|j: int| #[trigger] rhs.contains(j) ==> self.contains(j),
    {
        let i = self.intersect(rhs);
        proof {
            if forall|j: int| #[trigger] rhs.contains(j) ==> self.contains(j) {
                i.lemma_ext(*rhs);
            }
        }
        i.0 == rhs.0
    }

    /// Returns a new set containing all elements which belong to one set but not both
    pub fn symmetric_difference(&self, rhs: &Self) -> (r: Self)
        ensures
            forall|j: int| #[trigger] r.contains(j) == (self.contains(j) != rhs.contains(j)),
    {
        proof {
            self.lemma_width();
            rhs.lemma_width();
            bits128::lemma_bitwise(self.0 as u128, rhs.0 as u128);
        }
        let nw = (self.0 as u128) ^ (rhs.0 as u128);
        proof {
            assert(forall|j: int| #[trigger] bits128::has_bit(nw, j) == (bits128::has_bit(self.bits(), j) != bits128::has_bit(rhs.bits(), j)));
            assert(forall|j: int| 128 <= j ==> !#[trigger] bits128::has_bit(nw, j));
        }
        Self::from_word(nw)
    }

    /// The set of the tiles of the grid that are not in self.
    pub fn negate(&self) -> (r: Self)
        requires
            1 <= SIZE <= 128,
        ensures
            forall|j: int| #[trigger] r.contains(j) == (0 <= j < SIZE && !self.contains(j)),
    {
        let n = SIZE as u128;
        let mask: u128 = u128::MAX >> (128 - n);
        let nw = !(self.0 as u128) & mask;
        proof {
            bits128::lemma_low_mask(self.0 as u128, n);
            assert(forall|j: int| #[trigger] bits128::has_bit(nw, j) == (0 <= j < SIZE && !bits128::has_bit(self.bits(), j)));
            assert(forall|j: int| 128 <= j ==> !#[trigger] bits128::has_bit(nw, j));
        }
        Self::from_word(nw)
    }

    /// The first tile in this set
    pub fn first(&self) -> (r: Option<Tile<WIDTH, HEIGHT>>)
        requires
            Self::legal(),
        ensures
            r is None <==> forall|j: int| 0 <= j < Tile::<WIDTH, HEIGHT>::tile_count() ==> !#[trigger] self.contains(j),
            r matches Some(t) ==> t.wf() && self.contains(t.index() as int) && forall|j: int| 0 <= j < t.index() ==> !#[trigger] self.contains(j),
    {
        let w = self.0 as u128;
        let tz = bits128::trailing_zeros(w);
        let r = Tile::<WIDTH, HEIGHT>::try_from_inner(tz as u8);
        proof {
            assert(self.bits() == w);
            assert(forall|j: int| 0 <= j < tz ==> !#[trigger] bits128::has_bit(w, j));
            assert(forall|j: int| 0 <= j < tz ==> !#[trigger] self.contains(j));
            if w != 0 {
                assert(self.contains(tz as int));
            } else {
                bits128::lemma_empty_word();
            }
        }
        r
    }

    /// Removes the first tile in this set and returns it
    /// Returns `None` if the set is empty
    pub fn pop(&mut self) -> (r: Option<Tile<WIDTH, HEIGHT>>)
        ensures
            r is None <==> forall|j: int| !#[trigger] old(self).contains(j),
            r is None ==> *final(self) == *old(self),
            r matches Some(t) ==> old(self).contains(t.index() as int) && (forall|j: int|
                0 <= j < t.index() ==> !#[trigger] old(self).contains(j)) && (forall|j: int| #[trigger] final(self).contains(j) == (j != t.index() && old(self).contains(j))),
    {
        let w = self.0 as u128;
        proof {
            self.lemma_width();
        }
        if w == 0 {
            proof {
                self.lemma_empty();
            }
            return None;
        }
        let index = bits128::trailing_zeros(w) as u128;
        let nw = w & !(1u128 << index);
        proof {
            bits128::lemma_clear_bit(w, index);
            assert(forall|j: int| #[trigger] bits128::has_bit(nw, j) == (j != index && bits128::has_bit(w, j)));
            assert(self.bits() == w);
            assert(forall|j: int| 128 <= j ==> !#[trigger] bits128::has_bit(w, j));
            assert(forall|j: int| 128 <= j ==> !#[trigger] bits128::has_bit(nw, j));
            assert(old(self).contains(index as int));
        }
        *self = Self::from_word(nw);
        Some(Tile::<WIDTH, HEIGHT>::from_inner_unchecked(index as u8))
    }

    /// The last tile in this set
    pub fn last(&self) -> (r: Option<Tile<WIDTH, HEIGHT>>)
        ensures
            r is None <==> forall|j: int| !#[trigger] self.contains(j),
            r matches Some(t) ==> self.contains(t.index() as int) && forall|j: int| t.index() < j ==> !#[trigger] self.contains(j),
    {
        let w = self.0 as u128;
        proof {
            self.lemma_width();
        }
        if w == 0 {
            proof {
                self.lemma_empty();
            }
            return None;
        }
        let index = bits128::highest_bit(w);
        proof {
            assert(self.bits() == w);
            assert(self.contains(index as int));
            assert(forall|j: int| index < j ==> !#[trigger] bits128::has_bit(w, j));
        }
        Some(Tile::<WIDTH, HEIGHT>::from_inner_unchecked(index as u8))
    }

    /// Removes the last tile in this set and returns it
    /// Returns `None` if the set is empty
    pub fn pop_last(&mut self) -> (r: Option<Tile<WIDTH, HEIGHT>>)
        ensures
            r is None <==> forall|j: int| !#[trigger] old(self).contains(j),
            r is None ==> *final(self) == *old(self),
            r matches Some(t) ==> old(self).contains(t.index() as int) && (forall|j: int|
                t.index() < j ==> !#[trigger] old(self).contains(j)) && (forall|j: int| #[trigger] final(self).contains(j) == (j != t.index() && old(self).contains(j))),
    {
        let w = self.0 as u128;
        proof {
            self.lemma_width();
        }
        if w == 0 {
            proof {
                self.lemma_empty();
            }
            return None;
        }
        let index = bits128::highest_bit(w) as u128;
        let nw = w & !(1u128 << index);
        proof {
            bits128::lemma_clear_bit(w, index);
            assert(forall|j: int| #[trigger] bits128::has_bit(nw, j) == (j != index && bits128::has_bit(w, j)));
            assert(self.bits() == w);
            assert(forall|j: int| 128 <= j ==> !#[trigger] bits128::has_bit(w, j));
            assert(forall|j: int| 128 <= j ==> !#[trigger] bits128::has_bit(nw, j));
            assert(old(self).contains(index as int));
        }
        *self = Self::from_word(nw);
        Some(Tile::<WIDTH, HEIGHT>::from_inner_unchecked(index as u8))
    }

    /// The set of the given tiles.
    pub fn from_iter(tiles: Vec<Tile<WIDTH, HEIGHT>>) -> (r: Self)
        requires
            Self::legal(),
            forall|k: int| 0 <= k < tiles@.len() ==> (#[trigger] tiles@[k]).index() < 128,
        ensures
            forall|j: int| #[trigger] r.contains(j) == exists|k: int| 0 <= k < tiles@.len() && (#[trigger] tiles@[k]).index() == j,
    {
        let mut r = Self::empty();
        let mut i: usize = 0;
        while i < tiles.len()
            invariant
                forall|k: int| 0 <= k < tiles@.len() ==> (#[trigger] tiles@[k]).index() < 128,
                i <= tiles@.len(),
                forall|j: int| #[trigger] r.contains(j) == exists|k: int| 0 <= k < i && (#[trigger] tiles@[k]).index() == j,
            decreases tiles@.len() - i,
        {
            let t = tiles[i];
            let ghost before = r;
            r.set_bit(&t, true);
            proof {
                assert forall|j: int| #[trigger] r.contains(j) == exists|k: int| 0 <= k < i + 1 && (#[trigger] tiles@[k]).index() == j by {
                    if j == t.index() {
                        assert(tiles@[i as int].index() == j);
                    } else {
                        if exists|k: int| 0 <= k < i + 1 && (#[trigger] tiles@[k]).index() == j {
                            let k = choose|k: int| 0 <= k < i + 1 && (#[trigger] tiles@[k]).index() == j;
                            assert(k != i);
                        }
                    }
                }
            }
            i = i + 1;
        }
        r
    }

    /// The text of the set, one line per row (its `Display` form).
    pub fn to_string(&self) -> (s: String)
        requires
            1 <= WIDTH,
            SIZE <= 128,
        ensures
            s@ == self.text_prefix(SIZE as int, true),
    {
        self.write_text(true)
    }

    /// The text of the set on a single line (its alternate `Display` form).
    pub fn to_string_alternate(&self) -> (s: String)
        requires
            1 <= WIDTH,
            SIZE <= 128,
        ensures
            s@ == self.text_prefix(SIZE as int, false),
    {
        self.write_text(false)
    }

    fn write_text(&self, lines: bool) -> (s: String)
        requires
            1 <= WIDTH,
            SIZE <= 128,
        ensures
            s@ == self.text_prefix(SIZE as int, lines),
    {
        let bits = self.iter();
        let mut s = String::new();
        let mut i: usize = 0;
        while i < bits.len()
            invariant
                1 <= WIDTH,
                bits@.len() == SIZE,
                forall|k: int| 0 <= k < bits@.len() ==> #[trigger] bits@[k] == self.contains(k),
                i <= bits@.len(),
                s@ == self.text_prefix(i as int, lines),
            decreases bits@.len() - i,
        {
            if lines && i > 0 && i % (WIDTH as usize) == 0 {
                push_char(&mut s, '\n');
            }
            if bits[i] {
                push_char(&mut s, '*');
            } else {
                push_char(&mut s, '_');
            }
            i = i + 1;
        }
        s
    }
}

/// Iterates through the tiles of a set, from either end.
#[derive(Clone, Debug)]
pub struct TrueTilesIter128<const WIDTH: u8, const HEIGHT: u8, const SIZE: usize> {
    inner: TileSet128<WIDTH, HEIGHT, SIZE>,
}

impl<const WIDTH: u8, const HEIGHT: u8, const SIZE: usize> TrueTilesIter128<WIDTH, HEIGHT, SIZE> {
    /// The tiles that are still to come.
    pub closed spec fn remaining(self) -> TileSet128<WIDTH, HEIGHT, SIZE> {
        self.inner
    }

    pub fn new(set: &TileSet128<WIDTH, HEIGHT, SIZE>) -> (r: Self)
        ensures
            r.remaining() == *set,
    {
        TrueTilesIter128 { inner: *set }
    }

    /// The first remaining tile, which is no longer to come.
    pub fn next(&mut self) -> (r: Option<Tile<WIDTH, HEIGHT>>)
        ensures
            r is None <==> forall|j: int| !#[trigger] old(self).remaining().contains(j),
            r is None ==> final(self).remaining() == old(self).remaining(),
            r matches Some(t) ==> old(self).remaining().contains(t.index() as int) && (forall|j: int|
                0 <= j < t.index() ==> !#[trigger] old(self).remaining().contains(j)) && (forall|j: int| #[trigger] final(self).remaining().contains(j) == (j != t.index() && old(self).remaining().contains(j))),
    {
        let ghost before = self.inner;
        let r = self.inner.pop();
        proof {
            assert(before == old(self).remaining());
            assert((forall|j: int| !#[trigger] before.contains(j)) == (forall|j: int|
                !#[trigger] old(self).remaining().contains(j)));
        }
        r
    }

    /// The last remaining tile, which is no longer to come.
    pub fn next_back(&mut self) -> (r: Option<Tile<WIDTH, HEIGHT>>)
        ensures
            r is None <==> forall|j: int| !#[trigger] old(self).remaining().contains(j),
            r is None ==> final(self).remaining() == old(self).remaining(),
            r matches Some(t) ==> old(self).remaining().contains(t.index() as int) && (forall|j: int|
                t.index() < j ==> !#[trigger] old(self).remaining().contains(j)) && (forall|j: int| #[trigger] final(self).remaining().contains(j) == (j != t.index() && old(self).remaining().contains(j))),
    {
        let ghost before = self.inner;
        let r = self.inner.pop_last();
        proof {
            assert(before == old(self).remaining());
            assert((forall|j: int| !#[trigger] before.contains(j)) == (forall|j: int|
                !#[trigger] old(self).remaining().contains(j)));
        }
        r
    }

    /// The number of remaining tiles.
    pub fn len(&self) -> (r: usize)
        ensures
            r == bits128::bits_below(self.remaining().bits(), 128),
    {
        self.inner.count() as usize
    }

    /// The number of remaining tiles.
    pub fn count(self) -> (r: usize)
        ensures
            r == bits128::bits_below(self.remaining().bits(), 128),
    {
        self.inner.count() as usize
    }

    /// The last remaining tile.
    pub fn last(self) -> (r: Option<Tile<WIDTH, HEIGHT>>)
        ensures
            r is None <==> forall|j: int| !#[trigger] self.remaining().contains(j),
            r matches Some(t) ==> self.remaining().contains(t.index() as int) && forall|j: int| t.index() < j ==> !#[trigger] self.remaining().contains(j),
    {
        let r = self.inner.last();
        proof {
            assert(self.inner == self.remaining());
        }
        r
    }

    /// The greatest remaining tile, which is the last.
    pub fn max(self) -> (r: Option<Tile<WIDTH, HEIGHT>>)
        ensures
            r is None <==> forall|j: int| !#[trigger] self.remaining().contains(j),
            r matches Some(t) ==> self.remaining().contains(t.index() as int) && forall|j: int| t.index() < j ==> !#[trigger] self.remaining().contains(j),
    {
        self.last()
    }

    /// Skips `n` tiles (`n` taken modulo `2^32`, as a `u32`) from the front and gives the next one; where
    /// too few tiles remain, gives none and leaves none.
    pub fn nth(&mut self, n: usize) -> (r: Option<Tile<WIDTH, HEIGHT>>)
        ensures
            ({
                let m = (n as int) % 0x1_0000_0000int;
                let old_bits = old(self).remaining().bits();
                if bits128::bits_below(old_bits, 128) <= m {
                    r is None && forall|j: int| !#[trigger] final(self).remaining().contains(j)
                } else {
                    r matches Some(t) && old(self).remaining().contains(t.index() as int) && bits128::bits_below(
                        old_bits,
                        t.index() as int,
                    ) == m && forall|j: int| #[trigger] final(self).remaining().contains(j) == (j > t.index()
                        && old(self).remaining().contains(j))
                }
            }),
    {
        let wide: u64 = n as u64 % 0x1_0000_0000;
        assert(wide < 0x1_0000_0000);
        let m: u32 = wide as u32;
        assert(m == (n as int) % 0x1_0000_0000int);
        if self.inner.count() <= m {
            self.inner = TileSet128::default();
            return None;
        }
        let ghost old_set = self.inner;
        let ghost mut lo: int = 0;
        proof {
            old_set.lemma_width();
        }
        let mut k: u32 = 0;
        loop
            invariant
                old_set == old(self).remaining(),
                m == (n as int) % 0x1_0000_0000int,
                forall|j: int| 128 <= j ==> !#[trigger] bits128::has_bit(old_set.bits(), j),
                k <= m,
                bits128::bits_below(old_set.bits(), 128) > m,
                0 <= lo <= 128,
                bits128::bits_below(old_set.bits(), lo) == k,
                forall|j: int| #[trigger] self.inner.contains(j) == (old_set.contains(j) && j >= lo),
            decreases m - k,
        {
            proof {
                if forall|j: int| !#[trigger] self.inner.contains(j) {
                    assert forall|j: int| lo <= j < 128 implies !#[trigger] bits128::has_bit(old_set.bits(), j) by {
                        assert(!self.inner.contains(j));
                    }
                    bits128::lemma_bits_below_gap(old_set.bits(), lo, 128);
                }
            }
            let ghost before = self.inner;
            let t = self.inner.pop().unwrap();
            proof {
                assert forall|j: int| lo <= j < t.index() implies !#[trigger] bits128::has_bit(old_set.bits(), j) by {
                    assert(!before.contains(j));
                }
                bits128::lemma_bits_below_gap(old_set.bits(), lo, t.index() as int);
                assert(old_set.contains(t.index() as int));
                assert(bits128::bits_below(old_set.bits(), (t.index() + 1) as int) == k + 1);
                lo = (t.index() + 1) as int;
                assert forall|j: int| #[trigger] self.inner.contains(j) == (old_set.contains(j) && j >= lo) by {
                    assert(before.contains(j) == (old_set.contains(j) && j >= t.index()));
                }
            }
            if k == m {
                return Some(t);
            }
            k = k + 1;
        }
    }

    /// Skips `n` tiles (`n` taken modulo `2^32`, as a `u32`) from the back and gives the next one; where too
    /// few tiles remain, gives none and leaves none.
    pub fn nth_back(&mut self, n: usize) -> (r: Option<Tile<WIDTH, HEIGHT>>)
        ensures
            ({
                let m = (n as int) % 0x1_0000_0000int;
                let old_bits = old(self).remaining().bits();
                if bits128::bits_below(old_bits, 128) <= m {
                    r is None && forall|j: int| !#[trigger] final(self).remaining().contains(j)
                } else {
                    r matches Some(t) && old(self).remaining().contains(t.index() as int) && bits128::bits_below(
                        old_bits,
                        128,
                    ) - bits128::bits_below(old_bits, (t.index() + 1) as int) == m && forall|j: int|
                        #[trigger] final(self).remaining().contains(j) == (j < t.index() && old(self).remaining().contains(j))
                }
            }),
    {
        let wide: u64 = n as u64 % 0x1_0000_0000;
        assert(wide < 0x1_0000_0000);
        let m: u32 = wide as u32;
        assert(m == (n as int) % 0x1_0000_0000int);
        if self.inner.count() <= m {
            self.inner = TileSet128::default();
            return None;
        }
        let ghost old_set = self.inner;
        let ghost total = bits128::bits_below(old_set.bits(), 128);
        let ghost mut hi: int = 128;
        proof {
            old_set.lemma_width();
            bits128::lemma_bits_below_bounds(old_set.bits(), 128);
        }
        let mut k: u32 = 0;
        loop
            invariant
                old_set == old(self).remaining(),
                total == bits128::bits_below(old_set.bits(), 128),
                m == (n as int) % 0x1_0000_0000int,
                forall|j: int| 128 <= j ==> !#[trigger] bits128::has_bit(old_set.bits(), j),
                k <= m,
                total > m,
                0 <= hi <= 128,
                total - bits128::bits_below(old_set.bits(), hi) == k,
                forall|j: int| #[trigger] self.inner.contains(j) == (old_set.contains(j) && j < hi),
            decreases m - k,
        {
            proof {
                if forall|j: int| !#[trigger] self.inner.contains(j) {
                    assert forall|j: int| 0 <= j < hi implies !#[trigger] bits128::has_bit(old_set.bits(), j) by {
                        assert(!self.inner.contains(j));
                    }
                    bits128::lemma_bits_below_gap(old_set.bits(), 0, hi);
                }
            }
            let ghost before = self.inner;
            let t = self.inner.pop_last().unwrap();
            proof {
                assert forall|j: int| t.index() < j < hi implies !#[trigger] bits128::has_bit(old_set.bits(), j) by {
                    assert(!before.contains(j));
                }
                bits128::lemma_bits_below_gap(old_set.bits(), (t.index() + 1) as int, hi);
                assert(old_set.contains(t.index() as int));
                assert(bits128::bits_below(old_set.bits(), (t.index() + 1) as int) == bits128::bits_below(old_set.bits(), t.index() as int) + 1);
                hi = t.index() as int;
                assert forall|j: int| #[trigger] self.inner.contains(j) == (old_set.contains(j) && j < hi) by {
                    assert(before.contains(j) == (old_set.contains(j) && j <= t.index()));
                }
            }
            if k == m {
                return Some(t);
            }
            k = k + 1;
        }
    }

    /// The least remaining tile, which is the first.
    pub fn min(self) -> (r: Option<Tile<WIDTH, HEIGHT>>)
        ensures
            r is None <==> forall|j: int| !#[trigger] self.remaining().contains(j),
            r matches Some(t) ==> self.remaining().contains(t.index() as int) && forall|j: int| 0 <= j < t.index() ==> !#[trigger] self.remaining().contains(j),
    {
        let mut it = self;
        it.next()
    }
}


/// Iterates the bits of a set from `bottom_index` (inclusive) up to `top_index` (exclusive),
/// every `STEP` bits, from either end.
#[derive(Clone, Copy, Debug)]
pub struct TileSetIter128<const STEP: u8> {
    inner: u128,
    bottom_index: usize,
    top_index: usize,
}

impl<const STEP: u8> TileSetIter128<STEP> {
    /// The bits of the set.
    pub closed spec fn word(self) -> u128 {
        self.inner as u128
    }

    /// The index of the next bit from the bottom.
    pub closed spec fn bottom(self) -> int {
        self.bottom_index as int
    }

    /// The index just past the next bit from the top.
    pub closed spec fn top(self) -> int {
        self.top_index as int
    }

    /// The number of bits still to come.
    pub open spec fn remaining_count(self) -> int {
        if self.top() > self.bottom() {
            (self.top() - self.bottom()) / STEP as int
        } else {
            0
        }
    }

    pub fn new(inner: u128, bottom_index: usize, top_index: usize) -> (r: Self)
        ensures
            r.word() == inner as u128,
            r.bottom() == bottom_index,
            r.top() == top_index,
    {
        TileSetIter128 { inner, bottom_index, top_index }
    }

    /// The number of bits still to come.
    pub fn len(&self) -> (r: usize)
        requires
            STEP > 0,
        ensures
            r == self.remaining_count(),
    {
        self.count()
    }

    /// The number of bits still to come.
    pub fn count(self) -> (r: usize)
        requires
            STEP > 0,
        ensures
            r == self.remaining_count(),
    {
        let distance: usize = if self.top_index > self.bottom_index {
            self.top_index - self.bottom_index
        } else {
            0
        };
        distance / (STEP as usize)
    }

    /// The next bit from the bottom, if the bottom is below the top.
    pub fn next(&mut self) -> (r: Option<bool>)
        requires
            old(self).bottom() < old(self).top() ==> old(self).bottom() < 128,
        ensures
            final(self).word() == old(self).word(),
            final(self).top() == old(self).top(),
            old(self).bottom() >= old(self).top() ==> r is None && final(self).bottom() == old(self).bottom(),
            old(self).bottom() < old(self).top() ==> r == Some(bits128::has_bit(old(self).word(), old(self).bottom()))
                && final(self).bottom() == old(self).bottom() + STEP,
    {
        if self.bottom_index >= self.top_index {
            None
        } else {
            let r = ((self.inner as u128) >> (self.bottom_index as u128)) & 1 == 1;
            self.bottom_index = self.bottom_index + (STEP as usize);
            Some(r)
        }
    }

    /// The next bit from the top, if one lies at or above the bottom.
    pub fn next_back(&mut self) -> (r: Option<bool>)
        requires
            old(self).top() <= 128,
            STEP > 0 || old(self).top() < 128,
        ensures
            final(self).word() == old(self).word(),
            final(self).bottom() == old(self).bottom(),
            ({
                let next = if old(self).top() >= STEP { old(self).top() - STEP } else { 0 };
                if old(self).top() == 0 || old(self).bottom() > next {
                    r is None && final(self).top() == old(self).top()
                } else {
                    r == Some(bits128::has_bit(old(self).word(), next)) && final(self).top() == next
                }
            }),
    {
        if self.top_index == 0 {
            return None;
        }
        let next_index: usize = if self.top_index >= STEP as usize {
            self.top_index - STEP as usize
        } else {
            0
        };
        if self.bottom_index > next_index {
            None
        } else {
            self.top_index = next_index;
            let r = ((self.inner as u128) >> (self.top_index as u128)) & 1 == 1;
            Some(r)
        }
    }
}
} // verus!
