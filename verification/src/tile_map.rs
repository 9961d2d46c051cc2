//! Maps from the tiles of a fixed size grid to values.
use vstd::prelude::*;

use crate::flip_axes::{flipped_within, FlipAxes};
use crate::grid_math::{lemma_byte_product, lemma_coords_index, lemma_index_bound, lemma_index_coords, lemma_row_bound};
use crate::quarter_turns::QuarterTurns;
use crate::text::{decimal, push_char, push_decimal, push_signed_decimal, signed_decimal};
use crate::tile::Tile;

verus! {

/// The value stored for the coordinate `(a, b)` of a row-major grid `w` cells wide.
pub open spec fn cell<T>(cells: Seq<T>, w: int, a: int, b: int) -> T {
    cells[a + w * b]
}

/// Distinct coordinates of a grid have distinct row-major indices.
pub proof fn lemma_index_injective(w: int, a: int, b: int, c: int, d: int)
    requires
        0 <= a < w,
        0 <= c < w,
        0 <= b,
        0 <= d,
        a + w * b == c + w * d,
    ensures
        a == c,
        b == d,
{
    lemma_index_coords(a, b, w);
    lemma_index_coords(c, d, w);
}

/// Swapping the cells at two coordinates exchanges their values and leaves every other
/// coordinate unchanged.
pub proof fn lemma_swap_cells<T>(cells: Seq<T>, w: int, h: int, p: (int, int), q: (int, int))
    requires
        0 <= p.0 < w,
        0 <= p.1 < h,
        0 <= q.0 < w,
        0 <= q.1 < h,
        cells.len() == w * h,
    ensures
        ({
            let i = p.0 + w * p.1;
            let j = q.0 + w * q.1;
            let swapped = cells.update(i, cells[j]).update(j, cells[i]);
            &&& swapped.len() == cells.len()
            &&& forall|a: int, b: int|
                0 <= a < w && 0 <= b < h ==> #[trigger] cell(swapped, w, a, b) == if (a, b) == q {
                    cell(cells, w, p.0, p.1)
                } else if (a, b) == p {
                    cell(cells, w, q.0, q.1)
                } else {
                    cell(cells, w, a, b)
                }
        }),
{
    let i = p.0 + w * p.1;
    let j = q.0 + w * q.1;
    lemma_index_bound(p.0, p.1, w, h);
    lemma_index_bound(q.0, q.1, w, h);
    let swapped = cells.update(i, cells[j]).update(j, cells[i]);
    assert forall|a: int, b: int| 0 <= a < w && 0 <= b < h implies #[trigger] cell(
        swapped,
        w,
        a,
        b,
    ) == if (a, b) == q {
        cell(cells, w, p.0, p.1)
    } else if (a, b) == p {
        cell(cells, w, q.0, q.1)
    } else {
        cell(cells, w, a, b)
    } by {
        lemma_index_bound(a, b, w, h);
        if a + w * b == i {
            lemma_index_injective(w, a, b, p.0, p.1);
        }
        if a + w * b == j {
            lemma_index_injective(w, a, b, q.0, q.1);
        }
    }
}

/// Every index below `w * h` is the index of a coordinate of the grid.
pub proof fn lemma_index_cell(w: int, h: int, i: int)
    requires
        0 < w,
        0 <= i < w * h,
    ensures
        0 <= i % w < w,
        0 <= i / w < h,
        i == i % w + w * (i / w),
{
    lemma_coords_index(i, w);
    lemma_row_bound(i, w, h);
}

/// Swaps two elements of an array (`<[T]>::swap`).
#[verifier::external_body]
fn array_swap<T, const N: usize>(arr: &mut [T; N], a: usize, b: usize)
    requires
        a < N,
        b < N,
    ensures
        final(arr)@ == old(arr)@.update(a as int, old(arr)@[b as int]).update(
            b as int,
            old(arr)@[a as int],
        ),
{
    arr.swap(a, b);
}

/// Builds an array from the value of a function at each index (`core::array::from_fn`).
#[verifier::external_body]
fn array_from_fn<T, const N: usize, F: Fn(usize) -> T>(f: F) -> (r: [T; N])
    requires
        forall|i: usize| i < N ==> #[trigger] f.requires((i,)),
    ensures
        forall|i: usize| i < N ==> #[trigger] f.ensures((i,), r@[i as int]),
{
    core::array::from_fn(f)
}

/// A grid
/// A map from tiles to values.
/// If the values are just booleans, use `TileSet` instead
#[derive(Clone, Copy, Debug, PartialEq, Eq, Hash, PartialOrd, Ord)]
pub struct TileMap<T, const WIDTH: u8, const HEIGHT: u8, const SIZE: usize>([T; SIZE]);

impl<T, const WIDTH: u8, const HEIGHT: u8, const SIZE: usize> View for TileMap<
    T,
    WIDTH,
    HEIGHT,
    SIZE,
> {
    type V = Seq<T>;

    closed spec fn view(&self) -> Seq<T> {
        self.0@
    }
}

impl<T, const WIDTH: u8, const HEIGHT: u8, const SIZE: usize> TileMap<T, WIDTH, HEIGHT, SIZE> {
    /// Whether the grid is legal and the array holds exactly one value per tile.
    pub open spec fn legal() -> bool {
        Tile::<WIDTH, HEIGHT>::legal() && SIZE == WIDTH as nat * HEIGHT as nat
    }

    /// The value stored for a coordinate.
    pub open spec fn at(self, a: int, b: int) -> T {
        cell(self@, WIDTH as int, a, b)
    }

    /// The view holds one value per element of the array.
    pub proof fn lemma_len(self)
        ensures
            self@.len() == SIZE,
    {
    }

    /// Builds a map from the value of a function at each tile.
    pub fn from_fn<F: Fn(Tile<WIDTH, HEIGHT>) -> T>(cb: F) -> (r: Self)
        requires
            Self::legal(),
            forall|t: Tile<WIDTH, HEIGHT>| t.wf() ==> #[trigger] cb.requires((t,)),
        ensures
            r@.len() == SIZE,
            forall|t: Tile<WIDTH, HEIGHT>|
                t.wf() ==> #[trigger] cb.ensures((t,), r@[t.index() as int]),
    {
        let cb_ref = &cb;
        let f = |i: usize| -> (v: T)
            requires
                i < SIZE,
                Self::legal(),
                forall|t: Tile<WIDTH, HEIGHT>| t.wf() ==> #[trigger] cb_ref.requires((t,)),
            ensures
                exists|t: Tile<WIDTH, HEIGHT>|
                    t.wf() && t.index() == i && #[trigger] cb_ref.ensures((t,), v),
            {
                let t = Tile::<WIDTH, HEIGHT>::try_from_usize(i).unwrap();
                let v = cb_ref(t);
                v
            };
        let arr: [T; SIZE] = array_from_fn(f);
        let r = TileMap(arr);
        proof {
            assert forall|t: Tile<WIDTH, HEIGHT>| t.wf() implies #[trigger] cb.ensures(
                (t,),
                r@[t.index() as int],
            ) by {
                let i = t.index() as usize;
                assert(f.ensures((i,), arr@[i as int]));
                let t2 = choose|t2: Tile<WIDTH, HEIGHT>|
                    t2.wf() && t2.index() == i && #[trigger] cb.ensures((t2,), arr@[i as int]);
                t.lemma_index_injective(t2);
            }
        }
        r
    }

    /// A map holding the same value at every tile.
    pub fn filled(value: T) -> (r: Self)
        where
            T: Copy,
        requires
            Self::legal(),
        ensures
            forall|i: int| 0 <= i < SIZE ==> #[trigger] r@[i] == value,
            r@.len() == SIZE,
    {
        TileMap([value; SIZE])
    }

    pub fn into_inner(self) -> (r: [T; SIZE])
        ensures
            r@ == self@,
    {
        self.0
    }

    pub fn from_inner(inner: [T; SIZE]) -> (r: Self)
        requires
            Self::legal(),
        ensures
            r@ == inner@,
    {
        TileMap(inner)
    }

    /// The value stored for a tile.
    pub fn get(&self, tile: Tile<WIDTH, HEIGHT>) -> (r: &T)
        requires
            tile.wf(),
            Self::legal(),
        ensures
            *r == self@[tile.index() as int],
    {
        let i: usize = tile.inner() as usize;
        &self.0[i]
    }

    /// Stores a value for a tile.
    pub fn set(&mut self, tile: Tile<WIDTH, HEIGHT>, value: T)
        requires
            tile.wf(),
            Self::legal(),
        ensures
            final(self)@ == old(self)@.update(tile.index() as int, value),
    {
        let i: usize = tile.inner() as usize;
        self.0[i] = value;
    }

    /// The value stored for a tile, to be changed in place.
    pub fn get_mut(&mut self, tile: Tile<WIDTH, HEIGHT>) -> (r: &mut T)
        requires
            tile.wf(),
            Self::legal(),
        ensures
            *r == old(self)@[tile.index() as int],
            final(self)@ == old(self)@.update(tile.index() as int, *final(r)),
    {
        let i: usize = tile.inner() as usize;
        &mut self.0[i]
    }

    /// The values of all tiles, in order, to be changed in place.
    pub fn iter_mut(&mut self) -> (r: &mut [T; SIZE])
        ensures
            r@ == old(self)@,
            final(self)@ == final(r)@,
    {
        &mut self.0
    }

    /// Exchanges the values stored for two tiles.
    pub fn swap(&mut self, p1: Tile<WIDTH, HEIGHT>, p2: Tile<WIDTH, HEIGHT>)
        requires
            p1.wf(),
            p2.wf(),
            Self::legal(),
        ensures
            final(self)@ == old(self)@.update(p1.index() as int, old(self)@[p2.index() as int]).update(
                p2.index() as int,
                old(self)@[p1.index() as int],
            ),
    {
        array_swap(&mut self.0, p1.inner() as usize, p2.inner() as usize);
    }

    /// The values, in row-major order.
    pub fn iter(&self) -> (r: &[T])
        ensures
            r@ == self@,
    {
        self.0.as_slice()
    }

    /// The values of a row.
    pub fn row(&self, y: u8) -> (r: &[T])
        requires
            Self::legal(),
            y < HEIGHT,
        ensures
            r@ == self@.subrange(y * WIDTH, y * WIDTH + WIDTH),
    {
        proof {
            if WIDTH > 0 {
                lemma_index_bound(0, y as int, WIDTH as int, HEIGHT as int);
                lemma_index_bound(WIDTH - 1, y as int, WIDTH as int, HEIGHT as int);
            }
            assert(y * WIDTH == WIDTH * y) by (nonlinear_arith);
        }
        let start: usize = y as usize * WIDTH as usize;
        let end: usize = start + WIDTH as usize;
        vstd::slice::slice_subrange(self.0.as_slice(), start, end)
    }

    /// The values of a row, from west to east, to be changed in place.
    pub fn row_mut(&mut self, y: u8) -> (r: &mut [T])
        requires
            Self::legal(),
            y < HEIGHT,
        ensures
            r@ == old(self)@.subrange(y * WIDTH, y * WIDTH + WIDTH),
            final(self)@ == old(self)@.subrange(0, y * WIDTH) + final(r)@ + old(self)@.subrange(
                y * WIDTH + WIDTH,
                SIZE as int,
            ),
    {
        proof {
            if WIDTH > 0 {
                lemma_index_bound(0, y as int, WIDTH as int, HEIGHT as int);
                lemma_index_bound(WIDTH - 1, y as int, WIDTH as int, HEIGHT as int);
            }
            assert(y * WIDTH == WIDTH * y) by (nonlinear_arith);
        }
        let start: usize = y as usize * WIDTH as usize;
        let all: &mut [T] = &mut self.0;
        let (_before, rest) = all.split_at_mut(start);
        let (row, _after) = rest.split_at_mut(WIDTH as usize);
        row
    }

    /// The values of a column, from north to south.
    pub fn column_iter(&self, column: u8) -> (r: Vec<&T>)
        requires
            Self::legal(),
            column < WIDTH,
        ensures
            r@.len() == HEIGHT,
            forall|y: int| 0 <= y < HEIGHT ==> *(#[trigger] r@[y]) == self.at(column as int, y),
    {
        let mut result: Vec<&T> = Vec::new();
        let mut y: u8 = 0;
        while y < HEIGHT
            invariant
                Self::legal(),
                column < WIDTH,
                y <= HEIGHT,
                result@.len() == y,
                self@.len() == SIZE,
                forall|j: int| 0 <= j < y ==> *(#[trigger] result@[j]) == self.at(column as int, j),
            decreases HEIGHT - y,
        {
            proof {
                lemma_index_bound(column as int, y as int, WIDTH as int, HEIGHT as int);
                lemma_byte_product(WIDTH as int, y as int);
            }
            let i: usize = column as usize + WIDTH as usize * y as usize;
            result.push(&self.0[i]);
            y = y + 1;
        }
        result
    }
}

impl<T, const WIDTH: u8, const HEIGHT: u8, const SIZE: usize> TileMap<T, WIDTH, HEIGHT, SIZE> {
    /// The coordinate whose old value `flip` moves to `(a, b)`: the mirror image of `(a, b)`
    /// across each of the axes.
    pub open spec fn flip_source(a: int, b: int, axes: FlipAxes) -> (int, int) {
        let w = WIDTH as int;
        let h = HEIGHT as int;
        match axes {
            FlipAxes::NoFlip => (a, b),
            FlipAxes::Horizontal => (w - 1 - a, b),
            FlipAxes::Vertical => (a, h - 1 - b),
            FlipAxes::Both => (w - 1 - a, h - 1 - b),
        }
    }

    /// Whether a coordinate lies in the grid.
    pub open spec fn in_bounds(a: int, b: int) -> bool {
        0 <= a < WIDTH && 0 <= b < HEIGHT
    }

    /// Exchanges the values at two coordinates.
    fn swap_coords(&mut self, x1: u8, y1: u8, x2: u8, y2: u8)
        requires
            Self::legal(),
            x1 < WIDTH,
            y1 < HEIGHT,
            x2 < WIDTH,
            y2 < HEIGHT,
            old(self)@.len() == SIZE,
        ensures
            final(self)@.len() == SIZE,
            forall|a: int, b: int|
                Self::in_bounds(a, b) ==> #[trigger] cell(final(self)@, WIDTH as int, a, b) == if (a, b) == (
                x2 as int,
                y2 as int,
            ) {
                cell(old(self)@, WIDTH as int, x1 as int, y1 as int)
            } else if (a, b) == (x1 as int, y1 as int) {
                cell(old(self)@, WIDTH as int, x2 as int, y2 as int)
            } else {
                cell(old(self)@, WIDTH as int, a, b)
            },
    {
        let p1 = Tile::<WIDTH, HEIGHT>::new_unchecked(x1, y1);
        let p2 = Tile::<WIDTH, HEIGHT>::new_unchecked(x2, y2);
        proof {
            lemma_swap_cells(
                old(self)@,
                WIDTH as int,
                HEIGHT as int,
                (x1 as int, y1 as int),
                (x2 as int, y2 as int),
            );
        }
        self.swap(p1, p2);
    }

    fn flip_horizontal_cells(&mut self)
        requires
            Self::legal(),
            old(self)@.len() == SIZE,
        ensures
            final(self)@.len() == SIZE,
            forall|a: int, b: int|
                Self::in_bounds(a, b) ==> #[trigger] cell(final(self)@, WIDTH as int, a, b) == cell(
                    old(self)@,
                    WIDTH as int,
                    WIDTH - 1 - a,
                    b,
                ),
    {
        let ghost start = self@;
        let mut y: u8 = 0;
        while y < HEIGHT
            invariant
                Self::legal(),
                y <= HEIGHT,
                self@.len() == SIZE,
                forall|a: int, b: int|
                    Self::in_bounds(a, b) ==> #[trigger] cell(self@, WIDTH as int, a, b) == if b < y {
                        cell(start, WIDTH as int, WIDTH - 1 - a, b)
                    } else {
                        cell(start, WIDTH as int, a, b)
                    },
            decreases HEIGHT - y,
        {
            let mut x: u8 = 0;
            while x < WIDTH / 2
                invariant
                    Self::legal(),
                    y < HEIGHT,
                    x <= WIDTH / 2,
                    self@.len() == SIZE,
                    forall|a: int, b: int|
                        Self::in_bounds(a, b) ==> #[trigger] cell(self@, WIDTH as int, a, b) == if b < y
                            || (b == y && (a < x || WIDTH - 1 - a < x)) {
                            cell(start, WIDTH as int, WIDTH - 1 - a, b)
                        } else {
                            cell(start, WIDTH as int, a, b)
                        },
                decreases WIDTH / 2 - x,
            {
                self.swap_coords(x, y, WIDTH - 1 - x, y);
                x = x + 1;
            }
            y = y + 1;
        }
    }

    fn flip_vertical_cells(&mut self)
        requires
            Self::legal(),
            old(self)@.len() == SIZE,
        ensures
            final(self)@.len() == SIZE,
            forall|a: int, b: int|
                Self::in_bounds(a, b) ==> #[trigger] cell(final(self)@, WIDTH as int, a, b) == cell(
                    old(self)@,
                    WIDTH as int,
                    a,
                    HEIGHT - 1 - b,
                ),
    {
        let ghost start = self@;
        let mut y: u8 = 0;
        while y < HEIGHT / 2
            invariant
                Self::legal(),
                y <= HEIGHT / 2,
                self@.len() == SIZE,
                forall|a: int, b: int|
                    Self::in_bounds(a, b) ==> #[trigger] cell(self@, WIDTH as int, a, b) == if b < y
                        || HEIGHT - 1 - b < y {
                        cell(start, WIDTH as int, a, HEIGHT - 1 - b)
                    } else {
                        cell(start, WIDTH as int, a, b)
                    },
            decreases HEIGHT / 2 - y,
        {
            let mut x: u8 = 0;
            while x < WIDTH
                invariant
                    Self::legal(),
                    y < HEIGHT / 2,
                    x <= WIDTH,
                    self@.len() == SIZE,
                    forall|a: int, b: int|
                        Self::in_bounds(a, b) ==> #[trigger] cell(self@, WIDTH as int, a, b) == if b < y
                            || HEIGHT - 1 - b < y || ((b == y || HEIGHT - 1 - b == y) && a < x) {
                            cell(start, WIDTH as int, a, HEIGHT - 1 - b)
                        } else {
                            cell(start, WIDTH as int, a, b)
                        },
                decreases WIDTH - x,
            {
                self.swap_coords(x, y, x, HEIGHT - 1 - y);
                x = x + 1;
            }
            y = y + 1;
        }
    }

    fn flip_both_cells(&mut self)
        requires
            Self::legal(),
            old(self)@.len() == SIZE,
        ensures
            final(self)@.len() == SIZE,
            forall|a: int, b: int|
                Self::in_bounds(a, b) ==> #[trigger] cell(final(self)@, WIDTH as int, a, b) == ({
                    let (sa, sb) = Self::flip_source(a, b, FlipAxes::Both);
                    cell(old(self)@, WIDTH as int, sa, sb)
                }),
    {
        let ghost start = self@;
        let mut y: u8 = 0;
        while y < HEIGHT / 2
            invariant
                Self::legal(),
                y <= HEIGHT / 2,
                self@.len() == SIZE,
                forall|a: int, b: int|
                    Self::in_bounds(a, b) ==> #[trigger] cell(self@, WIDTH as int, a, b) == if b < y
                        || HEIGHT - 1 - b < y {
                        cell(start, WIDTH as int, WIDTH - 1 - a, HEIGHT - 1 - b)
                    } else {
                        cell(start, WIDTH as int, a, b)
                    },
            decreases HEIGHT / 2 - y,
        {
            let mut x: u8 = 0;
            while x < WIDTH
                invariant
                    Self::legal(),
                    y < HEIGHT / 2,
                    x <= WIDTH,
                    self@.len() == SIZE,
                    forall|a: int, b: int|
                        Self::in_bounds(a, b) ==> #[trigger] cell(self@, WIDTH as int, a, b) == if b < y
                            || HEIGHT - 1 - b < y || (b == y && a < x) || (HEIGHT - 1 - b == y
                            && WIDTH - 1 - a < x) {
                            cell(start, WIDTH as int, WIDTH - 1 - a, HEIGHT - 1 - b)
                        } else {
                            cell(start, WIDTH as int, a, b)
                        },
                decreases WIDTH - x,
            {
                self.swap_coords(x, y, WIDTH - 1 - x, HEIGHT - 1 - y);
                x = x + 1;
            }
            y = y + 1;
        }
        let ghost mid = self@;
        if HEIGHT % 2 != 0 {
            let m: u8 = HEIGHT / 2;
            let mut x: u8 = 0;
            while x < WIDTH / 2
                invariant
                    Self::legal(),
                    m == HEIGHT / 2,
                    HEIGHT % 2 != 0,
                    x <= WIDTH / 2,
                    self@.len() == SIZE,
                    mid.len() == SIZE,
                    forall|a: int, b: int|
                        Self::in_bounds(a, b) ==> #[trigger] cell(self@, WIDTH as int, a, b) == if b == m
                            && (a < x || WIDTH - 1 - a < x) {
                            cell(mid, WIDTH as int, WIDTH - 1 - a, b)
                        } else {
                            cell(mid, WIDTH as int, a, b)
                        },
                decreases WIDTH / 2 - x,
            {
                self.swap_coords(x, m, WIDTH - 1 - x, m);
                x = x + 1;
            }
        }
    }

    /// Flips the values of the map across the given axes.
    pub fn flip(&mut self, axes: FlipAxes)
        requires
            Self::legal(),
        ensures
            final(self)@.len() == SIZE,
            forall|a: int, b: int|
                Self::in_bounds(a, b) ==> #[trigger] final(self).at(a, b) == ({
                    let (sa, sb) = Self::flip_source(a, b, axes);
                    old(self).at(sa, sb)
                }),
    {
        match axes {
            FlipAxes::NoFlip => {},
            FlipAxes::Horizontal => self.flip_horizontal_cells(),
            FlipAxes::Vertical => self.flip_vertical_cells(),
            FlipAxes::Both => self.flip_both_cells(),
        }
    }

    /// A copy of the map flipped across the given axes.
    pub fn with_flip(&self, axes: FlipAxes) -> (r: Self)
        where
            T: Copy,
        requires
            Self::legal(),
        ensures
            r@.len() == SIZE,
            forall|a: int, b: int|
                Self::in_bounds(a, b) ==> #[trigger] r.at(a, b) == ({
                    let (sa, sb) = Self::flip_source(a, b, axes);
                    self.at(sa, sb)
                }),
    {
        let mut grid = TileMap(self.0);
        grid.flip(axes);
        grid
    }
}

/// The ring of a square grid `l` cells wide that a coordinate lies on: its distance to the
/// nearest edge.
pub open spec fn ring(a: int, b: int, l: int) -> int {
    let h = if a < b { a } else { b };
    let v = if l - 1 - a < l - 1 - b { l - 1 - a } else { l - 1 - b };
    if h < v { h } else { v }
}

/// The column, on the top side of its ring, of the coordinate whose orbit under quarter turns
/// holds `(a, b)`.
pub open spec fn ring_start(a: int, b: int, l: int) -> int {
    let r = ring(a, b, l);
    if b == r && a < l - 1 - r {
        a
    } else if a == l - 1 - r && b < l - 1 - r {
        b
    } else if b == l - 1 - r && a > r {
        l - 1 - a
    } else {
        l - 1 - b
    }
}

/// The coordinate whose old value a clockwise rotation moves to `(a, b)`.
pub open spec fn rotation_source(a: int, b: int, l: int, q: QuarterTurns) -> (int, int) {
    match q {
        QuarterTurns::Zero => (a, b),
        QuarterTurns::One => (b, l - 1 - a),
        QuarterTurns::Two => (l - 1 - a, l - 1 - b),
        QuarterTurns::Three => (l - 1 - b, a),
    }
}

impl<T, const L: u8, const SIZE: usize> TileMap<T, L, L, SIZE> {
    /// Moves the values of four cells around a cycle: the first gets the second's, the
    /// second the third's, the third the fourth's and the fourth the first's.
    fn cycle_clockwise(&mut self, x: u8, y: u8)
        requires
            Self::legal(),
            old(self)@.len() == SIZE,
            y < L / 2,
            y <= x,
            x + y + 1 < L,
        ensures
            final(self)@.len() == SIZE,
            forall|a: int, b: int|
                Self::in_bounds(a, b) ==> #[trigger] cell(final(self)@, L as int, a, b) == if (a, b) == (
                x as int,
                y as int,
            ) {
                cell(old(self)@, L as int, y as int, L - 1 - x)
            } else if (a, b) == (y as int, L - 1 - x) {
                cell(old(self)@, L as int, L - 1 - x, L - 1 - y)
            } else if (a, b) == (L - 1 - x, L - 1 - y) {
                cell(old(self)@, L as int, L - 1 - y, x as int)
            } else if (a, b) == (L - 1 - y, x as int) {
                cell(old(self)@, L as int, x as int, y as int)
            } else {
                cell(old(self)@, L as int, a, b)
            },
    {
        let o_x = L - (1 + x);
        let o_y = L - (1 + y);
        self.swap_coords(x, y, o_y, x);
        self.swap_coords(x, y, y, o_x);
        self.swap_coords(y, o_x, o_x, o_y);
    }

    /// Moves the values of four cells around a cycle the other way: the first gets the
    /// fourth's, the second the first's, the third the second's and the fourth the third's.
    fn cycle_anticlockwise(&mut self, x: u8, y: u8)
        requires
            Self::legal(),
            old(self)@.len() == SIZE,
            y < L / 2,
            y <= x,
            x + y + 1 < L,
        ensures
            final(self)@.len() == SIZE,
            forall|a: int, b: int|
                Self::in_bounds(a, b) ==> #[trigger] cell(final(self)@, L as int, a, b) == if (a, b) == (
                x as int,
                y as int,
            ) {
                cell(old(self)@, L as int, L - 1 - y, x as int)
            } else if (a, b) == (y as int, L - 1 - x) {
                cell(old(self)@, L as int, x as int, y as int)
            } else if (a, b) == (L - 1 - x, L - 1 - y) {
                cell(old(self)@, L as int, y as int, L - 1 - x)
            } else if (a, b) == (L - 1 - y, x as int) {
                cell(old(self)@, L as int, L - 1 - x, L - 1 - y)
            } else {
                cell(old(self)@, L as int, a, b)
            },
    {
        let o_x = L - (1 + x);
        let o_y = L - (1 + y);
        self.swap_coords(y, o_x, o_x, o_y);
        self.swap_coords(x, y, y, o_x);
        self.swap_coords(x, y, o_y, x);
    }

    /// Rotates by one or three quarter turns, one ring at a time.
    fn rotate_rings(&mut self, clockwise: bool)
        requires
            Self::legal(),
            old(self)@.len() == SIZE,
        ensures
            final(self)@.len() == SIZE,
            forall|a: int, b: int|
                Self::in_bounds(a, b) ==> #[trigger] cell(final(self)@, L as int, a, b) == ({
                    let (sa, sb) = rotation_source(
                        a,
                        b,
                        L as int,
                        if clockwise {
                            QuarterTurns::One
                        } else {
                            QuarterTurns::Three
                        },
                    );
                    cell(old(self)@, L as int, sa, sb)
                }),
    {
        let ghost start = self@;
        let ghost q = if clockwise {
            QuarterTurns::One
        } else {
            QuarterTurns::Three
        };
        let mut y: u8 = 0;
        loop
            invariant
                Self::legal(),
                q == if clockwise {
                    QuarterTurns::One
                } else {
                    QuarterTurns::Three
                },
                y <= L / 2,
                self@.len() == SIZE,
                forall|a: int, b: int|
                    Self::in_bounds(a, b) ==> #[trigger] cell(self@, L as int, a, b) == if ring(
                        a,
                        b,
                        L as int,
                    ) < y {
                        cell(
                            start,
                            L as int,
                            rotation_source(a, b, L as int, q).0,
                            rotation_source(a, b, L as int, q).1,
                        )
                    } else {
                        cell(start, L as int, a, b)
                    },
            ensures
                forall|a: int, b: int|
                    Self::in_bounds(a, b) ==> #[trigger] cell(self@, L as int, a, b) == if ring(
                        a,
                        b,
                        L as int,
                    ) < L / 2 {
                        cell(
                            start,
                            L as int,
                            rotation_source(a, b, L as int, q).0,
                            rotation_source(a, b, L as int, q).1,
                        )
                    } else {
                        cell(start, L as int, a, b)
                    },
                self@.len() == SIZE,
            decreases L / 2 - y,
        {
            if y >= L / 2 {
                break ;
            }
            let mut x: u8 = y;
            loop
                invariant
                    Self::legal(),
                    q == if clockwise {
                        QuarterTurns::One
                    } else {
                        QuarterTurns::Three
                    },
                    y < L / 2,
                    y <= x,
                    x + y + 1 <= L,
                    self@.len() == SIZE,
                    forall|a: int, b: int|
                        Self::in_bounds(a, b) ==> #[trigger] cell(self@, L as int, a, b) == if ring(
                            a,
                            b,
                            L as int,
                        ) < y || (ring(a, b, L as int) == y && ring_start(a, b, L as int) < x) {
                            cell(
                                start,
                                L as int,
                                rotation_source(a, b, L as int, q).0,
                                rotation_source(a, b, L as int, q).1,
                            )
                        } else {
                            cell(start, L as int, a, b)
                        },
                ensures
                    x + y + 1 == L,
                    self@.len() == SIZE,
                    forall|a: int, b: int|
                        Self::in_bounds(a, b) ==> #[trigger] cell(self@, L as int, a, b) == if ring(
                            a,
                            b,
                            L as int,
                        ) < y || (ring(a, b, L as int) == y && ring_start(a, b, L as int) < x) {
                            cell(
                                start,
                                L as int,
                                rotation_source(a, b, L as int, q).0,
                                rotation_source(a, b, L as int, q).1,
                            )
                        } else {
                            cell(start, L as int, a, b)
                        },
                decreases L - x,
            {
                if x + y + 1 >= L {
                    break ;
                }
                let ghost before = self@;
                if clockwise {
                    self.cycle_clockwise(x, y);
                } else {
                    self.cycle_anticlockwise(x, y);
                }
                proof {
                    let l = L as int;
                    let (xi, yi) = (x as int, y as int);
                    assert(ring(xi, yi, l) == yi && ring_start(xi, yi, l) == xi);
                    assert(ring(yi, l - 1 - xi, l) == yi && ring_start(yi, l - 1 - xi, l) == xi);
                    assert(ring(l - 1 - xi, l - 1 - yi, l) == yi && ring_start(
                        l - 1 - xi,
                        l - 1 - yi,
                        l,
                    ) == xi);
                    assert(ring(l - 1 - yi, xi, l) == yi && ring_start(l - 1 - yi, xi, l) == xi);
                    assert forall|a: int, b: int| Self::in_bounds(a, b) implies #[trigger] cell(
                        self@,
                        l,
                        a,
                        b,
                    ) == if ring(a, b, l) < yi || (ring(a, b, l) == yi && ring_start(a, b, l) < xi
                        + 1) {
                        cell(
                            start,
                            l,
                            rotation_source(a, b, l, q).0,
                            rotation_source(a, b, l, q).1,
                        )
                    } else {
                        cell(start, l, a, b)
                    } by {
                        let p0 = (xi, yi);
                        let p1 = (yi, l - 1 - xi);
                        let p2 = (l - 1 - xi, l - 1 - yi);
                        let p3 = (l - 1 - yi, xi);
                        assert(cell(before, l, p0.0, p0.1) == cell(start, l, p0.0, p0.1));
                        assert(cell(before, l, p1.0, p1.1) == cell(start, l, p1.0, p1.1));
                        assert(cell(before, l, p2.0, p2.1) == cell(start, l, p2.0, p2.1));
                        assert(cell(before, l, p3.0, p3.1) == cell(start, l, p3.0, p3.1));
                        if (a, b) == p0 {
                            if clockwise {
                                assert(rotation_source(a, b, l, q) == p1);
                                assert(cell(self@, l, a, b) == cell(before, l, p1.0, p1.1));
                            } else {
                                assert(rotation_source(a, b, l, q) == p3);
                                assert(cell(self@, l, a, b) == cell(before, l, p3.0, p3.1));
                            }
                        } else if (a, b) == p1 {
                            if clockwise {
                                assert(rotation_source(a, b, l, q) == p2);
                                assert(cell(self@, l, a, b) == cell(before, l, p2.0, p2.1));
                            } else {
                                assert(rotation_source(a, b, l, q) == p0);
                                assert(cell(self@, l, a, b) == cell(before, l, p0.0, p0.1));
                            }
                        } else if (a, b) == p2 {
                            if clockwise {
                                assert(rotation_source(a, b, l, q) == p3);
                                assert(cell(self@, l, a, b) == cell(before, l, p3.0, p3.1));
                            } else {
                                assert(rotation_source(a, b, l, q) == p1);
                                assert(cell(self@, l, a, b) == cell(before, l, p1.0, p1.1));
                            }
                        } else if (a, b) == p3 {
                            if clockwise {
                                assert(rotation_source(a, b, l, q) == p0);
                                assert(cell(self@, l, a, b) == cell(before, l, p0.0, p0.1));
                            } else {
                                assert(rotation_source(a, b, l, q) == p2);
                                assert(cell(self@, l, a, b) == cell(before, l, p2.0, p2.1));
                            }
                        } else {
                            assert(cell(self@, l, a, b) == cell(before, l, a, b));
                            assert(!(ring(a, b, l) == yi && ring_start(a, b, l) == xi));
                        }
                    }
                }
                x += 1;
            }
            y += 1;
        }
    }

    /// Rotates by two quarter turns.
    fn rotate_half(&mut self)
        requires
            Self::legal(),
            old(self)@.len() == SIZE,
        ensures
            final(self)@.len() == SIZE,
            forall|a: int, b: int|
                Self::in_bounds(a, b) ==> #[trigger] cell(final(self)@, L as int, a, b) == cell(
                    old(self)@,
                    L as int,
                    L - 1 - a,
                    L - 1 - b,
                ),
    {
        let ghost start = self@;
        proof {
            assert(L <= 16) by (nonlinear_arith)
                requires
                    L as nat * L as nat <= 256,
            ;
        }
        let mut y: u8 = 0;
        while y < (L + 1) / 2
            invariant
                L <= 16,
                Self::legal(),
                y <= (L + 1) / 2,
                self@.len() == SIZE,
                forall|a: int, b: int|
                    Self::in_bounds(a, b) ==> #[trigger] cell(self@, L as int, a, b) == if b < y || L
                        - 1 - b < y {
                        cell(start, L as int, L - 1 - a, L - 1 - b)
                    } else {
                        cell(start, L as int, a, b)
                    },
            decreases (L + 1) / 2 - y,
        {
            let o_y = L - (1 + y);
            let x_max = if (y * 2) + 1 == L {
                L / 2
            } else {
                L
            };
            let mut x: u8 = 0;
            while x < x_max
                invariant
                    L <= 16,
                    Self::legal(),
                    y < (L + 1) / 2,
                    o_y == L - 1 - y,
                    x_max == if 2 * y + 1 == L {
                        L / 2
                    } else {
                        L
                    },
                    x <= x_max,
                    self@.len() == SIZE,
                    forall|a: int, b: int|
                        Self::in_bounds(a, b) ==> #[trigger] cell(self@, L as int, a, b) == if b < y
                            || L - 1 - b < y || (b == y && a < x) || (L - 1 - b == y && L - 1 - a
                            < x) {
                            cell(start, L as int, L - 1 - a, L - 1 - b)
                        } else {
                            cell(start, L as int, a, b)
                        },
                decreases x_max - x,
            {
                let o_x = L - (1 + x);
                self.swap_coords(x, y, o_x, o_y);
                x = x + 1;
            }
            y = y + 1;
        }
    }

    /// Rotates the values of the map clockwise by the given number of quarter turns.
    pub fn rotate(&mut self, quarter_turns: QuarterTurns)
        requires
            Self::legal(),
        ensures
            final(self)@.len() == SIZE,
            forall|a: int, b: int|
                Self::in_bounds(a, b) ==> #[trigger] final(self).at(a, b) == ({
                    let (sa, sb) = rotation_source(a, b, L as int, quarter_turns);
                    old(self).at(sa, sb)
                }),
    {
        match quarter_turns {
            QuarterTurns::Zero => {},
            QuarterTurns::One => self.rotate_rings(true),
            QuarterTurns::Two => self.rotate_half(),
            QuarterTurns::Three => self.rotate_rings(false),
        }
    }

    /// A copy of the map rotated clockwise by the given number of quarter turns.
    pub fn with_rotate(&self, quarter_turns: QuarterTurns) -> (r: Self)
        where
            T: Copy,
        requires
            Self::legal(),
        ensures
            r@.len() == SIZE,
            forall|a: int, b: int|
                Self::in_bounds(a, b) ==> #[trigger] r.at(a, b) == ({
                    let (sa, sb) = rotation_source(a, b, L as int, quarter_turns);
                    self.at(sa, sb)
                }),
    {
        let mut grid = TileMap(self.0);
        grid.rotate(quarter_turns);
        grid
    }
}

/// Values that can be written out as text, as the cells of a map are.
pub trait CellText {
    /// The text of this value.
    spec fn cell_text(&self) -> Seq<char>;

    /// Appends the text of this value.
    fn push_text(&self, s: &mut String)
        ensures
            final(s)@ == old(s)@ + self.cell_text(),
    ;
}

impl CellText for usize {
    open spec fn cell_text(&self) -> Seq<char> {
        decimal(*self as nat)
    }

    fn push_text(&self, s: &mut String) {
        push_decimal(s, *self as u64);
    }
}

impl CellText for u8 {
    open spec fn cell_text(&self) -> Seq<char> {
        decimal(*self as nat)
    }

    fn push_text(&self, s: &mut String) {
        push_decimal(s, *self as u64);
    }
}

impl CellText for u16 {
    open spec fn cell_text(&self) -> Seq<char> {
        decimal(*self as nat)
    }

    fn push_text(&self, s: &mut String) {
        push_decimal(s, *self as u64);
    }
}

impl CellText for u32 {
    open spec fn cell_text(&self) -> Seq<char> {
        decimal(*self as nat)
    }

    fn push_text(&self, s: &mut String) {
        push_decimal(s, *self as u64);
    }
}

impl CellText for u64 {
    open spec fn cell_text(&self) -> Seq<char> {
        decimal(*self as nat)
    }

    fn push_text(&self, s: &mut String) {
        push_decimal(s, *self as u64);
    }
}

impl CellText for i8 {
    open spec fn cell_text(&self) -> Seq<char> {
        signed_decimal(*self as int)
    }

    fn push_text(&self, s: &mut String) {
        push_signed_decimal(s, *self as i64);
    }
}

impl CellText for i16 {
    open spec fn cell_text(&self) -> Seq<char> {
        signed_decimal(*self as int)
    }

    fn push_text(&self, s: &mut String) {
        push_signed_decimal(s, *self as i64);
    }
}

impl CellText for i32 {
    open spec fn cell_text(&self) -> Seq<char> {
        signed_decimal(*self as int)
    }

    fn push_text(&self, s: &mut String) {
        push_signed_decimal(s, *self as i64);
    }
}

impl CellText for i64 {
    open spec fn cell_text(&self) -> Seq<char> {
        signed_decimal(*self as int)
    }

    fn push_text(&self, s: &mut String) {
        push_signed_decimal(s, *self as i64);
    }
}

impl CellText for isize {
    open spec fn cell_text(&self) -> Seq<char> {
        signed_decimal(*self as int)
    }

    fn push_text(&self, s: &mut String) {
        push_signed_decimal(s, *self as i64);
    }
}

impl CellText for char {
    open spec fn cell_text(&self) -> Seq<char> {
        seq![*self]
    }

    fn push_text(&self, s: &mut String) {
        push_char(s, *self);
    }
}

impl CellText for bool {
    open spec fn cell_text(&self) -> Seq<char> {
        if *self {
            seq!['t', 'r', 'u', 'e']
        } else {
            seq!['f', 'a', 'l', 's', 'e']
        }
    }

    fn push_text(&self, s: &mut String) {
        if *self {
            push_char(s, 't');
            push_char(s, 'r');
            push_char(s, 'u');
            push_char(s, 'e');
        } else {
            push_char(s, 'f');
            push_char(s, 'a');
            push_char(s, 'l');
            push_char(s, 's');
            push_char(s, 'e');
        }
    }
}

/// What comes before the cell at index `i` in the text of a map `width` cells wide:
/// nothing before the first cell, a line break before each new row (unless the text is
/// written on one line) and `|` between the cells of a row.
pub open spec fn cell_separator(i: int, width: int, one_line: bool) -> Seq<char> {
    if i == 0 {
        Seq::empty()
    } else if !one_line && i % width == 0 {
        seq!['\n']
    } else {
        seq!['|']
    }
}

/// The text of the first `n` cells of a map `width` cells wide.
pub open spec fn map_text<T: CellText>(cells: Seq<T>, width: int, one_line: bool, n: int) -> Seq<char>
    decreases n,
{
    if n <= 0 {
        Seq::empty()
    } else {
        map_text(cells, width, one_line, n - 1) + cell_separator(n - 1, width, one_line) + cells[n
            - 1].cell_text()
    }
}

impl<T: CellText, const WIDTH: u8, const HEIGHT: u8, const SIZE: usize> TileMap<T, WIDTH, HEIGHT, SIZE> {
    fn write_text(&self, one_line: bool) -> (s: String)
        requires
            one_line || WIDTH > 0,
        ensures
            s@ == map_text(self@, WIDTH as int, one_line, SIZE as int),
    {
        let mut s = String::new();
        let mut i: usize = 0;
        while i < SIZE
            invariant
                one_line || WIDTH > 0,
                i <= SIZE,
                self@.len() == SIZE,
                s@ == map_text(self@, WIDTH as int, one_line, i as int),
            decreases SIZE - i,
        {
            if i == 0 {
            } else if !one_line && i % (WIDTH as usize) == 0 {
                push_char(&mut s, '\n');
            } else {
                push_char(&mut s, '|');
            }
            self.0[i].push_text(&mut s);
            i = i + 1;
        }
        s
    }

    /// The values as text, row by row: `|` between the cells of a row and a line break
    /// between rows (its `Display` form).
    pub fn to_string(&self) -> (s: String)
        requires
            WIDTH > 0,
        ensures
            s@ == map_text(self@, WIDTH as int, false, SIZE as int),
    {
        self.write_text(false)
    }

    /// The values as text on one line, `|` between each (its alternate `Display` form).
    pub fn to_string_alternate(&self) -> (s: String)
        ensures
            s@ == map_text(self@, WIDTH as int, true, SIZE as int),
    {
        self.write_text(true)
    }
}

impl<T, const WIDTH: u8, const HEIGHT: u8, const SIZE: usize> TileMap<T, WIDTH, HEIGHT, SIZE> {
    /// Each tile with its value, in row-major order.
    pub fn enumerate(&self) -> (r: Vec<(Tile<WIDTH, HEIGHT>, &T)>)
        requires
            Self::legal(),
        ensures
            r@.len() == SIZE,
            forall|i: int|
                0 <= i < SIZE ==> (#[trigger] r@[i]).0.wf() && r@[i].0.index() == i && *r@[i].1
                    == self@[i],
    {
        let mut result: Vec<(Tile<WIDTH, HEIGHT>, &T)> = Vec::new();
        let mut i: usize = 0;
        while i < SIZE
            invariant
                Self::legal(),
                i <= SIZE,
                self@.len() == SIZE,
                result@.len() == i,
                forall|j: int|
                    0 <= j < i ==> (#[trigger] result@[j]).0.wf() && result@[j].0.index() == j
                        && *result@[j].1 == self@[j],
            decreases SIZE - i,
        {
            let tile = Tile::<WIDTH, HEIGHT>::try_from_usize(i).unwrap();
            result.push((tile, &self.0[i]));
            i = i + 1;
        }
        result
    }
}

impl<T: Default + Copy, const WIDTH: u8, const HEIGHT: u8, const SIZE: usize> Default for TileMap<
    T,
    WIDTH,
    HEIGHT,
    SIZE,
> {
    /// A map holding the default value for every tile.
    fn default() -> (r: Self)
        ensures
            r@.len() == SIZE,
            forall|i: int, j: int| 0 <= i < SIZE && 0 <= j < SIZE ==> #[trigger] r@[i] == #[trigger] r@[j],
    {
        let value = T::default();
        TileMap([value; SIZE])
    }
}

impl<T, const WIDTH: u8, const HEIGHT: u8, const SIZE: usize> AsRef<[T; SIZE]> for TileMap<T, WIDTH, HEIGHT, SIZE> {
    /// The values of all tiles, in order.
    fn as_ref(&self) -> (r: &[T; SIZE])
        ensures
            r@ == self@,
    {
        &self.0
    }
}

impl<T, const WIDTH: u8, const HEIGHT: u8, const SIZE: usize> AsMut<[T; SIZE]> for TileMap<T, WIDTH, HEIGHT, SIZE> {
    /// The values of all tiles, in order, to be changed in place.
    fn as_mut(&mut self) -> (r: &mut [T; SIZE])
        ensures
            r@ == old(self)@,
            final(self)@ == final(r)@,
    {
        &mut self.0
    }
}

impl<T, const WIDTH: u8, const HEIGHT: u8, const SIZE: usize> core::ops::Index<Tile<WIDTH, HEIGHT>> for TileMap<T, WIDTH, HEIGHT, SIZE> {
    type Output = T;

    /// The value stored for a tile.
    fn index(&self, tile: Tile<WIDTH, HEIGHT>) -> (r: &T)
        ensures
            *r == self@[tile.index() as int],
    {
        let i: usize = tile.inner() as usize;
        &self.0[i]
    }
}

impl<T, const WIDTH: u8, const HEIGHT: u8, const SIZE: usize> vstd::std_specs::core::IndexSpecImpl<Tile<WIDTH, HEIGHT>> for TileMap<T, WIDTH, HEIGHT, SIZE> {
    open spec fn index_req(&self, tile: &Tile<WIDTH, HEIGHT>) -> bool {
        tile.wf() && Self::legal()
    }
}

impl<T, const WIDTH: u8, const HEIGHT: u8, const SIZE: usize> TileMap<T, WIDTH, HEIGHT, SIZE> {
    /// Two maps of a legal grid that hold the same value at every coordinate are equal.
    pub proof fn lemma_ext(self, other: Self)
        requires
            Self::legal(),
            forall|a: int, b: int| Self::in_bounds(a, b) ==> #[trigger] self.at(a, b) == other.at(a, b),
        ensures
            self@ == other@,
    {
        assert forall|i: int| 0 <= i < SIZE implies self@[i] == other@[i] by {
            lemma_index_cell(WIDTH as int, HEIGHT as int, i);
            assert(self.at(i % WIDTH as int, i / WIDTH as int) == other.at(i % WIDTH as int, i / WIDTH as int));
        }
        assert(self@ =~= other@);
    }

    /// Law: flipping a map moves the value of each tile to the tile that `Tile::flip` gives
    /// for the same axes.
    pub proof fn law_flip_moves_tiles(map: Self, flipped: Self, axes: FlipAxes, a: int, b: int)
        requires
            Self::legal(),
            Self::in_bounds(a, b),
            forall|c: int, d: int|
                Self::in_bounds(c, d) ==> #[trigger] flipped.at(c, d) == ({
                    let (sc, sd) = Self::flip_source(c, d, axes);
                    map.at(sc, sd)
                }),
        ensures
            ({
                let (fa, fb) = flipped_within(a, b, WIDTH - 1, HEIGHT - 1, axes);
                flipped.at(fa, fb) == map.at(a, b)
            }),
    {
        let (fa, fb) = flipped_within(a, b, WIDTH - 1, HEIGHT - 1, axes);
        assert(Self::in_bounds(fa, fb));
        assert(Self::flip_source(fa, fb, axes) == (a, b));
    }

    /// Flipping a map twice across the same axes gives back the map.
    pub proof fn law_flip_twice(map: Self, once: Self, twice: Self, axes: FlipAxes)
        requires
            Self::legal(),
            forall|a: int, b: int|
                Self::in_bounds(a, b) ==> #[trigger] once.at(a, b) == ({
                    let (sa, sb) = Self::flip_source(a, b, axes);
                    map.at(sa, sb)
                }),
            forall|a: int, b: int|
                Self::in_bounds(a, b) ==> #[trigger] twice.at(a, b) == ({
                    let (sa, sb) = Self::flip_source(a, b, axes);
                    once.at(sa, sb)
                }),
        ensures
            twice@ == map@,
    {
        assert forall|a: int, b: int| Self::in_bounds(a, b) implies #[trigger] twice.at(a, b) == map.at(a, b) by {
            let (sa, sb) = Self::flip_source(a, b, axes);
            assert(Self::in_bounds(sa, sb));
            assert(once.at(sa, sb) == map.at(Self::flip_source(sa, sb, axes).0, Self::flip_source(sa, sb, axes).1));
        }
        twice.lemma_ext(map);
    }
}

/// Rotating a coordinate by one number of quarter turns and then by another is rotating it by
/// their sum.
pub proof fn lemma_rotation_source_compose(a: int, b: int, l: int, first: QuarterTurns, second: QuarterTurns)
    ensures
        ({
            let (sa, sb) = rotation_source(a, b, l, second);
            rotation_source(sa, sb, l, first)
        }) == rotation_source(a, b, l, first.combined(second)),
{
    assert(first.combined(second).turns() == (first.turns() + second.turns()) % 4);
}

impl<T, const L: u8, const SIZE: usize> TileMap<T, L, L, SIZE> {
    /// Rotating a map by one number of quarter turns and then by another gives the map
    /// rotated by their sum.
    pub proof fn law_rotate_twice(
        map: Self,
        once: Self,
        twice: Self,
        first: QuarterTurns,
        second: QuarterTurns,
    )
        requires
            Self::legal(),
            forall|a: int, b: int|
                Self::in_bounds(a, b) ==> #[trigger] once.at(a, b) == ({
                    let (sa, sb) = rotation_source(a, b, L as int, first);
                    map.at(sa, sb)
                }),
            forall|a: int, b: int|
                Self::in_bounds(a, b) ==> #[trigger] twice.at(a, b) == ({
                    let (sa, sb) = rotation_source(a, b, L as int, second);
                    once.at(sa, sb)
                }),
        ensures
            forall|a: int, b: int|
                Self::in_bounds(a, b) ==> #[trigger] twice.at(a, b) == ({
                    let (sa, sb) = rotation_source(a, b, L as int, first.combined(second));
                    map.at(sa, sb)
                }),
    {
        assert forall|a: int, b: int| Self::in_bounds(a, b) implies #[trigger] twice.at(a, b) == ({
            let (sa, sb) = rotation_source(a, b, L as int, first.combined(second));
            map.at(sa, sb)
        }) by {
            lemma_rotation_source_compose(a, b, L as int, first, second);
            let (sa, sb) = rotation_source(a, b, L as int, second);
            assert(Self::in_bounds(sa, sb));
            assert(once.at(sa, sb) == map.at(rotation_source(sa, sb, L as int, first).0, rotation_source(sa, sb, L as int, first).1));
        }
    }

    /// Rotating a map by no quarter turns leaves it unchanged.
    pub proof fn law_rotate_zero(map: Self, rotated: Self)
        requires
            Self::legal(),
            forall|a: int, b: int|
                Self::in_bounds(a, b) ==> #[trigger] rotated.at(a, b) == ({
                    let (sa, sb) = rotation_source(a, b, L as int, QuarterTurns::Zero);
                    map.at(sa, sb)
                }),
        ensures
            rotated@ == map@,
    {
        rotated.lemma_ext(map);
    }

    /// Four clockwise quarter turns give back the map.
    pub proof fn law_rotate_full_turn(map: Self, r1: Self, r2: Self, r3: Self, r4: Self)
        requires
            Self::legal(),
            forall|a: int, b: int|
                Self::in_bounds(a, b) ==> #[trigger] r1.at(a, b) == map.at(b, L - 1 - a),
            forall|a: int, b: int|
                Self::in_bounds(a, b) ==> #[trigger] r2.at(a, b) == r1.at(b, L - 1 - a),
            forall|a: int, b: int|
                Self::in_bounds(a, b) ==> #[trigger] r3.at(a, b) == r2.at(b, L - 1 - a),
            forall|a: int, b: int|
                Self::in_bounds(a, b) ==> #[trigger] r4.at(a, b) == r3.at(b, L - 1 - a),
        ensures
            r4@ == map@,
    {
        assert forall|a: int, b: int| Self::in_bounds(a, b) implies #[trigger] r4.at(a, b) == map.at(a, b) by {
            assert(r4.at(a, b) == r3.at(b, L - 1 - a));
            assert(r3.at(b, L - 1 - a) == r2.at(L - 1 - a, L - 1 - b));
            assert(r2.at(L - 1 - a, L - 1 - b) == r1.at(L - 1 - b, a));
            assert(r1.at(L - 1 - b, a) == map.at(a, b));
        }
        r4.lemma_ext(map);
    }
}

} // verus!
