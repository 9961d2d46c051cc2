//! Tiles of a grid whose size is known at compile time.
use vstd::prelude::*;

use crate::corner::Corner;
use crate::flip_axes::{flipped_within, FlipAxes};
use crate::grid_math::{lemma_byte_product, lemma_coords_index, lemma_index_bound, lemma_index_coords, lemma_row_bound};
use crate::quarter_turns::QuarterTurns;
use crate::text::{decimal, push_char, push_decimal};
use crate::vector::Vector;
use crate::vertex::Vertex;
use crate::dynamic_tile::DynamicTile;

verus! {

/// The image of a coordinate of a square `l` by `l` grid after a clockwise rotation.
pub open spec fn rotated_within(x: int, y: int, l: int, q: QuarterTurns) -> (int, int) {
    match q {
        QuarterTurns::Zero => (x, y),
        QuarterTurns::One => (l - 1 - y, x),
        QuarterTurns::Two => (l - 1 - x, l - 1 - y),
        QuarterTurns::Three => (y, l - 1 - x),
    }
}

/// Rotating by `a` and then by `b` is rotating by their combination; no turn keeps a
/// coordinate, and a clockwise quarter turn moves `(x, y)` to `(l - 1 - y, x)`.
pub proof fn lemma_rotate_within_compose(x: int, y: int, l: int, a: QuarterTurns, b: QuarterTurns)
    ensures
        ({
            let (rx, ry) = rotated_within(x, y, l, a);
            rotated_within(rx, ry, l, b) == rotated_within(x, y, l, a.combined(b))
        }),
        rotated_within(x, y, l, QuarterTurns::Zero) == (x, y),
        rotated_within(x, y, l, QuarterTurns::One) == (l - 1 - y, x),
{
}

/// The textual form `(x,y)` of a pair of coordinates.
pub open spec fn coordinate_text(x: nat, y: nat) -> Seq<char> {
    seq!['('] + decimal(x) + seq![','] + decimal(y) + seq![')']
}

/// A tile in 2d space
#[derive(Clone, Copy, Debug, Hash, PartialOrd, Ord)]
pub struct Tile<const WIDTH: u8, const HEIGHT: u8>(u8);

impl<const WIDTH: u8, const HEIGHT: u8> PartialEq for Tile<WIDTH, HEIGHT> {
    fn eq(&self, other: &Self) -> (r: bool) {
        self.0 == other.0
    }
}

impl<const WIDTH: u8, const HEIGHT: u8> Eq for Tile<WIDTH, HEIGHT> {
}

impl<const WIDTH: u8, const HEIGHT: u8> vstd::std_specs::cmp::PartialEqSpecImpl for Tile<WIDTH, HEIGHT> {
    open spec fn obeys_eq_spec() -> bool {
        true
    }

    open spec fn eq_spec(&self, other: &Self) -> bool {
        self.index() == other.index()
    }
}

impl<const WIDTH: u8, const HEIGHT: u8> Tile<WIDTH, HEIGHT> {
    /// The row-major position of this tile in the grid.
    pub closed spec fn index(self) -> nat {
        self.0 as nat
    }

    /// The tile with a given index.
    pub closed spec fn with_index(i: int) -> Self {
        Tile(i as u8)
    }

    /// A tile built from an index below 256 has that index.
    pub proof fn lemma_with_index(i: int)
        requires
            0 <= i < 256,
        ensures
            Self::with_index(i).index() == i,
    {
    }

    /// Whether this tile lies inside the grid.
    pub open spec fn wf(self) -> bool {
        self.index() < WIDTH as nat * HEIGHT as nat
    }

    /// The column of this tile.
    pub open spec fn col(self) -> nat {
        self.index() % (WIDTH as nat)
    }

    /// The row of this tile.
    pub open spec fn row(self) -> nat {
        self.index() / (WIDTH as nat)
    }

    /// Whether the tiles of the grid can be numbered by a byte.
    pub open spec fn legal() -> bool {
        WIDTH as nat * HEIGHT as nat <= 256
    }

    /// The row-major index of a coordinate.
    pub open spec fn index_of(x: int, y: int) -> int {
        x + WIDTH as int * y
    }

    /// Whether a coordinate is that of a tile of the grid.
    pub open spec fn in_grid(x: int, y: int) -> bool {
        0 <= x < WIDTH && 0 <= y < HEIGHT && Self::index_of(x, y) < 256
    }

    /// The number of tiles in the grid.
    pub open spec fn tile_count() -> nat {
        WIDTH as nat * HEIGHT as nat
    }

    /// Tiles with the same index are the same tile.
    pub proof fn lemma_index_injective(self, other: Self)
        ensures
            self.index() == other.index() <==> self == other,
            self.index() < 256,
    {
    }

    /// The coordinates of a tile inside the grid are inside the grid, and give back its index.
    pub proof fn lemma_coords(self)
        requires
            self.wf(),
        ensures
            self.col() < WIDTH,
            self.row() < HEIGHT,
            self.index() == Self::index_of(self.col() as int, self.row() as int),
            Self::in_grid(self.col() as int, self.row() as int),
    {
        lemma_coords_index(self.index() as int, WIDTH as int);
        lemma_row_bound(self.index() as int, WIDTH as int, HEIGHT as int);
    }

    /// In a legal grid, every coordinate of the grid has a byte index.
    pub proof fn lemma_in_grid(x: int, y: int)
        requires
            Self::legal(),
            0 <= x < WIDTH,
            0 <= y < HEIGHT,
        ensures
            Self::in_grid(x, y),
            Self::index_of(x, y) < Self::tile_count(),
    {
        lemma_index_bound(x, y, WIDTH as int, HEIGHT as int);
    }

    /// The tile with a given index, which may lie outside the grid.
    pub(crate) fn from_inner_unchecked(i: u8) -> (r: Self)
        ensures
            r.index() == i,
    {
        Tile(i)
    }

    /// The tile at a coordinate known to be in the grid.
    pub(crate) fn new_unchecked(x: u8, y: u8) -> (r: Self)
        requires
            x < WIDTH,
            y < HEIGHT,
            Self::legal(),
        ensures
            r.wf(),
            r.col() == x,
            r.row() == y,
            r.index() == Self::index_of(x as int, y as int),
    {
        proof {
            lemma_index_bound(x as int, y as int, WIDTH as int, HEIGHT as int);
            lemma_index_coords(x as int, y as int, WIDTH as int);
        }
        Tile(x + WIDTH * y)
    }

    pub fn new_const<const X: u8, const Y: u8>() -> (r: Self)
        requires
            X < WIDTH,
            Y < HEIGHT,
            Self::legal(),
        ensures
            r.wf(),
            r.col() == X,
            r.row() == Y,
    {
        Self::new_unchecked(X, Y)
    }

    pub fn north_west() -> (r: Self)
        requires
            Self::legal(),
            1 <= WIDTH,
            1 <= HEIGHT,
        ensures
            r.wf(),
            r.col() == 0,
            r.row() == 0,
    {
        Self::new_unchecked(0, 0)
    }

    pub fn north_east() -> (r: Self)
        requires
            Self::legal(),
            1 <= WIDTH,
            1 <= HEIGHT,
        ensures
            r.wf(),
            r.col() == WIDTH - 1,
            r.row() == 0,
    {
        Self::new_unchecked(WIDTH - 1, 0)
    }

    pub fn south_west() -> (r: Self)
        requires
            Self::legal(),
            1 <= WIDTH,
            1 <= HEIGHT,
        ensures
            r.wf(),
            r.col() == 0,
            r.row() == HEIGHT - 1,
    {
        Self::new_unchecked(0, HEIGHT - 1)
    }

    pub fn south_east() -> (r: Self)
        requires
            Self::legal(),
            1 <= WIDTH,
            1 <= HEIGHT,
        ensures
            r.wf(),
            r.col() == WIDTH - 1,
            r.row() == HEIGHT - 1,
    {
        Self::new_unchecked(WIDTH - 1, HEIGHT - 1)
    }

    /// The tile at the center of the grid (rounding towards the south east).
    pub fn center() -> (r: Self)
        requires
            Self::legal(),
            1 <= WIDTH,
            1 <= HEIGHT,
        ensures
            r.wf(),
            r.col() == WIDTH / 2,
            r.row() == HEIGHT / 2,
    {
        Self::new_unchecked(WIDTH / 2, HEIGHT / 2)
    }

    /// The number of tiles in the grid.
    pub fn count() -> (r: usize)
        ensures
            r == Self::tile_count(),
    {
        proof {
            lemma_byte_product(WIDTH as int, HEIGHT as int);
        }
        WIDTH as usize * HEIGHT as usize
    }

    pub fn try_new(x: u8, y: u8) -> (r: Option<Self>)
        ensures
            r is Some <==> Self::in_grid(x as int, y as int),
            r matches Some(t) ==> t.wf() && t.col() == x && t.row() == y,
    {
        if x >= WIDTH {
            return None;
        }
        if y >= HEIGHT {
            return None;
        }
        proof {
            lemma_byte_product(WIDTH as int, y as int);
        }
        let i: u32 = WIDTH as u32 * y as u32 + x as u32;
        if i >= 256 {
            return None;
        }
        proof {
            lemma_index_bound(x as int, y as int, WIDTH as int, HEIGHT as int);
            lemma_index_coords(x as int, y as int, WIDTH as int);
        }
        Some(Tile(i as u8))
    }

    pub fn try_from_dynamic(dynamic_tile: DynamicTile) -> (r: Option<Self>)
        ensures
            r is Some <==> Self::in_grid(dynamic_tile.0.x as int, dynamic_tile.0.y as int),
            r matches Some(t) ==> t.wf() && t.col() == dynamic_tile.0.x && t.row()
                == dynamic_tile.0.y,
    {
        if dynamic_tile.0.x < 0 || dynamic_tile.0.y < 0 {
            return None;
        }
        Self::try_new(dynamic_tile.0.x as u8, dynamic_tile.0.y as u8)
    }

    /// The greatest column of the grid.
    pub fn max_col() -> (r: u8)
        requires
            1 <= WIDTH,
        ensures
            r == WIDTH - 1,
    {
        WIDTH - 1
    }

    /// The greatest row of the grid.
    pub fn max_row() -> (r: u8)
        requires
            1 <= HEIGHT,
        ensures
            r == HEIGHT - 1,
    {
        HEIGHT - 1
    }

    pub fn x(&self) -> (r: u8)
        requires
            self.wf(),
        ensures
            r == self.col(),
    {
        self.0 % WIDTH
    }

    pub fn y(&self) -> (r: u8)
        requires
            self.wf(),
        ensures
            r == self.row(),
    {
        self.0 / WIDTH
    }

    pub fn inner(&self) -> (r: u8)
        ensures
            r == self.index(),
    {
        self.0
    }

    pub fn try_from_inner(inner: u8) -> (r: Option<Self>)
        ensures
            r is Some <==> inner < Self::tile_count(),
            r matches Some(t) ==> t.wf() && t.index() == inner,
    {
        proof {
            lemma_byte_product(WIDTH as int, HEIGHT as int);
        }
        if (inner as u32) < WIDTH as u32 * HEIGHT as u32 {
            Some(Tile(inner))
        } else {
            None
        }
    }

    pub fn try_from_usize(value: usize) -> (r: Option<Self>)
        ensures
            r is Some <==> value < Self::tile_count() && value < 256,
            r matches Some(t) ==> t.wf() && t.index() == value,
    {
        proof {
            lemma_byte_product(WIDTH as int, HEIGHT as int);
        }
        if value >= WIDTH as usize * HEIGHT as usize || value >= 256 {
            return None;
        }
        Some(Tile(value as u8))
    }

    pub fn flip(&self, axes: FlipAxes) -> (r: Self)
        requires
            self.wf(),
            Self::legal(),
        ensures
            r.wf(),
            (r.col() as int, r.row() as int) == flipped_within(
                self.col() as int,
                self.row() as int,
                WIDTH - 1,
                HEIGHT - 1,
                axes,
            ),
    {
        proof {
            self.lemma_coords();
        }
        let x = self.x();
        let y = self.y();
        match axes {
            FlipAxes::NoFlip => *self,
            FlipAxes::Horizontal => Self::new_unchecked(WIDTH - 1 - x, y),
            FlipAxes::Vertical => Self::new_unchecked(x, HEIGHT - 1 - y),
            FlipAxes::Both => Self::new_unchecked(WIDTH - 1 - x, HEIGHT - 1 - y),
        }
    }

    /// The tile with the next index, if there is one.
    pub fn try_next(&self) -> (r: Option<Self>)
        ensures
            r is Some <==> self.index() + 1 < Self::tile_count() && self.index() < 255,
            r matches Some(t) ==> t.wf() && t.index() == self.index() + 1,
    {
        if self.0 == 255 {
            return None;
        }
        Self::try_from_inner(self.0 + 1)
    }

    /// Iterate through all tiles by row
    pub fn iter_by_row() -> (r: Vec<Self>)
        requires
            Self::legal(),
        ensures
            r@.len() == Self::tile_count(),
            forall|i: int| 0 <= i < r@.len() ==> (#[trigger] r@[i]).wf() && r@[i].index() == i,
    {
        proof {
            lemma_byte_product(WIDTH as int, HEIGHT as int);
        }
        let count: u32 = WIDTH as u32 * HEIGHT as u32;
        let mut result: Vec<Self> = Vec::new();
        let mut i: u32 = 0;
        while i < count
            invariant
                count == Self::tile_count(),
                count <= 256,
                i <= count,
                result@.len() == i,
                forall|j: int| 0 <= j < i ==> (#[trigger] result@[j]).wf() && result@[j].index() == j,
            decreases count - i,
        {
            result.push(Tile(i as u8));
            i = i + 1;
        }
        result
    }

    /// Whether each of a sequence of tiles is the tile at its position in column-major order.
    pub open spec fn column_major(tiles: Seq<Self>) -> bool {
        forall|i: int|
            0 <= i < tiles.len() ==> (#[trigger] tiles[i]).wf() && tiles[i].col() == i / (
            HEIGHT as int) && tiles[i].row() == i % (HEIGHT as int)
    }

    /// Iterate through all tiles by column
    pub fn iter_by_col() -> (r: Vec<Self>)
        requires
            Self::legal(),
        ensures
            r@.len() == Self::tile_count(),
            Self::column_major(r@),
    {
        let mut result: Vec<Self> = Vec::new();
        let mut x: u8 = 0;
        while x < WIDTH
            invariant
                Self::legal(),
                x <= WIDTH,
                result@.len() == x as int * HEIGHT as int,
                Self::column_major(result@),
            decreases WIDTH - x,
        {
            let mut y: u8 = 0;
            while y < HEIGHT
                invariant
                    Self::legal(),
                    x < WIDTH,
                    y <= HEIGHT,
                    result@.len() == x as int * HEIGHT as int + y,
                    Self::column_major(result@),
                decreases HEIGHT - y,
            {
                let t = Self::new_unchecked(x, y);
                let ghost len = result@.len() as int;
                let ghost before = result@;
                proof {
                    lemma_index_coords(y as int, x as int, HEIGHT as int);
                    assert(y + HEIGHT * x == x * HEIGHT + y) by (nonlinear_arith);
                    assert(len / (HEIGHT as int) == x && len % (HEIGHT as int) == y);
                }
                result.push(t);
                proof {
                    assert forall|i: int| 0 <= i < result@.len() implies (#[trigger] result@[i]).wf()
                        && result@[i].col() == i / (HEIGHT as int) && result@[i].row() == i % (
                    HEIGHT as int) by {
                        if i < len {
                            assert(result@[i] == before[i]);
                        }
                    }
                }
                y = y + 1;
            }
            proof {
                assert(x as int * HEIGHT as int + HEIGHT as int == (x + 1) as int * HEIGHT as int)
                    by (nonlinear_arith);
            }
            x = x + 1;
        }
        proof {
            assert(WIDTH as int * HEIGHT as int == WIDTH as nat * HEIGHT as nat);
        }
        result
    }

    /// The tile reached by moving by a vector, if it is in the grid.
    pub open spec fn shifted_in_grid(self, v: (int, int)) -> bool {
        Self::in_grid(self.col() + v.0, self.row() + v.1)
    }

    /// The tiles reached from this tile by the first `k` of a sequence of offsets, in order,
    /// leaving out those that fall outside the grid.
    pub open spec fn offsets_in_grid(self, offsets: Seq<(int, int)>, k: int) -> Seq<(int, int)>
        decreases k,
    {
        if k <= 0 {
            Seq::empty()
        } else {
            let prev = self.offsets_in_grid(offsets, k - 1);
            let v = offsets[k - 1];
            if self.shifted_in_grid(v) {
                prev.push((self.col() + v.0, self.row() + v.1))
            } else {
                prev
            }
        }
    }

    /// The eight unit offsets, clockwise from north.
    pub open spec fn unit_offsets() -> Seq<(int, int)> {
        Seq::new(8, |i: int| Vector::unit_xy(i))
    }

    /// The four cardinal offsets: north, east, south, west.
    pub open spec fn cardinal_offsets() -> Seq<(int, int)> {
        Seq::new(4, |i: int| Vector::unit_xy(2 * i))
    }

    /// A coordinate is among the tiles reached by the first `k` offsets exactly when one of those
    /// offsets leads to it inside the grid.
    pub proof fn lemma_offsets_contain(self, offsets: Seq<(int, int)>, k: int, p: (int, int))
        requires
            0 <= k <= offsets.len(),
        ensures
            self.offsets_in_grid(offsets, k).contains(p) <==> exists|i: int|
                0 <= i < k && #[trigger] self.shifted_in_grid(offsets[i]) && p == (self.col()
                    + offsets[i].0, self.row() + offsets[i].1),
        decreases k,
    {
        if k > 0 {
            self.lemma_offsets_contain(offsets, k - 1, p);
            let prev = self.offsets_in_grid(offsets, k - 1);
            let v = offsets[k - 1];
            let q = (self.col() + v.0, self.row() + v.1);
            if self.shifted_in_grid(v) {
                let next = prev.push(q);
                if next.contains(p) {
                    let j = choose|j: int| 0 <= j < next.len() && next[j] == p;
                    if j < prev.len() {
                        assert(prev[j] == p);
                    }
                }
                if prev.contains(p) {
                    let j = choose|j: int| 0 <= j < prev.len() && prev[j] == p;
                    assert(next[j] == p);
                }
                if p == q {
                    assert(next[prev.len() as int] == p);
                }
            }
        }
    }

    /// Distinct offsets reach distinct tiles.
    pub proof fn lemma_offsets_distinct(self, offsets: Seq<(int, int)>, k: int)
        requires
            0 <= k <= offsets.len(),
            forall|i: int, j: int| 0 <= i < j < offsets.len() ==> #[trigger] offsets[i] != #[trigger] offsets[j],
        ensures
            self.offsets_in_grid(offsets, k).no_duplicates(),
        decreases k,
    {
        if k > 0 {
            self.lemma_offsets_distinct(offsets, k - 1);
            let prev = self.offsets_in_grid(offsets, k - 1);
            let v = offsets[k - 1];
            let q = (self.col() + v.0, self.row() + v.1);
            if self.shifted_in_grid(v) {
                self.lemma_offsets_contain(offsets, k - 1, q);
                if prev.contains(q) {
                    let i = choose|i: int|
                        0 <= i < k - 1 && #[trigger] self.shifted_in_grid(offsets[i]) && q == (self.col()
                            + offsets[i].0, self.row() + offsets[i].1);
                    assert(offsets[i] == offsets[k - 1]);
                }
                let next = prev.push(q);
                assert forall|i: int, j: int| 0 <= i < next.len() && 0 <= j < next.len() && i != j implies next[i]
                    != next[j] by {
                    if i < prev.len() && j < prev.len() {
                        assert(next[i] == prev[i] && next[j] == prev[j]);
                    } else if i < prev.len() {
                        assert(prev.contains(next[i]));
                    } else {
                        assert(prev.contains(next[j]));
                    }
                }
            }
        }
    }

    /// Law: the tiles that `iter_adjacent` gives are exactly the tiles of the grid that
    /// `is_adjacent_to` accepts, those at most one step away in each direction other than the
    /// tile itself, each once.
    pub proof fn law_adjacent_tiles(self, other: Self)
        requires
            self.wf(),
            other.wf(),
        ensures
            self.offsets_in_grid(Self::unit_offsets(), 8).contains(
                (other.col() as int, other.row() as int),
            ) <==> (self.index() != other.index() && abs_diff(self.col(), other.col()) <= 1
                && abs_diff(self.row(), other.row()) <= 1),
            self.offsets_in_grid(Self::unit_offsets(), 8).no_duplicates(),
    {
        self.lemma_offsets_distinct(Self::unit_offsets(), 8);
        let p = (other.col() as int, other.row() as int);
        let offsets = Self::unit_offsets();
        self.lemma_coords();
        other.lemma_coords();
        self.lemma_offsets_contain(offsets, 8, p);
        let dx = p.0 - self.col();
        let dy = p.1 - self.row();
        if self.index() != other.index() && abs_diff(self.col(), other.col()) <= 1 && abs_diff(
            self.row(),
            other.row(),
        ) <= 1 {
            let i: int = if dx == 0 && dy == -1 {
                0
            } else if dx == 1 && dy == -1 {
                1
            } else if dx == 1 && dy == 0 {
                2
            } else if dx == 1 && dy == 1 {
                3
            } else if dx == 0 && dy == 1 {
                4
            } else if dx == -1 && dy == 1 {
                5
            } else if dx == -1 && dy == 0 {
                6
            } else {
                7
            };
            assert(offsets[i] == (dx, dy));
            assert(self.shifted_in_grid(offsets[i]));
        }
        if exists|i: int|
            0 <= i < 8 && #[trigger] self.shifted_in_grid(offsets[i]) && p == (self.col()
                + offsets[i].0, self.row() + offsets[i].1) {
            let i = choose|i: int|
                0 <= i < 8 && #[trigger] self.shifted_in_grid(offsets[i]) && p == (self.col()
                    + offsets[i].0, self.row() + offsets[i].1);
            assert(offsets[i] == Vector::unit_xy(i));
        }
    }

    /// Law: in a grid at least two tiles wide and two tiles tall, `adjacent_tile_count` is the
    /// number of tiles that `iter_adjacent` gives.
    pub proof fn law_adjacent_count(self)
        requires
            Self::legal(),
            self.wf(),
            2 <= WIDTH,
            2 <= HEIGHT,
        ensures
            self.offsets_in_grid(Self::unit_offsets(), 8).len() == if self.at_corner() {
                3int
            } else if self.on_edge() {
                5int
            } else {
                8int
            },
    {
        self.lemma_coords();
        assert forall|x: int, y: int| 0 <= x < WIDTH && 0 <= y < HEIGHT implies #[trigger] Self::in_grid(
            x,
            y,
        ) by {
            Self::lemma_in_grid(x, y);
        }
        reveal_with_fuel(Tile::offsets_in_grid, 9);
    }

    /// Law: the tiles that `iter_contiguous` gives are exactly the tiles of the grid that
    /// `is_contiguous_with` accepts, those one orthogonal step away, each once.
    pub proof fn law_contiguous_tiles(self, other: Self)
        requires
            self.wf(),
            other.wf(),
        ensures
            self.offsets_in_grid(Self::cardinal_offsets(), 4).contains(
                (other.col() as int, other.row() as int),
            ) <==> (self.index() != other.index() && abs_diff(self.col(), other.col()) + abs_diff(
                self.row(),
                other.row(),
            ) == 1),
            self.offsets_in_grid(Self::cardinal_offsets(), 4).no_duplicates(),
    {
        self.lemma_offsets_distinct(Self::cardinal_offsets(), 4);
        let p = (other.col() as int, other.row() as int);
        let offsets = Self::cardinal_offsets();
        self.lemma_coords();
        other.lemma_coords();
        self.lemma_offsets_contain(offsets, 4, p);
        let dx = p.0 - self.col();
        let dy = p.1 - self.row();
        if self.index() != other.index() && abs_diff(self.col(), other.col()) + abs_diff(
            self.row(),
            other.row(),
        ) == 1 {
            let i: int = if dx == 0 && dy == -1 {
                0
            } else if dx == 1 && dy == 0 {
                1
            } else if dx == 0 && dy == 1 {
                2
            } else {
                3
            };
            assert(offsets[i] == (dx, dy));
            assert(self.shifted_in_grid(offsets[i]));
        }
        if exists|i: int|
            0 <= i < 4 && #[trigger] self.shifted_in_grid(offsets[i]) && p == (self.col()
                + offsets[i].0, self.row() + offsets[i].1) {
            let i = choose|i: int|
                0 <= i < 4 && #[trigger] self.shifted_in_grid(offsets[i]) && p == (self.col()
                    + offsets[i].0, self.row() + offsets[i].1);
            assert(offsets[i] == Vector::unit_xy(2 * i));
        }
    }

    /// The tiles reached from this tile by each vector in turn, leaving out those outside the grid.
    fn tiles_at_offsets(&self, vectors: &[Vector], Ghost(offsets): Ghost<Seq<(int, int)>>) -> (r: Vec<
        Self,
    >)
        requires
            self.wf(),
            vectors@.len() == offsets.len(),
            forall|i: int| 0 <= i < offsets.len() ==> #[trigger] vectors@[i].xy() == offsets[i],
        ensures
            r@.len() == self.offsets_in_grid(offsets, offsets.len() as int).len(),
            forall|i: int|
                0 <= i < r@.len() ==> (#[trigger] r@[i]).wf() && (r@[i].col() as int, r@[i].row() as int)
                    == self.offsets_in_grid(offsets, offsets.len() as int)[i],
    {
        let mut result: Vec<Self> = Vec::new();
        let mut k: usize = 0;
        while k < vectors.len()
            invariant
                self.wf(),
                vectors@.len() == offsets.len(),
                forall|i: int| 0 <= i < offsets.len() ==> #[trigger] vectors@[i].xy() == offsets[i],
                k <= vectors@.len(),
                result@.len() == self.offsets_in_grid(offsets, k as int).len(),
                forall|i: int|
                    0 <= i < result@.len() ==> (#[trigger] result@[i]).wf() && (
                    result@[i].col() as int,
                    result@[i].row() as int,
                ) == self.offsets_in_grid(offsets, k as int)[i],
            decreases vectors@.len() - k,
        {
            let v = vectors[k];
            assert(v.xy() == offsets[k as int]);
            let ghost before = result@;
            match self.const_add(&v) {
                Some(t) => {
                    result.push(t);
                },
                None => {},
            }
            proof {
                let prev = self.offsets_in_grid(offsets, k as int);
                assert(prev.len() == before.len());
                let next = self.offsets_in_grid(offsets, k + 1);
                if self.shifted_in_grid(v.xy()) {
                    assert(next == prev.push((self.col() + v.xy().0, self.row() + v.xy().1)));
                    assert(result@.len() == before.len() + 1);
                    assert((result@[before.len() as int].col() as int, result@[before.len() as int].row() as int) == next[before.len() as int]);
                } else {
                    assert(next == prev);
                }
                assert forall|i: int| 0 <= i < result@.len() implies (#[trigger] result@[i]).wf() && (
                result@[i].col() as int,
                result@[i].row() as int,
            ) == self.offsets_in_grid(offsets, k + 1)[i] by {
                    if i < before.len() {
                        assert(result@[i] == before[i]);
                        assert(before[i].wf());
                        assert(next[i] == prev[i]);
                    }
                }
            }
            k = k + 1;
        }
        result
    }

    /// The tiles adjacent to this one (including diagonals), clockwise from north.
    pub fn iter_adjacent(&self) -> (r: Vec<Self>)
        requires
            self.wf(),
        ensures
            r@.len() == self.offsets_in_grid(Self::unit_offsets(), 8).len(),
            forall|i: int|
                0 <= i < r@.len() ==> (#[trigger] r@[i]).wf() && (r@[i].col() as int, r@[i].row() as int)
                    == self.offsets_in_grid(Self::unit_offsets(), 8)[i],
    {
        let units = Vector::units();
        assert forall|i: int| 0 <= i < 8 implies #[trigger] units@[i].xy()
            == Self::unit_offsets()[i] by {}
        assert(Self::unit_offsets().len() == 8);
        let r = self.tiles_at_offsets(units.as_slice(), Ghost(Self::unit_offsets()));
        assert(forall|i: int|
                0 <= i < r@.len() ==> (#[trigger] r@[i]).wf() && (r@[i].col() as int, r@[i].row() as int)
                    == self.offsets_in_grid(Self::unit_offsets(), Self::unit_offsets().len() as int)[i]);
        r
    }

    /// The tiles contiguous with this one (not including diagonals): north, east, south, west.
    pub fn iter_contiguous(&self) -> (r: Vec<Self>)
        requires
            self.wf(),
        ensures
            r@.len() == self.offsets_in_grid(Self::cardinal_offsets(), 4).len(),
            forall|i: int|
                0 <= i < r@.len() ==> (#[trigger] r@[i]).wf() && (r@[i].col() as int, r@[i].row() as int)
                    == self.offsets_in_grid(Self::cardinal_offsets(), 4)[i],
    {
        let cardinals = Vector::cardinals();
        assert forall|i: int| 0 <= i < 4 implies #[trigger] cardinals@[i].xy()
            == Self::cardinal_offsets()[i] by {}
        assert(Self::cardinal_offsets().len() == 4);
        self.tiles_at_offsets(cardinals.as_slice(), Ghost(Self::cardinal_offsets()))
    }

    /// Whether two tiles are adjacent (includes diagonals)
    pub fn is_adjacent_to(&self, rhs: &Self) -> (r: bool)
        requires
            self.wf(),
            rhs.wf(),
        ensures
            r == (self.index() != rhs.index() && abs_diff(self.col(), rhs.col()) <= 1 && abs_diff(
                self.row(),
                rhs.row(),
            ) <= 1),
    {
        self.0 != rhs.0 && u8_abs_diff(self.x(), rhs.x()) <= 1 && u8_abs_diff(self.y(), rhs.y()) <= 1
    }

    /// Whether two tiles are contiguous (does not include diagonals)
    pub fn is_contiguous_with(&self, rhs: &Self) -> (r: bool)
        requires
            self.wf(),
            rhs.wf(),
        ensures
            r == (self.index() != rhs.index() && abs_diff(self.col(), rhs.col()) + abs_diff(
                self.row(),
                rhs.row(),
            ) == 1),
    {
        if self.0 == rhs.0 {
            return false;
        }
        let c = u8_abs_diff(self.x(), rhs.x());
        let r = u8_abs_diff(self.y(), rhs.y());

        if c <= 1 && r <= 1 {
            if (c == 1) != (r == 1) {
                return true;
            }
        }
        return false;
    }

    /// The tile reached by moving by a vector, if it is in the grid.
    pub fn const_add(&self, vector: &Vector) -> (r: Option<Self>)
        requires
            self.wf(),
        ensures
            r is Some <==> self.shifted_in_grid(vector.xy()),
            r matches Some(t) ==> t.wf() && t.col() == self.col() + vector.x && t.row()
                == self.row() + vector.y,
    {
        let x = self.x() as i16 + vector.x as i16;
        let y = self.y() as i16 + vector.y as i16;
        if x < 0 || x > 255 || y < 0 || y > 255 {
            return None;
        }
        Self::try_new(x as u8, y as u8)
    }

    /// The vertex at a corner of this tile, if the vertex grid can number it.
    pub fn get_vertex(&self, corner: &Corner) -> (r: Option<Vertex<WIDTH, HEIGHT>>)
        requires
            self.wf(),
        ensures
            r is Some <==> Vertex::<WIDTH, HEIGHT>::in_grid(
                self.col() + corner.offset().0,
                self.row() + corner.offset().1,
            ),
            r matches Some(v) ==> v.wf() && v.col() == self.col() + corner.offset().0 && v.row()
                == self.row() + corner.offset().1,
    {
        proof {
            self.lemma_coords();
        }
        match corner {
            Corner::NorthWest => Vertex::try_new(self.x(), self.y()),
            Corner::NorthEast => Vertex::try_new(self.x() + 1, self.y()),
            Corner::SouthWest => Vertex::try_new(self.x(), self.y() + 1),
            Corner::SouthEast => Vertex::try_new(self.x() + 1, self.y() + 1),
        }
    }

    /// The vertex at the north west corner of this tile.
    pub fn get_north_west_vertex(&self) -> (r: Vertex<WIDTH, HEIGHT>)
        requires
            self.wf(),
            Vertex::<WIDTH, HEIGHT>::legal(),
        ensures
            r.wf(),
            r.col() == self.col(),
            r.row() == self.row(),
    {
        proof {
            self.lemma_coords();
        }
        Vertex::new_unchecked(self.x(), self.y())
    }

    /// Returns the Manhattan distance between two tiles.
    /// Also known as the taxicab distance, the Manhattan distance is the sum of the distances in the two axes.
    pub fn manhattan_distance(&self, other: &Self) -> (r: u8)
        requires
            self.wf(),
            other.wf(),
            Self::legal(),
        ensures
            r == abs_diff(self.col(), other.col()) + abs_diff(self.row(), other.row()),
    {
        proof {
            self.lemma_coords();
            other.lemma_coords();
            assert(WIDTH + HEIGHT <= 257) by (nonlinear_arith)
                requires
                    1 <= WIDTH,
                    1 <= HEIGHT,
                    WIDTH * HEIGHT <= 256,
            ;
        }
        u8_abs_diff(self.x(), other.x()) + u8_abs_diff(self.y(), other.y())
    }

    /// Whether a tile is on the edge of the grid.
    pub open spec fn on_edge(self) -> bool {
        self.col() == 0 || self.col() == WIDTH - 1 || self.row() == 0 || self.row() == HEIGHT - 1
    }

    /// Whether a tile is at a corner of the grid.
    pub open spec fn at_corner(self) -> bool {
        (self.col() == 0 || self.col() == WIDTH - 1) && (self.row() == 0 || self.row() == HEIGHT
            - 1)
    }

    /// Returns true if this is an edge tile (or corner tile)
    pub fn is_edge(&self) -> (r: bool)
        requires
            self.wf(),
        ensures
            r == self.on_edge(),
    {
        proof {
            self.lemma_coords();
        }
        (self.x() == 0 || self.x() == WIDTH - 1) || (self.y() == 0 || self.y() == HEIGHT - 1)
    }

    /// Returns true if this is a corner tile
    pub fn is_corner(&self) -> (r: bool)
        requires
            self.wf(),
            Self::legal(),
        ensures
            r == self.at_corner(),
    {
        proof {
            self.lemma_coords();
        }
        let ne = Self::north_east();
        let nw = Self::north_west();
        let se = Self::south_east();
        let sw = Self::south_west();
        proof {
            ne.lemma_coords();
            nw.lemma_coords();
            se.lemma_coords();
            sw.lemma_coords();
        }
        ne.0 == self.0 || nw.0 == self.0 || se.0 == self.0 || sw.0 == self.0
    }

    /// Returns the number of adjacent tiles
    /// 3 for a corner tile
    /// 5 for an edge tile
    /// 8 otherwise
    pub fn adjacent_tile_count(&self) -> (r: u8)
        requires
            self.wf(),
            Self::legal(),
        ensures
            r == if self.at_corner() {
                3u8
            } else if self.on_edge() {
                5u8
            } else {
                8u8
            },
    {
        if self.is_corner() {
            return 3;
        } else if self.is_edge() {
            return 5;
        } else {
            return 8;
        }
    }

    /// The textual form of this tile: `(x,y)`.
    pub open spec fn text(self) -> Seq<char> {
        coordinate_text(self.col(), self.row())
    }

    /// Writes this tile as `(x,y)` (its `Display` form).
    pub fn to_string(&self) -> (s: String)
        requires
            self.wf(),
        ensures
            s@ == self.text(),
    {
        let mut s = String::new();
        push_char(&mut s, '(');
        push_decimal(&mut s, self.x() as u64);
        push_char(&mut s, ',');
        push_decimal(&mut s, self.y() as u64);
        push_char(&mut s, ')');
        s
    }
}

impl<const L: u8> Tile<L, L> {
    /// Rotate the tile clockwise about the center of the grid.
    pub fn rotate(&self, quarter_turns: QuarterTurns) -> (r: Self)
        requires
            self.wf(),
            Self::legal(),
        ensures
            r.wf(),
            (r.col() as int, r.row() as int) == rotated_within(
                self.col() as int,
                self.row() as int,
                L as int,
                quarter_turns,
            ),
    {
        proof {
            self.lemma_coords();
        }
        let x = self.x();
        let y = self.y();
        match quarter_turns {
            QuarterTurns::Zero => *self,
            QuarterTurns::One => Self::new_unchecked(L - 1 - y, x),
            QuarterTurns::Two => Self::new_unchecked(L - 1 - x, L - 1 - y),
            QuarterTurns::Three => Self::new_unchecked(y, L - 1 - x),
        }
    }
}

/// The distance between two natural numbers.
pub open spec fn abs_diff(a: nat, b: nat) -> nat {
    if a >= b {
        (a - b) as nat
    } else {
        (b - a) as nat
    }
}

/// The distance between two bytes (`u8::abs_diff`).
pub fn u8_abs_diff(a: u8, b: u8) -> (r: u8)
    ensures
        r == abs_diff(a as nat, b as nat),
{
    if a >= b {
        a - b
    } else {
        b - a
    }
}

impl<const WIDTH: u8, const HEIGHT: u8> From<Tile<WIDTH, HEIGHT>> for u8 {
    fn from(value: Tile<WIDTH, HEIGHT>) -> (r: u8) {
        value.0
    }
}

impl<const WIDTH: u8, const HEIGHT: u8> vstd::std_specs::convert::FromSpecImpl<Tile<WIDTH, HEIGHT>> for u8 {
    open spec fn obeys_from_spec() -> bool {
        true
    }

    open spec fn from_spec(v: Tile<WIDTH, HEIGHT>) -> u8 {
        v.index() as u8
    }
}

impl<const WIDTH: u8, const HEIGHT: u8> From<Tile<WIDTH, HEIGHT>> for usize {
    fn from(value: Tile<WIDTH, HEIGHT>) -> (r: usize) {
        value.0 as usize
    }
}

impl<const WIDTH: u8, const HEIGHT: u8> vstd::std_specs::convert::FromSpecImpl<Tile<WIDTH, HEIGHT>> for usize {
    open spec fn obeys_from_spec() -> bool {
        true
    }

    open spec fn from_spec(v: Tile<WIDTH, HEIGHT>) -> usize {
        v.index() as usize
    }
}

/// Iterates through the tiles of a grid by row.
#[derive(Clone, Copy, Debug, Hash)]
pub struct TileByRowIter<const WIDTH: u8, const HEIGHT: u8> {
    inner: u8,
}

impl<const WIDTH: u8, const HEIGHT: u8> TileByRowIter<WIDTH, HEIGHT> {
    /// The index of the next tile.
    pub closed spec fn position(self) -> nat {
        self.inner as nat
    }

    /// Starts at the north west tile.
    pub fn new() -> (r: Self)
        ensures
            r.position() == 0,
    {
        TileByRowIter { inner: 0 }
    }

    /// The next tile, if there is one.
    pub fn next(&mut self) -> (r: Option<Tile<WIDTH, HEIGHT>>)
        ensures
            r is Some <==> old(self).position() < Tile::<WIDTH, HEIGHT>::tile_count(),
            r matches Some(t) ==> t.wf() && t.index() == old(self).position(),
            final(self).position() == if old(self).position() < 255 {
                old(self).position() + 1
            } else {
                255
            },
    {
        let ret = Tile::<WIDTH, HEIGHT>::try_from_inner(self.inner);
        self.inner = if self.inner < 255 {
            self.inner + 1
        } else {
            255
        };
        ret
    }
}

/// Iterates through the tiles of a grid by column.
#[derive(Clone, Copy, Debug)]
pub struct TileByColumnIter<const WIDTH: u8, const HEIGHT: u8>(Option<Tile<WIDTH, HEIGHT>>);

impl<const WIDTH: u8, const HEIGHT: u8> TileByColumnIter<WIDTH, HEIGHT> {
    /// The tile to be returned next.
    pub closed spec fn upcoming(self) -> Option<Tile<WIDTH, HEIGHT>> {
        self.0
    }

    /// Starts at the north west tile.
    pub fn new() -> (r: Self)
        requires
            Tile::<WIDTH, HEIGHT>::legal(),
            1 <= WIDTH,
            1 <= HEIGHT,
        ensures
            r.upcoming() matches Some(t) && t.wf() && t.index() == 0,
    {
        let t = Tile::north_west();
        proof {
            t.lemma_coords();
        }
        TileByColumnIter(Some(t))
    }

    /// The next tile, if there is one: down the column, then to the top of the next column.
    pub fn next(&mut self) -> (r: Option<Tile<WIDTH, HEIGHT>>)
        requires
            Tile::<WIDTH, HEIGHT>::legal(),
            old(self).upcoming() matches Some(t) ==> t.wf(),
        ensures
            r == old(self).upcoming(),
            final(self).upcoming() matches Some(t) ==> t.wf(),
            r matches Some(t) ==> (final(self).upcoming() matches Some(n) ==> (
                if t.row() + 1 < HEIGHT {
                    n.col() == t.col() && n.row() == t.row() + 1
                } else {
                    n.col() == t.col() + 1 && n.row() == 0
                })),
            r matches Some(t) ==> (final(self).upcoming() is None <==> (t.row() + 1 >= HEIGHT
                && !Tile::<WIDTH, HEIGHT>::in_grid(t.col() + 1int, 0))),
            r is None ==> final(self).upcoming() is None,
    {
        let r = match self.0 {
            Some(r) => r,
            None => {
                return None;
            },
        };
        proof {
            r.lemma_coords();
            if r.row() + 1 < HEIGHT {
                Tile::<WIDTH, HEIGHT>::lemma_in_grid(r.col() as int, r.row() + 1int);
            }
            if r.col() + 1 < WIDTH {
                Tile::<WIDTH, HEIGHT>::lemma_in_grid(r.col() + 1int, 0);
            }
        }
        let south = Vector::south();
        self.0 = match r.const_add(&south) {
            Some(n) => Some(n),
            None => Tile::try_new(r.x() + 1, 0),
        };
        Some(r)
    }
}

impl<const WIDTH: u8, const HEIGHT: u8> core::ops::Add<Vector> for Tile<WIDTH, HEIGHT> {
    type Output = Option<Tile<WIDTH, HEIGHT>>;

    /// The tile moved by a vector, if it stays in the grid.
    fn add(self, rhs: Vector) -> (r: Option<Tile<WIDTH, HEIGHT>>) {
        let r = self.const_add(&rhs);
        proof {
            if let Some(v) = r {
                v.lemma_coords();
            }
        }
        r
    }
}

impl<const WIDTH: u8, const HEIGHT: u8> vstd::std_specs::ops::AddSpecImpl<Vector> for Tile<WIDTH, HEIGHT> {
    open spec fn obeys_add_spec() -> bool {
        true
    }

    open spec fn add_req(self, rhs: Vector) -> bool {
        self.wf()
    }

    open spec fn add_spec(self, rhs: Vector) -> Option<Tile<WIDTH, HEIGHT>> {
        if Self::in_grid(self.col() + rhs.x, self.row() + rhs.y) {
            Some(Self::with_index(Self::index_of(self.col() + rhs.x, self.row() + rhs.y)))
        } else {
            None
        }
    }
}

impl<'a, const WIDTH: u8, const HEIGHT: u8> From<&'a Tile<WIDTH, HEIGHT>> for u8 {
    fn from(val: &'a Tile<WIDTH, HEIGHT>) -> (r: u8) {
        val.0
    }
}

impl<'a, const WIDTH: u8, const HEIGHT: u8> vstd::std_specs::convert::FromSpecImpl<&'a Tile<WIDTH, HEIGHT>> for u8 {
    open spec fn obeys_from_spec() -> bool {
        true
    }

    open spec fn from_spec(v: &'a Tile<WIDTH, HEIGHT>) -> u8 {
        v.index() as u8
    }
}

impl<'a, const WIDTH: u8, const HEIGHT: u8> From<&'a Tile<WIDTH, HEIGHT>> for usize {
    fn from(val: &'a Tile<WIDTH, HEIGHT>) -> (r: usize) {
        val.0 as usize
    }
}

impl<'a, const WIDTH: u8, const HEIGHT: u8> vstd::std_specs::convert::FromSpecImpl<&'a Tile<WIDTH, HEIGHT>> for usize {
    open spec fn obeys_from_spec() -> bool {
        true
    }

    open spec fn from_spec(v: &'a Tile<WIDTH, HEIGHT>) -> usize {
        v.index() as usize
    }
}

} // verus!
