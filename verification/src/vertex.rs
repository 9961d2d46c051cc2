//! Vertices of a grid whose size is known at compile time.
use vstd::prelude::*;

use crate::corner::Corner;
use crate::dynamic_vertex::DynamicVertex;
use crate::flip_axes::{flipped_within, FlipAxes};
use crate::grid_math::{lemma_byte_product, lemma_coords_index, lemma_index_bound, lemma_index_coords, lemma_row_bound};
use crate::quarter_turns::QuarterTurns;
use crate::text::{push_char, push_decimal};
use crate::tile::{coordinate_text, rotated_within, Tile};
use crate::vector::Vector;

verus! {

/// A vertex in 2d space
#[derive(Clone, Copy, Debug, Hash, PartialOrd, Ord)]
pub struct Vertex<const WIDTH: u8, const HEIGHT: u8>(u8);

impl<const WIDTH: u8, const HEIGHT: u8> PartialEq for Vertex<WIDTH, HEIGHT> {
    fn eq(&self, other: &Self) -> (r: bool) {
        self.0 == other.0
    }
}

impl<const WIDTH: u8, const HEIGHT: u8> Eq for Vertex<WIDTH, HEIGHT> {
}

impl<const WIDTH: u8, const HEIGHT: u8> vstd::std_specs::cmp::PartialEqSpecImpl for Vertex<WIDTH, HEIGHT> {
    open spec fn obeys_eq_spec() -> bool {
        true
    }

    open spec fn eq_spec(&self, other: &Self) -> bool {
        self.index() == other.index()
    }
}

impl<const WIDTH: u8, const HEIGHT: u8> Vertex<WIDTH, HEIGHT> {
    /// The row-major position of this vertex.
    pub closed spec fn index(self) -> nat {
        self.0 as nat
    }

    /// The vertex with a given index.
    pub closed spec fn with_index(i: int) -> Self {
        Vertex(i as u8)
    }

    /// A vertex built from an index below 256 has that index.
    pub proof fn lemma_with_index(i: int)
        requires
            0 <= i < 256,
        ensures
            Self::with_index(i).index() == i,
    {
    }

    /// The number of vertices in a row.
    pub open spec fn columns() -> nat {
        WIDTH as nat + 1
    }

    /// The number of vertices in the grid.
    pub open spec fn vertex_count() -> nat {
        (WIDTH as nat + 1) * (HEIGHT as nat + 1)
    }

    /// Whether this vertex lies in the grid.
    pub open spec fn wf(self) -> bool {
        self.index() < Self::vertex_count()
    }

    /// The column of this vertex.
    pub open spec fn col(self) -> nat {
        self.index() % Self::columns()
    }

    /// The row of this vertex.
    pub open spec fn row(self) -> nat {
        self.index() / Self::columns()
    }

    /// Whether the vertices of the grid can be numbered by a byte.
    pub open spec fn legal() -> bool {
        Self::vertex_count() <= 256
    }

    /// The row-major index of a coordinate.
    pub open spec fn index_of(x: int, y: int) -> int {
        x + Self::columns() * y
    }

    /// Whether a coordinate is that of a vertex of the grid.
    pub open spec fn in_grid(x: int, y: int) -> bool {
        0 <= x <= WIDTH && 0 <= y <= HEIGHT && Self::index_of(x, y) < 256
    }

    /// Vertices with the same index are the same vertex.
    pub proof fn lemma_index_injective(self, other: Self)
        ensures
            self.index() == other.index() <==> self == other,
            self.index() < 256,
    {
    }

    /// The coordinates of a vertex give back its index.
    pub proof fn lemma_coords(self)
        requires
            self.wf(),
        ensures
            self.col() <= WIDTH,
            self.row() <= HEIGHT,
            self.index() == Self::index_of(self.col() as int, self.row() as int),
            Self::in_grid(self.col() as int, self.row() as int),
    {
        lemma_coords_index(self.index() as int, Self::columns() as int);
        lemma_row_bound(self.index() as int, Self::columns() as int, HEIGHT as int + 1);
    }

    pub(crate) fn new_unchecked(x: u8, y: u8) -> (r: Self)
        requires
            x <= WIDTH,
            y <= HEIGHT,
            Self::legal(),
        ensures
            r.wf(),
            r.col() == x,
            r.row() == y,
    {
        proof {
            lemma_index_bound(x as int, y as int, Self::columns() as int, HEIGHT as int + 1);
            lemma_index_coords(x as int, y as int, Self::columns() as int);
        }
        Vertex((x as u16 + (WIDTH as u16 + 1) * y as u16) as u8)
    }

    pub fn new_const<const X: u8, const Y: u8>() -> (r: Self)
        requires
            X <= WIDTH,
            Y <= HEIGHT,
            Self::legal(),
        ensures
            r.wf(),
            r.col() == X,
            r.row() == Y,
    {
        Self::new_unchecked(X, Y)
    }

    pub fn north_west() -> (r: Self)
        requires
            Self::legal(),
        ensures
            r.wf(),
            r.col() == 0,
            r.row() == 0,
    {
        Self::new_unchecked(0, 0)
    }

    pub fn north_east() -> (r: Self)
        requires
            Self::legal(),
        ensures
            r.wf(),
            r.col() == WIDTH,
            r.row() == 0,
    {
        Self::new_unchecked(WIDTH, 0)
    }

    pub fn south_west() -> (r: Self)
        requires
            Self::legal(),
        ensures
            r.wf(),
            r.col() == 0,
            r.row() == HEIGHT,
    {
        Self::new_unchecked(0, HEIGHT)
    }

    pub fn south_east() -> (r: Self)
        requires
            Self::legal(),
        ensures
            r.wf(),
            r.col() == WIDTH,
            r.row() == HEIGHT,
    {
        Self::new_unchecked(WIDTH, HEIGHT)
    }

    pub fn center() -> (r: Self)
        requires
            Self::legal(),
        ensures
            r.wf(),
            r.col() == WIDTH / 2,
            r.row() == HEIGHT / 2,
    {
        Self::new_unchecked(WIDTH / 2, HEIGHT / 2)
    }

    /// The number of vertices in the grid.
    pub fn count() -> (r: usize)
        ensures
            r == Self::vertex_count(),
    {
        proof {
            assert((WIDTH as nat + 1) * (HEIGHT as nat + 1) <= 65536) by (nonlinear_arith)
                requires
                    WIDTH <= 255,
                    HEIGHT <= 255,
            ;
        }
        (WIDTH as usize + 1) * (HEIGHT as usize + 1)
    }

    pub fn inner(&self) -> (r: u8)
        ensures
            r == self.index(),
    {
        self.0
    }

    pub fn try_from_inner(inner: u8) -> (r: Option<Self>)
        ensures
            r is Some <==> inner < Self::vertex_count(),
            r matches Some(v) ==> v.wf() && v.index() == inner,
    {
        if (inner as usize) < Self::count() {
            Some(Vertex(inner))
        } else {
            None
        }
    }

    pub fn try_from_usize(value: usize) -> (r: Option<Self>)
        ensures
            r is Some <==> value < Self::vertex_count() && value < 256,
            r matches Some(v) ==> v.wf() && v.index() == value,
    {
        if value >= Self::count() || value >= 256 {
            return None;
        }
        Some(Vertex(value as u8))
    }

    pub fn try_new(x: u8, y: u8) -> (r: Option<Self>)
        ensures
            r is Some <==> Self::in_grid(x as int, y as int),
            r matches Some(v) ==> v.wf() && v.col() == x && v.row() == y,
    {
        if x > WIDTH {
            return None;
        }
        if y > HEIGHT {
            return None;
        }
        proof {
            lemma_byte_product(WIDTH as int + 1, y as int);
        }
        let i: u32 = (WIDTH as u32 + 1) * y as u32 + x as u32;
        if i >= 256 {
            return None;
        }
        proof {
            lemma_index_bound(x as int, y as int, Self::columns() as int, HEIGHT as int + 1);
            lemma_index_coords(x as int, y as int, Self::columns() as int);
        }
        Some(Vertex(i as u8))
    }

    pub fn try_from_dynamic(dynamic_vertex: DynamicVertex) -> (r: Option<Self>)
        ensures
            r is Some <==> Self::in_grid(dynamic_vertex.0.x as int, dynamic_vertex.0.y as int),
            r matches Some(v) ==> v.wf() && v.col() == dynamic_vertex.0.x && v.row()
                == dynamic_vertex.0.y,
    {
        if dynamic_vertex.0.x < 0 || dynamic_vertex.0.y < 0 {
            return None;
        }
        Self::try_new(dynamic_vertex.0.x as u8, dynamic_vertex.0.y as u8)
    }

    pub fn x(&self) -> (r: u8)
        ensures
            r == self.col(),
    {
        (self.0 as u16 % (WIDTH as u16 + 1)) as u8
    }

    pub fn y(&self) -> (r: u8)
        ensures
            r == self.row(),
    {
        (self.0 as u16 / (WIDTH as u16 + 1)) as u8
    }

    pub fn flip(&self, axes: FlipAxes) -> (r: Self)
        requires
            self.wf(),
            Self::legal(),
        ensures
            r.wf(),
            (r.col() as int, r.row() as int) == flipped_within(
                self.col() as int,
                self.row() as int,
                WIDTH as int,
                HEIGHT as int,
                axes,
            ),
    {
        proof {
            self.lemma_coords();
        }
        let x = self.x();
        let y = self.y();
        match axes {
            FlipAxes::NoFlip => *self,
            FlipAxes::Horizontal => Self::new_unchecked(WIDTH - x, y),
            FlipAxes::Vertical => Self::new_unchecked(x, HEIGHT - y),
            FlipAxes::Both => Self::new_unchecked(WIDTH - x, HEIGHT - y),
        }
    }

    /// The vertex with the next index, if there is one.
    pub fn try_next(&self) -> (r: Option<Self>)
        ensures
            r is Some <==> self.index() + 1 < Self::vertex_count() && self.index() < 255,
            r matches Some(v) ==> v.wf() && v.index() == self.index() + 1,
    {
        if self.0 == 255 {
            return None;
        }
        Self::try_from_inner(self.0 + 1)
    }

    /// Iterate through all vertices by row
    pub fn iter_by_row() -> (r: Vec<Self>)
        requires
            Self::legal(),
        ensures
            r@.len() == Self::vertex_count(),
            forall|i: int| 0 <= i < r@.len() ==> (#[trigger] r@[i]).wf() && r@[i].index() == i,
    {
        let count = Self::count();
        let mut result: Vec<Self> = Vec::new();
        let mut i: usize = 0;
        while i < count
            invariant
                count == Self::vertex_count(),
                count <= 256,
                i <= count,
                result@.len() == i,
                forall|j: int| 0 <= j < i ==> (#[trigger] result@[j]).wf() && result@[j].index() == j,
            decreases count - i,
        {
            result.push(Vertex(i as u8));
            i = i + 1;
        }
        result
    }

    /// The vertex reached by moving by a vector, if it is in the grid.
    pub fn const_add(&self, vector: &Vector) -> (r: Option<Self>)
        requires
            self.wf(),
        ensures
            r is Some <==> Self::in_grid(self.col() + vector.x, self.row() + vector.y),
            r matches Some(v) ==> v.wf() && v.col() == self.col() + vector.x && v.row()
                == self.row() + vector.y,
    {
        let x = self.x() as i16 + vector.x as i16;
        let y = self.y() as i16 + vector.y as i16;
        if x < 0 || x > 255 || y < 0 || y > 255 {
            return None;
        }
        Self::try_new(x as u8, y as u8)
    }

    /// The tile that lies beyond this vertex in the direction of a corner, if it is in the grid.
    pub fn get_tile(&self, corner: &Corner) -> (r: Option<Tile<WIDTH, HEIGHT>>)
        requires
            self.wf(),
        ensures
            r is Some <==> Tile::<WIDTH, HEIGHT>::in_grid(
                self.col() + corner.offset().0 - 1,
                self.row() + corner.offset().1 - 1,
            ),
            r matches Some(t) ==> t.wf() && t.col() == self.col() + corner.offset().0 - 1
                && t.row() == self.row() + corner.offset().1 - 1,
    {
        match corner {
            Corner::NorthWest => {
                if self.x() == 0 {
                    return None;
                }
                if self.y() == 0 {
                    return None;
                }
                Tile::try_new(self.x() - 1, self.y() - 1)
            },
            Corner::NorthEast => {
                if self.y() == 0 {
                    return None;
                }
                Tile::try_new(self.x(), self.y() - 1)
            },
            Corner::SouthWest => {
                if self.x() == 0 {
                    return None;
                }
                Tile::try_new(self.x() - 1, self.y())
            },
            Corner::SouthEast => Tile::try_new(self.x(), self.y()),
        }
    }

    /// The textual form of this vertex: `(x,y)`.
    pub open spec fn text(self) -> Seq<char> {
        coordinate_text(self.col(), self.row())
    }

    /// Writes this vertex as `(x,y)` (its `Display` form).
    pub fn to_string(&self) -> (s: String)
        ensures
            s@ == self.text(),
    {
        let mut s = String::new();
        push_char(&mut s, '(');
        push_decimal(&mut s, self.x() as u64);
        push_char(&mut s, ',');
        push_decimal(&mut s, self.y() as u64);
        push_char(&mut s, ')');
        s
    }
}

impl<const L: u8> Vertex<L, L> {
    /// Rotate the vertex clockwise about the center of the grid.
    pub fn rotate(&self, quarter_turns: QuarterTurns) -> (r: Self)
        requires
            self.wf(),
            Self::legal(),
        ensures
            r.wf(),
            (r.col() as int, r.row() as int) == rotated_within(
                self.col() as int,
                self.row() as int,
                L as int + 1,
                quarter_turns,
            ),
    {
        proof {
            self.lemma_coords();
        }
        let x = self.x();
        let y = self.y();
        match quarter_turns {
            QuarterTurns::Zero => *self,
            QuarterTurns::One => Self::new_unchecked(L - y, x),
            QuarterTurns::Two => Self::new_unchecked(L - x, L - y),
            QuarterTurns::Three => Self::new_unchecked(y, L - x),
        }
    }
}

/// The vertex at a corner of a tile is the tile's neighbour, in the direction of the opposite
/// corner, of that vertex.
pub proof fn lemma_tile_vertex_round_trip(x: int, y: int, corner: Corner)
    ensures
        x + corner.offset().0 + corner.opposite().offset().0 - 1 == x,
        y + corner.offset().1 + corner.opposite().offset().1 - 1 == y,
{
}

impl<const WIDTH: u8, const HEIGHT: u8> From<Vertex<WIDTH, HEIGHT>> for DynamicVertex {
    fn from(val: Vertex<WIDTH, HEIGHT>) -> (r: DynamicVertex) {
        DynamicVertex(Vector { x: val.x() as i8, y: val.y() as i8 })
    }
}

impl<const WIDTH: u8, const HEIGHT: u8> vstd::std_specs::convert::FromSpecImpl<Vertex<WIDTH, HEIGHT>> for DynamicVertex {
    open spec fn obeys_from_spec() -> bool {
        true
    }

    open spec fn from_spec(v: Vertex<WIDTH, HEIGHT>) -> DynamicVertex {
        DynamicVertex(Vector { x: v.col() as i8, y: v.row() as i8 })
    }
}

impl<const WIDTH: u8, const HEIGHT: u8> From<Vertex<WIDTH, HEIGHT>> for u8 {
    fn from(val: Vertex<WIDTH, HEIGHT>) -> (r: u8) {
        val.0
    }
}

impl<const WIDTH: u8, const HEIGHT: u8> vstd::std_specs::convert::FromSpecImpl<Vertex<WIDTH, HEIGHT>> for u8 {
    open spec fn obeys_from_spec() -> bool {
        true
    }

    open spec fn from_spec(v: Vertex<WIDTH, HEIGHT>) -> u8 {
        v.index() as u8
    }
}

impl<const WIDTH: u8, const HEIGHT: u8> From<Vertex<WIDTH, HEIGHT>> for usize {
    fn from(val: Vertex<WIDTH, HEIGHT>) -> (r: usize) {
        val.0 as usize
    }
}

impl<const WIDTH: u8, const HEIGHT: u8> vstd::std_specs::convert::FromSpecImpl<Vertex<WIDTH, HEIGHT>> for usize {
    open spec fn obeys_from_spec() -> bool {
        true
    }

    open spec fn from_spec(v: Vertex<WIDTH, HEIGHT>) -> usize {
        v.index() as usize
    }
}

impl<const WIDTH: u8, const HEIGHT: u8> core::ops::Add<Vector> for Vertex<WIDTH, HEIGHT> {
    type Output = Option<Vertex<WIDTH, HEIGHT>>;

    /// The vertex moved by a vector, if it stays in the grid.
    fn add(self, rhs: Vector) -> (r: Option<Vertex<WIDTH, HEIGHT>>) {
        let r = self.const_add(&rhs);
        proof {
            if let Some(v) = r {
                v.lemma_coords();
            }
        }
        r
    }
}

impl<const WIDTH: u8, const HEIGHT: u8> vstd::std_specs::ops::AddSpecImpl<Vector> for Vertex<WIDTH, HEIGHT> {
    open spec fn obeys_add_spec() -> bool {
        true
    }

    open spec fn add_req(self, rhs: Vector) -> bool {
        self.wf()
    }

    open spec fn add_spec(self, rhs: Vector) -> Option<Vertex<WIDTH, HEIGHT>> {
        if Self::in_grid(self.col() + rhs.x, self.row() + rhs.y) {
            Some(Self::with_index(Self::index_of(self.col() + rhs.x, self.row() + rhs.y)))
        } else {
            None
        }
    }
}

impl<'a, const WIDTH: u8, const HEIGHT: u8> From<&'a Vertex<WIDTH, HEIGHT>> for u8 {
    fn from(val: &'a Vertex<WIDTH, HEIGHT>) -> (r: u8) {
        val.0
    }
}

impl<'a, const WIDTH: u8, const HEIGHT: u8> vstd::std_specs::convert::FromSpecImpl<&'a Vertex<WIDTH, HEIGHT>> for u8 {
    open spec fn obeys_from_spec() -> bool {
        true
    }

    open spec fn from_spec(v: &'a Vertex<WIDTH, HEIGHT>) -> u8 {
        v.index() as u8
    }
}

impl<'a, const WIDTH: u8, const HEIGHT: u8> From<&'a Vertex<WIDTH, HEIGHT>> for usize {
    fn from(val: &'a Vertex<WIDTH, HEIGHT>) -> (r: usize) {
        val.0 as usize
    }
}

impl<'a, const WIDTH: u8, const HEIGHT: u8> vstd::std_specs::convert::FromSpecImpl<&'a Vertex<WIDTH, HEIGHT>> for usize {
    open spec fn obeys_from_spec() -> bool {
        true
    }

    open spec fn from_spec(v: &'a Vertex<WIDTH, HEIGHT>) -> usize {
        v.index() as usize
    }
}

} // verus!
