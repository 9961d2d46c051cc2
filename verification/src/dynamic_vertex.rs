//! Vertices of an unbounded grid centred on zero.
use vstd::prelude::*;

use crate::corner::Corner;
use crate::dynamic_tile::{signed_coordinate_string, signed_coordinate_text, DynamicTile};
use crate::flip_axes::{flipped_about_zero, FlipAxes};
use crate::quarter_turns::QuarterTurns;
use crate::vector::{fits_i8, rotated_about_zero, Vector};

verus! {

/// A vertex in a dynamically sized 2d space
#[derive(Clone, Copy, Debug, PartialEq, Eq, Structural, Hash, PartialOrd, Ord)]
pub struct DynamicVertex(pub Vector);

impl Default for DynamicVertex {
    fn default() -> (r: Self)
        ensures
            r.0.xy() == (0int, 0int),
    {
        DynamicVertex(Vector { x: 0, y: 0 })
    }
}

impl From<Vector> for DynamicVertex {
    fn from(val: Vector) -> (r: DynamicVertex) {
        DynamicVertex(val)
    }
}

impl vstd::std_specs::convert::FromSpecImpl<Vector> for DynamicVertex {
    open spec fn obeys_from_spec() -> bool {
        true
    }

    open spec fn from_spec(v: Vector) -> DynamicVertex {
        DynamicVertex(v)
    }
}

impl From<DynamicVertex> for Vector {
    fn from(val: DynamicVertex) -> (r: Vector) {
        val.0
    }
}

impl vstd::std_specs::convert::FromSpecImpl<DynamicVertex> for Vector {
    open spec fn obeys_from_spec() -> bool {
        true
    }

    open spec fn from_spec(v: DynamicVertex) -> Vector {
        v.0
    }
}

/// The offset from a vertex to the tile that `DynamicVertex::get_tile` gives for a corner.
pub open spec fn dynamic_tile_offset(corner: Corner) -> (int, int) {
    match corner {
        Corner::NorthWest => (-1, -1),
        Corner::NorthEast => (-1, 0),
        Corner::SouthWest => (0, -1),
        Corner::SouthEast => (0, 0),
    }
}

impl DynamicVertex {
    /// The coordinates of this vertex.
    pub open spec fn xy(self) -> (int, int) {
        self.0.xy()
    }

    pub fn flip(&self, axes: FlipAxes) -> (r: Self)
        requires
            axes.flips_x() ==> self.0.x != i8::MIN,
            axes.flips_y() ==> self.0.y != i8::MIN,
        ensures
            r.xy() == flipped_about_zero(self.0.x as int, self.0.y as int, axes),
    {
        Self(self.0.flip(axes))
    }

    pub fn const_add(&self, vector: &Vector) -> (r: Self)
        requires
            fits_i8(self.0.x + vector.x),
            fits_i8(self.0.y + vector.y),
        ensures
            r.xy() == (self.0.x + vector.x, self.0.y + vector.y),
    {
        Self(self.0.const_add(vector))
    }

    /// A tile that has this vertex as one of its corners.
    pub fn get_tile(&self, corner: &Corner) -> (r: DynamicTile)
        requires
            fits_i8(self.0.x + dynamic_tile_offset(*corner).0),
            fits_i8(self.0.y + dynamic_tile_offset(*corner).1),
        ensures
            r.xy() == (self.0.x + dynamic_tile_offset(*corner).0, self.0.y + dynamic_tile_offset(
                *corner,
            ).1),
    {
        let (x, y) = match corner {
            Corner::NorthWest => (self.0.x - 1, self.0.y - 1),
            Corner::NorthEast => (self.0.x - 1, self.0.y),
            Corner::SouthWest => (self.0.x, self.0.y - 1),
            Corner::SouthEast => (self.0.x, self.0.y),
        };

        DynamicTile(Vector { x, y })
    }

    pub fn rotate(&self, quarter_turns: QuarterTurns) -> (r: Self)
        requires
            self.0.negatable(),
        ensures
            r.xy() == rotated_about_zero(self.0.x as int, self.0.y as int, quarter_turns),
    {
        Self(self.0.rotate(quarter_turns))
    }

    /// The textual form of this vertex: `(x,y)`.
    pub open spec fn text(self) -> Seq<char> {
        signed_coordinate_text(self.0.x as int, self.0.y as int)
    }

    /// Writes this vertex as `(x,y)` (its `Display` form).
    pub fn to_string(&self) -> (s: String)
        ensures
            s@ == self.text(),
    {
        signed_coordinate_string(self.0.x, self.0.y)
    }
}

impl core::ops::Deref for DynamicVertex {
    type Target = Vector;

    fn deref(&self) -> (r: &Vector)
        ensures
            *r == self.0,
    {
        &self.0
    }
}

impl AsRef<Vector> for DynamicVertex {
    fn as_ref(&self) -> (r: &Vector)
        ensures
            *r == self.0,
    {
        &self.0
    }
}

impl core::ops::Add<Vector> for DynamicVertex {
    type Output = DynamicVertex;

    fn add(self, rhs: Vector) -> (r: DynamicVertex) {
        self.const_add(&rhs)
    }
}

impl vstd::std_specs::ops::AddSpecImpl<Vector> for DynamicVertex {
    open spec fn obeys_add_spec() -> bool {
        true
    }

    open spec fn add_req(self, rhs: Vector) -> bool {
        fits_i8(self.0.x + rhs.x) && fits_i8(self.0.y + rhs.y)
    }

    open spec fn add_spec(self, rhs: Vector) -> DynamicVertex {
        DynamicVertex(Vector { x: (self.0.x + rhs.x) as i8, y: (self.0.y + rhs.y) as i8 })
    }
}

/// Every corner of a dynamic tile is a vertex whose `get_tile` for a matching corner gives
/// back the tile: the opposite corner for north west and south east, the same corner otherwise.
pub proof fn lemma_dynamic_vertex_round_trip(corner: Corner)
    ensures
        ({
            let back = match corner {
                Corner::NorthWest => Corner::SouthEast,
                Corner::SouthEast => Corner::NorthWest,
                _ => corner,
            };
            corner.offset().0 + dynamic_tile_offset(back).0 == 0 && corner.offset().1
                + dynamic_tile_offset(back).1 == 0
        }),
{
}

} // verus!
