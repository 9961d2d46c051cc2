//! Tiles of an unbounded grid centred on zero.
use vstd::prelude::*;

use crate::corner::Corner;
use crate::dynamic_vertex::DynamicVertex;
use crate::flip_axes::{flipped_about_zero, FlipAxes};
use crate::quarter_turns::QuarterTurns;
use crate::text::{push_char, push_signed_decimal, signed_decimal};
use crate::vector::{fits_i8, rotated_about_zero, Vector};

verus! {

/// The textual form `(x,y)` of a pair of signed coordinates.
pub open spec fn signed_coordinate_text(x: int, y: int) -> Seq<char> {
    seq!['('] + signed_decimal(x) + seq![','] + signed_decimal(y) + seq![')']
}

/// Writes a pair of signed coordinates as `(x,y)`.
pub fn signed_coordinate_string(x: i8, y: i8) -> (s: String)
    ensures
        s@ == signed_coordinate_text(x as int, y as int),
{
    let mut s = String::new();
    push_char(&mut s, '(');
    push_signed_decimal(&mut s, x as i64);
    push_char(&mut s, ',');
    push_signed_decimal(&mut s, y as i64);
    push_char(&mut s, ')');
    s
}

/// A tile in a dynamically sized 2d space
#[derive(Clone, Copy, Debug, PartialEq, Eq, Structural, Hash, PartialOrd, Ord)]
pub struct DynamicTile(pub Vector);

impl Default for DynamicTile {
    fn default() -> (r: Self)
        ensures
            r.0.xy() == (0int, 0int),
    {
        DynamicTile(Vector { x: 0, y: 0 })
    }
}

impl From<Vector> for DynamicTile {
    fn from(val: Vector) -> (r: DynamicTile) {
        DynamicTile(val)
    }
}

impl vstd::std_specs::convert::FromSpecImpl<Vector> for DynamicTile {
    open spec fn obeys_from_spec() -> bool {
        true
    }

    open spec fn from_spec(v: Vector) -> DynamicTile {
        DynamicTile(v)
    }
}

impl From<DynamicTile> for Vector {
    fn from(val: DynamicTile) -> (r: Vector) {
        val.0
    }
}

impl vstd::std_specs::convert::FromSpecImpl<DynamicTile> for Vector {
    open spec fn obeys_from_spec() -> bool {
        true
    }

    open spec fn from_spec(v: DynamicTile) -> Vector {
        v.0
    }
}

impl DynamicTile {
    /// The coordinates of this tile.
    pub open spec fn xy(self) -> (int, int) {
        self.0.xy()
    }

    pub fn flip(&self, axes: FlipAxes) -> (r: Self)
        requires
            axes.flips_x() ==> self.0.x != i8::MIN,
            axes.flips_y() ==> self.0.y != i8::MIN,
        ensures
            r.xy() == flipped_about_zero(self.0.x as int, self.0.y as int, axes),
    {
        Self(self.0.flip(axes))
    }

    pub fn const_add(&self, vector: &Vector) -> (r: Self)
        requires
            fits_i8(self.0.x + vector.x),
            fits_i8(self.0.y + vector.y),
        ensures
            r.xy() == (self.0.x + vector.x, self.0.y + vector.y),
    {
        Self(self.0.const_add(vector))
    }

    /// The vertex at a corner of this tile.
    pub fn get_vertex(&self, corner: &Corner) -> (r: DynamicVertex)
        requires
            fits_i8(self.0.x + corner.offset().0),
            fits_i8(self.0.y + corner.offset().1),
        ensures
            r.xy() == (self.0.x + corner.offset().0, self.0.y + corner.offset().1),
    {
        let (x, y) = match corner {
            Corner::NorthWest => (self.0.x, self.0.y),
            Corner::NorthEast => (self.0.x + 1, self.0.y),
            Corner::SouthWest => (self.0.x, self.0.y + 1),
            Corner::SouthEast => (self.0.x + 1, self.0.y + 1),
        };

        DynamicVertex(Vector { x, y })
    }

    pub fn rotate(&self, quarter_turns: QuarterTurns) -> (r: Self)
        requires
            self.0.negatable(),
        ensures
            r.xy() == rotated_about_zero(self.0.x as int, self.0.y as int, quarter_turns),
    {
        Self(self.0.rotate(quarter_turns))
    }

    /// The textual form of this tile: `(x,y)`.
    pub open spec fn text(self) -> Seq<char> {
        signed_coordinate_text(self.0.x as int, self.0.y as int)
    }

    /// Writes this tile as `(x,y)` (its `Display` form).
    pub fn to_string(&self) -> (s: String)
        ensures
            s@ == self.text(),
    {
        signed_coordinate_string(self.0.x, self.0.y)
    }
}

impl core::ops::Deref for DynamicTile {
    type Target = Vector;

    fn deref(&self) -> (r: &Vector)
        ensures
            *r == self.0,
    {
        &self.0
    }
}

impl AsRef<Vector> for DynamicTile {
    fn as_ref(&self) -> (r: &Vector)
        ensures
            *r == self.0,
    {
        &self.0
    }
}

impl core::ops::Add<Vector> for DynamicTile {
    type Output = DynamicTile;

    fn add(self, rhs: Vector) -> (r: DynamicTile) {
        self.const_add(&rhs)
    }
}

impl vstd::std_specs::ops::AddSpecImpl<Vector> for DynamicTile {
    open spec fn obeys_add_spec() -> bool {
        true
    }

    open spec fn add_req(self, rhs: Vector) -> bool {
        fits_i8(self.0.x + rhs.x) && fits_i8(self.0.y + rhs.y)
    }

    open spec fn add_spec(self, rhs: Vector) -> DynamicTile {
        DynamicTile(Vector { x: (self.0.x + rhs.x) as i8, y: (self.0.y + rhs.y) as i8 })
    }
}

} // verus!
