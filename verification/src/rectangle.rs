//! Rectangles of tiles in an unbounded grid.
use vstd::prelude::*;

use crate::corner::Corner;
use crate::dynamic_tile::DynamicTile;
use crate::dynamic_vertex::DynamicVertex;
use crate::shape::Shape;
use crate::vector::Vector;

verus! {

/// `x + w`, or `i8::MAX` where that is greater (`i8::saturating_add_unsigned`).
pub open spec fn saturating_add_unsigned(x: int, w: int) -> int {
    if x + w > 127 {
        127
    } else {
        x + w
    }
}

fn add_unsigned_saturating(x: i8, w: u8) -> (r: i8)
    ensures
        r == saturating_add_unsigned(x as int, w as int),
{
    let s: i16 = x as i16 + w as i16;
    if s > 127 {
        127
    } else {
        s as i8
    }
}

/// A rectangle in a 2d space
#[derive(Clone, Copy, Debug, PartialEq, Eq, Structural, Hash, PartialOrd, Ord)]
pub struct Rectangle {
    /// The north vest vertex of the rectangle
    pub north_west: DynamicVertex,
    /// The number of tiles wide
    pub width: u8,
    /// The number of tiles tall
    pub height: u8,
}

impl Rectangle {
    /// The x coordinate of the east edge.
    pub open spec fn east(self) -> int {
        saturating_add_unsigned(self.north_west.0.x as int, self.width as int)
    }

    /// The y coordinate of the south edge.
    pub open spec fn south(self) -> int {
        saturating_add_unsigned(self.north_west.0.y as int, self.height as int)
    }

    pub fn new(north_west: DynamicVertex, width: u8, height: u8) -> (r: Self)
        ensures
            r.north_west == north_west,
            r.width == width,
            r.height == height,
    {
        Self { north_west, width, height }
    }

    /// The total number of tiles of the rectangle
    pub fn area(&self) -> (r: usize)
        ensures
            r == self.width * self.height,
    {
        proof {
            assert(self.width * self.height <= 255 * 255) by (nonlinear_arith)
                requires
                    self.width <= 255,
                    self.height <= 255,
            ;
        }
        self.width as usize * self.height as usize
    }

    /// Iterates the tiles from the north west corner, row by row, up to and including the
    /// east and south edges.
    pub fn into_iter(self) -> (r: RectangleIterator)
        ensures
            r.rectangle == self,
            r.next matches Some(t) && t.xy() == self.north_west.xy(),
    {
        RectangleIterator { rectangle: self, next: Some(self.north_west.get_tile(&Corner::SouthEast)) }
    }
}

impl Shape for Rectangle {
    open spec fn well_formed(&self) -> bool {
        true
    }

    open spec fn decomposable(&self) -> bool {
        true
    }

    /// The four corners: north west, north east, south west, south east.
    fn draw_outline(&self) -> (r: Vec<DynamicVertex>)
        ensures
            r@.len() == 4,
            r@[0] == self.north_west,
            r@[1].xy() == (self.east(), self.north_west.0.y as int),
            r@[2].xy() == (self.north_west.0.x as int, self.south()),
            r@[3].xy() == (self.east(), self.south()),
    {
        let east = add_unsigned_saturating(self.north_west.0.x, self.width);
        let south = add_unsigned_saturating(self.north_west.0.y, self.height);
        let mut r: Vec<DynamicVertex> = Vec::new();
        r.push(self.north_west);
        r.push(DynamicVertex(Vector { x: east, y: self.north_west.0.y }));
        r.push(DynamicVertex(Vector { x: self.north_west.0.x, y: south }));
        r.push(DynamicVertex(Vector { x: east, y: south }));
        r
    }

    /// The rectangle itself.
    fn deconstruct_into_rectangles(&self) -> (r: Vec<Rectangle>)
        ensures
            r@ == seq![*self],
    {
        let mut r: Vec<Rectangle> = Vec::new();
        r.push(*self);
        r
    }
}

/// Iterates the tiles of a rectangle.
#[derive(Clone, Debug, PartialEq, Eq, Structural, Hash, PartialOrd, Ord)]
pub struct RectangleIterator {
    pub rectangle: Rectangle,
    pub next: Option<DynamicTile>,
}

impl RectangleIterator {
    /// The tile that comes after `t`: the next one east, or, past the east edge, the first
    /// of the row to the south; none past the south east corner.
    pub open spec fn after(rectangle: Rectangle, t: DynamicTile) -> Option<(int, int)> {
        if t.0.x >= rectangle.east() {
            if t.0.y >= rectangle.south() {
                None
            } else {
                Some((rectangle.north_west.0.x as int, t.0.y + 1))
            }
        } else {
            Some((t.0.x + 1, t.0.y as int))
        }
    }

    /// Returns the next tile and moves on.
    pub fn next(&mut self) -> (r: Option<DynamicTile>)
        ensures
            r == old(self).next,
            final(self).rectangle == old(self).rectangle,
            old(self).next is None ==> final(self).next is None,
            old(self).next matches Some(t) ==> match Self::after(old(self).rectangle, t) {
                None => final(self).next is None,
                Some(p) => final(self).next matches Some(n) && n.xy() == p,
            },
    {
        match self.next {
            Some(next) => {
                let east = add_unsigned_saturating(self.rectangle.north_west.0.x, self.rectangle.width);
                if next.0.x >= east {
                    let south = add_unsigned_saturating(self.rectangle.north_west.0.y, self.rectangle.height);
                    if next.0.y >= south {
                        self.next = None;
                    } else {
                        self.next = Some(DynamicTile(Vector { x: self.rectangle.north_west.0.x, y: next.0.y + 1 }));
                    }
                } else {
                    self.next = Some(next.const_add(&Vector::east()));
                }
                Some(next)
            },
            None => None,
        }
    }
}

} // verus!
