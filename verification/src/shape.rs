//! Shapes made of tiles.
use vstd::prelude::*;

use crate::dynamic_vertex::DynamicVertex;
use crate::rectangle::Rectangle;

verus! {

/// A general shape made of tiles.
pub trait Shape {
    /// Whether the outline of the shape can be worked out.
    spec fn well_formed(&self) -> bool;

    /// Whether the shape can be broken into rectangles.
    spec fn decomposable(&self) -> bool;

    /// The vertices of the outline of the shape.
    fn draw_outline(&self) -> Vec<DynamicVertex>
        requires
            self.well_formed(),
    ;

    /// Rectangles that together cover the shape.
    fn deconstruct_into_rectangles(&self) -> Vec<Rectangle>
        requires
            self.decomposable(),
    ;
}

} // verus!
