//! The axes across which a grid or a primitive can be flipped.
use vstd::prelude::*;

verus! {

/// The axes across which to flip
#[derive(Clone, Copy, Debug, PartialEq, Eq, Structural, Hash, PartialOrd, Ord)]
pub enum FlipAxes {
    NoFlip,
    Horizontal,
    Vertical,
    Both,
}

impl FlipAxes {
    /// Whether this flip mirrors the x coordinate.
    pub open spec fn flips_x(self) -> bool {
        self is Horizontal || self is Both
    }

    /// Whether this flip mirrors the y coordinate.
    pub open spec fn flips_y(self) -> bool {
        self is Vertical || self is Both
    }

    /// Every flip, in declaration order.
    pub fn all() -> (r: [FlipAxes; 4])
        ensures
            r@ == seq![FlipAxes::NoFlip, FlipAxes::Horizontal, FlipAxes::Vertical, FlipAxes::Both],
    {
        [FlipAxes::NoFlip, FlipAxes::Horizontal, FlipAxes::Vertical, FlipAxes::Both]
    }
}

impl Default for FlipAxes {
    fn default() -> (r: Self)
        ensures
            r == FlipAxes::NoFlip,
    {
        FlipAxes::NoFlip
    }
}

/// The image of a coordinate in a space centred on zero after a flip.
pub open spec fn flipped_about_zero(x: int, y: int, axes: FlipAxes) -> (int, int) {
    (if axes.flips_x() { -x } else { x }, if axes.flips_y() { -y } else { y })
}

/// The image of a coordinate in a bounded space `0..=max_x`, `0..=max_y` after a flip.
pub open spec fn flipped_within(x: int, y: int, max_x: int, max_y: int, axes: FlipAxes) -> (int, int) {
    (if axes.flips_x() { max_x - x } else { x }, if axes.flips_y() { max_y - y } else { y })
}

/// Flipping twice across the same axes gives back the original coordinate.
pub proof fn lemma_flip_about_zero_involutive(x: int, y: int, axes: FlipAxes)
    ensures
        ({
            let (fx, fy) = flipped_about_zero(x, y, axes);
            flipped_about_zero(fx, fy, axes) == (x, y)
        }),
{
}

/// Flipping twice across the same axes within a bounded space gives back the original coordinate.
pub proof fn lemma_flip_within_involutive(x: int, y: int, max_x: int, max_y: int, axes: FlipAxes)
    ensures
        ({
            let (fx, fy) = flipped_within(x, y, max_x, max_y, axes);
            flipped_within(fx, fy, max_x, max_y, axes) == (x, y)
        }),
{
}

} // verus!
