//! Two dimensional vectors with small integer components.
use vstd::prelude::*;

use crate::flip_axes::{flipped_about_zero, FlipAxes};
use crate::quarter_turns::QuarterTurns;
use crate::text::{push_signed_decimal, push_str, signed_decimal};

verus! {

/// Whether an integer fits in an `i8`.
pub open spec fn fits_i8(v: int) -> bool {
    -128 <= v <= 127
}

/// The image of a coordinate in a space centred on zero after a clockwise rotation.
pub open spec fn rotated_about_zero(x: int, y: int, q: QuarterTurns) -> (int, int) {
    match q {
        QuarterTurns::Zero => (x, y),
        QuarterTurns::One => (-y, x),
        QuarterTurns::Two => (-x, -y),
        QuarterTurns::Three => (y, -x),
    }
}

/// Rotating by `a` and then by `b` is rotating by their combination; no turn keeps a
/// coordinate, and a clockwise quarter turn moves `(x, y)` to `(-y, x)`.
pub proof fn lemma_rotate_about_zero_compose(x: int, y: int, a: QuarterTurns, b: QuarterTurns)
    ensures
        ({
            let (rx, ry) = rotated_about_zero(x, y, a);
            rotated_about_zero(rx, ry, b) == rotated_about_zero(x, y, a.combined(b))
        }),
        rotated_about_zero(x, y, QuarterTurns::Zero) == (x, y),
        rotated_about_zero(x, y, QuarterTurns::One) == (-y, x),
{
}

/// Four quarter turns give back the original coordinate.
pub proof fn lemma_rotate_about_zero_full_turn(x: int, y: int)
    ensures
        ({
            let (x1, y1) = rotated_about_zero(x, y, QuarterTurns::One);
            let (x2, y2) = rotated_about_zero(x1, y1, QuarterTurns::One);
            let (x3, y3) = rotated_about_zero(x2, y2, QuarterTurns::One);
            rotated_about_zero(x3, y3, QuarterTurns::One) == (x, y)
        }),
{
}

/// A 2d vector.
/// The main use is that they can be added to any other primitive type.
#[derive(Clone, Copy, Debug, PartialEq, Eq, Structural, Hash, PartialOrd, Ord)]
pub struct Vector {
    pub x: i8,
    pub y: i8,
}

impl Default for Vector {
    fn default() -> (r: Self)
        ensures
            r.x == 0 && r.y == 0,
    {
        Vector { x: 0, y: 0 }
    }
}

impl Vector {
    /// The components as a pair of integers.
    pub open spec fn xy(self) -> (int, int) {
        (self.x as int, self.y as int)
    }

    /// Whether neither component is `i8::MIN`, so that both can be negated.
    pub open spec fn negatable(self) -> bool {
        self.x != i8::MIN && self.y != i8::MIN
    }

    /// The eight unit vectors, clockwise from north.
    pub open spec fn unit_xy(i: int) -> (int, int) {
        if i == 0 {
            (0, -1)
        } else if i == 1 {
            (1, -1)
        } else if i == 2 {
            (1, 0)
        } else if i == 3 {
            (1, 1)
        } else if i == 4 {
            (0, 1)
        } else if i == 5 {
            (-1, 1)
        } else if i == 6 {
            (-1, 0)
        } else {
            (-1, -1)
        }
    }

    pub fn zero() -> (r: Self)
        ensures
            r.xy() == (0int, 0int),
    {
        Vector { x: 0, y: 0 }
    }

    pub fn north() -> (r: Self)
        ensures
            r.xy() == (0int, -1int),
    {
        Vector { x: 0, y: -1 }
    }

    pub fn north_east() -> (r: Self)
        ensures
            r.xy() == (1int, -1int),
    {
        Vector { x: 1, y: -1 }
    }

    pub fn east() -> (r: Self)
        ensures
            r.xy() == (1int, 0int),
    {
        Vector { x: 1, y: 0 }
    }

    pub fn south_east() -> (r: Self)
        ensures
            r.xy() == (1int, 1int),
    {
        Vector { x: 1, y: 1 }
    }

    pub fn south() -> (r: Self)
        ensures
            r.xy() == (0int, 1int),
    {
        Vector { x: 0, y: 1 }
    }

    pub fn south_west() -> (r: Self)
        ensures
            r.xy() == (-1int, 1int),
    {
        Vector { x: -1, y: 1 }
    }

    pub fn west() -> (r: Self)
        ensures
            r.xy() == (-1int, 0int),
    {
        Vector { x: -1, y: 0 }
    }

    pub fn north_west() -> (r: Self)
        ensures
            r.xy() == (-1int, -1int),
    {
        Vector { x: -1, y: -1 }
    }

    /// The four cardinal directions: north, east, south and west.
    pub fn cardinals() -> (r: [Vector; 4])
        ensures
            r@.len() == 4,
            forall|i: int| 0 <= i < 4 ==> #[trigger] r@[i].xy() == Vector::unit_xy(2 * i),
    {
        [Vector::north(), Vector::east(), Vector::south(), Vector::west()]
    }

    /// The eight unit vectors, clockwise from north.
    pub fn units() -> (r: [Vector; 8])
        ensures
            r@.len() == 8,
            forall|i: int| 0 <= i < 8 ==> #[trigger] r@[i].xy() == Vector::unit_xy(i),
    {
        [
            Vector::north(),
            Vector::north_east(),
            Vector::east(),
            Vector::south_east(),
            Vector::south(),
            Vector::south_west(),
            Vector::west(),
            Vector::north_west(),
        ]
    }

    #[inline]
    pub fn new(x: i8, y: i8) -> (r: Self)
        ensures
            r.x == x,
            r.y == y,
    {
        Self { x, y }
    }

    pub fn const_neg(&self) -> (r: Self)
        requires
            self.negatable(),
        ensures
            r.xy() == (-self.x, -self.y),
    {
        self.const_mul(-1)
    }

    pub fn const_mul(&self, rhs: i8) -> (r: Self)
        requires
            fits_i8(self.x * rhs),
            fits_i8(self.y * rhs),
        ensures
            r.xy() == (self.x * rhs, self.y * rhs),
    {
        Self { x: self.x * rhs, y: self.y * rhs }
    }

    pub fn const_add(&self, rhs: &Self) -> (r: Self)
        requires
            fits_i8(self.x + rhs.x),
            fits_i8(self.y + rhs.y),
        ensures
            r.xy() == (self.x + rhs.x, self.y + rhs.y),
    {
        Self { x: self.x + rhs.x, y: self.y + rhs.y }
    }

    pub fn const_sub(&self, rhs: &Self) -> (r: Self)
        requires
            fits_i8(self.x - rhs.x),
            fits_i8(self.y - rhs.y),
        ensures
            r.xy() == (self.x - rhs.x, self.y - rhs.y),
    {
        Self { x: self.x - rhs.x, y: self.y - rhs.y }
    }

    pub fn flip(&self, axes: FlipAxes) -> (r: Self)
        requires
            axes.flips_x() ==> self.x != i8::MIN,
            axes.flips_y() ==> self.y != i8::MIN,
        ensures
            r.xy() == flipped_about_zero(self.x as int, self.y as int, axes),
    {
        match axes {
            FlipAxes::NoFlip => *self,
            FlipAxes::Horizontal => Self { x: -self.x, y: self.y },
            FlipAxes::Vertical => Self { x: self.x, y: -self.y },
            FlipAxes::Both => Self { x: -self.x, y: -self.y },
        }
    }

    pub fn rotate(&self, quarter_turns: QuarterTurns) -> (r: Self)
        requires
            self.negatable(),
        ensures
            r.xy() == rotated_about_zero(self.x as int, self.y as int, quarter_turns),
    {
        match quarter_turns {
            QuarterTurns::Zero => *self,
            QuarterTurns::One => Self::new(-self.y, self.x),
            QuarterTurns::Two => Self::new(-self.x, -self.y),
            QuarterTurns::Three => Self::new(self.y, -self.x),
        }
    }

    /// Returns true if this is the zero vector
    #[inline]
    pub fn is_zero(&self) -> (r: bool)
        ensures
            r == (self.x == 0 && self.y == 0),
    {
        self.x == 0 && self.y == 0
    }

    /// Returns true if this is a unit vector
    #[inline]
    pub fn is_unit(&self) -> (r: bool)
        requires
            self.negatable(),
        ensures
            r == (-1 <= self.x <= 1 && -1 <= self.y <= 1 && !(self.x == 0 && self.y == 0)),
    {
        abs_i8(self.x) <= 1 && abs_i8(self.y) <= 1 && !self.is_zero()
    }

    /// Returns true if this is a diagonal vector, having both an x and a y component
    pub fn is_diagonal(&self) -> (r: bool)
        ensures
            r == (self.x != 0 && self.y != 0),
    {
        self.x != 0 && self.y != 0
    }

    pub fn horizontal_component(&self) -> (r: Self)
        ensures
            r.xy() == (self.x as int, 0int),
    {
        Self { x: self.x, y: 0 }
    }

    pub fn vertical_component(&self) -> (r: Self)
        ensures
            r.xy() == (0int, self.y as int),
    {
        Self { x: 0, y: self.y }
    }

    /// Greater than operation that can be computed at compile time
    pub fn const_gt(&self, other: &Self) -> (r: bool)
        ensures
            r == (self.x > other.x || (self.x == other.x && self.y > other.y)),
    {
        if self.x > other.x {
            return true;
        } else if self.x < other.x {
            return false;
        } else {
            self.y > other.y
        }
    }

    /// The names of the eight unit vectors, clockwise from north.
    pub fn unit_names() -> (r: [&'static str; 8])
        ensures
            r@[0]@ == "North"@,
            r@[1]@ == "North East"@,
            r@[2]@ == "East"@,
            r@[3]@ == "South East"@,
            r@[4]@ == "South"@,
            r@[5]@ == "South West"@,
            r@[6]@ == "West"@,
            r@[7]@ == "North West"@,
    {
        proof {
            reveal_strlit("North");
            reveal_strlit("North East");
            reveal_strlit("East");
            reveal_strlit("South East");
            reveal_strlit("South");
            reveal_strlit("South West");
            reveal_strlit("West");
            reveal_strlit("North West");
        }
        ["North", "North East", "East", "South East", "South", "South West", "West", "North West"]
    }

    /// The text of this vector: `Zero`, the name of a unit vector, or its components.
    pub open spec fn text(self) -> Seq<char> {
        if self.xy() == (0int, 0int) {
            "Zero"@
        } else if self.xy() == Vector::unit_xy(0) {
            "North"@
        } else if self.xy() == Vector::unit_xy(1) {
            "North East"@
        } else if self.xy() == Vector::unit_xy(2) {
            "East"@
        } else if self.xy() == Vector::unit_xy(3) {
            "South East"@
        } else if self.xy() == Vector::unit_xy(4) {
            "South"@
        } else if self.xy() == Vector::unit_xy(5) {
            "South West"@
        } else if self.xy() == Vector::unit_xy(6) {
            "West"@
        } else if self.xy() == Vector::unit_xy(7) {
            "North West"@
        } else {
            "Vector { x: "@ + signed_decimal(self.x as int) + ", y: "@ + signed_decimal(self.y as int)
                + " }"@
        }
    }

    /// Writes this vector as text (its `Display` form).
    pub fn to_string(&self) -> (s: String)
        ensures
            s@ == self.text(),
    {
        let mut s = String::new();
        if self.x == 0 && self.y == 0 {
            push_str(&mut s, "Zero");
        } else if self.x == 0 && self.y == -1 {
            push_str(&mut s, "North");
        } else if self.x == 1 && self.y == -1 {
            push_str(&mut s, "North East");
        } else if self.x == 1 && self.y == 0 {
            push_str(&mut s, "East");
        } else if self.x == 1 && self.y == 1 {
            push_str(&mut s, "South East");
        } else if self.x == 0 && self.y == 1 {
            push_str(&mut s, "South");
        } else if self.x == -1 && self.y == 1 {
            push_str(&mut s, "South West");
        } else if self.x == -1 && self.y == 0 {
            push_str(&mut s, "West");
        } else if self.x == -1 && self.y == -1 {
            push_str(&mut s, "North West");
        } else {
            push_str(&mut s, "Vector { x: ");
            push_signed_decimal(&mut s, self.x as i64);
            push_str(&mut s, ", y: ");
            push_signed_decimal(&mut s, self.y as i64);
            push_str(&mut s, " }");
        }
        s
    }
}

/// The absolute value of an `i8` other than `i8::MIN`.
fn abs_i8(v: i8) -> (r: i8)
    requires
        v != i8::MIN,
    ensures
        r == if v < 0 { -v } else { v as int },
{
    if v < 0 {
        -v
    } else {
        v
    }
}

impl AsRef<Vector> for Vector {
    fn as_ref(&self) -> (r: &Vector)
        ensures
            *r == *self,
    {
        self
    }
}

impl core::ops::Neg for Vector {
    type Output = Vector;

    fn neg(self) -> (r: Vector) {
        self.const_neg()
    }
}

impl vstd::std_specs::ops::NegSpecImpl for Vector {
    open spec fn obeys_neg_spec() -> bool {
        true
    }

    open spec fn neg_req(self) -> bool {
        self.negatable()
    }

    open spec fn neg_spec(self) -> Vector {
        Vector { x: (-self.x) as i8, y: (-self.y) as i8 }
    }
}

impl core::ops::Add for Vector {
    type Output = Vector;

    fn add(self, rhs: Self) -> (r: Vector) {
        self.const_add(&rhs)
    }
}

impl vstd::std_specs::ops::AddSpecImpl for Vector {
    open spec fn obeys_add_spec() -> bool {
        true
    }

    open spec fn add_req(self, rhs: Self) -> bool {
        fits_i8(self.x + rhs.x) && fits_i8(self.y + rhs.y)
    }

    open spec fn add_spec(self, rhs: Self) -> Vector {
        Vector { x: (self.x + rhs.x) as i8, y: (self.y + rhs.y) as i8 }
    }
}

impl core::ops::Sub for Vector {
    type Output = Vector;

    fn sub(self, rhs: Self) -> (r: Vector) {
        self.const_sub(&rhs)
    }
}

impl vstd::std_specs::ops::SubSpecImpl for Vector {
    open spec fn obeys_sub_spec() -> bool {
        true
    }

    open spec fn sub_req(self, rhs: Self) -> bool {
        fits_i8(self.x - rhs.x) && fits_i8(self.y - rhs.y)
    }

    open spec fn sub_spec(self, rhs: Self) -> Vector {
        Vector { x: (self.x - rhs.x) as i8, y: (self.y - rhs.y) as i8 }
    }
}

impl core::ops::Mul<i8> for Vector {
    type Output = Vector;

    fn mul(self, rhs: i8) -> (r: Vector) {
        self.const_mul(rhs)
    }
}

impl vstd::std_specs::ops::MulSpecImpl<i8> for Vector {
    open spec fn obeys_mul_spec() -> bool {
        true
    }

    open spec fn mul_req(self, rhs: i8) -> bool {
        fits_i8(self.x * rhs) && fits_i8(self.y * rhs)
    }

    open spec fn mul_spec(self, rhs: i8) -> Vector {
        Vector { x: (self.x * rhs) as i8, y: (self.y * rhs) as i8 }
    }
}

impl core::ops::Mul<isize> for Vector {
    type Output = Vector;

    fn mul(self, rhs: isize) -> (r: Vector) {
        self.const_mul(rhs as i8)
    }
}

impl vstd::std_specs::ops::MulSpecImpl<isize> for Vector {
    open spec fn obeys_mul_spec() -> bool {
        true
    }

    open spec fn mul_req(self, rhs: isize) -> bool {
        fits_i8(self.x * (rhs as i8)) && fits_i8(self.y * (rhs as i8))
    }

    open spec fn mul_spec(self, rhs: isize) -> Vector {
        Vector { x: (self.x * (rhs as i8)) as i8, y: (self.y * (rhs as i8)) as i8 }
    }
}

impl core::ops::Mul<usize> for Vector {
    type Output = Vector;

    fn mul(self, rhs: usize) -> (r: Vector) {
        self.const_mul(rhs as i8)
    }
}

impl vstd::std_specs::ops::MulSpecImpl<usize> for Vector {
    open spec fn obeys_mul_spec() -> bool {
        true
    }

    open spec fn mul_req(self, rhs: usize) -> bool {
        fits_i8(self.x * (rhs as i8)) && fits_i8(self.y * (rhs as i8))
    }

    open spec fn mul_spec(self, rhs: usize) -> Vector {
        Vector { x: (self.x * (rhs as i8)) as i8, y: (self.y * (rhs as i8)) as i8 }
    }
}

impl<'a> core::ops::Neg for &'a Vector {
    type Output = Vector;

    fn neg(self) -> (r: Vector) {
        self.const_neg()
    }
}

impl<'a> vstd::std_specs::ops::NegSpecImpl for &'a Vector {
    open spec fn obeys_neg_spec() -> bool {
        true
    }

    open spec fn neg_req(self) -> bool {
        self.negatable()
    }

    open spec fn neg_spec(self) -> Vector {
        Vector { x: (-self.x) as i8, y: (-self.y) as i8 }
    }
}

impl<'a> core::ops::Add for &'a Vector {
    type Output = Vector;

    fn add(self, rhs: Self) -> (r: Vector) {
        self.const_add(rhs)
    }
}

impl<'a> vstd::std_specs::ops::AddSpecImpl for &'a Vector {
    open spec fn obeys_add_spec() -> bool {
        true
    }

    open spec fn add_req(self, rhs: Self) -> bool {
        fits_i8(self.x + rhs.x) && fits_i8(self.y + rhs.y)
    }

    open spec fn add_spec(self, rhs: Self) -> Vector {
        Vector { x: (self.x + rhs.x) as i8, y: (self.y + rhs.y) as i8 }
    }
}

impl<'a> core::ops::Sub for &'a Vector {
    type Output = Vector;

    fn sub(self, rhs: Self) -> (r: Vector) {
        self.const_sub(rhs)
    }
}

impl<'a> vstd::std_specs::ops::SubSpecImpl for &'a Vector {
    open spec fn obeys_sub_spec() -> bool {
        true
    }

    open spec fn sub_req(self, rhs: Self) -> bool {
        fits_i8(self.x - rhs.x) && fits_i8(self.y - rhs.y)
    }

    open spec fn sub_spec(self, rhs: Self) -> Vector {
        Vector { x: (self.x - rhs.x) as i8, y: (self.y - rhs.y) as i8 }
    }
}

} // verus!
