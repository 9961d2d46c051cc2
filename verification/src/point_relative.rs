//! Offsets between points of a grid.
use vstd::prelude::*;

use crate::text::{push_signed_decimal, push_str, signed_decimal};

verus! {

/// Whether a value fits in an `i16`.
pub open spec fn fits_i16(v: int) -> bool {
    -32768 <= v <= 32767
}

/// An offset between two points of a grid.
#[derive(Clone, Copy, PartialEq, Eq, Structural, Hash, PartialOrd, Ord, Debug, Default)]
pub struct PointRelative {
    x: i16,
    y: i16,
}

impl PointRelative {
    /// The components of this offset.
    pub closed spec fn xy(self) -> (int, int) {
        (self.x as int, self.y as int)
    }

    /// The offset with the given components, each taken as an `i16`.
    pub closed spec fn from_xy(x: int, y: int) -> Self {
        PointRelative { x: x as i16, y: y as i16 }
    }

    /// Offsets with the same components are the same offset, and each component is an `i16`.
    pub proof fn lemma_xy_injective(self, other: Self)
        ensures
            (self.xy() == other.xy()) <==> (self == other),
            fits_i16(self.xy().0),
            fits_i16(self.xy().1),
    {
    }

    /// The components of the unit offsets, clockwise from up.
    pub open spec fn unit_xy(i: int) -> (int, int) {
        if i == 0 {
            (0, -1)
        } else if i == 1 {
            (1, -1)
        } else if i == 2 {
            (1, 0)
        } else if i == 3 {
            (1, 1)
        } else if i == 4 {
            (0, 1)
        } else if i == 5 {
            (-1, 1)
        } else if i == 6 {
            (-1, 0)
        } else {
            (-1, -1)
        }
    }

    pub fn new(x: i16, y: i16) -> (r: Self)
        ensures
            r.xy() == (x as int, y as int),
    {
        Self { x, y }
    }

    pub fn zero() -> (r: Self)
        ensures
            r.xy() == (0int, 0int),
    {
        Self { x: 0, y: 0 }
    }

    pub fn up() -> (r: Self)
        ensures
            r.xy() == Self::unit_xy(0),
    {
        Self { x: 0, y: -1 }
    }

    pub fn up_right() -> (r: Self)
        ensures
            r.xy() == Self::unit_xy(1),
    {
        Self { x: 1, y: -1 }
    }

    pub fn right() -> (r: Self)
        ensures
            r.xy() == Self::unit_xy(2),
    {
        Self { x: 1, y: 0 }
    }

    pub fn down_right() -> (r: Self)
        ensures
            r.xy() == Self::unit_xy(3),
    {
        Self { x: 1, y: 1 }
    }

    pub fn down() -> (r: Self)
        ensures
            r.xy() == Self::unit_xy(4),
    {
        Self { x: 0, y: 1 }
    }

    pub fn down_left() -> (r: Self)
        ensures
            r.xy() == Self::unit_xy(5),
    {
        Self { x: -1, y: 1 }
    }

    pub fn left() -> (r: Self)
        ensures
            r.xy() == Self::unit_xy(6),
    {
        Self { x: -1, y: 0 }
    }

    pub fn up_left() -> (r: Self)
        ensures
            r.xy() == Self::unit_xy(7),
    {
        Self { x: -1, y: -1 }
    }

    /// The four orthogonal offsets: up, right, down and left.
    pub fn cardinals() -> (r: [Self; 4])
        ensures
            forall|i: int| 0 <= i < 4 ==> #[trigger] r@[i].xy() == Self::unit_xy(2 * i),
    {
        [Self::up(), Self::right(), Self::down(), Self::left()]
    }

    /// The names of the eight unit offsets, clockwise from up.
    pub fn unit_names() -> (r: [&'static str; 8])
        ensures
            r@[0]@ == "Up"@,
            r@[1]@ == "Up Right"@,
            r@[2]@ == "Right"@,
            r@[3]@ == "Down Right"@,
            r@[4]@ == "Down"@,
            r@[5]@ == "Down Left"@,
            r@[6]@ == "Left"@,
            r@[7]@ == "Up Left"@,
    {
        proof {
            reveal_strlit("Up");
            reveal_strlit("Up Right");
            reveal_strlit("Right");
            reveal_strlit("Down Right");
            reveal_strlit("Down");
            reveal_strlit("Down Left");
            reveal_strlit("Left");
            reveal_strlit("Up Left");
        }
        ["Up", "Up Right", "Right", "Down Right", "Down", "Down Left", "Left", "Up Left"]
    }

    /// The eight unit offsets, clockwise from up.
    pub fn units() -> (r: [Self; 8])
        ensures
            forall|i: int| 0 <= i < 8 ==> #[trigger] r@[i].xy() == Self::unit_xy(i),
    {
        [
            Self::up(),
            Self::up_right(),
            Self::right(),
            Self::down_right(),
            Self::down(),
            Self::down_left(),
            Self::left(),
            Self::up_left(),
        ]
    }

    pub fn x(&self) -> (r: i16)
        ensures
            r == self.xy().0,
    {
        self.x
    }

    pub fn y(&self) -> (r: i16)
        ensures
            r == self.xy().1,
    {
        self.y
    }

    pub fn is_zero(&self) -> (r: bool)
        ensures
            r == (self.xy() == (0int, 0int)),
    {
        self.x == 0 && self.y == 0
    }

    /// Whether both components are at most one away from zero and one is not zero.
    pub fn is_unit(&self) -> (r: bool)
        requires
            self.xy().0 != i16::MIN,
            -1 <= self.xy().0 <= 1 ==> self.xy().1 != i16::MIN,
        ensures
            r == (-1 <= self.xy().0 <= 1 && -1 <= self.xy().1 <= 1 && self.xy() != (0int, 0int)),
    {
        abs_i16(self.x) <= 1 && abs_i16(self.y) <= 1 && !self.is_zero()
    }

    pub fn is_diagonal(&self) -> (r: bool)
        ensures
            r == (self.xy().0 != 0 && self.xy().1 != 0),
    {
        self.x != 0 && self.y != 0
    }

    /// Flip the direction: Up -> Down, Left -> Right, etc.
    pub fn flip(&self) -> (r: Self)
        requires
            self.xy().0 != i16::MIN,
            self.xy().1 != i16::MIN,
        ensures
            r.xy() == (-self.xy().0, -self.xy().1),
    {
        Self { x: -self.x, y: -self.y }
    }

    /// Rotates the offset by quarter turns, anticlockwise on a grid whose rows go down.
    pub fn rotate(&self, quarter_turns: u8) -> (r: Self)
        requires
            (quarter_turns % 4 == 1 || quarter_turns % 4 == 2) ==> self.xy().0 != i16::MIN,
            (quarter_turns % 4 == 2 || quarter_turns % 4 == 3) ==> self.xy().1 != i16::MIN,
        ensures
            r.xy() == match quarter_turns % 4 {
                1 => (self.xy().1, -self.xy().0),
                2 => (-self.xy().0, -self.xy().1),
                3 => (-self.xy().1, self.xy().0),
                _ => self.xy(),
            },
    {
        match quarter_turns % 4 {
            1 => Self::new(self.y, -self.x),
            2 => Self::new(-self.x, -self.y),
            3 => Self::new(-self.y, self.x),
            _ => *self,
        }
    }

    /// Multiplies both components by `rhs` taken as an `i16`.
    pub fn const_mul(self, rhs: isize) -> (r: Self)
        requires
            fits_i16(self.xy().0 * (rhs as i16)),
            fits_i16(self.xy().1 * (rhs as i16)),
        ensures
            r.xy() == (self.xy().0 * (rhs as i16), self.xy().1 * (rhs as i16)),
    {
        let m = rhs as i16;
        Self { x: self.x * m, y: self.y * m }
    }

    /// The text of this offset: `Zero`, the name of a unit offset, or its components.
    pub open spec fn text(self) -> Seq<char> {
        if self.xy() == (0int, 0int) {
            "Zero"@
        } else if self.xy() == Self::unit_xy(0) {
            "Up"@
        } else if self.xy() == Self::unit_xy(1) {
            "Up Right"@
        } else if self.xy() == Self::unit_xy(2) {
            "Right"@
        } else if self.xy() == Self::unit_xy(3) {
            "Down Right"@
        } else if self.xy() == Self::unit_xy(4) {
            "Down"@
        } else if self.xy() == Self::unit_xy(5) {
            "Down Left"@
        } else if self.xy() == Self::unit_xy(6) {
            "Left"@
        } else if self.xy() == Self::unit_xy(7) {
            "Up Left"@
        } else {
            "PointRelative { x: "@ + signed_decimal(self.xy().0) + ", y: "@ + signed_decimal(self.xy().1) + " }"@
        }
    }

    /// Writes this offset as text (its `Display` form).
    pub fn to_string(&self) -> (s: String)
        ensures
            s@ == self.text(),
    {
        let mut s = String::new();
        if self.x == 0 && self.y == 0 {
            push_str(&mut s, "Zero");
        } else if self.x == 0 && self.y == -1 {
            push_str(&mut s, "Up");
        } else if self.x == 1 && self.y == -1 {
            push_str(&mut s, "Up Right");
        } else if self.x == 1 && self.y == 0 {
            push_str(&mut s, "Right");
        } else if self.x == 1 && self.y == 1 {
            push_str(&mut s, "Down Right");
        } else if self.x == 0 && self.y == 1 {
            push_str(&mut s, "Down");
        } else if self.x == -1 && self.y == 1 {
            push_str(&mut s, "Down Left");
        } else if self.x == -1 && self.y == 0 {
            push_str(&mut s, "Left");
        } else if self.x == -1 && self.y == -1 {
            push_str(&mut s, "Up Left");
        } else {
            push_str(&mut s, "PointRelative { x: ");
            push_signed_decimal(&mut s, self.x as i64);
            push_str(&mut s, ", y: ");
            push_signed_decimal(&mut s, self.y as i64);
            push_str(&mut s, " }");
        }
        s
    }
}

/// The absolute value of an `i16` other than `i16::MIN`.
fn abs_i16(v: i16) -> (r: i16)
    requires
        v != i16::MIN,
    ensures
        r == if v < 0 { -v } else { v as int },
{
    if v < 0 {
        -v
    } else {
        v
    }
}

impl core::ops::Neg for PointRelative {
    type Output = Self;

    fn neg(self) -> (r: Self) {
        self.flip()
    }
}

impl vstd::std_specs::ops::NegSpecImpl for PointRelative {
    open spec fn obeys_neg_spec() -> bool {
        true
    }

    open spec fn neg_req(self) -> bool {
        self.xy().0 != i16::MIN && self.xy().1 != i16::MIN
    }

    open spec fn neg_spec(self) -> Self {
        PointRelative::from_xy(-self.xy().0, -self.xy().1)
    }
}

impl<'a> core::ops::Neg for &'a PointRelative {
    type Output = PointRelative;

    fn neg(self) -> (r: PointRelative) {
        self.flip()
    }
}

impl<'a> vstd::std_specs::ops::NegSpecImpl for &'a PointRelative {
    open spec fn obeys_neg_spec() -> bool {
        true
    }

    open spec fn neg_req(self) -> bool {
        self.xy().0 != i16::MIN && self.xy().1 != i16::MIN
    }

    open spec fn neg_spec(self) -> PointRelative {
        PointRelative::from_xy(-self.xy().0, -self.xy().1)
    }
}

impl core::ops::Add for PointRelative {
    type Output = PointRelative;

    fn add(self, rhs: Self) -> (r: PointRelative) {
        Self { x: self.x + rhs.x, y: self.y + rhs.y }
    }
}

impl vstd::std_specs::ops::AddSpecImpl for PointRelative {
    open spec fn obeys_add_spec() -> bool {
        true
    }

    open spec fn add_req(self, rhs: Self) -> bool {
        fits_i16(self.xy().0 + rhs.xy().0) && fits_i16(self.xy().1 + rhs.xy().1)
    }

    open spec fn add_spec(self, rhs: Self) -> PointRelative {
        PointRelative::from_xy(self.xy().0 + rhs.xy().0, self.xy().1 + rhs.xy().1)
    }
}

impl<'a> core::ops::Add for &'a PointRelative {
    type Output = PointRelative;

    fn add(self, rhs: Self) -> (r: PointRelative) {
        PointRelative { x: self.x + rhs.x, y: self.y + rhs.y }
    }
}

impl<'a> vstd::std_specs::ops::AddSpecImpl for &'a PointRelative {
    open spec fn obeys_add_spec() -> bool {
        true
    }

    open spec fn add_req(self, rhs: Self) -> bool {
        fits_i16(self.xy().0 + rhs.xy().0) && fits_i16(self.xy().1 + rhs.xy().1)
    }

    open spec fn add_spec(self, rhs: Self) -> PointRelative {
        PointRelative::from_xy(self.xy().0 + rhs.xy().0, self.xy().1 + rhs.xy().1)
    }
}

impl core::ops::Mul<i16> for PointRelative {
    type Output = PointRelative;

    fn mul(self, rhs: i16) -> (r: PointRelative) {
        Self { x: self.x * rhs, y: self.y * rhs }
    }
}

impl vstd::std_specs::ops::MulSpecImpl<i16> for PointRelative {
    open spec fn obeys_mul_spec() -> bool {
        true
    }

    open spec fn mul_req(self, rhs: i16) -> bool {
        fits_i16(self.xy().0 * rhs) && fits_i16(self.xy().1 * rhs)
    }

    open spec fn mul_spec(self, rhs: i16) -> PointRelative {
        PointRelative::from_xy(self.xy().0 * rhs, self.xy().1 * rhs)
    }
}

impl core::ops::Mul<isize> for PointRelative {
    type Output = PointRelative;

    fn mul(self, rhs: isize) -> (r: PointRelative) {
        self.const_mul(rhs)
    }
}

impl vstd::std_specs::ops::MulSpecImpl<isize> for PointRelative {
    open spec fn obeys_mul_spec() -> bool {
        true
    }

    open spec fn mul_req(self, rhs: isize) -> bool {
        fits_i16(self.xy().0 * (rhs as i16)) && fits_i16(self.xy().1 * (rhs as i16))
    }

    open spec fn mul_spec(self, rhs: isize) -> PointRelative {
        PointRelative::from_xy(self.xy().0 * (rhs as i16), self.xy().1 * (rhs as i16))
    }
}

} // verus!
