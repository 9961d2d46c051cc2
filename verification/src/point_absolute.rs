//! Points of a fixed size grid numbered by a `u16`.
use vstd::prelude::*;

use crate::point_relative::{fits_i16, PointRelative};
use crate::text::{decimal, push_char, push_decimal};

verus! {

/// A point of a grid `WIDTH` by `HEIGHT`, numbered row by row.
#[derive(Debug, Clone, Copy, Default, Hash, PartialOrd, Ord)]
pub struct PointAbsolute<const WIDTH: u16, const HEIGHT: u16> {
    inner: u16,
}

impl<const W: u16, const H: u16> PartialEq for PointAbsolute<W, H> {
    fn eq(&self, other: &Self) -> (r: bool) {
        self.inner == other.inner
    }
}

impl<const W: u16, const H: u16> Eq for PointAbsolute<W, H> {
}

impl<const W: u16, const H: u16> vstd::std_specs::cmp::PartialEqSpecImpl for PointAbsolute<W, H> {
    open spec fn obeys_eq_spec() -> bool {
        true
    }

    open spec fn eq_spec(&self, other: &Self) -> bool {
        self.index() == other.index()
    }
}

impl<const W: u16, const H: u16> PointAbsolute<W, H> {
    /// The row-major position of this point in the grid.
    pub closed spec fn index(self) -> nat {
        self.inner as nat
    }

    /// Points with the same index are the same point.
    pub proof fn lemma_index_injective(self, other: Self)
        ensures
            self.index() == other.index() <==> self == other,
            self.index() < 65536,
    {
    }

    /// Whether the points of the grid, if it has any, can be numbered by a `u16`.
    pub open spec fn numbered() -> bool {
        W as nat * H as nat <= 65535
    }

    /// Whether the grid is non-empty and its points can be numbered by a `u16`.
    pub open spec fn legal() -> bool {
        1 <= W && 1 <= H && Self::numbered()
    }

    /// Whether this point lies inside the grid.
    pub open spec fn wf(self) -> bool {
        self.index() < W as nat * H as nat
    }

    /// The column of this point.
    pub open spec fn col(self) -> nat {
        self.index() % (W as nat)
    }

    /// The row of this point.
    pub open spec fn row(self) -> nat {
        self.index() / (W as nat)
    }

    /// The coordinates of a point inside a legal grid lie inside it and give back its index.
    pub proof fn lemma_coords(self)
        requires
            Self::legal(),
            self.wf(),
        ensures
            self.col() < W,
            self.row() < H,
            self.index() == self.col() + W * self.row(),
    {
        crate::grid_math::lemma_coords_index(self.index() as int, W as int);
        crate::grid_math::lemma_row_bound(self.index() as int, W as int, H as int);
    }

    /// The number of columns.
    pub fn width() -> (r: u16)
        ensures
            r == W,
    {
        W
    }

    /// The number of rows.
    pub fn height() -> (r: u16)
        ensures
            r == H,
    {
        H
    }

    /// The number of points.
    pub fn size() -> (r: usize)
        ensures
            r == W * H,
    {
        proof {
            assert(W * H <= 65535 * 65535) by (nonlinear_arith)
                requires
                    W <= 65535,
                    H <= 65535,
            ;
            assert(0 <= W * H) by (nonlinear_arith);
        }
        W as usize * H as usize
    }

    fn new_unchecked(x: u16, y: u16) -> (r: Self)
        requires
            Self::legal(),
            x < W,
            y < H,
        ensures
            r.wf(),
            r.col() == x,
            r.row() == y,
    {
        proof {
            crate::grid_math::lemma_index_bound(x as int, y as int, W as int, H as int);
            crate::grid_math::lemma_index_coords(x as int, y as int, W as int);
        }
        Self { inner: x + (W * y) }
    }

    pub fn new_const<const X: u16, const Y: u16>() -> (r: Self)
        requires
            Self::legal(),
            X < W,
            Y < H,
        ensures
            r.wf(),
            r.col() == X,
            r.row() == Y,
    {
        Self::new_unchecked(X, Y)
    }

    /// The point at the centre of the grid, or just above and to the left of it.
    pub fn center() -> (r: Self)
        requires
            Self::legal(),
        ensures
            r.wf(),
            r.col() == W / 2,
            r.row() == H / 2,
    {
        Self::new_unchecked(W / 2, H / 2)
    }

    pub fn top_left() -> (r: Self)
        requires
            Self::legal(),
        ensures
            r.wf(),
            r.col() == 0,
            r.row() == 0,
    {
        Self::new_unchecked(0, 0)
    }

    pub fn top_right() -> (r: Self)
        requires
            Self::legal(),
        ensures
            r.wf(),
            r.col() == W - 1,
            r.row() == 0,
    {
        Self::new_unchecked(W - 1, 0)
    }

    pub fn bottom_left() -> (r: Self)
        requires
            Self::legal(),
        ensures
            r.wf(),
            r.col() == 0,
            r.row() == H - 1,
    {
        Self::new_unchecked(0, H - 1)
    }

    pub fn bottom_right() -> (r: Self)
        requires
            Self::legal(),
        ensures
            r.wf(),
            r.col() == W - 1,
            r.row() == H - 1,
    {
        Self::new_unchecked(W - 1, H - 1)
    }

    pub fn try_new(x: u16, y: u16) -> (r: Option<Self>)
        requires
            Self::numbered(),
        ensures
            r is Some <==> x < W && y < H,
            r matches Some(p) ==> p.wf() && p.col() == x && p.row() == y,
    {
        if x >= W || y >= H {
            None
        } else {
            Some(Self::new_unchecked(x, y))
        }
    }

    pub fn try_from_usize(value: usize) -> (r: Option<Self>)
        requires
            Self::numbered(),
        ensures
            r is Some <==> value < W * H,
            r matches Some(p) ==> p.wf() && p.index() == value,
    {
        if value < Self::size() {
            Some(Self { inner: value as u16 })
        } else {
            None
        }
    }

    /// The point with the next index, if there is one.
    pub fn try_next(&self) -> (r: Option<Self>)
        requires
            Self::numbered(),
            self.index() < 65535,
        ensures
            r is Some <==> self.index() + 1 < W * H,
            r matches Some(p) ==> p.wf() && p.index() == self.index() + 1,
    {
        proof {
            assert(W * H <= 65535);
        }
        let new_index = self.inner + 1;
        if new_index >= W * H {
            None
        } else {
            Some(Self { inner: new_index })
        }
    }

    pub fn x(&self) -> (r: u16)
        requires
            Self::legal(),
        ensures
            r == self.col(),
    {
        self.inner % W
    }

    pub fn y(&self) -> (r: u16)
        requires
            Self::legal(),
        ensures
            r == self.row(),
    {
        self.inner / W
    }

    /// Whether the point is at a corner of the grid.
    pub fn is_corner(&self) -> (r: bool)
        requires
            Self::legal(),
        ensures
            r == ((self.col() == 0 || self.col() == W - 1) && (self.row() == 0 || self.row() == H - 1)),
    {
        (self.x() == 0 || self.x() == W - 1) && (self.y() == 0 || self.y() == H - 1)
    }

    /// Whether the point is on an edge of the grid.
    pub fn is_edge(&self) -> (r: bool)
        requires
            Self::legal(),
        ensures
            r == (self.col() == 0 || self.col() == W - 1 || self.row() == 0 || self.row() == H - 1),
    {
        self.x() == 0 || self.x() == W - 1 || self.y() == 0 || self.y() == H - 1
    }

    /// The point mirrored from left to right.
    pub fn flip_horizontal(&self) -> (r: Self)
        requires
            Self::legal(),
            self.wf(),
        ensures
            r.wf(),
            r.col() == W - 1 - self.col(),
            r.row() == self.row(),
    {
        proof {
            self.lemma_coords();
        }
        Self::new_unchecked(W - self.x() - 1, self.y())
    }

    /// The point mirrored from top to bottom.
    pub fn flip_vertical(&self) -> (r: Self)
        requires
            Self::legal(),
            self.wf(),
        ensures
            r.wf(),
            r.col() == self.col(),
            r.row() == H - 1 - self.row(),
    {
        proof {
            self.lemma_coords();
        }
        Self::new_unchecked(self.x(), H - self.y() - 1)
    }

    /// The distance, disallowing, diagonal moves
    pub fn manhattan_distance(&self, other: &Self) -> (r: u16)
        requires
            Self::legal(),
            self.wf(),
            other.wf(),
        ensures
            r == crate::tile::abs_diff(self.col(), other.col()) + crate::tile::abs_diff(self.row(), other.row()),
    {
        proof {
            self.lemma_coords();
            other.lemma_coords();
            assert(W + H <= 65536) by (nonlinear_arith)
                requires
                    1 <= W,
                    1 <= H,
                    W * H <= 65535,
            ;
        }
        let dx = abs_diff_u16(self.x(), other.x());
        let dy = abs_diff_u16(self.y(), other.y());
        dx + dy
    }

    /// The textual form of this point: `(x,y)`.
    pub open spec fn text(self) -> Seq<char> {
        seq!['('] + decimal(self.col()) + seq![','] + decimal(self.row()) + seq![')']
    }

    /// Writes this point as `(x,y)` (its `Display` form).
    pub fn to_string(&self) -> (s: String)
        requires
            Self::legal(),
        ensures
            s@ == self.text(),
    {
        let mut s = String::new();
        push_char(&mut s, '(');
        push_decimal(&mut s, self.x() as u64);
        push_char(&mut s, ',');
        push_decimal(&mut s, self.y() as u64);
        push_char(&mut s, ')');
        s
    }
}

/// The distance between two `u16`s (`u16::abs_diff`).
fn abs_diff_u16(a: u16, b: u16) -> (r: u16)
    ensures
        r == crate::tile::abs_diff(a as nat, b as nat),
{
    if a >= b {
        a - b
    } else {
        b - a
    }
}

/// The point a clockwise rotation by quarter turns moves `(x, y)` to, in a square grid `l`
/// points wide.
pub open spec fn point_rotated(x: int, y: int, l: int, quarter_turns: int) -> (int, int) {
    if quarter_turns % 4 == 1 {
        (l - 1 - y, x)
    } else if quarter_turns % 4 == 2 {
        (l - 1 - x, l - 1 - y)
    } else if quarter_turns % 4 == 3 {
        (y, l - 1 - x)
    } else {
        (x, y)
    }
}

/// Law: rotating clockwise by `a` quarter turns and then by `b` is rotating by `a + b`, and one
/// quarter turn moves `(x, y)` to `(l - 1 - y, x)`; so two quarter turns are a half turn about
/// the centre, `(l - 1 - x, l - 1 - y)`, and four give the point back.
pub proof fn law_point_rotate_compose(x: int, y: int, l: int, a: int, b: int)
    requires
        0 <= a,
        0 <= b,
    ensures
        ({
            let (rx, ry) = point_rotated(x, y, l, a);
            point_rotated(rx, ry, l, b) == point_rotated(x, y, l, a + b)
        }),
        point_rotated(x, y, l, 0) == (x, y),
        point_rotated(x, y, l, 1) == (l - 1 - y, x),
{
    vstd::arithmetic::div_mod::lemma_add_mod_noop(a, b, 4);
    assert(0 <= a % 4 < 4 && 0 <= b % 4 < 4);
}

impl<const L: u16> PointAbsolute<L, L> {
    /// Rotate the coordinate clockwise
    pub fn rotate(&self, quarter_turns: usize) -> (r: Self)
        requires
            Self::legal(),
            self.wf(),
        ensures
            r.wf(),
            (r.col() as int, r.row() as int) == point_rotated(self.col() as int, self.row() as int, L as int, quarter_turns as int),
    {
        proof {
            self.lemma_coords();
        }
        match quarter_turns % 4 {
            1 => Self::new_unchecked(L - 1 - self.y(), self.x()),
            2 => Self::new_unchecked(L - 1 - self.x(), L - 1 - self.y()),
            3 => Self::new_unchecked(self.y(), L - 1 - self.x()),
            _ => *self,
        }
    }
}

impl<const W: u16, const H: u16> From<PointAbsolute<W, H>> for usize {
    fn from(val: PointAbsolute<W, H>) -> (r: usize) {
        val.inner as usize
    }
}

impl<const W: u16, const H: u16> vstd::std_specs::convert::FromSpecImpl<PointAbsolute<W, H>> for usize {
    open spec fn obeys_from_spec() -> bool {
        true
    }

    open spec fn from_spec(v: PointAbsolute<W, H>) -> usize {
        v.index() as usize
    }
}

impl<'a, const W: u16, const H: u16> From<&'a PointAbsolute<W, H>> for usize {
    fn from(val: &'a PointAbsolute<W, H>) -> (r: usize) {
        val.inner as usize
    }
}

impl<'a, const W: u16, const H: u16> vstd::std_specs::convert::FromSpecImpl<&'a PointAbsolute<W, H>> for usize {
    open spec fn obeys_from_spec() -> bool {
        true
    }

    open spec fn from_spec(v: &'a PointAbsolute<W, H>) -> usize {
        v.index() as usize
    }
}

/// The column or row of a point taken as an `i16`, plus a component of an offset.
pub open spec fn shifted(c: nat, d: int) -> int {
    (c as i16) + d
}

impl<const W: u16, const H: u16> PointAbsolute<W, H> {
    /// The point with a given index.
    pub closed spec fn with_index(i: int) -> Self {
        PointAbsolute { inner: i as u16 }
    }
}

impl<const W: u16, const H: u16> core::ops::Add<PointRelative> for PointAbsolute<W, H> {
    type Output = Option<Self>;

    /// The point moved by an offset, if it stays in the grid; the column and row are taken
    /// as `i16`s before the offset is added.
    fn add(self, rhs: PointRelative) -> (r: Option<Self>) {
        let x = (self.x() as i16) + rhs.x();
        let y = (self.y() as i16) + rhs.y();
        if x >= 0 && y >= 0 {
            let r = Self::try_new(x as u16, y as u16);
            proof {
                if let Some(p) = r {
                    p.lemma_coords();
                }
            }
            r
        } else {
            None
        }
    }
}

impl<const W: u16, const H: u16> vstd::std_specs::ops::AddSpecImpl<PointRelative> for PointAbsolute<W, H> {
    open spec fn obeys_add_spec() -> bool {
        true
    }

    open spec fn add_req(self, rhs: PointRelative) -> bool {
        &&& Self::legal()
        &&& fits_i16(shifted(self.col(), rhs.xy().0))
        &&& fits_i16(shifted(self.row(), rhs.xy().1))
    }

    open spec fn add_spec(self, rhs: PointRelative) -> Option<Self> {
        let x = shifted(self.col(), rhs.xy().0);
        let y = shifted(self.row(), rhs.xy().1);
        if 0 <= x < W && 0 <= y < H {
            Some(Self::with_index(x + W * y))
        } else {
            None
        }
    }
}

} // verus!
