//! Polyominoes: shapes made of a fixed number of tiles.
use vstd::prelude::*;
use vstd::string::StringSliceAdditionalSpecFns;

use crate::corner::Corner;
use crate::dynamic_tile::DynamicTile;
use crate::dynamic_vertex::DynamicVertex;
use crate::outline::{inside_bounds, law_outline_closes, outline_vertices, outline_walk, tiles_sorted};
use crate::rectangle::Rectangle;
use crate::rectangles::{decomposable_tiles, in_rectangle, law_rectangles_area, law_rectangles_cover, law_rectangles_exact, lemma_take_rectangle_len, rectangles_of, take_rectangle_tiles, total_area};
use crate::shape::Shape;
use crate::grid_math::{lemma_coords_index, lemma_index_coords};
use crate::text::push_char;
use crate::vector::{fits_i8, Vector};

verus! {

broadcast use vstd::seq_lib::group_to_multiset_ensures;

/// Whether `a` comes no later than `b`: by `x`, then by `y`.
pub open spec fn vector_le(a: Vector, b: Vector) -> bool {
    a.x < b.x || (a.x == b.x && a.y <= b.y)
}

/// Whether vectors are in order by `x`, then by `y`.
pub open spec fn sorted_vectors(s: Seq<Vector>) -> bool {
    forall|i: int, j: int| 0 <= i < j < s.len() ==> vector_le(#[trigger] s[i], #[trigger] s[j])
}

/// The least `x` of some vectors, or `i8::MAX` where there are none.
pub open spec fn min_x(s: Seq<Vector>) -> int
    decreases s.len(),
{
    if s.len() == 0 {
        127
    } else {
        let m = min_x(s.drop_last());
        if s.last().x < m {
            s.last().x as int
        } else {
            m
        }
    }
}

/// The least `y` of some vectors, or `i8::MAX` where there are none.
pub open spec fn min_y(s: Seq<Vector>) -> int
    decreases s.len(),
{
    if s.len() == 0 {
        127
    } else {
        let m = min_y(s.drop_last());
        if s.last().y < m {
            s.last().y as int
        } else {
            m
        }
    }
}

/// The vectors translated so that the least `x` and the least `y` are both zero.
pub open spec fn normalized(s: Seq<Vector>) -> Seq<Vector> {
    s.map_values(|v: Vector| Vector { x: (v.x - min_x(s)) as i8, y: (v.y - min_y(s)) as i8 })
}

/// Whether the translation that brings the least coordinates to zero keeps every vector
/// representable.
pub open spec fn translatable(s: Seq<Vector>) -> bool {
    forall|i: int| 0 <= i < s.len() ==> fits_i8(#[trigger] s[i].x - min_x(s)) && fits_i8(s[i].y - min_y(s))
}

/// Whether `r` holds the vectors of `s`, translated so that the least coordinates are zero,
/// in order by `x`, then by `y`.
pub open spec fn arranged(r: Seq<Vector>, s: Seq<Vector>) -> bool {
    &&& sorted_vectors(r)
    &&& r.to_multiset() == normalized(s).to_multiset()
}

/// The least coordinates bound every vector, and each is reached where there is a vector.
pub proof fn lemma_min(s: Seq<Vector>)
    ensures
        forall|i: int| 0 <= i < s.len() ==> min_x(s) <= #[trigger] s[i].x && min_y(s) <= s[i].y,
        s.len() > 0 ==> exists|i: int| 0 <= i < s.len() && #[trigger] s[i].x == min_x(s),
        s.len() > 0 ==> exists|i: int| 0 <= i < s.len() && #[trigger] s[i].y == min_y(s),
        min_x(s) <= 127,
        min_y(s) <= 127,
    decreases s.len(),
{
    if s.len() > 0 {
        let d = s.drop_last();
        lemma_min(d);
        assert forall|i: int| 0 <= i < s.len() implies min_x(s) <= #[trigger] s[i].x && min_y(s) <= s[i].y by {
            if i < d.len() {
                assert(s[i] == d[i]);
            }
        }
        if s.last().x < min_x(d) {
            assert(s[s.len() - 1].x == min_x(s));
        } else if d.len() > 0 {
            let k = choose|k: int| 0 <= k < d.len() && #[trigger] d[k].x == min_x(d);
            assert(s[k] == d[k]);
        }
        if s.last().y < min_y(d) {
            assert(s[s.len() - 1].y == min_y(s));
        } else if d.len() > 0 {
            let k = choose|k: int| 0 <= k < d.len() && #[trigger] d[k].y == min_y(d);
            assert(s[k] == d[k]);
        }
    }
}

/// Swapping two elements keeps the multiset of a sequence.
pub proof fn lemma_swap_multiset<A>(s: Seq<A>, i: int, j: int)
    requires
        0 <= i < s.len(),
        0 <= j < s.len(),
    ensures
        s.update(i, s[j]).update(j, s[i]).to_multiset() == s.to_multiset(),
{
    let s1 = s.update(i, s[j]);
    vstd::seq_lib::to_multiset_update(s, i, s[j]);
    vstd::seq_lib::to_multiset_update(s1, j, s[i]);
    if i == j {
        assert(s1.update(j, s[i]) =~= s);
    } else {
        assert(s1[j] == s[j]);
        assert(s.to_multiset().insert(s[j]).remove(s[i]).insert(s[i]).remove(s[j]) =~= s.to_multiset());
    }
}

/// Sorts vectors by `x`, then by `y`.
fn sort_vectors<const N: usize>(arr: [Vector; N]) -> (r: [Vector; N])
    ensures
        sorted_vectors(r@),
        r@.to_multiset() == arr@.to_multiset(),
{
    let mut arr = arr;
    let ghost original = arr@;
    let mut i: usize = 1;
    while i < N
        invariant
            arr@.len() == N,
            1 <= i || N == 0,
            i <= N || N == 0,
            arr@.to_multiset() == original.to_multiset(),
            forall|a: int, b: int| 0 <= a < b < i && b < N ==> vector_le(#[trigger] arr@[a], #[trigger] arr@[b]),
        decreases N - i,
    {
        let mut j: usize = i;
        while j > 0 && arr[j - 1].const_gt(&arr[j])
            invariant
                arr@.len() == N,
                0 <= j <= i < N,
                arr@.to_multiset() == original.to_multiset(),
                forall|a: int, b: int| 0 <= a < b < j ==> vector_le(#[trigger] arr@[a], #[trigger] arr@[b]),
                forall|a: int, b: int| j <= a < b <= i ==> vector_le(#[trigger] arr@[a], #[trigger] arr@[b]),
                forall|a: int, b: int| 0 <= a < j && j < b <= i ==> vector_le(#[trigger] arr@[a], #[trigger] arr@[b]),
            decreases j,
        {
            let ghost before = arr@;
            let swap = arr[j - 1];
            arr[j - 1] = arr[j];
            arr[j] = swap;
            proof {
                assert(arr@ == before.update(j - 1, before[j as int]).update(j as int, before[j - 1]));
                lemma_swap_multiset(before, j - 1, j as int);
            }
            j = j - 1;
        }
        i = i + 1;
    }
    arr
}

/// Translates vectors so that the minimum values of x and y are both 0
fn normalize_vectors<const N: usize>(arr: [Vector; N]) -> (r: [Vector; N])
    requires
        translatable(arr@),
    ensures
        r@ == normalized(arr@),
{
    let ghost s = arr@;
    let mut arr = arr;
    let mut min_x_so_far: i8 = i8::MAX;
    let mut min_y_so_far: i8 = i8::MAX;
    let mut i: usize = 0;
    while i < N
        invariant
            arr@ == s,
            s.len() == N,
            i <= N,
            min_x_so_far == min_x(s.subrange(0, i as int)),
            min_y_so_far == min_y(s.subrange(0, i as int)),
        decreases N - i,
    {
        assert(s.subrange(0, i + 1).drop_last() == s.subrange(0, i as int));
        if arr[i].x < min_x_so_far {
            min_x_so_far = arr[i].x;
        }
        if arr[i].y < min_y_so_far {
            min_y_so_far = arr[i].y;
        }
        i = i + 1;
    }
    assert(s.subrange(0, N as int) == s);
    proof {
        lemma_min(s);
    }
    let mut i: usize = 0;
    while i < N
        invariant
            s.len() == N,
            arr@.len() == N,
            i <= N,
            min_x_so_far == min_x(s),
            min_y_so_far == min_y(s),
            translatable(s),
            forall|k: int| 0 <= k < i ==> #[trigger] arr@[k] == normalized(s)[k],
            forall|k: int| i <= k < N ==> #[trigger] arr@[k] == s[k],
        decreases N - i,
    {
        assert(fits_i8(s[i as int].x - min_x(s)));
        arr[i].x = arr[i].x - min_x_so_far;
        arr[i].y = arr[i].y - min_y_so_far;
        i = i + 1;
    }
    assert(arr@ =~= normalized(s));
    arr
}

/// A polyomino with a fixed number of points
#[derive(Clone, Copy, Debug, PartialEq, Eq, Hash)]
pub struct Polyomino<const TILES: usize>([DynamicTile; TILES]);

impl<const TILES: usize> View for Polyomino<TILES> {
    type V = Seq<DynamicTile>;

    closed spec fn view(&self) -> Seq<DynamicTile> {
        self.0@
    }
}

impl<const TILES: usize> Polyomino<TILES> {
    /// The positions of the tiles, as vectors.
    pub open spec fn vectors(self) -> Seq<Vector> {
        self@.map_values(|t: DynamicTile| t.0)
    }

    pub proof fn lemma_len(self)
        ensures
            self@.len() == TILES,
    {
    }

    /// The polyomino made of tiles at the given positions, translated so that its least
    /// coordinates are zero, its tiles in order by `x`, then by `y`.
    pub fn new(vectors: [Vector; TILES]) -> (r: Self)
        requires
            translatable(vectors@),
        ensures
            r@.len() == TILES,
            arranged(r.vectors(), vectors@),
    {
        let vectors = normalize_vectors(vectors);
        let vectors = sort_vectors(vectors);
        let mut arr = [DynamicTile(Vector { x: 0, y: 0 }); TILES];
        let mut i: usize = 0;
        while i < TILES
            invariant
                arr@.len() == TILES,
                i <= TILES,
                forall|k: int| 0 <= k < i ==> (#[trigger] arr@[k]).0 == vectors@[k],
            decreases TILES - i,
        {
            arr[i] = DynamicTile(vectors[i]);
            i = i + 1;
        }
        let r = Self(arr);
        assert(r.vectors() =~= vectors@);
        r
    }

    /// The tiles of this polyomino
    pub fn tiles(&self) -> (r: &[DynamicTile; TILES])
        ensures
            r@ == self@,
    {
        &self.0
    }
}

/// The greatest `x` of some vectors, or `i8::MIN` where there are none.
pub open spec fn max_x(s: Seq<Vector>) -> int
    decreases s.len(),
{
    if s.len() == 0 {
        -128
    } else {
        let m = max_x(s.drop_last());
        if s.last().x > m {
            s.last().x as int
        } else {
            m
        }
    }
}

/// The greatest `y` of some vectors, or `i8::MIN` where there are none.
pub open spec fn max_y(s: Seq<Vector>) -> int
    decreases s.len(),
{
    if s.len() == 0 {
        -128
    } else {
        let m = max_y(s.drop_last());
        if s.last().y > m {
            s.last().y as int
        } else {
            m
        }
    }
}

/// The greatest coordinates bound every vector.
pub proof fn lemma_max(s: Seq<Vector>)
    ensures
        forall|i: int| 0 <= i < s.len() ==> #[trigger] s[i].x <= max_x(s) && s[i].y <= max_y(s),
        s.len() > 0 ==> exists|i: int| 0 <= i < s.len() && #[trigger] s[i].x == max_x(s),
        s.len() > 0 ==> exists|i: int| 0 <= i < s.len() && #[trigger] s[i].y == max_y(s),
        max_x(s) >= -128,
        max_y(s) >= -128,
    decreases s.len(),
{
    if s.len() > 0 {
        let d = s.drop_last();
        lemma_max(d);
        assert forall|i: int| 0 <= i < s.len() implies #[trigger] s[i].x <= max_x(s) && s[i].y <= max_y(s) by {
            if i < d.len() {
                assert(s[i] == d[i]);
            }
        }
        if s.last().x > max_x(d) {
            assert(s[s.len() - 1].x == max_x(s));
        } else if d.len() > 0 {
            let k = choose|k: int| 0 <= k < d.len() && #[trigger] d[k].x == max_x(d);
            assert(s[k] == d[k]);
        }
        if s.last().y > max_y(d) {
            assert(s[s.len() - 1].y == max_y(s));
        } else if d.len() > 0 {
            let k = choose|k: int| 0 <= k < d.len() && #[trigger] d[k].y == max_y(d);
            assert(s[k] == d[k]);
        }
    }
}

/// The number of columns of the smallest box that holds the vectors.
pub open spec fn box_width(s: Seq<Vector>) -> int {
    max_x(s) - min_x(s) + 1
}

/// The number of rows of the smallest box that holds the vectors.
pub open spec fn box_height(s: Seq<Vector>) -> int {
    max_y(s) - min_y(s) + 1
}

/// Whether the ascii picture of the vectors can be drawn: its width and height are at most
/// 127, its width plus one for the line break is too unless it has a single row, and the
/// place of each tile in it is at most 127.
pub open spec fn ascii_fits(s: Seq<Vector>) -> bool {
    &&& box_width(s) <= 127
    &&& box_height(s) <= 127
    &&& (box_height(s) == 1 || box_width(s) + 1 <= 127)
    &&& forall|i: int|
        0 <= i < s.len() ==> (#[trigger] s[i].x - min_x(s)) + (s[i].y - min_y(s)) * (box_width(s) + 1) <= 127
}

/// The character at index `k` of the ascii picture of the vectors: a line break at the end of
/// each row but the last, `#` where there is a tile, `.` elsewhere.
pub open spec fn ascii_char(s: Seq<Vector>, k: int) -> char {
    let w = box_width(s);
    if k % (w + 1) == w {
        '\n'
    } else if exists|t: int|
        0 <= t < s.len() && #[trigger] s[t].x - min_x(s) == k % (w + 1) && s[t].y - min_y(s) == k / (w + 1) {
        '#'
    } else {
        '.'
    }
}

/// The ascii picture of the vectors, row by row.
pub open spec fn ascii_picture(s: Seq<Vector>) -> Seq<char> {
    if s.len() == 0 {
        Seq::empty()
    } else {
        Seq::new(((box_width(s) + 1) * box_height(s) - 1) as nat, |k: int| ascii_char(s, k))
    }
}

/// Whether a byte is ascii whitespace (`u8::is_ascii_whitespace`).
pub open spec fn ascii_whitespace(c: u8) -> bool {
    c == 32 || c == 9 || c == 10 || c == 12 || c == 13
}

/// Whether a byte may appear in the ascii picture of a polyomino.
pub open spec fn ascii_shape_byte(c: u8) -> bool {
    ascii_whitespace(c) || c == 46 || c == 35
}

/// Where the first `n` bytes of an ascii picture leave the cursor: each `#` and `.` moves it
/// one column east, a line break to the start of the next row.
pub open spec fn ascii_cursor(b: Seq<u8>, n: int) -> (int, int)
    decreases n,
{
    if n <= 0 {
        (0, 0)
    } else {
        let (x, y) = ascii_cursor(b, n - 1);
        let c = b[n - 1];
        if c == 10 {
            (0, y + 1)
        } else if ascii_whitespace(c) {
            (x, y)
        } else {
            (x + 1, y)
        }
    }
}

/// The positions of the `#` among the first `n` bytes of an ascii picture.
pub open spec fn ascii_tiles(b: Seq<u8>, n: int) -> Seq<Vector>
    decreases n,
{
    if n <= 0 {
        Seq::empty()
    } else {
        let prev = ascii_tiles(b, n - 1);
        if b[n - 1] == 35 {
            let (x, y) = ascii_cursor(b, n - 1);
            prev.push(Vector { x: x as i8, y: y as i8 })
        } else {
            prev
        }
    }
}

/// Whether bytes picture a polyomino of `tiles` tiles: only `#`, `.` and whitespace, one `#`
/// per tile, and a cursor that stays within bytes.
pub open spec fn ascii_shape(b: Seq<u8>, tiles: int) -> bool {
    &&& forall|i: int| 0 <= i < b.len() ==> ascii_shape_byte(#[trigger] b[i])
    &&& ascii_tiles(b, b.len() as int).len() == tiles
    &&& forall|n: int| 0 <= n <= b.len() ==> #[trigger] ascii_cursor(b, n).0 <= 127 && ascii_cursor(b, n).1 <= 127
}

/// The cursor never leaves the first quadrant.
pub proof fn lemma_ascii_cursor(b: Seq<u8>, n: int)
    requires
        0 <= n <= b.len(),
    ensures
        ascii_cursor(b, n).0 >= 0,
        ascii_cursor(b, n).1 >= 0,
        ascii_tiles(b, n).len() <= n,
    decreases n,
{
    if n > 0 {
        lemma_ascii_cursor(b, n - 1);
    }
}

/// Every `#` lies where the cursor was.
pub proof fn lemma_ascii_tiles(b: Seq<u8>, n: int)
    requires
        0 <= n <= b.len(),
        forall|m: int| 0 <= m <= b.len() ==> #[trigger] ascii_cursor(b, m).0 <= 127 && ascii_cursor(b, m).1 <= 127,
    ensures
        forall|i: int| 0 <= i < ascii_tiles(b, n).len() ==> 0 <= (#[trigger] ascii_tiles(b, n)[i]).x && 0 <= ascii_tiles(b, n)[i].y,
    decreases n,
{
    if n > 0 {
        lemma_ascii_tiles(b, n - 1);
        lemma_ascii_cursor(b, n - 1);
        assert(ascii_cursor(b, n - 1).0 <= 127);
    }
}

impl<const TILES: usize> Polyomino<TILES> {
    /// Construct a polyomino from a string of ascii: each `#` is a tile, each `.` an empty
    /// place, and a line break starts the next row; other whitespace is ignored.
    pub fn new_from_ascii(s: &str) -> (r: Self)
        requires
            ascii_shape(s.spec_bytes(), TILES as int),
        ensures
            r@.len() == TILES,
            arranged(r.vectors(), ascii_tiles(s.spec_bytes(), s.spec_bytes().len() as int)),
    {
        let bytes = s.as_bytes();
        let ghost b = bytes@;
        let mut current = Vector { x: 0, y: 0 };
        let mut arr: [Vector; TILES] = [Vector { x: 0, y: 0 }; TILES];
        let mut index: usize = 0;
        let mut bytes_index: usize = 0;
        while bytes_index < bytes.len()
            invariant
                b == bytes@,
                ascii_shape(b, TILES as int),
                arr@.len() == TILES,
                bytes_index <= b.len(),
                (current.x as int, current.y as int) == ascii_cursor(b, bytes_index as int),
                index == ascii_tiles(b, bytes_index as int).len(),
                index <= TILES,
                forall|k: int| 0 <= k < index ==> #[trigger] arr@[k] == ascii_tiles(b, bytes_index as int)[k],
            decreases b.len() - bytes_index,
        {
            proof {
                lemma_ascii_cursor(b, bytes_index as int);
                lemma_ascii_count_grows(b, bytes_index as int + 1, b.len() as int);
                assert(ascii_cursor(b, bytes_index + 1).0 <= 127);
                assert(ascii_shape_byte(b[bytes_index as int]));
            }
            let character = bytes[bytes_index];
            if character == 10 {
                current = Vector { x: 0, y: current.y + 1 };
            } else if character == 32 || character == 9 || character == 12 || character == 13 {
            } else if character == 46 {
                current = Vector { x: current.x + 1, y: current.y };
            } else {
                arr[index] = current;
                index = index + 1;
                current = Vector { x: current.x + 1, y: current.y };
            }
            bytes_index = bytes_index + 1;
        }
        proof {
            assert(arr@ =~= ascii_tiles(b, b.len() as int));
            lemma_ascii_tiles(b, b.len() as int);
            lemma_min(arr@);
            assert forall|i: int| 0 <= i < arr@.len() implies fits_i8(#[trigger] arr@[i].x - min_x(arr@)) && fits_i8(
                arr@[i].y - min_y(arr@),
            ) by {
                if arr@.len() > 0 {
                    let kx = choose|k: int| 0 <= k < arr@.len() && #[trigger] arr@[k].x == min_x(arr@);
                    let ky = choose|k: int| 0 <= k < arr@.len() && #[trigger] arr@[k].y == min_y(arr@);
                    assert(0 <= arr@[kx].x);
                    assert(0 <= arr@[ky].y);
                }
            }
        }
        Self::new(arr)
    }
}

/// The number of `#` among the first bytes only grows.
pub proof fn lemma_ascii_count_grows(b: Seq<u8>, n: int, m: int)
    requires
        0 <= n <= m <= b.len(),
    ensures
        ascii_tiles(b, n).len() <= ascii_tiles(b, m).len(),
    decreases m - n,
{
    if n < m {
        lemma_ascii_count_grows(b, n, m - 1);
    }
}

impl<const TILES: usize> Polyomino<TILES> {
    /// The least and greatest coordinates of the tiles.
    fn bounds(&self) -> (r: (i8, i8, i8, i8))
        ensures
            r.0 == min_x(self.vectors()),
            r.1 == max_x(self.vectors()),
            r.2 == min_y(self.vectors()),
            r.3 == max_y(self.vectors()),
    {
        let ghost s = self.vectors();
        let mut min_x_so_far: i8 = i8::MAX;
        let mut max_x_so_far: i8 = i8::MIN;
        let mut min_y_so_far: i8 = i8::MAX;
        let mut max_y_so_far: i8 = i8::MIN;
        let mut i: usize = 0;
        while i < TILES
            invariant
                s == self.vectors(),
                s.len() == TILES,
                i <= TILES,
                min_x_so_far == min_x(s.subrange(0, i as int)),
                max_x_so_far == max_x(s.subrange(0, i as int)),
                min_y_so_far == min_y(s.subrange(0, i as int)),
                max_y_so_far == max_y(s.subrange(0, i as int)),
            decreases TILES - i,
        {
            assert(s.subrange(0, i + 1).drop_last() == s.subrange(0, i as int));
            let v = self.0[i].0;
            assert(v == s[i as int]);
            if v.x < min_x_so_far {
                min_x_so_far = v.x;
            }
            if v.x > max_x_so_far {
                max_x_so_far = v.x;
            }
            if v.y < min_y_so_far {
                min_y_so_far = v.y;
            }
            if v.y > max_y_so_far {
                max_y_so_far = v.y;
            }
            i = i + 1;
        }
        assert(s.subrange(0, TILES as int) == s);
        (min_x_so_far, max_x_so_far, min_y_so_far, max_y_so_far)
    }

    /// Write the polyomino as an ascii string: `#` for each tile and `.` for each empty place
    /// of the smallest box that holds it, row by row, a line break between rows.
    pub fn to_ascii_string(&self) -> (s: String)
        requires
            ascii_fits(self.vectors()),
        ensures
            s@ == ascii_picture(self.vectors()),
    {
        let ghost vs = self.vectors();
        if TILES == 0 {
            return String::new();
        }
        let (least_x, most_x, least_y, most_y) = self.bounds();
        proof {
            lemma_min(vs);
            lemma_max(vs);
            assert(vs[0].x <= most_x && least_x <= vs[0].x);
            assert(vs[0].y <= most_y && least_y <= vs[0].y);
        }
        let width_i8: i8 = most_x - least_x + 1;
        let height_i8: i8 = most_y - least_y + 1;
        let width: usize = width_i8 as usize;
        let height: usize = height_i8 as usize;
        proof {
            assert((width + 1) * height <= 128 * 127) by (nonlinear_arith)
                requires
                    width + 1 <= 128,
                    height <= 127,
            ;
            assert((width + 1) * height >= 1) by (nonlinear_arith)
                requires
                    width + 1 >= 2,
                    height >= 1,
            ;
        }
        let len: usize = (width + 1) * height - 1;
        let mut chars: Vec<char> = Vec::new();
        let mut k: usize = 0;
        while k < len
            invariant
                k <= len,
                1 <= width <= 127,
                chars@.len() == k,
                forall|j: int| 0 <= j < k ==> #[trigger] chars@[j] == if j % (width + 1) as int == width {
                    '\n'
                } else {
                    '.'
                },
            decreases len - k,
        {
            if k % (width + 1) == width {
                chars.push('\n');
            } else {
                chars.push('.');
            }
            k = k + 1;
        }
        let mut i: usize = 0;
        while i < TILES
            invariant
                vs == self.vectors(),
                vs.len() == TILES,
                ascii_fits(vs),
                i <= TILES,
                least_x == min_x(vs),
                least_y == min_y(vs),
                width == box_width(vs),
                height == box_height(vs),
                len == (width + 1) * height - 1,
                forall|t: int| 0 <= t < vs.len() ==> min_x(vs) <= #[trigger] vs[t].x <= max_x(vs) && min_y(vs) <= vs[t].y <= max_y(vs),
                chars@.len() == len,
                forall|j: int| 0 <= j < len ==> #[trigger] chars@[j] == if j % (width + 1) as int == width {
                    '\n'
                } else if exists|t: int| 0 <= t < i && #[trigger] place(vs, t) == j {
                    '#'
                } else {
                    '.'
                },
            decreases TILES - i,
        {
            let tile = self.0[i];
            assert(tile.0 == vs[i as int]);
            let x: i8 = tile.0.x - least_x;
            let y: i8 = tile.0.y - least_y;
            proof {
                assert(place(vs, i as int) <= 127);
                assert(y * (width + 1) <= 127) by (nonlinear_arith)
                    requires
                        x >= 0,
                        y >= 0,
                        x + y * (width + 1) <= 127,
                ;
                assert(y * (width + 1) >= 0) by (nonlinear_arith)
                    requires
                        y >= 0,
                        width >= 0,
                ;
                lemma_place(vs, i as int);
            }
            let index: usize = x as usize + y as usize * (width + 1);
            let ghost before = chars@;
            chars.set(index, '#');
            proof {
                assert forall|j: int| 0 <= j < len implies #[trigger] chars@[j] == if j % (width + 1) as int == width {
                    '\n'
                } else if exists|t: int| 0 <= t < i + 1 && #[trigger] place(vs, t) == j {
                    '#'
                } else {
                    '.'
                } by {
                    if j == index {
                        assert(place(vs, i as int) == j);
                    } else {
                        assert(chars@[j] == before[j]);
                        if exists|t: int| 0 <= t < i + 1 && #[trigger] place(vs, t) == j {
                            let t = choose|t: int| 0 <= t < i + 1 && #[trigger] place(vs, t) == j;
                            assert(t != i);
                        }
                    }
                }
            }
            i = i + 1;
        }
        let mut s = String::new();
        let mut k: usize = 0;
        while k < len
            invariant
                k <= len,
                chars@.len() == len,
                s@ == chars@.subrange(0, k as int),
            decreases len - k,
        {
            push_char(&mut s, chars[k]);
            k = k + 1;
            assert(s@ == chars@.subrange(0, k as int));
        }
        proof {
            assert forall|j: int| 0 <= j < len implies #[trigger] chars@[j] == ascii_char(vs, j) by {
                lemma_char_place(vs, j);
            }
            assert(s@ =~= ascii_picture(vs));
        }
        s
    }
}

/// Where the tile `t` is drawn in the ascii picture of the vectors.
pub open spec fn place(s: Seq<Vector>, t: int) -> int {
    (s[t].x - min_x(s)) + (s[t].y - min_y(s)) * (box_width(s) + 1)
}

/// A tile is drawn in the row and the column of its place, before the end of the picture.
pub proof fn lemma_place(s: Seq<Vector>, t: int)
    requires
        0 <= t < s.len(),
        min_x(s) <= s[t].x <= max_x(s),
        min_y(s) <= s[t].y <= max_y(s),
    ensures
        place(s, t) % (box_width(s) + 1) == s[t].x - min_x(s),
        place(s, t) / (box_width(s) + 1) == s[t].y - min_y(s),
        0 <= place(s, t) < (box_width(s) + 1) * box_height(s) - 1,
{
    let w = box_width(s) + 1;
    let x = s[t].x - min_x(s);
    let y = s[t].y - min_y(s);
    assert(y * w == w * y) by (nonlinear_arith);
    lemma_index_coords(x, y, w);
    let h = box_height(s);
    assert(x + y * w < w * h - 1) by (nonlinear_arith)
        requires
            0 <= x <= w - 2,
            0 <= y <= h - 1,
    ;
    assert(w * h == (box_width(s) + 1) * box_height(s));
    assert(0 <= y * w) by (nonlinear_arith)
        requires
            0 <= y,
            0 <= w,
    ;
}

/// A place of the picture holds `#` exactly where some tile is drawn.
pub proof fn lemma_char_place(s: Seq<Vector>, j: int)
    requires
        0 <= j,
        box_width(s) >= 1,
        forall|t: int| 0 <= t < s.len() ==> min_x(s) <= #[trigger] s[t].x <= max_x(s) && min_y(s) <= s[t].y <= max_y(s),
    ensures
        (exists|t: int| 0 <= t < s.len() && #[trigger] place(s, t) == j) == (exists|t: int|
            0 <= t < s.len() && #[trigger] s[t].x - min_x(s) == j % (box_width(s) + 1) && s[t].y - min_y(s) == j / (
            box_width(s) + 1)),
{
    let w = box_width(s) + 1;
    lemma_coords_index(j, w);
    if exists|t: int| 0 <= t < s.len() && #[trigger] place(s, t) == j {
        let t = choose|t: int| 0 <= t < s.len() && #[trigger] place(s, t) == j;
        lemma_place_coords(s, t);
        assert(s[t].x - min_x(s) == j % w);
    }
    if exists|t: int|
        0 <= t < s.len() && #[trigger] s[t].x - min_x(s) == j % w && s[t].y - min_y(s) == j / w {
        let t = choose|t: int| 0 <= t < s.len() && #[trigger] s[t].x - min_x(s) == j % w && s[t].y - min_y(s) == j / w;
        assert((j / w) * w == w * (j / w)) by (nonlinear_arith);
        assert(place(s, t) == j);
    }
}

/// The column and row of the place of a tile.
pub proof fn lemma_place_coords(s: Seq<Vector>, t: int)
    requires
        0 <= t < s.len(),
        box_width(s) >= 1,
        min_x(s) <= s[t].x <= max_x(s),
        min_y(s) <= s[t].y,
    ensures
        place(s, t) % (box_width(s) + 1) == s[t].x - min_x(s),
        place(s, t) / (box_width(s) + 1) == s[t].y - min_y(s),
{
    let w = box_width(s) + 1;
    let x = s[t].x - min_x(s);
    let y = s[t].y - min_y(s);
    assert(y * w == w * y) by (nonlinear_arith);
    lemma_index_coords(x, y, w);
}

impl Polyomino<1> {
    /// The monomino.
    pub fn monomino() -> (r: Self)
        ensures
            arranged(r.vectors(), seq![Vector { x: 0i8, y: 0i8 }]),
    {
        let arr = [Vector { x: 0, y: 0 }];
        proof {
            reveal_with_fuel(min_x, 3);
            reveal_with_fuel(min_y, 3);
            assert(arr@ == seq![Vector { x: 0i8, y: 0i8 }]);
        }
        Self::new(arr)
    }

}

impl Polyomino<2> {
    /// The domino.
    pub fn domino() -> (r: Self)
        ensures
            arranged(r.vectors(), seq![Vector { x: 0i8, y: 0i8 }, Vector { x: 0i8, y: -1i8 }]),
    {
        let arr = [Vector { x: 0, y: 0 }, Vector { x: 0, y: -1 }];
        proof {
            reveal_with_fuel(min_x, 4);
            reveal_with_fuel(min_y, 4);
            assert(arr@ == seq![Vector { x: 0i8, y: 0i8 }, Vector { x: 0i8, y: -1i8 }]);
        }
        Self::new(arr)
    }

}

impl Polyomino<3> {
    /// The I tromino.
    pub fn i_tromino() -> (r: Self)
        ensures
            arranged(r.vectors(), seq![Vector { x: 1i8, y: 0i8 }, Vector { x: 0i8, y: 0i8 }, Vector { x: -1i8, y: 0i8 }]),
    {
        let arr = [Vector { x: 1, y: 0 }, Vector { x: 0, y: 0 }, Vector { x: -1, y: 0 }];
        proof {
            reveal_with_fuel(min_x, 5);
            reveal_with_fuel(min_y, 5);
            assert(arr@ == seq![Vector { x: 1i8, y: 0i8 }, Vector { x: 0i8, y: 0i8 }, Vector { x: -1i8, y: 0i8 }]);
        }
        Self::new(arr)
    }

    /// The V tromino.
    pub fn v_tromino() -> (r: Self)
        ensures
            arranged(r.vectors(), seq![Vector { x: 1i8, y: 0i8 }, Vector { x: 0i8, y: 0i8 }, Vector { x: 0i8, y: -1i8 }]),
    {
        let arr = [Vector { x: 1, y: 0 }, Vector { x: 0, y: 0 }, Vector { x: 0, y: -1 }];
        proof {
            reveal_with_fuel(min_x, 5);
            reveal_with_fuel(min_y, 5);
            assert(arr@ == seq![Vector { x: 1i8, y: 0i8 }, Vector { x: 0i8, y: 0i8 }, Vector { x: 0i8, y: -1i8 }]);
        }
        Self::new(arr)
    }

}

impl Polyomino<4> {
    /// The I tetromino.
    pub fn i_tetromino() -> (r: Self)
        ensures
            arranged(r.vectors(), seq![Vector { x: 1i8, y: 0i8 }, Vector { x: 0i8, y: 0i8 }, Vector { x: -1i8, y: 0i8 }, Vector { x: -2i8, y: 0i8 }]),
    {
        let arr = [Vector { x: 1, y: 0 }, Vector { x: 0, y: 0 }, Vector { x: -1, y: 0 }, Vector { x: -2, y: 0 }];
        proof {
            reveal_with_fuel(min_x, 6);
            reveal_with_fuel(min_y, 6);
            assert(arr@ == seq![Vector { x: 1i8, y: 0i8 }, Vector { x: 0i8, y: 0i8 }, Vector { x: -1i8, y: 0i8 }, Vector { x: -2i8, y: 0i8 }]);
        }
        Self::new(arr)
    }

    /// The O tetromino.
    pub fn o_tetromino() -> (r: Self)
        ensures
            arranged(r.vectors(), seq![Vector { x: 0i8, y: 0i8 }, Vector { x: 1i8, y: 0i8 }, Vector { x: 1i8, y: -1i8 }, Vector { x: 0i8, y: -1i8 }]),
    {
        let arr = [Vector { x: 0, y: 0 }, Vector { x: 1, y: 0 }, Vector { x: 1, y: -1 }, Vector { x: 0, y: -1 }];
        proof {
            reveal_with_fuel(min_x, 6);
            reveal_with_fuel(min_y, 6);
            assert(arr@ == seq![Vector { x: 0i8, y: 0i8 }, Vector { x: 1i8, y: 0i8 }, Vector { x: 1i8, y: -1i8 }, Vector { x: 0i8, y: -1i8 }]);
        }
        Self::new(arr)
    }

    /// The T tetromino.
    pub fn t_tetromino() -> (r: Self)
        ensures
            arranged(r.vectors(), seq![Vector { x: 1i8, y: 0i8 }, Vector { x: 0i8, y: 0i8 }, Vector { x: -1i8, y: 0i8 }, Vector { x: 0i8, y: 1i8 }]),
    {
        let arr = [Vector { x: 1, y: 0 }, Vector { x: 0, y: 0 }, Vector { x: -1, y: 0 }, Vector { x: 0, y: 1 }];
        proof {
            reveal_with_fuel(min_x, 6);
            reveal_with_fuel(min_y, 6);
            assert(arr@ == seq![Vector { x: 1i8, y: 0i8 }, Vector { x: 0i8, y: 0i8 }, Vector { x: -1i8, y: 0i8 }, Vector { x: 0i8, y: 1i8 }]);
        }
        Self::new(arr)
    }

    /// The J tetromino.
    pub fn j_tetromino() -> (r: Self)
        ensures
            arranged(r.vectors(), seq![Vector { x: -1i8, y: 0i8 }, Vector { x: 0i8, y: 0i8 }, Vector { x: 0i8, y: -1i8 }, Vector { x: 0i8, y: -2i8 }]),
    {
        let arr = [Vector { x: -1, y: 0 }, Vector { x: 0, y: 0 }, Vector { x: 0, y: -1 }, Vector { x: 0, y: -2 }];
        proof {
            reveal_with_fuel(min_x, 6);
            reveal_with_fuel(min_y, 6);
            assert(arr@ == seq![Vector { x: -1i8, y: 0i8 }, Vector { x: 0i8, y: 0i8 }, Vector { x: 0i8, y: -1i8 }, Vector { x: 0i8, y: -2i8 }]);
        }
        Self::new(arr)
    }

    /// The L tetromino.
    pub fn l_tetromino() -> (r: Self)
        ensures
            arranged(r.vectors(), seq![Vector { x: 1i8, y: 0i8 }, Vector { x: 0i8, y: 0i8 }, Vector { x: 0i8, y: -1i8 }, Vector { x: 0i8, y: -2i8 }]),
    {
        let arr = [Vector { x: 1, y: 0 }, Vector { x: 0, y: 0 }, Vector { x: 0, y: -1 }, Vector { x: 0, y: -2 }];
        proof {
            reveal_with_fuel(min_x, 6);
            reveal_with_fuel(min_y, 6);
            assert(arr@ == seq![Vector { x: 1i8, y: 0i8 }, Vector { x: 0i8, y: 0i8 }, Vector { x: 0i8, y: -1i8 }, Vector { x: 0i8, y: -2i8 }]);
        }
        Self::new(arr)
    }

    /// The S tetromino.
    pub fn s_tetromino() -> (r: Self)
        ensures
            arranged(r.vectors(), seq![Vector { x: -1i8, y: 0i8 }, Vector { x: 0i8, y: 0i8 }, Vector { x: 0i8, y: -1i8 }, Vector { x: 1i8, y: -1i8 }]),
    {
        let arr = [Vector { x: -1, y: 0 }, Vector { x: 0, y: 0 }, Vector { x: 0, y: -1 }, Vector { x: 1, y: -1 }];
        proof {
            reveal_with_fuel(min_x, 6);
            reveal_with_fuel(min_y, 6);
            assert(arr@ == seq![Vector { x: -1i8, y: 0i8 }, Vector { x: 0i8, y: 0i8 }, Vector { x: 0i8, y: -1i8 }, Vector { x: 1i8, y: -1i8 }]);
        }
        Self::new(arr)
    }

    /// The Z tetromino.
    pub fn z_tetromino() -> (r: Self)
        ensures
            arranged(r.vectors(), seq![Vector { x: 1i8, y: 0i8 }, Vector { x: 0i8, y: 0i8 }, Vector { x: 0i8, y: -1i8 }, Vector { x: -1i8, y: -1i8 }]),
    {
        let arr = [Vector { x: 1, y: 0 }, Vector { x: 0, y: 0 }, Vector { x: 0, y: -1 }, Vector { x: -1, y: -1 }];
        proof {
            reveal_with_fuel(min_x, 6);
            reveal_with_fuel(min_y, 6);
            assert(arr@ == seq![Vector { x: 1i8, y: 0i8 }, Vector { x: 0i8, y: 0i8 }, Vector { x: 0i8, y: -1i8 }, Vector { x: -1i8, y: -1i8 }]);
        }
        Self::new(arr)
    }

}

impl Polyomino<5> {
    /// The F pentomino.
    pub fn f_pentomino() -> (r: Self)
        ensures
            arranged(r.vectors(), seq![Vector { x: 0i8, y: 0i8 }, Vector { x: 0i8, y: -1i8 }, Vector { x: 1i8, y: -1i8 }, Vector { x: -1i8, y: 0i8 }, Vector { x: 0i8, y: 1i8 }]),
    {
        let arr = [Vector { x: 0, y: 0 }, Vector { x: 0, y: -1 }, Vector { x: 1, y: -1 }, Vector { x: -1, y: 0 }, Vector { x: 0, y: 1 }];
        proof {
            reveal_with_fuel(min_x, 7);
            reveal_with_fuel(min_y, 7);
            assert(arr@ == seq![Vector { x: 0i8, y: 0i8 }, Vector { x: 0i8, y: -1i8 }, Vector { x: 1i8, y: -1i8 }, Vector { x: -1i8, y: 0i8 }, Vector { x: 0i8, y: 1i8 }]);
        }
        Self::new(arr)
    }

    /// The I pentomino.
    pub fn i_pentomino() -> (r: Self)
        ensures
            arranged(r.vectors(), seq![Vector { x: 0i8, y: 0i8 }, Vector { x: 0i8, y: -1i8 }, Vector { x: 0i8, y: -2i8 }, Vector { x: 0i8, y: 1i8 }, Vector { x: 0i8, y: 2i8 }]),
    {
        let arr = [Vector { x: 0, y: 0 }, Vector { x: 0, y: -1 }, Vector { x: 0, y: -2 }, Vector { x: 0, y: 1 }, Vector { x: 0, y: 2 }];
        proof {
            reveal_with_fuel(min_x, 7);
            reveal_with_fuel(min_y, 7);
            assert(arr@ == seq![Vector { x: 0i8, y: 0i8 }, Vector { x: 0i8, y: -1i8 }, Vector { x: 0i8, y: -2i8 }, Vector { x: 0i8, y: 1i8 }, Vector { x: 0i8, y: 2i8 }]);
        }
        Self::new(arr)
    }

    /// The L pentomino.
    pub fn l_pentomino() -> (r: Self)
        ensures
            arranged(r.vectors(), seq![Vector { x: 0i8, y: 0i8 }, Vector { x: 0i8, y: -1i8 }, Vector { x: 0i8, y: -2i8 }, Vector { x: 0i8, y: 1i8 }, Vector { x: 1i8, y: 1i8 }]),
    {
        let arr = [Vector { x: 0, y: 0 }, Vector { x: 0, y: -1 }, Vector { x: 0, y: -2 }, Vector { x: 0, y: 1 }, Vector { x: 1, y: 1 }];
        proof {
            reveal_with_fuel(min_x, 7);
            reveal_with_fuel(min_y, 7);
            assert(arr@ == seq![Vector { x: 0i8, y: 0i8 }, Vector { x: 0i8, y: -1i8 }, Vector { x: 0i8, y: -2i8 }, Vector { x: 0i8, y: 1i8 }, Vector { x: 1i8, y: 1i8 }]);
        }
        Self::new(arr)
    }

    /// The N pentomino.
    pub fn n_pentomino() -> (r: Self)
        ensures
            arranged(r.vectors(), seq![Vector { x: 0i8, y: 0i8 }, Vector { x: 0i8, y: -1i8 }, Vector { x: 0i8, y: -2i8 }, Vector { x: -1i8, y: 0i8 }, Vector { x: -1i8, y: 1i8 }]),
    {
        let arr = [Vector { x: 0, y: 0 }, Vector { x: 0, y: -1 }, Vector { x: 0, y: -2 }, Vector { x: -1, y: 0 }, Vector { x: -1, y: 1 }];
        proof {
            reveal_with_fuel(min_x, 7);
            reveal_with_fuel(min_y, 7);
            assert(arr@ == seq![Vector { x: 0i8, y: 0i8 }, Vector { x: 0i8, y: -1i8 }, Vector { x: 0i8, y: -2i8 }, Vector { x: -1i8, y: 0i8 }, Vector { x: -1i8, y: 1i8 }]);
        }
        Self::new(arr)
    }

    /// The P pentomino.
    pub fn p_pentomino() -> (r: Self)
        ensures
            arranged(r.vectors(), seq![Vector { x: 0i8, y: -1i8 }, Vector { x: 0i8, y: 0i8 }, Vector { x: 1i8, y: -1i8 }, Vector { x: 1i8, y: 0i8 }, Vector { x: 0i8, y: 1i8 }]),
    {
        let arr = [Vector { x: 0, y: -1 }, Vector { x: 0, y: 0 }, Vector { x: 1, y: -1 }, Vector { x: 1, y: 0 }, Vector { x: 0, y: 1 }];
        proof {
            reveal_with_fuel(min_x, 7);
            reveal_with_fuel(min_y, 7);
            assert(arr@ == seq![Vector { x: 0i8, y: -1i8 }, Vector { x: 0i8, y: 0i8 }, Vector { x: 1i8, y: -1i8 }, Vector { x: 1i8, y: 0i8 }, Vector { x: 0i8, y: 1i8 }]);
        }
        Self::new(arr)
    }

    /// The T pentomino.
    pub fn t_pentomino() -> (r: Self)
        ensures
            arranged(r.vectors(), seq![Vector { x: 0i8, y: 0i8 }, Vector { x: 0i8, y: -1i8 }, Vector { x: 1i8, y: -1i8 }, Vector { x: -1i8, y: -1i8 }, Vector { x: 0i8, y: 1i8 }]),
    {
        let arr = [Vector { x: 0, y: 0 }, Vector { x: 0, y: -1 }, Vector { x: 1, y: -1 }, Vector { x: -1, y: -1 }, Vector { x: 0, y: 1 }];
        proof {
            reveal_with_fuel(min_x, 7);
            reveal_with_fuel(min_y, 7);
            assert(arr@ == seq![Vector { x: 0i8, y: 0i8 }, Vector { x: 0i8, y: -1i8 }, Vector { x: 1i8, y: -1i8 }, Vector { x: -1i8, y: -1i8 }, Vector { x: 0i8, y: 1i8 }]);
        }
        Self::new(arr)
    }

    /// The U pentomino.
    pub fn u_pentomino() -> (r: Self)
        ensures
            arranged(r.vectors(), seq![Vector { x: 0i8, y: 0i8 }, Vector { x: 1i8, y: -1i8 }, Vector { x: 1i8, y: 0i8 }, Vector { x: -1i8, y: -1i8 }, Vector { x: -1i8, y: 0i8 }]),
    {
        let arr = [Vector { x: 0, y: 0 }, Vector { x: 1, y: -1 }, Vector { x: 1, y: 0 }, Vector { x: -1, y: -1 }, Vector { x: -1, y: 0 }];
        proof {
            reveal_with_fuel(min_x, 7);
            reveal_with_fuel(min_y, 7);
            assert(arr@ == seq![Vector { x: 0i8, y: 0i8 }, Vector { x: 1i8, y: -1i8 }, Vector { x: 1i8, y: 0i8 }, Vector { x: -1i8, y: -1i8 }, Vector { x: -1i8, y: 0i8 }]);
        }
        Self::new(arr)
    }

    /// The V pentomino.
    pub fn v_pentomino() -> (r: Self)
        ensures
            arranged(r.vectors(), seq![Vector { x: 0i8, y: 0i8 }, Vector { x: 0i8, y: -1i8 }, Vector { x: 0i8, y: -2i8 }, Vector { x: -1i8, y: 0i8 }, Vector { x: -2i8, y: 0i8 }]),
    {
        let arr = [Vector { x: 0, y: 0 }, Vector { x: 0, y: -1 }, Vector { x: 0, y: -2 }, Vector { x: -1, y: 0 }, Vector { x: -2, y: 0 }];
        proof {
            reveal_with_fuel(min_x, 7);
            reveal_with_fuel(min_y, 7);
            assert(arr@ == seq![Vector { x: 0i8, y: 0i8 }, Vector { x: 0i8, y: -1i8 }, Vector { x: 0i8, y: -2i8 }, Vector { x: -1i8, y: 0i8 }, Vector { x: -2i8, y: 0i8 }]);
        }
        Self::new(arr)
    }

    /// The W pentomino.
    pub fn w_pentomino() -> (r: Self)
        ensures
            arranged(r.vectors(), seq![Vector { x: 0i8, y: 0i8 }, Vector { x: 1i8, y: 0i8 }, Vector { x: 1i8, y: -1i8 }, Vector { x: 0i8, y: 1i8 }, Vector { x: -1i8, y: 1i8 }]),
    {
        let arr = [Vector { x: 0, y: 0 }, Vector { x: 1, y: 0 }, Vector { x: 1, y: -1 }, Vector { x: 0, y: 1 }, Vector { x: -1, y: 1 }];
        proof {
            reveal_with_fuel(min_x, 7);
            reveal_with_fuel(min_y, 7);
            assert(arr@ == seq![Vector { x: 0i8, y: 0i8 }, Vector { x: 1i8, y: 0i8 }, Vector { x: 1i8, y: -1i8 }, Vector { x: 0i8, y: 1i8 }, Vector { x: -1i8, y: 1i8 }]);
        }
        Self::new(arr)
    }

    /// The X pentomino.
    pub fn x_pentomino() -> (r: Self)
        ensures
            arranged(r.vectors(), seq![Vector { x: 0i8, y: 0i8 }, Vector { x: 0i8, y: -1i8 }, Vector { x: 1i8, y: 0i8 }, Vector { x: 0i8, y: 1i8 }, Vector { x: -1i8, y: 0i8 }]),
    {
        let arr = [Vector { x: 0, y: 0 }, Vector { x: 0, y: -1 }, Vector { x: 1, y: 0 }, Vector { x: 0, y: 1 }, Vector { x: -1, y: 0 }];
        proof {
            reveal_with_fuel(min_x, 7);
            reveal_with_fuel(min_y, 7);
            assert(arr@ == seq![Vector { x: 0i8, y: 0i8 }, Vector { x: 0i8, y: -1i8 }, Vector { x: 1i8, y: 0i8 }, Vector { x: 0i8, y: 1i8 }, Vector { x: -1i8, y: 0i8 }]);
        }
        Self::new(arr)
    }

    /// The Y pentomino.
    pub fn y_pentomino() -> (r: Self)
        ensures
            arranged(r.vectors(), seq![Vector { x: 0i8, y: 0i8 }, Vector { x: 0i8, y: -1i8 }, Vector { x: 1i8, y: 0i8 }, Vector { x: -1i8, y: 0i8 }, Vector { x: -2i8, y: 0i8 }]),
    {
        let arr = [Vector { x: 0, y: 0 }, Vector { x: 0, y: -1 }, Vector { x: 1, y: 0 }, Vector { x: -1, y: 0 }, Vector { x: -2, y: 0 }];
        proof {
            reveal_with_fuel(min_x, 7);
            reveal_with_fuel(min_y, 7);
            assert(arr@ == seq![Vector { x: 0i8, y: 0i8 }, Vector { x: 0i8, y: -1i8 }, Vector { x: 1i8, y: 0i8 }, Vector { x: -1i8, y: 0i8 }, Vector { x: -2i8, y: 0i8 }]);
        }
        Self::new(arr)
    }

    /// The Z pentomino.
    pub fn z_pentomino() -> (r: Self)
        ensures
            arranged(r.vectors(), seq![Vector { x: 0i8, y: 0i8 }, Vector { x: 0i8, y: -1i8 }, Vector { x: -1i8, y: -1i8 }, Vector { x: 0i8, y: 1i8 }, Vector { x: 1i8, y: 1i8 }]),
    {
        let arr = [Vector { x: 0, y: 0 }, Vector { x: 0, y: -1 }, Vector { x: -1, y: -1 }, Vector { x: 0, y: 1 }, Vector { x: 1, y: 1 }];
        proof {
            reveal_with_fuel(min_x, 7);
            reveal_with_fuel(min_y, 7);
            assert(arr@ == seq![Vector { x: 0i8, y: 0i8 }, Vector { x: 0i8, y: -1i8 }, Vector { x: -1i8, y: -1i8 }, Vector { x: 0i8, y: 1i8 }, Vector { x: 1i8, y: 1i8 }]);
        }
        Self::new(arr)
    }

}
/// The most vertices that the outline of a polyomino of `n` tiles is drawn with: four per tile
/// and four more.
pub open spec fn outline_limit(n: int) -> int {
    if n <= 0x1000_0000 {
        4 * n + 4
    } else {
        0x4000_0004
    }
}

/// A rectangle as its north west corner, width and height.
pub open spec fn rectangle_parts(r: Rectangle) -> (int, int, int, int) {
    (r.north_west.0.x as int, r.north_west.0.y as int, r.width as int, r.height as int)
}

impl<const TILES: usize> Shape for Polyomino<TILES> {
    /// The polyomino has a tile, its tiles are in order by `x`, then by `y`, and they lie far
    /// enough inside the bounds of a byte for their neighbours and corners to do too.
    open spec fn well_formed(&self) -> bool {
        &&& TILES > 0
        &&& tiles_sorted(self@)
        &&& inside_bounds(self@)
    }

    /// Each coordinate of each tile lies in `-127..=126`, so that the tiles beside it have
    /// coordinates that are bytes too.
    open spec fn decomposable(&self) -> bool {
        decomposable_tiles(self@)
    }

    /// The vertices where the outline turns, walking it clockwise from the north west corner of
    /// the first tile, until the walk is back there, which it reaches before giving
    /// `outline_limit` vertices.
    fn draw_outline(&self) -> (r: Vec<DynamicVertex>)
        ensures
            r@.len() < outline_limit(TILES as int),
            r@.len() == outline_walk(self@, Some((self@[0].xy(), Corner::NorthWest)), outline_limit(TILES as int) as nat).len(),
            forall|k: int|
                0 <= k < r@.len() ==> (#[trigger] r@[k]).xy() == outline_walk(
                    self@,
                    Some((self@[0].xy(), Corner::NorthWest)),
                    outline_limit(TILES as int) as nat,
                )[k],
    {
        let limit: usize = if TILES <= 0x1000_0000 {
            4 * TILES + 4
        } else {
            0x4000_0004
        };
        proof {
            law_outline_closes(self@, outline_limit(TILES as int) as nat);
        }
        outline_vertices(self.0, limit)
    }

    /// The rectangles that the polyomino breaks into, taken one after the other from its last
    /// remaining tile (see `rectangles_of`); their areas add up to the number of tiles.
    fn deconstruct_into_rectangles(&self) -> (r: Vec<Rectangle>)
        ensures
            r@.len() == rectangles_of(self@).len(),
            forall|k: int| 0 <= k < r@.len() ==> rectangle_parts(#[trigger] r@[k]) == rectangles_of(self@)[k],
            total_area(rectangles_of(self@)) == TILES,
            forall|t: int|
                #![trigger self@[t]]
                0 <= t < TILES ==> exists|k: int|
                    0 <= k < r@.len() && in_rectangle(self@[t], #[trigger] rectangles_of(self@)[k]),
            self@.no_duplicates() ==> forall|c: DynamicTile, k: int|
                0 <= k < r@.len() && #[trigger] in_rectangle(c, rectangles_of(self@)[k]) ==> self@.contains(c),
            self@.no_duplicates() ==> forall|c: DynamicTile, j: int, k: int|
                0 <= j < r@.len() && 0 <= k < r@.len() && #[trigger] in_rectangle(c, rectangles_of(self@)[j])
                    && #[trigger] in_rectangle(c, rectangles_of(self@)[k]) ==> j == k,
    {
        let ghost whole = rectangles_of(self@);
        let mut remaining: Vec<DynamicTile> = Vec::new();
        let mut i: usize = 0;
        while i < TILES
            invariant
                i <= TILES,
                self@.len() == TILES,
                remaining@ == self@.subrange(0, i as int),
            decreases TILES - i,
        {
            remaining.push(self.0[i]);
            i = i + 1;
        }
        assert(remaining@ == self@);
        let mut result: Vec<Rectangle> = Vec::new();
        loop
            invariant_except_break
                whole.len() == result@.len() + rectangles_of(remaining@).len(),
                forall|k: int|
                    0 <= k < rectangles_of(remaining@).len() ==> #[trigger] rectangles_of(remaining@)[k] == whole[result@.len() + k],
            invariant
                decomposable_tiles(remaining@),
                whole == rectangles_of(self@),
                forall|k: int| 0 <= k < result@.len() ==> rectangle_parts(#[trigger] result@[k]) == whole[k],
            ensures
                whole.len() == result@.len(),
            decreases remaining@.len(),
        {
            let ghost before = remaining@;
            let ghost rs = rectangles_of(before);
            match take_rectangle_tiles(&mut remaining) {
                None => {
                    break;
                },
                Some(rect) => {
                    proof {
                        lemma_take_rectangle_len(before);
                        let rest = rectangles_of(remaining@);
                        assert(rs == seq![rectangle_parts(rect)] + rest);
                        assert(rs[0] == whole[result@.len() as int]);
                        assert forall|k: int| 0 <= k < rest.len() implies #[trigger] rest[k] == whole[result@.len() + 1 + k] by {
                            assert(rest[k] == rs[k + 1]);
                        }
                    }
                    let ghost prev = result@;
                    result.push(rect);
                    proof {
                        assert(result@[prev.len() as int] == rect);
                    }
                },
            }
        }
        proof {
            law_rectangles_area(self@);
            assert forall|t: int| #![trigger self@[t]] 0 <= t < TILES implies exists|k: int|
                0 <= k < result@.len() && in_rectangle(self@[t], #[trigger] rectangles_of(self@)[k]) by {
                assert(self@.contains(self@[t]));
                law_rectangles_cover(self@, self@[t]);
            }
            if self@.no_duplicates() {
                assert forall|c: DynamicTile, j: int, k: int|
                    0 <= j < result@.len() && 0 <= k < result@.len() && #[trigger] in_rectangle(c, rectangles_of(self@)[j])
                        && #[trigger] in_rectangle(c, rectangles_of(self@)[k]) implies j == k by {
                    law_rectangles_exact(self@, c, j, k);
                }
                assert forall|c: DynamicTile, k: int|
                    0 <= k < result@.len() && #[trigger] in_rectangle(c, rectangles_of(self@)[k]) implies self@.contains(c) by {
                    law_rectangles_exact(self@, c, k, k);
                }
            }
        }
        result
    }
}

impl Polyomino<6> {
    /// The I hexomino: the tiles of the ascii picture `######`.
    pub fn i_hexomino() -> (r: Self)
        ensures
            arranged(r.vectors(), seq![Vector { x: 0i8, y: 0i8 }, Vector { x: 1i8, y: 0i8 }, Vector { x: 2i8, y: 0i8 }, Vector { x: 3i8, y: 0i8 }, Vector { x: 4i8, y: 0i8 }, Vector { x: 5i8, y: 0i8 }]),
    {
        let arr = [Vector { x: 0, y: 0 }, Vector { x: 1, y: 0 }, Vector { x: 2, y: 0 }, Vector { x: 3, y: 0 }, Vector { x: 4, y: 0 }, Vector { x: 5, y: 0 }];
        proof {
            reveal_with_fuel(min_x, 8);
            reveal_with_fuel(min_y, 8);
            assert(arr@ == seq![Vector { x: 0i8, y: 0i8 }, Vector { x: 1i8, y: 0i8 }, Vector { x: 2i8, y: 0i8 }, Vector { x: 3i8, y: 0i8 }, Vector { x: 4i8, y: 0i8 }, Vector { x: 5i8, y: 0i8 }]);
        }
        Self::new(arr)
    }

    /// The J hexomino: the tiles of the ascii picture `#....\n\n     #####`.
    pub fn j_hexomino() -> (r: Self)
        ensures
            arranged(r.vectors(), seq![Vector { x: 0i8, y: 0i8 }, Vector { x: 0i8, y: 2i8 }, Vector { x: 1i8, y: 2i8 }, Vector { x: 2i8, y: 2i8 }, Vector { x: 3i8, y: 2i8 }, Vector { x: 4i8, y: 2i8 }]),
    {
        let arr = [Vector { x: 0, y: 0 }, Vector { x: 0, y: 2 }, Vector { x: 1, y: 2 }, Vector { x: 2, y: 2 }, Vector { x: 3, y: 2 }, Vector { x: 4, y: 2 }];
        proof {
            reveal_with_fuel(min_x, 8);
            reveal_with_fuel(min_y, 8);
            assert(arr@ == seq![Vector { x: 0i8, y: 0i8 }, Vector { x: 0i8, y: 2i8 }, Vector { x: 1i8, y: 2i8 }, Vector { x: 2i8, y: 2i8 }, Vector { x: 3i8, y: 2i8 }, Vector { x: 4i8, y: 2i8 }]);
        }
        Self::new(arr)
    }

}

impl Polyomino<4> {
    /// The seven tetrominoes.
    pub fn tetrominos() -> (r: [Self; 7])
        ensures
            arranged(r@[0].vectors(), seq![Vector { x: 1i8, y: 0i8 }, Vector { x: 0i8, y: 0i8 }, Vector { x: -1i8, y: 0i8 }, Vector { x: -2i8, y: 0i8 }]),
            arranged(r@[1].vectors(), seq![Vector { x: 0i8, y: 0i8 }, Vector { x: 1i8, y: 0i8 }, Vector { x: 1i8, y: -1i8 }, Vector { x: 0i8, y: -1i8 }]),
            arranged(r@[2].vectors(), seq![Vector { x: 1i8, y: 0i8 }, Vector { x: 0i8, y: 0i8 }, Vector { x: -1i8, y: 0i8 }, Vector { x: 0i8, y: 1i8 }]),
            arranged(r@[3].vectors(), seq![Vector { x: -1i8, y: 0i8 }, Vector { x: 0i8, y: 0i8 }, Vector { x: 0i8, y: -1i8 }, Vector { x: 0i8, y: -2i8 }]),
            arranged(r@[4].vectors(), seq![Vector { x: 1i8, y: 0i8 }, Vector { x: 0i8, y: 0i8 }, Vector { x: 0i8, y: -1i8 }, Vector { x: 0i8, y: -2i8 }]),
            arranged(r@[5].vectors(), seq![Vector { x: -1i8, y: 0i8 }, Vector { x: 0i8, y: 0i8 }, Vector { x: 0i8, y: -1i8 }, Vector { x: 1i8, y: -1i8 }]),
            arranged(r@[6].vectors(), seq![Vector { x: 1i8, y: 0i8 }, Vector { x: 0i8, y: 0i8 }, Vector { x: 0i8, y: -1i8 }, Vector { x: -1i8, y: -1i8 }]),
    {
        [Self::i_tetromino(), Self::o_tetromino(), Self::t_tetromino(), Self::j_tetromino(), Self::l_tetromino(), Self::s_tetromino(), Self::z_tetromino()]
    }

    /// The names of the tetrominoes, in the order of `tetrominos`.
    pub fn tetromino_names() -> (r: [&'static str; 7])
        ensures
            r@[0]@ == seq!['I'],
            r@[1]@ == seq!['O'],
            r@[2]@ == seq!['T'],
            r@[3]@ == seq!['J'],
            r@[4]@ == seq!['L'],
            r@[5]@ == seq!['S'],
            r@[6]@ == seq!['Z'],
    {
        proof {
            reveal_strlit("I");
            reveal_strlit("J");
            reveal_strlit("L");
            reveal_strlit("O");
            reveal_strlit("S");
            reveal_strlit("T");
            reveal_strlit("Z");
        }
        ["I", "O", "T", "J", "L", "S", "Z"]
    }

    /// The five free tetrominoes.
    pub fn free_tetrominos() -> (r: [Self; 5])
        ensures
            arranged(r@[0].vectors(), seq![Vector { x: 1i8, y: 0i8 }, Vector { x: 0i8, y: 0i8 }, Vector { x: -1i8, y: 0i8 }, Vector { x: -2i8, y: 0i8 }]),
            arranged(r@[1].vectors(), seq![Vector { x: 0i8, y: 0i8 }, Vector { x: 1i8, y: 0i8 }, Vector { x: 1i8, y: -1i8 }, Vector { x: 0i8, y: -1i8 }]),
            arranged(r@[2].vectors(), seq![Vector { x: 1i8, y: 0i8 }, Vector { x: 0i8, y: 0i8 }, Vector { x: -1i8, y: 0i8 }, Vector { x: 0i8, y: 1i8 }]),
            arranged(r@[3].vectors(), seq![Vector { x: 1i8, y: 0i8 }, Vector { x: 0i8, y: 0i8 }, Vector { x: 0i8, y: -1i8 }, Vector { x: 0i8, y: -2i8 }]),
            arranged(r@[4].vectors(), seq![Vector { x: -1i8, y: 0i8 }, Vector { x: 0i8, y: 0i8 }, Vector { x: 0i8, y: -1i8 }, Vector { x: 1i8, y: -1i8 }]),
    {
        [Self::i_tetromino(), Self::o_tetromino(), Self::t_tetromino(), Self::l_tetromino(), Self::s_tetromino()]
    }

    /// The names of the free tetrominoes, in the order of `free_tetrominos`.
    pub fn free_tetromino_names() -> (r: [&'static str; 5])
        ensures
            r@[0]@ == seq!['I'],
            r@[1]@ == seq!['O'],
            r@[2]@ == seq!['T'],
            r@[3]@ == seq!['L'],
            r@[4]@ == seq!['S'],
    {
        proof {
            reveal_strlit("I");
            reveal_strlit("L");
            reveal_strlit("O");
            reveal_strlit("S");
            reveal_strlit("T");
        }
        ["I", "O", "T", "L", "S"]
    }

}

impl Polyomino<5> {
    /// The twelve free pentominoes.
    pub fn free_pentominos() -> (r: [Self; 12])
        ensures
            arranged(r@[0].vectors(), seq![Vector { x: 0i8, y: 0i8 }, Vector { x: 0i8, y: -1i8 }, Vector { x: 1i8, y: -1i8 }, Vector { x: -1i8, y: 0i8 }, Vector { x: 0i8, y: 1i8 }]),
            arranged(r@[1].vectors(), seq![Vector { x: 0i8, y: 0i8 }, Vector { x: 0i8, y: -1i8 }, Vector { x: 0i8, y: -2i8 }, Vector { x: 0i8, y: 1i8 }, Vector { x: 0i8, y: 2i8 }]),
            arranged(r@[2].vectors(), seq![Vector { x: 0i8, y: 0i8 }, Vector { x: 0i8, y: -1i8 }, Vector { x: 0i8, y: -2i8 }, Vector { x: 0i8, y: 1i8 }, Vector { x: 1i8, y: 1i8 }]),
            arranged(r@[3].vectors(), seq![Vector { x: 0i8, y: 0i8 }, Vector { x: 0i8, y: -1i8 }, Vector { x: 0i8, y: -2i8 }, Vector { x: -1i8, y: 0i8 }, Vector { x: -1i8, y: 1i8 }]),
            arranged(r@[4].vectors(), seq![Vector { x: 0i8, y: -1i8 }, Vector { x: 0i8, y: 0i8 }, Vector { x: 1i8, y: -1i8 }, Vector { x: 1i8, y: 0i8 }, Vector { x: 0i8, y: 1i8 }]),
            arranged(r@[5].vectors(), seq![Vector { x: 0i8, y: 0i8 }, Vector { x: 0i8, y: -1i8 }, Vector { x: 1i8, y: -1i8 }, Vector { x: -1i8, y: -1i8 }, Vector { x: 0i8, y: 1i8 }]),
            arranged(r@[6].vectors(), seq![Vector { x: 0i8, y: 0i8 }, Vector { x: 1i8, y: -1i8 }, Vector { x: 1i8, y: 0i8 }, Vector { x: -1i8, y: -1i8 }, Vector { x: -1i8, y: 0i8 }]),
            arranged(r@[7].vectors(), seq![Vector { x: 0i8, y: 0i8 }, Vector { x: 0i8, y: -1i8 }, Vector { x: 0i8, y: -2i8 }, Vector { x: -1i8, y: 0i8 }, Vector { x: -2i8, y: 0i8 }]),
            arranged(r@[8].vectors(), seq![Vector { x: 0i8, y: 0i8 }, Vector { x: 1i8, y: 0i8 }, Vector { x: 1i8, y: -1i8 }, Vector { x: 0i8, y: 1i8 }, Vector { x: -1i8, y: 1i8 }]),
            arranged(r@[9].vectors(), seq![Vector { x: 0i8, y: 0i8 }, Vector { x: 0i8, y: -1i8 }, Vector { x: 1i8, y: 0i8 }, Vector { x: 0i8, y: 1i8 }, Vector { x: -1i8, y: 0i8 }]),
            arranged(r@[10].vectors(), seq![Vector { x: 0i8, y: 0i8 }, Vector { x: 0i8, y: -1i8 }, Vector { x: 1i8, y: 0i8 }, Vector { x: -1i8, y: 0i8 }, Vector { x: -2i8, y: 0i8 }]),
            arranged(r@[11].vectors(), seq![Vector { x: 0i8, y: 0i8 }, Vector { x: 0i8, y: -1i8 }, Vector { x: -1i8, y: -1i8 }, Vector { x: 0i8, y: 1i8 }, Vector { x: 1i8, y: 1i8 }]),
    {
        [Self::f_pentomino(), Self::i_pentomino(), Self::l_pentomino(), Self::n_pentomino(), Self::p_pentomino(), Self::t_pentomino(), Self::u_pentomino(), Self::v_pentomino(), Self::w_pentomino(), Self::x_pentomino(), Self::y_pentomino(), Self::z_pentomino()]
    }

    /// The names of the free pentominoes, in the order of `free_pentominos`.
    pub fn free_pentomino_names() -> (r: [&'static str; 12])
        ensures
            r@[0]@ == seq!['F'],
            r@[1]@ == seq!['I'],
            r@[2]@ == seq!['L'],
            r@[3]@ == seq!['N'],
            r@[4]@ == seq!['P'],
            r@[5]@ == seq!['T'],
            r@[6]@ == seq!['U'],
            r@[7]@ == seq!['V'],
            r@[8]@ == seq!['W'],
            r@[9]@ == seq!['X'],
            r@[10]@ == seq!['Y'],
            r@[11]@ == seq!['Z'],
    {
        proof {
            reveal_strlit("F");
            reveal_strlit("I");
            reveal_strlit("L");
            reveal_strlit("N");
            reveal_strlit("P");
            reveal_strlit("T");
            reveal_strlit("U");
            reveal_strlit("V");
            reveal_strlit("W");
            reveal_strlit("X");
            reveal_strlit("Y");
            reveal_strlit("Z");
        }
        ["F", "I", "L", "N", "P", "T", "U", "V", "W", "X", "Y", "Z"]
    }

}

impl Polyomino<6> {
    /// Some free hexominoes.
    pub fn free_hexominos() -> (r: [Self; 2])
        ensures
            arranged(r@[0].vectors(), seq![Vector { x: 0i8, y: 0i8 }, Vector { x: 1i8, y: 0i8 }, Vector { x: 2i8, y: 0i8 }, Vector { x: 3i8, y: 0i8 }, Vector { x: 4i8, y: 0i8 }, Vector { x: 5i8, y: 0i8 }]),
            arranged(r@[1].vectors(), seq![Vector { x: 0i8, y: 0i8 }, Vector { x: 0i8, y: 2i8 }, Vector { x: 1i8, y: 2i8 }, Vector { x: 2i8, y: 2i8 }, Vector { x: 3i8, y: 2i8 }, Vector { x: 4i8, y: 2i8 }]),
    {
        [Self::i_hexomino(), Self::j_hexomino()]
    }

    /// The names of the hexominoes, in the order of `free_hexominos`.
    pub fn free_hexomino_names() -> (r: [&'static str; 2])
        ensures
            r@[0]@ == seq!['I'],
            r@[1]@ == seq!['J'],
    {
        proof {
            reveal_strlit("I");
            reveal_strlit("J");
        }
        ["I", "J"]
    }

}
/// The bytes of the ascii picture of some vectors.
pub open spec fn ascii_bytes(s: Seq<Vector>) -> Seq<u8> {
    ascii_picture(s).map_values(|c: char| c as u8)
}

/// The position that the byte at index `k` of a picture `w` columns wide stands for.
pub open spec fn picture_position(k: int, w: int) -> Vector {
    Vector { x: (k % (w + 1)) as i8, y: (k / (w + 1)) as i8 }
}

/// The bytes of the picture of vectors with no negative coordinate: a line break at the end of
/// each row but the last, `#` where a vector lies and `.` elsewhere.
proof fn lemma_ascii_bytes(s: Seq<Vector>, k: int)
    requires
        s.len() > 0,
        min_x(s) == 0,
        min_y(s) == 0,
        ascii_fits(s),
        0 <= k < ascii_bytes(s).len(),
    ensures
        ascii_bytes(s).len() == (box_width(s) + 1) * box_height(s) - 1,
        ascii_shape_byte(ascii_bytes(s)[k]),
        (ascii_bytes(s)[k] == 10) == (k % (box_width(s) + 1) == box_width(s)),
        (ascii_bytes(s)[k] == 35) == (exists|t: int| 0 <= t < s.len() && #[trigger] s[t] == picture_position(k, box_width(s))),
        ascii_bytes(s)[k] != 10 ==> 0 <= k % (box_width(s) + 1) < box_width(s),
{
    lemma_min(s);
    lemma_max(s);
    let w = box_width(s);
    let h = box_height(s);
    assert(s[0].x <= max_x(s) && s[0].y <= max_y(s));
    assert(w >= 1 && h >= 1);
    assert((w + 1) * h >= 2) by (nonlinear_arith)
        requires
            w >= 1,
            h >= 1,
    ;
    assert(ascii_bytes(s).len() == (w + 1) * h - 1);
    assert(k < (w + 1) * h);
    lemma_coords_index(k, w + 1);
    let p = picture_position(k, w);
    assert(k / (w + 1) <= 127) by {
        if k / (w + 1) > 127 {
            assert(k >= (w + 1) * (k / (w + 1))) by (nonlinear_arith)
                requires
                    k == k % (w + 1) + (w + 1) * (k / (w + 1)),
                    0 <= k % (w + 1),
            ;
            assert((w + 1) * (k / (w + 1)) >= (w + 1) * 128) by (nonlinear_arith)
                requires
                    k / (w + 1) >= 128,
                    w + 1 > 0,
            ;
            assert((w + 1) * box_height(s) <= (w + 1) * 127) by (nonlinear_arith)
                requires
                    box_height(s) <= 127,
                    w + 1 > 0,
            ;
        }
    }
    assert(p.x == k % (w + 1) && p.y == k / (w + 1));
    let c = ascii_char(s, k);
    assert(ascii_bytes(s)[k] == c as u8);
    if exists|t: int| 0 <= t < s.len() && #[trigger] s[t] == p {
        let t = choose|t: int| 0 <= t < s.len() && #[trigger] s[t] == p;
        assert(s[t].x <= max_x(s));
        assert(k % (w + 1) != w);
        assert(s[t].x - min_x(s) == k % (w + 1) && s[t].y - min_y(s) == k / (w + 1));
    }
    if exists|t: int|
        0 <= t < s.len() && #[trigger] s[t].x - min_x(s) == k % (w + 1) && s[t].y - min_y(s) == k / (w + 1) {
        let t = choose|t: int|
            0 <= t < s.len() && #[trigger] s[t].x - min_x(s) == k % (w + 1) && s[t].y - min_y(s) == k / (w + 1);
        assert(s[t] == p);
    }
}

/// Reading the picture of vectors with no negative coordinate, the cursor stands at the
/// position of the next byte, and the `#` read so far are the positions of the vectors drawn
/// before it, each once.
proof fn lemma_ascii_read(s: Seq<Vector>, n: int)
    requires
        s.len() > 0,
        min_x(s) == 0,
        min_y(s) == 0,
        ascii_fits(s),
        0 <= n <= ascii_bytes(s).len(),
    ensures
        ascii_cursor(ascii_bytes(s), n) == (n % (box_width(s) + 1), n / (box_width(s) + 1)),
        ascii_tiles(ascii_bytes(s), n).no_duplicates(),
        forall|v: Vector| #[trigger] ascii_tiles(ascii_bytes(s), n).contains(v) <==> exists|k: int|
            0 <= k < n && ascii_bytes(s)[k] == 35 && v == #[trigger] picture_position(k, box_width(s)),
    decreases n,
{
    let b = ascii_bytes(s);
    let w = box_width(s);
    lemma_coords_index(n, w + 1);
    if n == 0 {
        lemma_index_coords(0, 0, w + 1);
    } else {
        let k = n - 1;
        lemma_ascii_read(s, k);
        lemma_ascii_bytes(s, k);
        lemma_coords_index(k, w + 1);
        let r = k % (w + 1);
        let q = k / (w + 1);
        if r == w {
            lemma_index_coords(0, q + 1, w + 1);
            assert(n == 0 + (w + 1) * (q + 1)) by (nonlinear_arith)
                requires
                    k == r + (w + 1) * q,
                    r == w,
                    n == k + 1,
            ;
        } else {
            lemma_index_coords(r + 1, q, w + 1);
            assert(n == (r + 1) + (w + 1) * q);
        }
        let prev = ascii_tiles(b, k);
        let pk = picture_position(k, w);
        if b[k] == 35 {
            assert(ascii_cursor(b, k) == (pk.x as int, pk.y as int)) by {
                lemma_ascii_bytes(s, k);
            }
            let next = ascii_tiles(b, n);
            assert(next == prev.push(pk));
            assert(!prev.contains(pk)) by {
                if prev.contains(pk) {
                    let j = choose|j: int| 0 <= j < k && b[j] == 35 && pk == #[trigger] picture_position(j, w);
                    lemma_coords_index(j, w + 1);
                    lemma_coords_index(k, w + 1);
                    assert(j % (w + 1) == k % (w + 1) && j / (w + 1) == k / (w + 1)) by {
                        lemma_ascii_bytes(s, j);
                    }
                }
            }
            assert forall|i: int, j: int| 0 <= i < next.len() && 0 <= j < next.len() && i != j implies next[i]
                != next[j] by {
                if i < prev.len() && j < prev.len() {
                    assert(next[i] == prev[i] && next[j] == prev[j]);
                } else if i < prev.len() {
                    assert(prev.contains(next[i]));
                } else {
                    assert(prev.contains(next[j]));
                }
            }
            assert forall|v: Vector| #[trigger] next.contains(v) <==> exists|m: int|
                0 <= m < n && b[m] == 35 && v == #[trigger] picture_position(m, w) by {
                if next.contains(v) {
                    let i = choose|i: int| 0 <= i < next.len() && next[i] == v;
                    if i < prev.len() {
                        assert(prev.contains(v));
                    }
                }
                if exists|m: int| 0 <= m < n && b[m] == 35 && v == #[trigger] picture_position(m, w) {
                    let m = choose|m: int| 0 <= m < n && b[m] == 35 && v == #[trigger] picture_position(m, w);
                    if m < k {
                        assert(prev.contains(v));
                        let i = choose|i: int| 0 <= i < prev.len() && prev[i] == v;
                        assert(next[i] == v);
                    } else {
                        assert(next[prev.len() as int] == v);
                    }
                }
            }
        } else {
            assert(ascii_tiles(b, n) == prev);
            assert forall|v: Vector| #[trigger] prev.contains(v) <==> exists|m: int|
                0 <= m < n && b[m] == 35 && v == #[trigger] picture_position(m, w) by {
                if exists|m: int| 0 <= m < n && b[m] == 35 && v == #[trigger] picture_position(m, w) {
                    let m = choose|m: int| 0 <= m < n && b[m] == 35 && v == #[trigger] picture_position(m, w);
                    assert(m < k);
                }
            }
        }
    }
}

/// The row of a place in a box `w` columns and a line break wide and `h` rows tall is a row of
/// the box.
proof fn lemma_picture_row(m: int, w: int, h: int)
    requires
        0 <= m < (w + 1) * h,
        w >= 0,
    ensures
        0 <= m / (w + 1) < h,
        0 <= m % (w + 1) <= w,
{
    lemma_coords_index(m, w + 1);
    if m / (w + 1) >= h {
        assert(m >= (w + 1) * h) by (nonlinear_arith)
            requires
                m == m % (w + 1) + (w + 1) * (m / (w + 1)),
                0 <= m % (w + 1),
                m / (w + 1) >= h,
                w + 1 > 0,
        ;
    }
}

/// The bytes of the picture of distinct vectors whose least coordinates are zero, and whose
/// picture can be drawn, are a picture of as many tiles as there are vectors, and the tiles
/// read from it are the vectors, each once (in some order).
pub proof fn lemma_ascii_shape(s: Seq<Vector>)
    requires
        s.no_duplicates(),
        s.len() > 0 ==> min_x(s) == 0 && min_y(s) == 0,
        ascii_fits(s),
    ensures
        ascii_shape(ascii_bytes(s), s.len() as int),
        ascii_tiles(ascii_bytes(s), ascii_bytes(s).len() as int).to_multiset() == s.to_multiset(),
{
    let b = ascii_bytes(s);
    let n = b.len() as int;
    let tiles = ascii_tiles(b, n);
    if s.len() == 0 {
        assert(ascii_picture(s) =~= Seq::<char>::empty());
        assert(b =~= Seq::<u8>::empty());
        assert(tiles =~= Seq::<Vector>::empty());
        assert(tiles.to_multiset() =~= s.to_multiset());
        assert(ascii_cursor(b, 0) == (0int, 0int));
        return;
    }
    let w = box_width(s);
    let h = box_height(s);
    lemma_min(s);
    lemma_max(s);
    assert(s[0].x <= max_x(s) && s[0].y <= max_y(s));
    assert((w + 1) * h >= 2) by (nonlinear_arith)
        requires
            w >= 1,
            h >= 1,
    ;
    assert(n == (w + 1) * h - 1);
    lemma_ascii_read(s, n);
    assert forall|v: Vector| tiles.contains(v) <==> s.contains(v) by {
        if tiles.contains(v) {
            let k = choose|k: int| 0 <= k < n && b[k] == 35 && v == #[trigger] picture_position(k, w);
            lemma_ascii_bytes(s, k);
            let t = choose|t: int| 0 <= t < s.len() && #[trigger] s[t] == picture_position(k, w);
            assert(s[t] == v);
        }
        if s.contains(v) {
            let t = choose|t: int| 0 <= t < s.len() && s[t] == v;
            assert(min_x(s) <= s[t].x <= max_x(s) && min_y(s) <= s[t].y <= max_y(s));
            lemma_place(s, t);
            let k = place(s, t);
            lemma_ascii_bytes(s, k);
            assert(picture_position(k, w) == s[t]);
            assert(b[k] == 35);
        }
    }
    tiles.lemma_multiset_has_no_duplicates();
    s.lemma_multiset_has_no_duplicates();
    assert forall|x: Vector| tiles.to_multiset().count(x) == s.to_multiset().count(x) by {
        if tiles.contains(x) {
            assert(tiles.to_multiset().contains(x));
            assert(s.to_multiset().contains(x));
        } else {
            assert(!tiles.to_multiset().contains(x));
            assert(!s.to_multiset().contains(x));
        }
    }
    assert(tiles.to_multiset() =~= s.to_multiset());
    vstd::seq_lib::to_multiset_len(tiles);
    vstd::seq_lib::to_multiset_len(s);
    assert(tiles.len() == s.len());
    assert forall|i: int| 0 <= i < b.len() implies ascii_shape_byte(#[trigger] b[i]) by {
        lemma_ascii_bytes(s, i);
    }
    assert forall|m: int| 0 <= m <= b.len() implies #[trigger] ascii_cursor(b, m).0 <= 127 && ascii_cursor(
        b,
        m,
    ).1 <= 127 by {
        lemma_ascii_read(s, m);
        lemma_picture_row(m, w, h);
    }
}

/// Law: parsing the ascii picture of a polyomino gives the polyomino back. For distinct
/// positions in order whose least coordinates are zero (the tiles of a polyomino made from
/// distinct positions), the bytes of their picture are a picture of as many tiles (so
/// `new_from_ascii` accepts them), and the only arrangement of the tiles read from it (what
/// `new_from_ascii` builds) is the positions themselves.
pub proof fn law_ascii_round_trip(s: Seq<Vector>, r: Seq<Vector>)
    requires
        s.no_duplicates(),
        sorted_vectors(s),
        s.len() > 0 ==> min_x(s) == 0 && min_y(s) == 0,
        ascii_fits(s),
        arranged(r, ascii_tiles(ascii_bytes(s), ascii_bytes(s).len() as int)),
    ensures
        ascii_shape(ascii_bytes(s), s.len() as int),
        r == s,
{
    let b = ascii_bytes(s);
    let tiles = ascii_tiles(b, b.len() as int);
    lemma_ascii_shape(s);
    assert forall|v: Vector| tiles.contains(v) <==> s.contains(v) by {
        assert(tiles.to_multiset().count(v) == s.to_multiset().count(v));
        tiles.to_multiset_ensures();
        s.to_multiset_ensures();
    }
    if s.len() > 0 {
        lemma_min(s);
        lemma_min(tiles);
        let kx = choose|i: int| 0 <= i < s.len() && #[trigger] s[i].x == min_x(s);
        let ky = choose|i: int| 0 <= i < s.len() && #[trigger] s[i].y == min_y(s);
        assert(tiles.contains(s[kx]));
        assert(tiles.contains(s[ky]));
        let ix = choose|i: int| 0 <= i < tiles.len() && #[trigger] tiles[i].x == min_x(tiles);
        let iy = choose|i: int| 0 <= i < tiles.len() && #[trigger] tiles[i].y == min_y(tiles);
        assert(s.contains(tiles[ix]));
        assert(s.contains(tiles[iy]));
        assert(min_x(tiles) == 0 && min_y(tiles) == 0);
    }
    assert(normalized(tiles) =~= tiles);
    let leq = |a: Vector, c: Vector| vector_le(a, c);
    assert(vstd::relations::total_ordering(leq));
    assert(vstd::relations::sorted_by(r, leq));
    assert(vstd::relations::sorted_by(s, leq));
    vstd::seq_lib::lemma_sorted_unique(r, s, leq);
}

/// The bytes of a text whose characters are the picture of some vectors are the bytes of the
/// picture.
pub proof fn lemma_ascii_text(text: &str, s: Seq<Vector>)
    requires
        text@ == ascii_picture(s),
    ensures
        text.spec_bytes() == ascii_bytes(s),
{
    assert(vstd::utf8::is_ascii_chars(text@));
    vstd::string::is_ascii_spec_bytes(text);
    assert(text.spec_bytes() =~= ascii_bytes(s));
}

} // verus!
