//! Finding lines of accepted items in a map.
use vstd::prelude::*;

use crate::grid_math::lemma_coords_index;
use crate::tile::Tile;
use crate::tile_map::TileMap;
use crate::vector::{fits_i8, Vector};

verus! {

/// Whether `check` accepts an item.
pub open spec fn accepts<T, F: Fn(&T) -> bool>(check: F, item: T) -> bool {
    check.ensures((&item,), true)
}

/// How many steps of `d` from `(x, y)` can stay in a grid `w` by `h`, at most.
pub open spec fn steps_left(x: int, y: int, d: Vector, w: int, h: int) -> int {
    if d.x > 0 {
        w - x
    } else if d.x < 0 {
        x + 1
    } else if d.y > 0 {
        h - y
    } else if d.y < 0 {
        y + 1
    } else {
        0
    }
}

/// The number of accepted items that follow `(x, y)` in steps of `d`, up to the first item
/// that is not accepted or the edge of the grid.
pub open spec fn run_after<T, F: Fn(&T) -> bool>(
    cells: Seq<T>,
    w: int,
    h: int,
    check: F,
    x: int,
    y: int,
    d: Vector,
) -> nat
    decreases steps_left(x, y, d, w, h),
{
    let nx = x + d.x;
    let ny = y + d.y;
    if 0 <= nx < w && 0 <= ny < h && accepts(check, cells[nx + w * ny]) && 0 <= steps_left(
        nx,
        ny,
        d,
        w,
        h,
    ) < steps_left(x, y, d, w, h) {
        1 + run_after(cells, w, h, check, nx, ny, d)
    } else {
        0
    }
}

/// The length of the line from the tile with index `i` in steps of `d`: the tile itself and
/// the accepted items that follow it.
pub open spec fn line_length<T, F: Fn(&T) -> bool>(
    cells: Seq<T>,
    w: int,
    h: int,
    check: F,
    i: int,
    d: Vector,
) -> nat {
    1 + run_after(cells, w, h, check, i % w, i / w, d)
}

/// The lines found from the candidate `c` on, a candidate being a tile and a direction, taken
/// tile by tile in row-major order and, for each tile, direction by direction: each line as
/// the index of its origin, its direction and its length. A line is found from an accepted
/// tile in each direction where it is at least `min` long.
pub open spec fn found_lines<T, F: Fn(&T) -> bool>(
    cells: Seq<T>,
    w: int,
    h: int,
    check: F,
    dirs: Seq<Vector>,
    min: int,
    c: int,
) -> Seq<(int, Vector, nat)>
    decreases w * h * dirs.len() - c,
{
    if dirs.len() == 0 || c < 0 || c >= w * h * dirs.len() {
        Seq::empty()
    } else {
        let i = c / dirs.len() as int;
        let d = dirs[c % dirs.len() as int];
        let rest = found_lines(cells, w, h, check, dirs, min, c + 1);
        let len = line_length(cells, w, h, check, i, d);
        if accepts(check, cells[i]) && len >= min {
            seq![(i, d, len)] + rest
        } else {
            rest
        }
    }
}

/// A run of accepted items: the first of them, where it is, the direction in which the run
/// goes, and how many items it holds.
#[derive(Clone, Debug)]
pub struct Line<'a, T, const WIDTH: u8, const HEIGHT: u8> {
    pub first_item: &'a T,
    pub origin: Tile<WIDTH, HEIGHT>,
    pub direction: Vector,
    pub length: usize,
}

impl<'a, T, const WIDTH: u8, const HEIGHT: u8> Line<'a, T, WIDTH, HEIGHT> {
    /// The line as the index of its origin, its direction and its length.
    pub open spec fn summary(self) -> (int, Vector, nat) {
        (self.origin.index() as int, self.direction, self.length as nat)
    }

    /// The tiles of the line, from its origin.
    pub fn positions(&self) -> (r: Vec<Tile<WIDTH, HEIGHT>>)
        requires
            Tile::<WIDTH, HEIGHT>::legal(),
            self.origin.wf(),
            forall|k: int|
                0 <= k < self.length ==> fits_i8(#[trigger] (self.direction.x * (k as i8))) && fits_i8(
                    self.direction.y * (k as i8),
                ) && 0 <= self.origin.col() + self.direction.x * (k as i8) < WIDTH && 0 <= self.origin.row()
                    + self.direction.y * (k as i8) < HEIGHT,
        ensures
            r@.len() == self.length,
            forall|k: int|
                0 <= k < self.length ==> (#[trigger] r@[k]).wf() && r@[k].col() == self.origin.col()
                    + self.direction.x * (k as i8) && r@[k].row() == self.origin.row() + self.direction.y
                    * (k as i8),
    {
        let mut result: Vec<Tile<WIDTH, HEIGHT>> = Vec::new();
        let mut x: usize = 0;
        while x < self.length
            invariant
                Tile::<WIDTH, HEIGHT>::legal(),
                self.origin.wf(),
                forall|k: int|
                    0 <= k < self.length ==> fits_i8(#[trigger] (self.direction.x * (k as i8))) && fits_i8(
                        self.direction.y * (k as i8),
                    ) && 0 <= self.origin.col() + self.direction.x * (k as i8) < WIDTH && 0
                        <= self.origin.row() + self.direction.y * (k as i8) < HEIGHT,
                x <= self.length,
                result@.len() == x,
                forall|k: int|
                    0 <= k < x ==> (#[trigger] result@[k]).wf() && result@[k].col()
                        == self.origin.col() + self.direction.x * (k as i8) && result@[k].row()
                        == self.origin.row() + self.direction.y * (k as i8),
            decreases self.length - x,
        {
            assert(fits_i8(self.direction.x * (x as i8)));
            let step = self.direction * x;
            proof {
                Tile::<WIDTH, HEIGHT>::lemma_in_grid(
                    self.origin.col() + self.direction.x * (x as i8),
                    self.origin.row() + self.direction.y * (x as i8),
                );
            }
            let tile = self.origin.const_add(&step).unwrap();
            result.push(tile);
            x = x + 1;
        }
        result
    }
}

/// Runs of accepted items that follow a tile are no longer than the steps that stay in the
/// grid.
pub proof fn lemma_run_bound<T, F: Fn(&T) -> bool>(
    cells: Seq<T>,
    w: int,
    h: int,
    check: F,
    x: int,
    y: int,
    d: Vector,
)
    ensures
        run_after(cells, w, h, check, x, y, d) <= if steps_left(x, y, d, w, h) < 0 {
            0
        } else {
            steps_left(x, y, d, w, h)
        },
    decreases steps_left(x, y, d, w, h),
{
    let nx = x + d.x;
    let ny = y + d.y;
    if 0 <= nx < w && 0 <= ny < h && accepts(check, cells[nx + w * ny]) && 0 <= steps_left(
        nx,
        ny,
        d,
        w,
        h,
    ) < steps_left(x, y, d, w, h) {
        lemma_run_bound(cells, w, h, check, nx, ny, d);
    }
}

/// The place `k` steps of `d` from `(x, y)`.
pub open spec fn stepped(x: int, y: int, d: Vector, k: int) -> (int, int) {
    (x + k * d.x, y + k * d.y)
}

/// Whether the place `p` lies in a grid `w` by `h` whose items, row by row, are `cells`, and
/// `check` accepts its item.
pub open spec fn accepted_at<T, F: Fn(&T) -> bool>(cells: Seq<T>, w: int, h: int, check: F, p: (int, int)) -> bool {
    &&& 0 <= p.0 < w
    &&& 0 <= p.1 < h
    &&& accepts(check, cells[p.0 + w * p.1])
}

/// Law: the run that follows `(x, y)` in steps of a direction other than none is a maximal run
/// of consecutive accepted items: each of the places 1 to its length steps away lies in the grid
/// with an accepted item, and the place one step further does not.
pub proof fn law_run_maximal<T, F: Fn(&T) -> bool>(
    cells: Seq<T>,
    w: int,
    h: int,
    check: F,
    x: int,
    y: int,
    d: Vector,
)
    requires
        !(d.x == 0 && d.y == 0),
    ensures
        forall|k: int|
            1 <= k <= run_after(cells, w, h, check, x, y, d) ==> accepted_at(cells, w, h, check, #[trigger] stepped(x, y, d, k)),
        !accepted_at(cells, w, h, check, stepped(x, y, d, run_after(cells, w, h, check, x, y, d) as int + 1)),
    decreases steps_left(x, y, d, w, h),
{
    let nx = x + d.x;
    let ny = y + d.y;
    let n = run_after(cells, w, h, check, x, y, d) as int;
    assert(stepped(x, y, d, 1) == (nx, ny));
    if 0 <= nx < w && 0 <= ny < h && accepts(check, cells[nx + w * ny]) && 0 <= steps_left(
        nx,
        ny,
        d,
        w,
        h,
    ) < steps_left(x, y, d, w, h) {
        law_run_maximal(cells, w, h, check, nx, ny, d);
        assert forall|k: int| 1 <= k <= n implies accepted_at(cells, w, h, check, #[trigger] stepped(x, y, d, k)) by {
            if k > 1 {
                assert(stepped(x, y, d, k) == stepped(nx, ny, d, k - 1)) by (nonlinear_arith)
                    requires
                        nx == x + d.x,
                        ny == y + d.y,
                ;
            }
        }
        assert(stepped(x, y, d, n + 1) == stepped(nx, ny, d, n)) by (nonlinear_arith)
            requires
                nx == x + d.x,
                ny == y + d.y,
        ;
    } else {
        assert(n == 0);
        if 0 <= nx < w && 0 <= ny < h && accepts(check, cells[nx + w * ny]) {
            assert(0 <= steps_left(nx, ny, d, w, h) < steps_left(x, y, d, w, h));
        }
    }
}

/// Law: each line found is a maximal run of consecutive accepted items that starts at an
/// accepted tile of the grid in one of the directions and is at least `min` long: the tiles
/// `0..length` steps from its origin lie in the grid with accepted items, and the tile `length`
/// steps away does not.
pub proof fn law_found_lines<T, F: Fn(&T) -> bool>(
    cells: Seq<T>,
    w: int,
    h: int,
    check: F,
    dirs: Seq<Vector>,
    min: int,
    c: int,
)
    requires
        w > 0,
        h > 0,
        forall|k: int| 0 <= k < dirs.len() ==> !((#[trigger] dirs[k]).x == 0 && dirs[k].y == 0),
    ensures
        forall|j: int|
            0 <= j < found_lines(cells, w, h, check, dirs, min, c).len() ==> {
                let (i, d, len) = #[trigger] found_lines(cells, w, h, check, dirs, min, c)[j];
                &&& 0 <= i < w * h
                &&& dirs.contains(d)
                &&& len >= min
                &&& len >= 1
                &&& forall|k: int| 0 <= k < len ==> accepted_at(cells, w, h, check, #[trigger] stepped(i % w, i / w, d, k))
                &&& !accepted_at(cells, w, h, check, stepped(i % w, i / w, d, len as int))
            },
    decreases w * h * dirs.len() - c,
{
    let s = found_lines(cells, w, h, check, dirs, min, c);
    if dirs.len() == 0 || c < 0 || c >= w * h * dirs.len() {
    } else {
        let n = dirs.len() as int;
        let i = c / n;
        let d = dirs[c % n];
        law_found_lines(cells, w, h, check, dirs, min, c + 1);
        let rest = found_lines(cells, w, h, check, dirs, min, c + 1);
        let len = line_length(cells, w, h, check, i, d);
        if accepts(check, cells[i]) && len >= min {
            assert(0 <= i < w * h) by (nonlinear_arith)
                requires
                    0 <= c < w * h * n,
                    n > 0,
                    i == c / n,
            ;
            assert(0 <= c % n < n) by (nonlinear_arith)
                requires
                    n > 0,
            ;
            assert(dirs.contains(d));
            lemma_coords_index(i, w);
            law_run_maximal(cells, w, h, check, i % w, i / w, d);
            assert(stepped(i % w, i / w, d, 0) == (i % w, i / w));
            assert(i / w < h) by (nonlinear_arith)
                requires
                    0 <= i < w * h,
                    w > 0,
            ;
            assert(i % w + w * (i / w) == i);
            assert(accepted_at(cells, w, h, check, stepped(i % w, i / w, d, 0)));
            assert forall|j: int| 0 <= j < s.len() implies {
                let (i2, d2, len2) = #[trigger] s[j];
                &&& 0 <= i2 < w * h
                &&& dirs.contains(d2)
                &&& len2 >= min
                &&& len2 >= 1
                &&& forall|k: int| 0 <= k < len2 ==> accepted_at(cells, w, h, check, #[trigger] stepped(i2 % w, i2 / w, d2, k))
                &&& !accepted_at(cells, w, h, check, stepped(i2 % w, i2 / w, d2, len2 as int))
            } by {
                if j > 0 {
                    assert(s[j] == rest[j - 1]);
                } else {
                    assert(s[0] == (i, d, len));
                    assert forall|k: int| 0 <= k < len implies accepted_at(cells, w, h, check, #[trigger] stepped(i % w, i / w, d, k)) by {
                        if k > 0 {
                            assert(1 <= k <= run_after(cells, w, h, check, i % w, i / w, d));
                        }
                    }
                }
            }
        } else {
            assert(s == rest);
        }
    }
}

/// Where the places 1 to `m` steps of a direction other than none from `(x, y)` lie in the grid
/// with accepted items, the run that follows `(x, y)` is at least `m` long.
proof fn lemma_run_at_least<T, F: Fn(&T) -> bool>(
    cells: Seq<T>,
    w: int,
    h: int,
    check: F,
    x: int,
    y: int,
    d: Vector,
    m: int,
)
    requires
        !(d.x == 0 && d.y == 0),
        forall|t: int| 1 <= t <= m ==> accepted_at(cells, w, h, check, #[trigger] stepped(x, y, d, t)),
    ensures
        run_after(cells, w, h, check, x, y, d) >= m,
    decreases m,
{
    if m > 0 {
        let nx = x + d.x;
        let ny = y + d.y;
        assert(stepped(x, y, d, 1) == (nx, ny));
        assert(accepted_at(cells, w, h, check, stepped(x, y, d, 1)));
        assert forall|t: int| 1 <= t <= m - 1 implies accepted_at(cells, w, h, check, #[trigger] stepped(nx, ny, d, t)) by {
            assert(stepped(nx, ny, d, t) == stepped(x, y, d, t + 1)) by (nonlinear_arith)
                requires
                    nx == x + d.x,
                    ny == y + d.y,
            ;
            assert(accepted_at(cells, w, h, check, stepped(x, y, d, t + 1)));
        }
        lemma_run_at_least(cells, w, h, check, nx, ny, d, m - 1);
    }
}

/// Whether the tile with index `i` and the tiles `1..min` steps of `d` from it all lie in the
/// grid with accepted items.
pub open spec fn accepted_run<T, F: Fn(&T) -> bool>(
    cells: Seq<T>,
    w: int,
    h: int,
    check: F,
    i: int,
    d: Vector,
    min: int,
) -> bool {
    &&& accepts(check, cells[i])
    &&& forall|m: int| 0 <= m < min ==> accepted_at(cells, w, h, check, #[trigger] stepped(i % w, i / w, d, m))
}

/// Law: lines are found in row-major order of their origins, and from every accepted tile, in
/// each of the directions in which the tiles `0..min` steps away all lie in the grid with
/// accepted items, a line is found (of the length that `law_found_lines` fixes).
pub proof fn law_found_lines_complete<T, F: Fn(&T) -> bool>(
    cells: Seq<T>,
    w: int,
    h: int,
    check: F,
    dirs: Seq<Vector>,
    min: int,
    c: int,
)
    requires
        w > 0,
        h > 0,
        0 <= c,
        forall|k: int| 0 <= k < dirs.len() ==> !((#[trigger] dirs[k]).x == 0 && dirs[k].y == 0),
    ensures
        forall|j1: int, j2: int|
            0 <= j1 < j2 < found_lines(cells, w, h, check, dirs, min, c).len() ==> (#[trigger] found_lines(
                cells,
                w,
                h,
                check,
                dirs,
                min,
                c,
            )[j1]).0 <= (#[trigger] found_lines(cells, w, h, check, dirs, min, c)[j2]).0,
        dirs.len() > 0 ==> forall|j: int|
            0 <= j < found_lines(cells, w, h, check, dirs, min, c).len() ==> (#[trigger] found_lines(
                cells,
                w,
                h,
                check,
                dirs,
                min,
                c,
            )[j]).0 >= c / (dirs.len() as int),
        forall|i: int, k: int|
            0 <= k < dirs.len() && 0 <= i < w * h && c <= i * dirs.len() + k && #[trigger] accepted_run(cells, w, h, check, i, dirs[k], min) ==> exists|j: int|
                0 <= j < found_lines(cells, w, h, check, dirs, min, c).len() && (#[trigger] found_lines(
                    cells,
                    w,
                    h,
                    check,
                    dirs,
                    min,
                    c,
                )[j]).0 == i && found_lines(cells, w, h, check, dirs, min, c)[j].1 == dirs[k],
    decreases w * h * dirs.len() - c,
{
    let s = found_lines(cells, w, h, check, dirs, min, c);
    let n = dirs.len() as int;
    if dirs.len() == 0 || c >= w * h * dirs.len() {
        assert forall|i: int, k: int|
            0 <= k < dirs.len() && 0 <= i < w * h && c <= i * dirs.len() + k && #[trigger] accepted_run(cells, w, h, check, i, dirs[k], min) implies exists|j: int|
                0 <= j < s.len() && (#[trigger] s[j]).0 == i && s[j].1 == dirs[k] by {
            lemma_candidate(i, k, n, w * h);
        }
    } else {
        let i0 = c / n;
        let d = dirs[c % n];
        law_found_lines_complete(cells, w, h, check, dirs, min, c + 1);
        let rest = found_lines(cells, w, h, check, dirs, min, c + 1);
        vstd::arithmetic::div_mod::lemma_div_is_ordered(c, c + 1, n);
        assert(forall|j: int| 0 <= j < rest.len() ==> (#[trigger] rest[j]).0 >= i0);
        if accepts(check, cells[i0]) && line_length(cells, w, h, check, i0, d) >= min {
            assert(s == seq![(i0, d, line_length(cells, w, h, check, i0, d))] + rest);
            assert forall|j1: int, j2: int| 0 <= j1 < j2 < s.len() implies (#[trigger] s[j1]).0 <= (#[trigger] s[j2]).0 by {
                if j1 > 0 {
                    assert(s[j1] == rest[j1 - 1] && s[j2] == rest[j2 - 1]);
                } else {
                    assert(s[j2] == rest[j2 - 1]);
                }
            }
            assert forall|j: int| 0 <= j < s.len() implies (#[trigger] s[j]).0 >= c / n by {
                if j > 0 {
                    assert(s[j] == rest[j - 1]);
                }
            }
        } else {
            assert(s == rest);
        }
        assert forall|i: int, k: int|
            0 <= k < dirs.len() && 0 <= i < w * h && c <= i * dirs.len() + k && #[trigger] accepted_run(cells, w, h, check, i, dirs[k], min) implies exists|j: int|
                0 <= j < s.len() && (#[trigger] s[j]).0 == i && s[j].1 == dirs[k] by {
            lemma_candidate(i, k, n, w * h);
            if i * n + k == c {
                lemma_coords_index(i, w);
                assert(i / w < h) by (nonlinear_arith)
                    requires
                        0 <= i < w * h,
                        w > 0,
                ;
                assert(d == dirs[k]);
                assert(i0 == i);
                assert forall|t: int| 1 <= t <= min - 1 implies accepted_at(cells, w, h, check, #[trigger] stepped(i % w, i / w, d, t)) by {
                    assert(accepted_at(cells, w, h, check, stepped(i % w, i / w, dirs[k], t)));
                }
                lemma_run_at_least(cells, w, h, check, i % w, i / w, d, min - 1);
                assert(s[0].0 == i && s[0].1 == dirs[k]);
            } else {
                let j = choose|j: int| 0 <= j < rest.len() && (#[trigger] rest[j]).0 == i && rest[j].1 == dirs[k];
                if accepts(check, cells[i0]) && line_length(cells, w, h, check, i0, d) >= min {
                    assert(s[j + 1] == rest[j]);
                } else {
                    assert(s[j] == rest[j]);
                }
            }
        }
    }
}

/// The candidates of a tile whose item is not accepted find no line.
pub proof fn lemma_skip_tile<T, F: Fn(&T) -> bool>(
    cells: Seq<T>,
    w: int,
    h: int,
    check: F,
    dirs: Seq<Vector>,
    min: int,
    i: int,
    k: int,
)
    requires
        dirs.len() > 0,
        0 <= i < w * h,
        0 <= k <= dirs.len(),
        !accepts(check, cells[i]),
    ensures
        found_lines(cells, w, h, check, dirs, min, i * dirs.len() + k) == found_lines(
            cells,
            w,
            h,
            check,
            dirs,
            min,
            (i + 1) * dirs.len(),
        ),
    decreases dirs.len() - k,
{
    let n = dirs.len() as int;
    assert((i + 1) * n == i * n + n) by (nonlinear_arith);
    if k < n {
        lemma_candidate(i, k, n, w * h);
        lemma_skip_tile(cells, w, h, check, dirs, min, i, k + 1);
        assert(i * n + k + 1 == i * n + (k + 1));
    }
}

/// The candidate `i * n + k` is that of the tile `i` and the direction `k`.
pub proof fn lemma_candidate(i: int, k: int, n: int, count: int)
    requires
        0 <= k < n,
        0 <= i < count,
    ensures
        (i * n + k) / n == i,
        (i * n + k) % n == k,
        0 <= i * n + k < count * n,
{
    assert((i * n + k) / n == i && (i * n + k) % n == k) by (nonlinear_arith)
        requires
            0 <= k < n,
    ;
    assert(i * n + k < count * n) by (nonlinear_arith)
        requires
            0 <= k < n,
            0 <= i < count,
    ;
    assert(0 <= i * n) by (nonlinear_arith)
        requires
            0 <= i,
            0 < n,
    ;
}

impl<T, const WIDTH: u8, const HEIGHT: u8, const SIZE: usize> TileMap<T, WIDTH, HEIGHT, SIZE> {
    /// The lines of at least `min_length` accepted items that start at an accepted item and
    /// go in one of the given directions, tile by tile in row-major order and, for each tile,
    /// in the order of the directions.
    pub fn get_lines<'a, F: Fn(&T) -> bool>(
        &'a self,
        directions: &[Vector],
        check_item: F,
        min_length: usize,
    ) -> (r: Vec<Line<'a, T, WIDTH, HEIGHT>>)
        requires
            Self::legal(),
            forall|x: &T| #[trigger] check_item.requires((x,)),
            forall|x: &T, b: bool| #[trigger] check_item.ensures((x,), b) ==> b == check_item.ensures((x,), true),
            forall|k: int| 0 <= k < directions@.len() ==> !((#[trigger] directions@[k]).x == 0 && directions@[k].y == 0),
        ensures
            r@.len() == found_lines(self@, WIDTH as int, HEIGHT as int, check_item, directions@, min_length as int, 0).len(),
            forall|j: int|
                0 <= j < r@.len() ==> (#[trigger] r@[j]).origin.wf() && r@[j].summary() == found_lines(
                    self@,
                    WIDTH as int,
                    HEIGHT as int,
                    check_item,
                    directions@,
                    min_length as int,
                    0,
                )[j] && *r@[j].first_item == self@[r@[j].origin.index() as int],
            forall|j: int| 0 <= j < r@.len() ==> (#[trigger] r@[j]).length >= min_length && directions@.contains(r@[j].direction),
            forall|j: int, k: int|
                0 <= j < r@.len() && 0 <= k < r@[j].length ==> accepted_at(
                    self@,
                    WIDTH as int,
                    HEIGHT as int,
                    check_item,
                    #[trigger] stepped(r@[j].origin.col() as int, r@[j].origin.row() as int, r@[j].direction, k),
                ),
            forall|j: int|
                0 <= j < r@.len() ==> !accepted_at(
                    self@,
                    WIDTH as int,
                    HEIGHT as int,
                    check_item,
                    stepped((#[trigger] r@[j]).origin.col() as int, r@[j].origin.row() as int, r@[j].direction, r@[j].length as int),
                ),
    {
        let ghost cells = self@;
        let ghost dirs = directions@;
        let ghost w = WIDTH as int;
        let ghost h = HEIGHT as int;
        let ghost whole = found_lines(cells, w, h, check_item, dirs, min_length as int, 0);
        let n = directions.len();
        let mut result: Vec<Line<'a, T, WIDTH, HEIGHT>> = Vec::new();
        if n == 0 {
            return result;
        }
        let count = Tile::<WIDTH, HEIGHT>::count();
        let mut i: usize = 0;
        proof {
            self.lemma_len();
        }
        while i < count
            invariant
                Self::legal(),
                w == WIDTH as int,
                h == HEIGHT as int,
                cells == self@,
                cells.len() == SIZE,
                SIZE == w * h,
                count == w * h,
                dirs == directions@,
                n == dirs.len(),
                n > 0,
                forall|x: &T| #[trigger] check_item.requires((x,)),
                forall|x: &T, b: bool| #[trigger] check_item.ensures((x,), b) ==> b == check_item.ensures((x,), true),
                forall|k: int| 0 <= k < dirs.len() ==> !((#[trigger] dirs[k]).x == 0 && dirs[k].y == 0),
                whole == found_lines(cells, w, h, check_item, dirs, min_length as int, 0),
                i <= count,
                whole.len() == result@.len() + found_lines(cells, w, h, check_item, dirs, min_length as int, i * n).len(),
                forall|j: int|
                    0 <= j < result@.len() ==> (#[trigger] result@[j]).origin.wf() && result@[j].summary() == whole[j]
                        && *result@[j].first_item == cells[result@[j].origin.index() as int],
                forall|j: int|
                    0 <= j < found_lines(cells, w, h, check_item, dirs, min_length as int, i * n).len()
                        ==> #[trigger] found_lines(cells, w, h, check_item, dirs, min_length as int, i * n)[j]
                        == whole[result@.len() + j],
            decreases count - i,
        {
            let position = Tile::<WIDTH, HEIGHT>::try_from_usize(i).unwrap();
            let item = self.get(position);
            let accepted = check_item(item);
            proof {
                position.lemma_coords();
                assert(accepted == accepts(check_item, cells[i as int]));
            }
            if accepted {
                let mut k: usize = 0;
                while k < n
                    invariant
                        Self::legal(),
                        w == WIDTH as int,
                        h == HEIGHT as int,
                        cells == self@,
                        cells.len() == SIZE,
                        SIZE == w * h,
                        count == w * h,
                        dirs == directions@,
                        n == dirs.len(),
                        n > 0,
                        i < count,
                        position.wf(),
                        position.index() == i,
                        *item == cells[i as int],
                        accepts(check_item, cells[i as int]),
                        forall|x: &T| #[trigger] check_item.requires((x,)),
                        forall|x: &T, b: bool| #[trigger] check_item.ensures((x,), b) ==> b == check_item.ensures((x,), true),
                        forall|k: int| 0 <= k < dirs.len() ==> !((#[trigger] dirs[k]).x == 0 && dirs[k].y == 0),
                        whole == found_lines(cells, w, h, check_item, dirs, min_length as int, 0),
                        k <= n,
                        whole.len() == result@.len() + found_lines(cells, w, h, check_item, dirs, min_length as int, i * n + k).len(),
                        forall|j: int|
                            0 <= j < result@.len() ==> (#[trigger] result@[j]).origin.wf() && result@[j].summary() == whole[j]
                                && *result@[j].first_item == cells[result@[j].origin.index() as int],
                        forall|j: int|
                            0 <= j < found_lines(cells, w, h, check_item, dirs, min_length as int, i * n + k).len()
                                ==> #[trigger] found_lines(cells, w, h, check_item, dirs, min_length as int, i * n + k)[j]
                                == whole[result@.len() + j],
                    decreases n - k,
                {
                    let direction = directions[k];
                    let mut length: usize = 1;
                    let mut current = position;
                    proof {
                        position.lemma_coords();
                        lemma_run_bound(cells, w, h, check_item, position.col() as int, position.row() as int, direction);
                    }
                    loop
                        invariant
                            Self::legal(),
                            w == WIDTH as int,
                            h == HEIGHT as int,
                            cells == self@,
                            cells.len() == SIZE,
                            SIZE == w * h,
                            !(direction.x == 0 && direction.y == 0),
                            forall|x: &T| #[trigger] check_item.requires((x,)),
                            forall|x: &T, b: bool| #[trigger] check_item.ensures((x,), b) ==> b == check_item.ensures((x,), true),
                            current.wf(),
                            1 <= length,
                            length + run_after(cells, w, h, check_item, current.col() as int, current.row() as int, direction)
                                == 1 + run_after(cells, w, h, check_item, position.col() as int, position.row() as int, direction),
                            run_after(cells, w, h, check_item, position.col() as int, position.row() as int, direction) <= 256,
                        ensures
                            length == 1 + run_after(cells, w, h, check_item, position.col() as int, position.row() as int, direction),
                        decreases steps_left(current.col() as int, current.row() as int, direction, w, h),
                    {
                        proof {
                            current.lemma_coords();
                        }
                        match current.const_add(&direction) {
                            None => {
                                proof {
                                    if 0 <= current.col() + direction.x < w && 0 <= current.row() + direction.y < h {
                                        Tile::<WIDTH, HEIGHT>::lemma_in_grid(current.col() + direction.x, current.row() + direction.y);
                                    }
                                }
                                break;
                            },
                            Some(next) => {
                                proof {
                                    next.lemma_coords();
                                }
                                if check_item(self.get(next)) {
                                    proof {
                                        assert(accepts(check_item, cells[next.index() as int]));
                                    }
                                    current = next;
                                    length = length + 1;
                                } else {
                                    proof {
                                        assert(!accepts(check_item, cells[next.index() as int]));
                                    }
                                    break;
                                }
                            },
                        }
                    }
                    proof {
                        lemma_candidate(i as int, k as int, n as int, w * h);
                        position.lemma_coords();
                        lemma_coords_index(i as int, w);
                    }
                    let ghost rest = found_lines(cells, w, h, check_item, dirs, min_length as int, i * n + k + 1);
                    if length >= min_length {
                        let line = Line { first_item: item, origin: position, direction, length };
                        let ghost before = result@;
                        result.push(line);
                        proof {
                            assert(found_lines(cells, w, h, check_item, dirs, min_length as int, i * n + k)
                                == seq![line.summary()] + rest);
                            assert(result@[before.len() as int] == line);
                            assert(found_lines(cells, w, h, check_item, dirs, min_length as int, i * n + k)[0]
                                == whole[before.len() as int]);
                            assert forall|j: int| 0 <= j < rest.len() implies #[trigger] rest[j] == whole[result@.len() + j] by {
                                assert(found_lines(cells, w, h, check_item, dirs, min_length as int, i * n + k)[j + 1] == rest[j]);
                            }
                        }
                    } else {
                        proof {
                            assert(found_lines(cells, w, h, check_item, dirs, min_length as int, i * n + k) == rest);
                        }
                    }
                    k = k + 1;
                }
                proof {
                    assert(i * n + n == (i + 1) * n) by (nonlinear_arith);
                }
            } else {
                proof {
                    lemma_skip_tile(cells, w, h, check_item, dirs, min_length as int, i as int, 0);
                }
            }
            i = i + 1;
        }
        proof {
            assert(found_lines(cells, w, h, check_item, dirs, min_length as int, i * n).len() == 0) by {
                assert(i * n >= w * h * n) by (nonlinear_arith)
                    requires
                        i >= w * h,
                        n > 0,
                ;
            }
            if w > 0 && h > 0 {
                law_found_lines(cells, w, h, check_item, dirs, min_length as int, 0);
            } else {
                assert(w * h == 0) by (nonlinear_arith)
                    requires
                        w == 0 || h == 0,
                ;
                assert(whole.len() == 0);
            }
            assert forall|j: int| 0 <= j < result@.len() implies {
                &&& (#[trigger] result@[j]).length >= min_length
                &&& dirs.contains(result@[j].direction)
                &&& forall|k: int|
                    0 <= k < result@[j].length ==> accepted_at(
                        cells,
                        w,
                        h,
                        check_item,
                        #[trigger] stepped(result@[j].origin.col() as int, result@[j].origin.row() as int, result@[j].direction, k),
                    )
                &&& !accepted_at(
                    cells,
                    w,
                    h,
                    check_item,
                    stepped(result@[j].origin.col() as int, result@[j].origin.row() as int, result@[j].direction, result@[j].length as int),
                )
            } by {
                assert(result@[j].summary() == whole[j]);
            }
        }
        result
    }
}

} // verus!
