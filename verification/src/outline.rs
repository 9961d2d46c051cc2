//! The outline of a polyomino, walked clockwise from the north west corner of its first tile.
use vstd::prelude::*;

use crate::corner::Corner;
use crate::dynamic_tile::DynamicTile;
use crate::dynamic_vertex::DynamicVertex;
use crate::polyomino::{max_x, max_y, min_x, min_y, Polyomino};
use crate::vector::Vector;

verus! {

/// The positions of some tiles, as vectors.
pub open spec fn tile_vectors(arr: Seq<DynamicTile>) -> Seq<Vector> {
    arr.map_values(|t: DynamicTile| t.0)
}

/// Whether one of the tiles is at `p`.
pub open spec fn has_tile(arr: Seq<DynamicTile>, p: (int, int)) -> bool {
    exists|i: int| 0 <= i < arr.len() && #[trigger] arr[i].xy() == p
}

/// The vertex at the corner `c` of the tile at `p`.
pub open spec fn corner_vertex(p: (int, int), c: Corner) -> (int, int) {
    (p.0 + c.offset().0, p.1 + c.offset().1)
}

/// The tile whose corner `c` is the vertex `v`.
pub open spec fn tile_at_corner(v: (int, int), c: Corner) -> (int, int) {
    (v.0 - c.offset().0, v.1 - c.offset().1)
}

/// The step from a tile to its neighbour that shares the edge an outline follows when it
/// leaves the corner `c` going clockwise.
pub open spec fn corner_step(c: Corner) -> (int, int) {
    match c {
        Corner::NorthWest => (0, -1),
        Corner::NorthEast => (1, 0),
        Corner::SouthEast => (0, 1),
        Corner::SouthWest => (-1, 0),
    }
}

/// The corner `c` turned anticlockwise `j` times.
pub open spec fn turned(c: Corner, j: int) -> Corner {
    Corner::from_clockwise_index((c.clockwise_index() + 3 * j) as nat)
}

/// Whether `(p, c)` is where the outline starts: the north west corner of the first tile.
pub open spec fn is_outline_start(arr: Seq<DynamicTile>, p: (int, int), c: Corner) -> bool {
    c == Corner::NorthWest && arr.len() > 0 && p == arr[0].xy()
}

/// Turning about the vertex at the corner `c` of the tile at `p`: while the next tile round
/// the vertex is one of the tiles, move to it (at most `n` times), stopping early at the start
/// of the outline. Gives where it ends and whether it reached the start.
pub open spec fn turn_about(arr: Seq<DynamicTile>, p: (int, int), c: Corner, n: nat) -> ((int, int), Corner, bool)
    decreases n,
{
    let q = (p.0 + corner_step(c).0, p.1 + corner_step(c).1);
    if n == 0 || !has_tile(arr, q) {
        (p, c, false)
    } else {
        let c2 = turned(c, 1);
        if is_outline_start(arr, q, c2) {
            (q, c2, true)
        } else {
            turn_about(arr, q, c2, (n - 1) as nat)
        }
    }
}

/// Whether the corner `c` of a tile at `p` is on the outline: the tile is one of the tiles,
/// and one of the other three tiles round the vertex is not.
pub open spec fn on_outline(arr: Seq<DynamicTile>, p: (int, int), c: Corner) -> bool {
    &&& has_tile(arr, p)
    &&& exists|j: int| 1 <= j <= 3 && !has_tile(arr, #[trigger] tile_at_corner(corner_vertex(p, c), turned(c, j)))
}

/// Whether every tile lies far enough inside the bounds of a byte that its neighbours and
/// its corners do too.
pub open spec fn inside_bounds(arr: Seq<DynamicTile>) -> bool {
    forall|i: int| 0 <= i < arr.len() ==> -126 <= (#[trigger] arr[i]).0.x <= 126 && -126 <= arr[i].0.y <= 126
}

/// Moving to the next tile round a vertex keeps the vertex and turns the corner
/// anticlockwise; the tiles round a vertex are those at its turned corners.
pub proof fn lemma_turn(p: (int, int), c: Corner, j: int)
    requires
        0 <= j,
    ensures
        corner_vertex((p.0 + corner_step(c).0, p.1 + corner_step(c).1), turned(c, 1)) == corner_vertex(p, c),
        tile_at_corner(corner_vertex(p, c), turned(c, 0)) == p,
        turned(c, 0) == c,
        turned(turned(c, j), 1) == turned(c, j + 1),
        tile_at_corner(corner_vertex(p, c), turned(c, j)) == tile_at_corner(corner_vertex(p, c), turned(c, j + 4)),
        turned(c, 4) == c,
{
    assert(((c.clockwise_index() + 3 * j) as nat % 4 + 3) % 4 == (c.clockwise_index() + 3 * (j + 1)) as nat % 4);
    assert((c.clockwise_index() + 3 * (j + 4)) as nat % 4 == (c.clockwise_index() + 3 * j) as nat % 4);
}

/// After the outline leaves a corner clockwise along an edge with no tile beyond it, the tile
/// beyond that edge is round the new vertex; the vertex moves in the direction of the line.
pub proof fn lemma_move(p: (int, int), c: Corner)
    ensures
        tile_at_corner(corner_vertex(p, turned(c, 3)), turned(turned(c, 3), 3)) == (p.0 + corner_step(c).0, p.1 + corner_step(c).1),
        corner_vertex(p, turned(c, 3)) == (corner_vertex(p, c).0 + line_motion(corner_step(c)).0, corner_vertex(p, c).1
            + line_motion(corner_step(c)).1),
        Vector::unit_xy(2 * c.clockwise_index() as int) == corner_step(c),
        Corner::from_clockwise_index(c.clockwise_index() + 1) == turned(c, 3),
        Corner::from_clockwise_index(c.clockwise_index() + 3) == turned(c, 1),
{
}

/// The direction in which the vertex moves when the outline leaves the corner `c` clockwise,
/// as a function of the step of the corner: the step turned a quarter clockwise.
pub open spec fn line_motion(d: (int, int)) -> (int, int) {
    (-d.1, d.0)
}

/// How far the outline can still go along a straight line: unbounded (1000) before the line
/// has a direction, else the distance of the vertex to the side of the bounds it moves towards.
pub open spec fn line_measure(arr: Seq<DynamicTile>, p: (int, int), c: Corner, d: Option<(int, int)>) -> nat {
    match d {
        None => 1000,
        Some(dd) => {
            let v = corner_vertex(p, c);
            let vs = tile_vectors(arr);
            let m = line_motion(dd);
            let left = if m.0 > 0 {
                max_x(vs) + 1 - v.0
            } else if m.0 < 0 {
                v.0 - min_x(vs)
            } else if m.1 > 0 {
                max_y(vs) + 1 - v.1
            } else {
                v.1 - min_y(vs)
            };
            if left < 0 {
                0
            } else {
                left as nat
            }
        },
    }
}

/// Follows the outline from the corner `c` of the tile at `p` along one straight line: turns
/// about the vertex, then, while the edge goes on in the direction of the line (any direction
/// at first), moves to the next vertex clockwise. Stops at the start of the outline. Gives
/// where it ends and whether it reached the start.
pub open spec fn trace_line(arr: Seq<DynamicTile>, p: (int, int), c: Corner, d: Option<(int, int)>) -> ((int, int), Corner, bool)
    decreases line_measure(arr, p, c, d),
{
    let (p1, c1, fin) = turn_about(arr, p, c, 3);
    if fin {
        (p1, c1, true)
    } else if d is Some && d->0 != corner_step(c1) {
        (p1, c1, false)
    } else {
        let c2 = turned(c1, 3);
        let nd = Some(corner_step(c1));
        if is_outline_start(arr, p1, c2) {
            (p1, c2, true)
        } else if line_measure(arr, p1, c2, nd) < line_measure(arr, p, c, d) {
            trace_line(arr, p1, c2, nd)
        } else {
            (p1, c2, false)
        }
    }
}

/// Where a turn about a vertex ends without reaching the start and the edge goes on in the
/// direction of the line, following the line is following it from the next vertex, which is
/// closer to the end.
pub proof fn lemma_trace_continue(
    arr: Seq<DynamicTile>,
    p: (int, int),
    c: Corner,
    d: Option<(int, int)>,
    q: (int, int),
    cq: Corner,
)
    requires
        inside_bounds(arr),
        turn_about(arr, p, c, 3) == (q, cq, false),
        has_tile(arr, q),
        corner_vertex(q, cq) == corner_vertex(p, c),
        d is None || d->0 == corner_step(cq),
        !is_outline_start(arr, q, turned(cq, 3)),
    ensures
        line_measure(arr, q, turned(cq, 3), Some(corner_step(cq))) < line_measure(arr, p, c, d),
        trace_line(arr, p, c, d) == trace_line(arr, q, turned(cq, 3), Some(corner_step(cq))),
{
    lemma_has_tile_bounds(arr, q);
    lemma_move(q, cq);
    let vs = tile_vectors(arr);
    let v = corner_vertex(q, cq);
    let v2 = corner_vertex(q, turned(cq, 3));
    match cq {
        Corner::NorthWest => {
            assert(v2.0 == v.0 + 1 && v2.0 <= max_x(vs) + 1);
        },
        Corner::NorthEast => {
            assert(v2.1 == v.1 + 1 && v2.1 <= max_y(vs) + 1);
        },
        Corner::SouthEast => {
            assert(v2.0 == v.0 - 1 && v2.0 >= min_x(vs));
        },
        Corner::SouthWest => {
            assert(v2.1 == v.1 - 1 && v2.1 >= min_y(vs));
        },
    }
}

/// A tile in a set of tiles within bounds lies within them, and so do the least and greatest
/// coordinates of the tiles.
pub proof fn lemma_has_tile_bounds(arr: Seq<DynamicTile>, p: (int, int))
    requires
        inside_bounds(arr),
        has_tile(arr, p),
    ensures
        -126 <= p.0 <= 126,
        -126 <= p.1 <= 126,
        min_x(tile_vectors(arr)) <= p.0 <= max_x(tile_vectors(arr)),
        min_y(tile_vectors(arr)) <= p.1 <= max_y(tile_vectors(arr)),
        -126 <= min_x(tile_vectors(arr)) && max_x(tile_vectors(arr)) <= 126,
        -126 <= min_y(tile_vectors(arr)) && max_y(tile_vectors(arr)) <= 126,
{
    let vs = tile_vectors(arr);
    let i = choose|i: int| 0 <= i < arr.len() && #[trigger] arr[i].xy() == p;
    crate::polyomino::lemma_min(vs);
    crate::polyomino::lemma_max(vs);
    assert(vs[i] == arr[i].0);
    let a = choose|k: int| 0 <= k < vs.len() && #[trigger] vs[k].x == min_x(vs);
    let b = choose|k: int| 0 <= k < vs.len() && #[trigger] vs[k].x == max_x(vs);
    let e = choose|k: int| 0 <= k < vs.len() && #[trigger] vs[k].y == min_y(vs);
    let f = choose|k: int| 0 <= k < vs.len() && #[trigger] vs[k].y == max_y(vs);
    assert(vs[a] == arr[a].0 && vs[b] == arr[b].0 && vs[e] == arr[e].0 && vs[f] == arr[f].0);
}

/// Whether some tiles include the tile `t`.
fn contains_tile<const N: usize>(arr: &[DynamicTile; N], t: DynamicTile) -> (r: bool)
    ensures
        r == has_tile(arr@, t.xy()),
{
    let mut i: usize = 0;
    while i < N
        invariant
            i <= N,
            arr@.len() == N,
            forall|k: int| 0 <= k < i ==> (#[trigger] arr@[k]).xy() != t.xy(),
        decreases N - i,
    {
        if arr[i].0.x == t.0.x && arr[i].0.y == t.0.y {
            assert(arr@[i as int].xy() == t.xy());
            return true;
        }
        i = i + 1;
    }
    false
}

/// Turns about the vertex at the corner `c` of the tile `p` (see `turn_about`).
fn turn_about_vertex<const N: usize>(arr: &[DynamicTile; N], p: DynamicTile, c: Corner) -> (r: (DynamicTile, Corner, bool))
    requires
        inside_bounds(arr@),
        on_outline(arr@, p.xy(), c),
    ensures
        (r.0.xy(), r.1, r.2) == turn_about(arr@, p.xy(), c, 3),
        has_tile(arr@, r.0.xy()),
        corner_vertex(r.0.xy(), r.1) == corner_vertex(p.xy(), c),
        r.2 ==> is_outline_start(arr@, r.0.xy(), r.1),
        !r.2 ==> !has_tile(arr@, (r.0.xy().0 + corner_step(r.1).0, r.0.xy().1 + corner_step(r.1).1)),
{
    let ghost v = corner_vertex(p.xy(), c);
    let ghost j = choose|j: int| 1 <= j <= 3 && !has_tile(arr@, #[trigger] tile_at_corner(v, turned(c, j)));
    let mut q = p;
    let mut cq = c;
    let ghost mut i: int = 0;
    proof {
        lemma_turn(p.xy(), c, 0);
    }
    loop
        invariant
            inside_bounds(arr@),
            v == corner_vertex(p.xy(), c),
            1 <= j <= 3,
            !has_tile(arr@, tile_at_corner(v, turned(c, j))),
            0 <= i < j,
            q.xy() == tile_at_corner(v, turned(c, i)),
            cq == turned(c, i),
            corner_vertex(q.xy(), cq) == v,
            has_tile(arr@, q.xy()),
            turn_about(arr@, p.xy(), c, 3) == turn_about(arr@, q.xy(), cq, (3 - i) as nat),
        decreases j - i,
    {
        proof {
            lemma_has_tile_bounds(arr@, q.xy());
            lemma_turn(q.xy(), cq, 0);
            lemma_turn(p.xy(), c, i);
        }
        let next = q.const_add(&cq.clockwise_direction());
        if contains_tile(arr, next) {
            let c2 = cq.anticlockwise();
            assert(c2 == turned(cq, 1));
            if c2 == Corner::NorthWest && next == arr[0] {
                return (next, c2, true);
            }
            q = next;
            cq = c2;
            proof {
                i = i + 1;
            }
        } else {
            return (q, cq, false);
        }
    }
}

/// Walks the outline of some tiles, giving the vertices where it turns.
pub struct OutlineIter<const POINTS: usize> {
    arr: [DynamicTile; POINTS],
    next: Option<(DynamicTile, Corner)>,
}

impl<const POINTS: usize> OutlineIter<POINTS> {
    /// The tiles whose outline is walked.
    pub closed spec fn tiles(self) -> Seq<DynamicTile> {
        self.arr@
    }

    /// Where the walk goes on from: a corner of a tile, or nowhere once it is over.
    pub closed spec fn upcoming(self) -> Option<((int, int), Corner)> {
        match self.next {
            None => None,
            Some((t, c)) => Some((t.xy(), c)),
        }
    }

    /// The tiles lie within bounds, and the walk goes on from a corner on the outline.
    pub open spec fn wf(self) -> bool {
        &&& inside_bounds(self.tiles())
        &&& self.upcoming() matches Some((p, c)) ==> on_outline(self.tiles(), p, c)
    }

    /// Gives the next vertex where the outline turns, and moves on to the vertex after it.
    pub fn next(&mut self) -> (r: Option<DynamicVertex>)
        requires
            old(self).wf(),
        ensures
            final(self).wf(),
            final(self).tiles() == old(self).tiles(),
            old(self).upcoming() is None ==> r is None && final(self).upcoming() is None,
            old(self).upcoming() matches Some((p, c)) ==> {
                &&& r matches Some(v) && v.xy() == corner_vertex(p, c)
                &&& ({
                    let (q, cq, fin) = trace_line(old(self).tiles(), p, c, None);
                    if is_outline_start(old(self).tiles(), q, cq) {
                        final(self).upcoming() is None
                    } else {
                        final(self).upcoming() == Some((q, cq))
                    }
                })
            },
    {
        let (coordinate_to_return, corner_to_return) = match self.next {
            None => {
                return None;
            },
            Some(x) => x,
        };
        let ghost arr = self.arr@;
        let ghost p0 = coordinate_to_return.xy();
        let mut direction_so_far: Option<Vector> = None;
        let mut next_coordinate = coordinate_to_return;
        let mut next_corner = corner_to_return;
        loop
            invariant_except_break
                on_outline(arr, next_coordinate.xy(), next_corner),
                trace_line(arr, p0, corner_to_return, None) == trace_line(
                    arr,
                    next_coordinate.xy(),
                    next_corner,
                    match direction_so_far {
                        None => None,
                        Some(d) => Some(d.xy()),
                    },
                ),
            invariant
                arr == self.arr@,
                inside_bounds(arr),
                self.arr@.len() == POINTS,
            ensures
                has_tile(arr, next_coordinate.xy()),
                ({
                    let (q, cq, fin) = trace_line(arr, p0, corner_to_return, None);
                    q == next_coordinate.xy() && cq == next_corner
                }),
                on_outline(arr, next_coordinate.xy(), next_corner) || is_outline_start(arr, next_coordinate.xy(), next_corner),
            decreases line_measure(
                arr,
                next_coordinate.xy(),
                next_corner,
                match direction_so_far {
                    None => None,
                    Some(d) => Some(d.xy()),
                },
            ),
        {
            let ghost d_spec = match direction_so_far {
                None => None,
                Some(d) => Some(d.xy()),
            };
            let ghost before_p = next_coordinate.xy();
            let ghost before_c = next_corner;
            let (q, cq, fin) = turn_about_vertex(&self.arr, next_coordinate, next_corner);
            next_coordinate = q;
            next_corner = cq;
            if fin {
                proof {
                    assert(trace_line(arr, before_p, before_c, d_spec) == (q.xy(), cq, true));
                }
                break;
            }
            proof {
                lemma_turn(q.xy(), cq, 0);
                lemma_move(q.xy(), cq);
            }
            let same_line = match direction_so_far {
                None => true,
                Some(d) => d == next_corner.clockwise_direction(),
            };
            if !same_line {
                proof {
                    assert(trace_line(arr, before_p, before_c, d_spec) == (q.xy(), cq, false));
                    assert(!has_tile(arr, tile_at_corner(corner_vertex(q.xy(), cq), turned(cq, 1))));
                }
                break;
            }
            direction_so_far = Some(next_corner.clockwise_direction());
            next_corner = next_corner.clockwise();
            if next_corner == Corner::NorthWest && next_coordinate == self.arr[0] {
                proof {
                    assert(trace_line(arr, before_p, before_c, d_spec) == (q.xy(), next_corner, true));
                }
                break;
            }
            proof {
                lemma_trace_continue(arr, before_p, before_c, d_spec, q.xy(), cq);
                assert(!has_tile(arr, tile_at_corner(corner_vertex(q.xy(), next_corner), turned(next_corner, 3))));
            }
        }
        if next_corner == Corner::NorthWest && next_coordinate == self.arr[0] {
            self.next = None;
        } else {
            self.next = Some((next_coordinate, next_corner));
        }
        proof {
            lemma_has_tile_bounds(arr, p0);
        }
        Some(coordinate_to_return.get_vertex(&corner_to_return))
    }
}

/// Where the walk goes on after the vertex at the corner `c` of the tile at `p`: the end of
/// the straight line it follows from there, or nowhere if that is the start of the outline.
pub open spec fn outline_after(arr: Seq<DynamicTile>, p: (int, int), c: Corner) -> Option<((int, int), Corner)> {
    let (q, cq, fin) = trace_line(arr, p, c, None);
    if is_outline_start(arr, q, cq) {
        None
    } else {
        Some((q, cq))
    }
}

/// The vertices that a walk of the outline gives from a state, at most `k` of them.
pub open spec fn outline_walk(arr: Seq<DynamicTile>, state: Option<((int, int), Corner)>, k: nat) -> Seq<(int, int)>
    decreases k,
{
    if k == 0 {
        Seq::empty()
    } else {
        match state {
            None => Seq::empty(),
            Some((p, c)) => seq![corner_vertex(p, c)] + outline_walk(arr, outline_after(arr, p, c), (k - 1) as nat),
        }
    }
}

/// Whether tiles are in order by `x`, then by `y`.
pub open spec fn tiles_sorted(arr: Seq<DynamicTile>) -> bool {
    forall|i: int, j: int|
        0 <= i < j < arr.len() ==> (#[trigger] arr[i]).0.x < (#[trigger] arr[j]).0.x || (arr[i].0.x == arr[j].0.x
            && arr[i].0.y <= arr[j].0.y)
}

impl<const POINTS: usize> OutlineIter<POINTS> {
    /// A walk of the outline of some tiles in order, from the north west corner of the first.
    pub fn new(arr: [DynamicTile; POINTS]) -> (r: Self)
        requires
            POINTS > 0,
            tiles_sorted(arr@),
            inside_bounds(arr@),
        ensures
            r.tiles() == arr@,
            r.upcoming() == Some((arr@[0].xy(), Corner::NorthWest)),
            r.wf(),
    {
        let r = OutlineIter { arr, next: Some((arr[0], Corner::NorthWest)) };
        proof {
            let p = arr@[0].xy();
            let above = tile_at_corner(corner_vertex(p, Corner::NorthWest), turned(Corner::NorthWest, 1));
            assert(above == (p.0, p.1 - 1));
            if has_tile(arr@, above) {
                let k = choose|k: int| 0 <= k < arr@.len() && #[trigger] arr@[k].xy() == above;
                assert(k != 0);
                assert(arr@[0].0.x < arr@[k].0.x || (arr@[0].0.x == arr@[k].0.x && arr@[0].0.y <= arr@[k].0.y));
            }
            assert(has_tile(arr@, p)) by {
                assert(arr@[0].xy() == p);
            }
        }
        r
    }
}

/// The vertices of the outline of some tiles in order, at most `limit` of them.
pub fn outline_vertices<const POINTS: usize>(arr: [DynamicTile; POINTS], limit: usize) -> (r: Vec<DynamicVertex>)
    requires
        POINTS > 0,
        tiles_sorted(arr@),
        inside_bounds(arr@),
    ensures
        r@.len() == outline_walk(arr@, Some((arr@[0].xy(), Corner::NorthWest)), limit as nat).len(),
        forall|k: int|
            0 <= k < r@.len() ==> (#[trigger] r@[k]).xy() == outline_walk(
                arr@,
                Some((arr@[0].xy(), Corner::NorthWest)),
                limit as nat,
            )[k],
{
    let ghost whole = outline_walk(arr@, Some((arr@[0].xy(), Corner::NorthWest)), limit as nat);
    let mut it = OutlineIter::new(arr);
    let mut result: Vec<DynamicVertex> = Vec::new();
    let mut n: usize = 0;
    while n < limit
        invariant_except_break
            whole.len() == result@.len() + outline_walk(arr@, it.upcoming(), (limit - n) as nat).len(),
            forall|k: int|
                0 <= k < outline_walk(arr@, it.upcoming(), (limit - n) as nat).len() ==> #[trigger] outline_walk(
                    arr@,
                    it.upcoming(),
                    (limit - n) as nat,
                )[k] == whole[result@.len() + k],
        invariant
            it.wf(),
            it.tiles() == arr@,
            n <= limit,
            whole == outline_walk(arr@, Some((arr@[0].xy(), Corner::NorthWest)), limit as nat),
            forall|k: int| 0 <= k < result@.len() ==> (#[trigger] result@[k]).xy() == whole[k],
        ensures
            whole.len() == result@.len(),
        decreases limit - n,
    {
        let ghost state = it.upcoming();
        let ghost walk = outline_walk(arr@, state, (limit - n) as nat);
        match it.next() {
            None => {
                proof {
                    assert(walk.len() == 0);
                }
                break;
            },
            Some(v) => {
                proof {
                    let (p, c) = state->0;
                    let rest = outline_walk(arr@, outline_after(arr@, p, c), (limit - n - 1) as nat);
                    assert(walk == seq![corner_vertex(p, c)] + rest);
                    assert(it.upcoming() == outline_after(arr@, p, c));
                    assert(walk[0] == whole[result@.len() as int]);
                    assert forall|k: int| 0 <= k < rest.len() implies #[trigger] rest[k] == whole[result@.len() + 1 + k] by {
                        assert(rest[k] == walk[k + 1]);
                    }
                }
                let ghost before = result@;
                result.push(v);
                proof {
                    assert(result@[before.len() as int] == v);
                }
            },
        }
        n = n + 1;
    }
    result
}

/// Where the walk of the outline starts: the north west corner of the first tile.
pub open spec fn outline_start(arr: Seq<DynamicTile>) -> ((int, int), Corner) {
    (arr[0].xy(), Corner::NorthWest)
}

/// Whether the outline can leave the corner `s.1` of the tile at `s.0` clockwise along an
/// edge: the tile is one of the tiles, and the tile beyond that edge is not.
spec fn along_edge(arr: Seq<DynamicTile>, s: ((int, int), Corner)) -> bool {
    &&& has_tile(arr, s.0)
    &&& !has_tile(arr, (s.0.0 + corner_step(s.1).0, s.0.1 + corner_step(s.1).1))
}

/// One edge of the outline: from the corner `s.1` of the tile at `s.0`, go on to the next
/// corner of the tile clockwise, then turn about the vertex there; stop at the start.
spec fn edge_step(arr: Seq<DynamicTile>, s: ((int, int), Corner)) -> ((int, int), Corner) {
    let c2 = turned(s.1, 3);
    if is_outline_start(arr, s.0, c2) {
        (s.0, c2)
    } else {
        let r = turn_about(arr, s.0, c2, 3);
        (r.0, r.1)
    }
}

/// Where `j` edges of the outline lead from `s`.
spec fn edge_walk(arr: Seq<DynamicTile>, s: ((int, int), Corner), j: nat) -> ((int, int), Corner)
    decreases j,
{
    if j == 0 {
        s
    } else {
        edge_step(arr, edge_walk(arr, s, (j - 1) as nat))
    }
}

/// Where the walk of the outline stands after giving `k` vertices from a state.
spec fn vertex_walk(arr: Seq<DynamicTile>, state: Option<((int, int), Corner)>, k: nat) -> Option<((int, int), Corner)>
    decreases k,
{
    if k == 0 {
        state
    } else {
        match state {
            None => None,
            Some((p, c)) => vertex_walk(arr, outline_after(arr, p, c), (k - 1) as nat),
        }
    }
}

/// Turning `a` times, then `b` times, is turning `a + b` times.
proof fn lemma_turned(c: Corner, a: int, b: int)
    requires
        0 <= a,
        0 <= b,
    ensures
        turned(turned(c, a), b) == turned(c, a + b),
    decreases b,
{
    if b > 0 {
        lemma_turned(c, a, b - 1);
        lemma_turn((0, 0), turned(c, a), b - 1);
        lemma_turn((0, 0), c, a + b - 1);
    } else {
        lemma_turn((0, 0), turned(c, a), 0);
    }
}

/// The tile at a corner of a vertex has that vertex at that corner.
proof fn lemma_corner_tile(v: (int, int), c: Corner, p: (int, int))
    ensures
        corner_vertex(tile_at_corner(v, c), c) == v,
        tile_at_corner(corner_vertex(p, c), c) == p,
        corner_vertex(p, c) == v <==> p == tile_at_corner(v, c),
{
}

/// Turning about a vertex from the tile at its corner `turned(c0, i)`, where the tiles at its
/// corners `turned(c0, 0..=i)` are tiles and the one at `turned(c0, 3)` is not, ends at a tile
/// at a corner `turned(c0, k)` with `i <= k <= 2`, having passed only tiles; it ends at the
/// start of the outline if and only if it reached it, and otherwise where the next tile round
/// is missing.
proof fn lemma_turn_round(arr: Seq<DynamicTile>, v: (int, int), c0: Corner, i: nat, n: nat) -> (k: nat)
    requires
        i + n == 3,
        forall|j: int| 0 <= j <= i ==> has_tile(arr, #[trigger] tile_at_corner(v, turned(c0, j))),
        !has_tile(arr, tile_at_corner(v, turned(c0, 3))),
    ensures
        i <= k <= 2,
        ({
            let r = turn_about(arr, tile_at_corner(v, turned(c0, i as int)), turned(c0, i as int), n);
            &&& r.0 == tile_at_corner(v, turned(c0, k as int))
            &&& r.1 == turned(c0, k as int)
            &&& forall|j: int| 0 <= j <= k ==> has_tile(arr, #[trigger] tile_at_corner(v, turned(c0, j)))
            &&& r.2 ==> is_outline_start(arr, r.0, r.1)
            &&& !r.2 ==> !has_tile(arr, (r.0.0 + corner_step(r.1).0, r.0.1 + corner_step(r.1).1))
            &&& !r.2 && k > i ==> !is_outline_start(arr, r.0, r.1)
        }),
    decreases n,
{
    let c = turned(c0, i as int);
    let p = tile_at_corner(v, c);
    assert(has_tile(arr, tile_at_corner(v, turned(c0, i as int))));
    if i == 3 {
        assert(false);
        return 0;
    }
    let q = (p.0 + corner_step(c).0, p.1 + corner_step(c).1);
    lemma_turn(p, c, 0);
    lemma_turn(p, c0, i as int);
    lemma_corner_tile(v, c, p);
    lemma_corner_tile(v, turned(c0, i + 1 as int), q);
    assert(q == tile_at_corner(v, turned(c0, i + 1 as int)));
    if !has_tile(arr, q) {
        i
    } else {
        let c2 = turned(c, 1);
        if i + 1 == 3 {
            assert(false);
            return 0;
        }
        if is_outline_start(arr, q, c2) {
            assert forall|j: int| 0 <= j <= i + 1 implies has_tile(arr, #[trigger] tile_at_corner(v, turned(c0, j))) by {
                if j <= i {
                    assert(has_tile(arr, tile_at_corner(v, turned(c0, j))));
                }
            }
            i + 1
        } else {
            assert forall|j: int| 0 <= j <= i + 1 implies has_tile(arr, #[trigger] tile_at_corner(v, turned(c0, j))) by {
                if j <= i {
                    assert(has_tile(arr, tile_at_corner(v, turned(c0, j))));
                }
            }
            lemma_turn_round(arr, v, c0, i + 1, (n - 1) as nat)
        }
    }
}

/// Round a vertex, two walks of the tiles from corners with a tile before none, ending at the
/// same corner, began at the same corner.
proof fn lemma_rotation_unique(arr: Seq<DynamicTile>, v: (int, int), c1: Corner, k1: int, c2: Corner, k2: int)
    requires
        0 <= k1 <= 2,
        0 <= k2 <= 2,
        forall|j: int| 0 <= j <= k1 ==> has_tile(arr, #[trigger] tile_at_corner(v, turned(c1, j))),
        !has_tile(arr, tile_at_corner(v, turned(c1, 3))),
        forall|j: int| 0 <= j <= k2 ==> has_tile(arr, #[trigger] tile_at_corner(v, turned(c2, j))),
        !has_tile(arr, tile_at_corner(v, turned(c2, 3))),
        turned(c1, k1) == turned(c2, k2),
    ensures
        c1 == c2,
{
    if k1 < k2 {
        let j = k2 - k1 - 1;
        assert(turned(c1, 3) == turned(c2, j));
        assert(has_tile(arr, tile_at_corner(v, turned(c2, j))));
    } else if k2 < k1 {
        let j = k1 - k2 - 1;
        assert(turned(c2, 3) == turned(c1, j));
        assert(has_tile(arr, tile_at_corner(v, turned(c1, j))));
    } else {
        lemma_turn((0, 0), c1, 0);
        lemma_turn((0, 0), c2, 0);
    }
}

/// What an edge of the outline does from a corner where the outline leaves along an edge:
/// past the next corner clockwise, it turns round the vertex there from its own tile.
proof fn lemma_edge(arr: Seq<DynamicTile>, s: ((int, int), Corner)) -> (k: nat)
    requires
        along_edge(arr, s),
        !is_outline_start(arr, s.0, turned(s.1, 3)),
    ensures
        k <= 2,
        ({
            let c0 = turned(s.1, 3);
            let v = corner_vertex(s.0, c0);
            let r = turn_about(arr, s.0, c0, 3);
            &&& edge_step(arr, s) == (r.0, r.1)
            &&& r.0 == tile_at_corner(v, turned(c0, k as int))
            &&& r.1 == turned(c0, k as int)
            &&& forall|j: int| 0 <= j <= k ==> has_tile(arr, #[trigger] tile_at_corner(v, turned(c0, j)))
            &&& !has_tile(arr, tile_at_corner(v, turned(c0, 3)))
            &&& r.2 <==> is_outline_start(arr, r.0, r.1)
            &&& !r.2 ==> along_edge(arr, (r.0, r.1))
        }),
{
    let c0 = turned(s.1, 3);
    let v = corner_vertex(s.0, c0);
    lemma_move(s.0, s.1);
    lemma_turn(s.0, c0, 0);
    lemma_corner_tile(v, c0, s.0);
    assert(tile_at_corner(v, turned(c0, 0)) == s.0);
    assert forall|j: int| 0 <= j <= 0 implies has_tile(arr, #[trigger] tile_at_corner(v, turned(c0, j))) by {
    }
    let k = lemma_turn_round(arr, v, c0, 0, 3);
    let r = turn_about(arr, s.0, c0, 3);
    assert(has_tile(arr, tile_at_corner(v, turned(c0, k as int))));
    k
}

/// From a corner where the outline leaves along an edge, an edge leads to the start or to
/// another such corner.
proof fn lemma_edge_along(arr: Seq<DynamicTile>, s: ((int, int), Corner))
    requires
        along_edge(arr, s),
        arr.len() > 0,
        along_edge(arr, outline_start(arr)),
    ensures
        along_edge(arr, edge_step(arr, s)),
{
    if !is_outline_start(arr, s.0, turned(s.1, 3)) {
        let k = lemma_edge(arr, s);
    }
}

/// Two corners where the outline leaves along an edge, whose edges lead to the same corner
/// other than the start, are the same.
proof fn lemma_edge_injective(arr: Seq<DynamicTile>, s1: ((int, int), Corner), s2: ((int, int), Corner))
    requires
        along_edge(arr, s1),
        along_edge(arr, s2),
        arr.len() > 0,
        edge_step(arr, s1) == edge_step(arr, s2),
        edge_step(arr, s1) != outline_start(arr),
    ensures
        s1 == s2,
{
    let t = edge_step(arr, s1);
    assert(!is_outline_start(arr, s1.0, turned(s1.1, 3)));
    assert(!is_outline_start(arr, s2.0, turned(s2.1, 3)));
    let k1 = lemma_edge(arr, s1);
    let k2 = lemma_edge(arr, s2);
    let a0 = turned(s1.1, 3);
    let b0 = turned(s2.1, 3);
    let v1 = corner_vertex(s1.0, a0);
    let v2 = corner_vertex(s2.0, b0);
    lemma_corner_tile(v1, t.1, t.0);
    lemma_corner_tile(v2, t.1, t.0);
    assert(v1 == v2);
    lemma_rotation_unique(arr, v1, a0, k1 as int, b0, k2 as int);
    lemma_corner_tile(v1, a0, s1.0);
    lemma_corner_tile(v2, b0, s2.0);
    lemma_turned(s1.1, 3, 1);
    lemma_turned(s2.1, 3, 1);
    lemma_turn((0, 0), s1.1, 0);
    lemma_turn((0, 0), s2.1, 0);
}

/// Walking `a` edges, then `b` more, is walking `a + b` edges.
proof fn lemma_edge_walk_add(arr: Seq<DynamicTile>, s: ((int, int), Corner), a: nat, b: nat)
    ensures
        edge_walk(arr, edge_walk(arr, s, a), b) == edge_walk(arr, s, a + b),
    decreases b,
{
    if b > 0 {
        lemma_edge_walk_add(arr, s, a, (b - 1) as nat);
    }
}

/// Following a straight line of the outline from a corner where it leaves along an edge: the
/// line ends after `j` edges, none of which before reached the start or changed direction; at
/// the start if it reached it, else at the corner where the direction changes.
proof fn lemma_line(arr: Seq<DynamicTile>, t: ((int, int), Corner)) -> (j: nat)
    requires
        inside_bounds(arr),
        arr.len() > 0,
        along_edge(arr, t),
        !is_outline_start(arr, t.0, turned(t.1, 3)),
    ensures
        j >= 1,
        forall|i: nat|
            1 <= i < j ==> #[trigger] edge_walk(arr, t, i) != outline_start(arr) && corner_step(edge_walk(arr, t, i).1)
                == corner_step(t.1),
        ({
            let r = trace_line(arr, t.0, turned(t.1, 3), Some(corner_step(t.1)));
            let e = edge_walk(arr, t, j);
            if r.2 {
                e == outline_start(arr) && (r.0, r.1) == e
            } else {
                &&& e == (r.0, r.1)
                &&& e != outline_start(arr)
                &&& along_edge(arr, e)
            }
        }),
    decreases line_measure(arr, t.0, turned(t.1, 3), Some(corner_step(t.1))),
{
    let d = corner_step(t.1);
    let c0 = turned(t.1, 3);
    let k = lemma_edge(arr, t);
    let r1 = turn_about(arr, t.0, c0, 3);
    let p1 = r1.0;
    let c1 = r1.1;
    assert(edge_walk(arr, t, 1) == edge_step(arr, edge_walk(arr, t, 0)));
    assert(edge_walk(arr, t, 1) == (p1, c1));
    if r1.2 {
        1
    } else if d != corner_step(c1) {
        1
    } else {
        let c2 = turned(c1, 3);
        if is_outline_start(arr, p1, c2) {
            assert(edge_walk(arr, t, 2) == edge_step(arr, edge_walk(arr, t, 1)));
            assert forall|i: nat| 1 <= i < 2 implies #[trigger] edge_walk(arr, t, i) != outline_start(arr) && corner_step(
                edge_walk(arr, t, i).1,
            ) == corner_step(t.1) by {
                assert(i == 1);
            }
            2
        } else {
            lemma_corner_tile(corner_vertex(t.0, c0), c1, p1);
            lemma_trace_continue(arr, t.0, c0, Some(d), p1, c1);
            let j2 = lemma_line(arr, (p1, c1));
            assert forall|i: nat| 1 <= i < j2 + 1 implies #[trigger] edge_walk(arr, t, i) != outline_start(arr)
                && corner_step(edge_walk(arr, t, i).1) == corner_step(t.1) by {
                if i > 1 {
                    lemma_edge_walk_add(arr, t, 1, (i - 1) as nat);
                    assert(edge_walk(arr, (p1, c1), (i - 1) as nat) != outline_start(arr));
                }
            }
            lemma_edge_walk_add(arr, t, 1, j2);
            j2 + 1
        }
    }
}

/// From a corner where the outline leaves along an edge, the walk gives the vertex there and
/// goes on `j` edges further: to nowhere if that is the start, else to that corner, where the
/// outline again leaves along an edge; none of the edges before reaches the start.
proof fn lemma_after(arr: Seq<DynamicTile>, t: ((int, int), Corner)) -> (j: nat)
    requires
        inside_bounds(arr),
        arr.len() > 0,
        along_edge(arr, t),
    ensures
        j >= 1,
        forall|i: nat| 1 <= i < j ==> #[trigger] edge_walk(arr, t, i) != outline_start(arr),
        outline_after(arr, t.0, t.1) == if edge_walk(arr, t, j) == outline_start(arr) {
            None
        } else {
            Some(edge_walk(arr, t, j))
        },
        edge_walk(arr, t, j) != outline_start(arr) ==> along_edge(arr, edge_walk(arr, t, j)),
{
    let c0 = turned(t.1, 3);
    assert(turn_about(arr, t.0, t.1, 3) == (t.0, t.1, false));
    if is_outline_start(arr, t.0, c0) {
        assert(edge_walk(arr, t, 1) == edge_step(arr, edge_walk(arr, t, 0)));
        1
    } else {
        lemma_trace_continue(arr, t.0, t.1, None, t.0, t.1);
        let j = lemma_line(arr, t);
        assert forall|i: nat| 1 <= i < j implies #[trigger] edge_walk(arr, t, i) != outline_start(arr) by {
        }
        j
    }
}

/// The walk starts where the outline leaves along an edge.
proof fn lemma_start_along(arr: Seq<DynamicTile>)
    requires
        arr.len() > 0,
        tiles_sorted(arr),
    ensures
        along_edge(arr, outline_start(arr)),
{
    let p = arr[0].xy();
    let above = (p.0 + corner_step(Corner::NorthWest).0, p.1 + corner_step(Corner::NorthWest).1);
    if has_tile(arr, above) {
        let k = choose|k: int| 0 <= k < arr.len() && #[trigger] arr[k].xy() == above;
        assert(k != 0);
        assert(arr[0].0.x < arr[k].0.x || (arr[0].0.x == arr[k].0.x && arr[0].0.y <= arr[k].0.y));
    }
    assert(arr[0].xy() == p);
}

/// Every corner that edges lead to from the start is one where the outline leaves along an
/// edge.
proof fn lemma_walk_along(arr: Seq<DynamicTile>, i: nat)
    requires
        arr.len() > 0,
        along_edge(arr, outline_start(arr)),
    ensures
        along_edge(arr, edge_walk(arr, outline_start(arr), i)),
    decreases i,
{
    if i > 0 {
        lemma_walk_along(arr, (i - 1) as nat);
        lemma_edge_along(arr, edge_walk(arr, outline_start(arr), (i - 1) as nat));
    }
}

/// Until the edges from the start lead back to it, they lead to a new corner each time.
proof fn lemma_walk_distinct(arr: Seq<DynamicTile>, k: nat)
    requires
        arr.len() > 0,
        along_edge(arr, outline_start(arr)),
        forall|i: nat| 1 <= i <= k ==> #[trigger] edge_walk(arr, outline_start(arr), i) != outline_start(arr),
    ensures
        forall|a: nat, b: nat|
            a < b <= k ==> #[trigger] edge_walk(arr, outline_start(arr), a) != #[trigger] edge_walk(arr, outline_start(arr), b),
    decreases k,
{
    let s0 = outline_start(arr);
    if k > 0 {
        lemma_walk_distinct(arr, (k - 1) as nat);
        assert forall|a: nat, b: nat| a < b <= k implies #[trigger] edge_walk(arr, s0, a) != #[trigger] edge_walk(arr, s0, b) by {
            if b == k && a > 0 && edge_walk(arr, s0, a) == edge_walk(arr, s0, b) {
                lemma_walk_along(arr, (a - 1) as nat);
                lemma_walk_along(arr, (k - 1) as nat);
                lemma_edge_injective(arr, edge_walk(arr, s0, (a - 1) as nat), edge_walk(arr, s0, (k - 1) as nat));
                assert(edge_walk(arr, s0, (a - 1) as nat) != edge_walk(arr, s0, (k - 1) as nat));
            }
        }
    }
}

/// Distinct integers all in `0..m` number at most `m`.
proof fn lemma_pigeonhole(codes: Seq<int>, m: int)
    requires
        0 <= m,
        codes.no_duplicates(),
        forall|i: int| 0 <= i < codes.len() ==> 0 <= #[trigger] codes[i] < m,
    ensures
        codes.len() <= m,
{
    codes.unique_seq_to_set();
    vstd::set_lib::lemma_int_range(0, m);
    assert(codes.to_set().subset_of(vstd::set_lib::set_int_range(0, m)));
    vstd::set_lib::lemma_len_subset(codes.to_set(), vstd::set_lib::set_int_range(0, m));
}

/// The index of a tile at `p`.
spec fn tile_index(arr: Seq<DynamicTile>, p: (int, int)) -> int {
    choose|i: int| 0 <= i < arr.len() && #[trigger] arr[i].xy() == p
}

/// A number for a corner of a tile, by the index of the tile.
spec fn index_code(arr: Seq<DynamicTile>, s: ((int, int), Corner)) -> int {
    4 * tile_index(arr, s.0) + s.1.clockwise_index()
}

/// A number for a corner of a tile within bounds, by the place of the tile.
spec fn place_code(s: ((int, int), Corner)) -> int {
    4 * ((s.0.0 + 126) * 253 + (s.0.1 + 126)) + s.1.clockwise_index()
}

/// Corners of tiles get numbers in `0..4 * arr.len()` and in `0..4 * 253 * 253`, distinct
/// corners distinct numbers.
proof fn lemma_codes(arr: Seq<DynamicTile>, s1: ((int, int), Corner), s2: ((int, int), Corner))
    requires
        inside_bounds(arr),
        has_tile(arr, s1.0),
        has_tile(arr, s2.0),
    ensures
        0 <= index_code(arr, s1) < 4 * arr.len(),
        0 <= place_code(s1) < 4 * 253 * 253,
        s1 != s2 ==> index_code(arr, s1) != index_code(arr, s2) && place_code(s1) != place_code(s2),
{
    lemma_has_tile_bounds(arr, s1.0);
    lemma_has_tile_bounds(arr, s2.0);
    let i1 = tile_index(arr, s1.0);
    let i2 = tile_index(arr, s2.0);
    assert(0 <= i1 < arr.len() && arr[i1].xy() == s1.0);
    assert(0 <= i2 < arr.len() && arr[i2].xy() == s2.0);
    if s1 != s2 && index_code(arr, s1) == index_code(arr, s2) {
        assert(i1 == i2);
    }
    if s1 != s2 && place_code(s1) == place_code(s2) {
        let a1 = (s1.0.0 + 126) * 253 + (s1.0.1 + 126);
        let a2 = (s2.0.0 + 126) * 253 + (s2.0.1 + 126);
        assert(a1 == a2);
        assert(s1.0.0 == s2.0.0);
    }
}

/// Some edges from the start lead back to it, the first of them after at most four edges per
/// tile and at most four per place of the bounds.
proof fn lemma_first_return(arr: Seq<DynamicTile>, k: nat) -> (n: nat)
    requires
        arr.len() > 0,
        inside_bounds(arr),
        along_edge(arr, outline_start(arr)),
        1 <= k,
        forall|i: nat| 1 <= i < k ==> #[trigger] edge_walk(arr, outline_start(arr), i) != outline_start(arr),
    ensures
        1 <= n <= 4 * arr.len(),
        n <= 4 * 253 * 253,
        edge_walk(arr, outline_start(arr), n) == outline_start(arr),
        forall|i: nat| 1 <= i < n ==> #[trigger] edge_walk(arr, outline_start(arr), i) != outline_start(arr),
    decreases 4 * arr.len() + 1 - k,
{
    let s0 = outline_start(arr);
    lemma_walk_distinct(arr, (k - 1) as nat);
    let states = Seq::new(k, |i: int| edge_walk(arr, s0, i as nat));
    let by_index = states.map_values(|s: ((int, int), Corner)| index_code(arr, s));
    let by_place = states.map_values(|s: ((int, int), Corner)| place_code(s));
    assert forall|a: int, b: int| 0 <= a < b < k implies by_index[a] != by_index[b] && by_place[a] != by_place[b] by {
        lemma_walk_along(arr, a as nat);
        lemma_walk_along(arr, b as nat);
        assert(edge_walk(arr, s0, a as nat) != edge_walk(arr, s0, b as nat));
        lemma_codes(arr, states[a], states[b]);
    }
    assert forall|i: int| 0 <= i < k implies 0 <= #[trigger] by_index[i] < 4 * arr.len() by {
        lemma_walk_along(arr, i as nat);
        lemma_codes(arr, states[i], states[i]);
    }
    assert forall|i: int| 0 <= i < k implies 0 <= #[trigger] by_place[i] < 4 * 253 * 253 by {
        lemma_walk_along(arr, i as nat);
        lemma_codes(arr, states[i], states[i]);
    }
    lemma_pigeonhole(by_index, 4 * arr.len() as int);
    lemma_pigeonhole(by_place, 4 * 253 * 253 as int);
    if edge_walk(arr, s0, k) == s0 {
        k
    } else {
        assert forall|i: nat| 1 <= i < k + 1 implies #[trigger] edge_walk(arr, s0, i) != s0 by {
        }
        if k == 4 * arr.len() || k == 4 * 253 * 253 {
            lemma_walk_distinct(arr, k);
            let states2 = Seq::new(k + 1, |i: int| edge_walk(arr, s0, i as nat));
            let by_index2 = states2.map_values(|s: ((int, int), Corner)| index_code(arr, s));
            let by_place2 = states2.map_values(|s: ((int, int), Corner)| place_code(s));
            assert forall|a: int, b: int| 0 <= a < b < k + 1 implies by_index2[a] != by_index2[b] && by_place2[a]
                != by_place2[b] by {
                lemma_walk_along(arr, a as nat);
                lemma_walk_along(arr, b as nat);
                assert(edge_walk(arr, s0, a as nat) != edge_walk(arr, s0, b as nat));
                lemma_codes(arr, states2[a], states2[b]);
            }
            assert forall|i: int| 0 <= i < k + 1 implies 0 <= #[trigger] by_index2[i] < 4 * arr.len() by {
                lemma_walk_along(arr, i as nat);
                lemma_codes(arr, states2[i], states2[i]);
            }
            assert forall|i: int| 0 <= i < k + 1 implies 0 <= #[trigger] by_place2[i] < 4 * 253 * 253 by {
                lemma_walk_along(arr, i as nat);
                lemma_codes(arr, states2[i], states2[i]);
            }
            lemma_pigeonhole(by_index2, 4 * arr.len() as int);
            lemma_pigeonhole(by_place2, 4 * 253 * 253 as int);
            0
        } else {
            lemma_first_return(arr, k + 1)
        }
    }
}

/// A walk that has ended stays ended.
proof fn lemma_vertex_walk_ended(arr: Seq<DynamicTile>, state: Option<((int, int), Corner)>, a: nat, b: nat)
    requires
        vertex_walk(arr, state, a) is None,
        a <= b,
    ensures
        vertex_walk(arr, state, b) is None,
    decreases a,
{
    if a == 0 {
        lemma_vertex_walk_none(arr, b);
    } else if let Some((p, c)) = state {
        lemma_vertex_walk_ended(arr, outline_after(arr, p, c), (a - 1) as nat, (b - 1) as nat);
    }
}

/// There is no walk from nowhere.
proof fn lemma_vertex_walk_none(arr: Seq<DynamicTile>, k: nat)
    ensures
        vertex_walk(arr, None, k) is None,
{
}

/// A walk that has ended after `a` vertices gives at most `a` of them.
proof fn lemma_outline_walk_len(arr: Seq<DynamicTile>, state: Option<((int, int), Corner)>, a: nat, k: nat)
    requires
        vertex_walk(arr, state, a) is None,
    ensures
        outline_walk(arr, state, k).len() <= a,
    decreases a,
{
    if a > 0 && k > 0 {
        if let Some((p, c)) = state {
            lemma_outline_walk_len(arr, outline_after(arr, p, c), (a - 1) as nat, (k - 1) as nat);
        }
    }
}

/// From the corner that `m` edges lead to, before the first return to the start after `n`, the
/// walk ends within `n - m` vertices.
proof fn lemma_vertex_end(arr: Seq<DynamicTile>, n: nat, m: nat)
    requires
        arr.len() > 0,
        inside_bounds(arr),
        along_edge(arr, outline_start(arr)),
        edge_walk(arr, outline_start(arr), n) == outline_start(arr),
        forall|i: nat| 1 <= i < n ==> #[trigger] edge_walk(arr, outline_start(arr), i) != outline_start(arr),
        m < n,
    ensures
        vertex_walk(arr, Some(edge_walk(arr, outline_start(arr), m)), (n - m) as nat) is None,
    decreases n - m,
{
    let s0 = outline_start(arr);
    let t = edge_walk(arr, s0, m);
    lemma_walk_along(arr, m);
    let j = lemma_after(arr, t);
    lemma_edge_walk_add(arr, s0, m, j);
    if m + j > n {
        let i = (n - m) as nat;
        lemma_edge_walk_add(arr, s0, m, i);
        assert(edge_walk(arr, t, i) != s0);
    }
    if m + j == n {
        lemma_vertex_walk_none(arr, (n - m - 1) as nat);
    } else {
        lemma_vertex_end(arr, n, m + j);
        lemma_vertex_walk_ended(arr, Some(edge_walk(arr, s0, m + j)), (n - m - j) as nat, (n - m - 1) as nat);
    }
}

/// Law: the walk of the outline of tiles in order and within bounds comes back to where it
/// started and ends there: however many vertices it may give, it gives at most four per tile,
/// and at most four per place within the bounds.
pub proof fn law_outline_closes(arr: Seq<DynamicTile>, k: nat)
    requires
        arr.len() > 0,
        tiles_sorted(arr),
        inside_bounds(arr),
    ensures
        outline_walk(arr, Some((arr[0].xy(), Corner::NorthWest)), k).len() <= 4 * arr.len(),
        outline_walk(arr, Some((arr[0].xy(), Corner::NorthWest)), k).len() <= 4 * 253 * 253,
{
    let s0 = outline_start(arr);
    lemma_start_along(arr);
    let n = lemma_first_return(arr, 1);
    lemma_vertex_end(arr, n, 0);
    lemma_outline_walk_len(arr, Some(s0), n, k);
}

} // verus!
