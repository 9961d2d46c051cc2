//! The tiles on a line of sight between two tiles.
use vstd::prelude::*;

use crate::tile::{abs_diff, u8_abs_diff, Tile};
use crate::vector::Vector;

verus! {

/// The states of a walk along a line of sight.
#[derive(Clone, Copy, Debug, PartialEq, Eq, Structural)]
pub enum SightState {
    /// About to give the near end and choose how to go on.
    Default,
    /// About to give the far end and move both ends one step closer along a straight line.
    Parallel1(Vector),
    /// About to give the tile beside the near end in the horizontal direction of a diagonal.
    Diagonal1(Vector),
    /// About to give the tile beside the near end in the vertical direction of a diagonal, and
    /// move the near end one step along it.
    Diagonal2(Vector),
    /// Nothing is left to give.
    Complete,
}

/// The step, `1` or `-1`, that goes from `a` towards `b` (`-1` where they are equal).
pub open spec fn toward(a: int, b: int) -> int {
    if a < b {
        1
    } else {
        -1
    }
}

/// The distance between two integers.
pub open spec fn dist(a: int, b: int) -> int {
    if a < b {
        b - a
    } else {
        a - b
    }
}

/// The coordinates of a tile.
pub open spec fn tile_xy<const W: u8, const H: u8>(t: Tile<W, H>) -> (int, int) {
    (t.col() as int, t.row() as int)
}

/// One step of the walk from the near end `f` and the far end `t`: the next state, the new
/// ends, and the tile given.
pub open spec fn sight_step(s: SightState, f: (int, int), t: (int, int)) -> (SightState, (int, int), (int, int), (int, int)) {
    match s {
        SightState::Default => {
            let ax = dist(f.0, t.0);
            let ay = dist(f.1, t.1);
            let next = if ax == ay {
                if ax == 0 {
                    SightState::Complete
                } else {
                    SightState::Diagonal1(Vector { x: toward(f.0, t.0) as i8, y: toward(f.1, t.1) as i8 })
                }
            } else if ax > ay {
                SightState::Parallel1(Vector { x: toward(f.0, t.0) as i8, y: 0 })
            } else {
                SightState::Parallel1(Vector { x: 0, y: toward(f.1, t.1) as i8 })
            };
            (next, f, t, f)
        },
        SightState::Parallel1(v) => {
            let nf = (f.0 + v.x, f.1 + v.y);
            let next = if nf == t {
                SightState::Complete
            } else {
                SightState::Default
            };
            (next, nf, (t.0 - v.x, t.1 - v.y), t)
        },
        SightState::Diagonal1(v) => (SightState::Diagonal2(v), f, t, (f.0 + v.x, f.1)),
        SightState::Diagonal2(v) => (SightState::Default, (f.0 + v.x, f.1 + v.y), t, (f.0, f.1 + v.y)),
        SightState::Complete => (SightState::Complete, f, t, f),
    }
}

/// How far a walk is from its end.
pub open spec fn sight_measure(s: SightState, f: (int, int), t: (int, int)) -> nat {
    let rank: int = match s {
        SightState::Default => 3,
        SightState::Parallel1(_) => 2,
        SightState::Diagonal1(_) => 2,
        SightState::Diagonal2(_) => 1,
        SightState::Complete => 0,
    };
    (4 * (dist(f.0, t.0) + dist(f.1, t.1)) + rank) as nat
}

/// The tiles that a walk gives, in order.
pub open spec fn sight_walk(s: SightState, f: (int, int), t: (int, int)) -> Seq<(int, int)>
    decreases sight_measure(s, f, t),
{
    if s is Complete {
        Seq::empty()
    } else {
        let (ns, nf, nt, out) = sight_step(s, f, t);
        if sight_measure(ns, nf, nt) < sight_measure(s, f, t) {
            seq![out] + sight_walk(ns, nf, nt)
        } else {
            seq![out]
        }
    }
}

/// The states that a walk reaches: a straight step goes towards the far end along the axis on
/// which the ends are farthest apart, a diagonal step towards the far end on both axes.
pub open spec fn sight_valid(s: SightState, f: (int, int), t: (int, int)) -> bool {
    match s {
        SightState::Parallel1(v) => (v.y == 0 && v.x == toward(f.0, t.0) && dist(f.0, t.0) > dist(f.1, t.1))
            || (v.x == 0 && v.y == toward(f.1, t.1) && dist(f.1, t.1) > dist(f.0, t.0)),
        SightState::Diagonal1(v) => f.0 != t.0 && f.1 != t.1 && v.x == toward(f.0, t.0) && v.y == toward(f.1, t.1),
        SightState::Diagonal2(v) => f.0 != t.0 && f.1 != t.1 && v.x == toward(f.0, t.0) && v.y == toward(f.1, t.1),
        _ => true,
    }
}

/// Whether a coordinate lies in the box from corner `lo` to corner `hi`, both included.
pub open spec fn in_box(p: (int, int), lo: (int, int), hi: (int, int)) -> bool {
    lo.0 <= p.0 <= hi.0 && lo.1 <= p.1 <= hi.1
}

/// The smallest box that holds two coordinates: its north west and south east corners.
pub open spec fn bounding_box(a: (int, int), b: (int, int)) -> ((int, int), (int, int)) {
    (
        (if a.0 < b.0 { a.0 } else { b.0 }, if a.1 < b.1 { a.1 } else { b.1 }),
        (if a.0 < b.0 { b.0 } else { a.0 }, if a.1 < b.1 { b.1 } else { a.1 }),
    )
}

/// From a state that a walk reaches, a step reaches another, gets closer to the end, and keeps
/// the ends and the tile it gives in any box that holds the ends.
pub proof fn lemma_sight_step(s: SightState, f: (int, int), t: (int, int), lo: (int, int), hi: (int, int))
    requires
        sight_valid(s, f, t),
        !(s is Complete),
        in_box(f, lo, hi),
        in_box(t, lo, hi),
    ensures
        ({
            let (ns, nf, nt, out) = sight_step(s, f, t);
            &&& sight_valid(ns, nf, nt)
            &&& sight_measure(ns, nf, nt) < sight_measure(s, f, t)
            &&& in_box(nf, lo, hi)
            &&& in_box(nt, lo, hi)
            &&& in_box(out, lo, hi)
        }),
{
}

/// Every tile of a walk lies in any box that holds its ends.
pub proof fn lemma_walk_in_box(s: SightState, f: (int, int), t: (int, int), lo: (int, int), hi: (int, int))
    requires
        sight_valid(s, f, t),
        in_box(f, lo, hi),
        in_box(t, lo, hi),
    ensures
        forall|i: int| 0 <= i < sight_walk(s, f, t).len() ==> in_box(#[trigger] sight_walk(s, f, t)[i], lo, hi),
    decreases sight_measure(s, f, t),
{
    if !(s is Complete) {
        let (ns, nf, nt, out) = sight_step(s, f, t);
        lemma_sight_step(s, f, t, lo, hi);
        lemma_walk_in_box(ns, nf, nt, lo, hi);
        let rest = sight_walk(ns, nf, nt);
        assert(sight_walk(s, f, t) == seq![out] + rest);
        assert forall|i: int| 0 <= i < sight_walk(s, f, t).len() implies in_box(#[trigger] sight_walk(s, f, t)[i], lo, hi) by {
            if i > 0 {
                assert(sight_walk(s, f, t)[i] == rest[i - 1]);
            }
        }
    }
}

/// A walk whose far end stays where it is until it is given gives it: a walk about to
/// choose, or to give the far end, or on a diagonal whose ends are as far apart on both axes.
pub proof fn lemma_walk_reaches(s: SightState, f: (int, int), t: (int, int))
    requires
        sight_valid(s, f, t),
        match s {
            SightState::Default => true,
            SightState::Parallel1(_) => true,
            SightState::Diagonal1(_) => dist(f.0, t.0) == dist(f.1, t.1),
            SightState::Diagonal2(_) => dist(f.0, t.0) == dist(f.1, t.1),
            SightState::Complete => false,
        },
    ensures
        sight_walk(s, f, t).contains(t),
    decreases sight_measure(s, f, t),
{
    let (ns, nf, nt, out) = sight_step(s, f, t);
    let lo = bounding_box(f, t).0;
    let hi = bounding_box(f, t).1;
    lemma_sight_step(s, f, t, lo, hi);
    let rest = sight_walk(ns, nf, nt);
    assert(sight_walk(s, f, t) == seq![out] + rest);
    if out == t {
        assert(sight_walk(s, f, t)[0] == t);
    } else {
        assert(nt == t);
        lemma_walk_reaches(ns, nf, nt);
        let k = choose|k: int| 0 <= k < rest.len() && rest[k] == t;
        assert(sight_walk(s, f, t)[k + 1] == t);
    }
}

/// The walk from one tile to another starts at the first, gives the second, and stays in
/// the smallest box that holds both.
pub proof fn law_line_of_sight(from: (int, int), to: (int, int))
    ensures
        sight_walk(SightState::Default, from, to).len() > 0,
        sight_walk(SightState::Default, from, to)[0] == from,
        sight_walk(SightState::Default, from, to).contains(to),
        forall|i: int|
            0 <= i < sight_walk(SightState::Default, from, to).len() ==> in_box(
                #[trigger] sight_walk(SightState::Default, from, to)[i],
                bounding_box(from, to).0,
                bounding_box(from, to).1,
            ),
{
    let lo = bounding_box(from, to).0;
    let hi = bounding_box(from, to).1;
    lemma_sight_step(SightState::Default, from, to, lo, hi);
    lemma_walk_in_box(SightState::Default, from, to, lo, hi);
    lemma_walk_reaches(SightState::Default, from, to);
}

/// The coordinates that a walk may still give: the box between its ends, less the tiles
/// already behind the near end on a straight step, and the two tiles beside the near end on a
/// diagonal step.
pub open spec fn sight_region(s: SightState, f: (int, int), t: (int, int), p: (int, int)) -> bool {
    match s {
        SightState::Default => in_box(p, bounding_box(f, t).0, bounding_box(f, t).1),
        SightState::Parallel1(v) => {
            let nf = (f.0 + v.x, f.1 + v.y);
            in_box(p, bounding_box(nf, t).0, bounding_box(nf, t).1)
        },
        SightState::Diagonal1(v) => {
            let nf = (f.0 + v.x, f.1 + v.y);
            p == (f.0 + v.x, f.1) || p == (f.0, f.1 + v.y) || in_box(
                p,
                bounding_box(nf, t).0,
                bounding_box(nf, t).1,
            )
        },
        SightState::Diagonal2(v) => {
            let nf = (f.0 + v.x, f.1 + v.y);
            p == (f.0, f.1 + v.y) || in_box(p, bounding_box(nf, t).0, bounding_box(nf, t).1)
        },
        SightState::Complete => false,
    }
}

/// A walk gives each tile at most once, and only tiles of its region.
pub proof fn lemma_walk_distinct(s: SightState, f: (int, int), t: (int, int))
    requires
        sight_valid(s, f, t),
    ensures
        sight_walk(s, f, t).no_duplicates(),
        forall|i: int| 0 <= i < sight_walk(s, f, t).len() ==> sight_region(s, f, t, #[trigger] sight_walk(s, f, t)[i]),
    decreases sight_measure(s, f, t),
{
    if !(s is Complete) {
        let (ns, nf, nt, out) = sight_step(s, f, t);
        let lo = bounding_box(f, t).0;
        let hi = bounding_box(f, t).1;
        lemma_sight_step(s, f, t, lo, hi);
        lemma_walk_distinct(ns, nf, nt);
        let rest = sight_walk(ns, nf, nt);
        let walk = sight_walk(s, f, t);
        assert(walk == seq![out] + rest);
        assert(sight_region(s, f, t, out));
        assert(!sight_region(ns, nf, nt, out));
        assert forall|p: (int, int)| sight_region(ns, nf, nt, p) implies sight_region(s, f, t, p) by {
        }
        assert forall|i: int| 0 <= i < walk.len() implies sight_region(s, f, t, #[trigger] walk[i]) by {
            if i > 0 {
                assert(walk[i] == rest[i - 1]);
            }
        }
        assert forall|i: int, j: int| 0 <= i < walk.len() && 0 <= j < walk.len() && i != j implies walk[i]
            != walk[j] by {
            if i > 0 && j > 0 {
                assert(walk[i] == rest[i - 1] && walk[j] == rest[j - 1]);
            } else if i == 0 {
                assert(walk[j] == rest[j - 1]);
                assert(sight_region(ns, nf, nt, rest[j - 1]));
            } else {
                assert(walk[i] == rest[i - 1]);
                assert(sight_region(ns, nf, nt, rest[i - 1]));
            }
        }
    }
}

/// Law: the walk from one tile to another gives no tile twice.
pub proof fn law_line_of_sight_distinct(from: (int, int), to: (int, int))
    ensures
        sight_walk(SightState::Default, from, to).no_duplicates(),
{
    lemma_walk_distinct(SightState::Default, from, to);
}

/// A step of a walk that is not over gives its tile and goes on with the walk from where the
/// step leads.
proof fn lemma_walk_unfold(s: SightState, f: (int, int), t: (int, int))
    requires
        sight_valid(s, f, t),
        !(s is Complete),
    ensures
        ({
            let (ns, nf, nt, out) = sight_step(s, f, t);
            &&& sight_walk(s, f, t) == seq![out] + sight_walk(ns, nf, nt)
            &&& sight_valid(ns, nf, nt)
        }),
{
    lemma_sight_step(s, f, t, bounding_box(f, t).0, bounding_box(f, t).1);
}

/// A sequence with a first element contains what that element is or what the rest contains.
proof fn lemma_cons_contains(x: (int, int), rest: Seq<(int, int)>, p: (int, int))
    ensures
        (seq![x] + rest).contains(p) <==> (p == x || rest.contains(p)),
{
    let w = seq![x] + rest;
    if w.contains(p) {
        let i = choose|i: int| 0 <= i < w.len() && w[i] == p;
        if i > 0 {
            assert(rest[i - 1] == p);
        }
    }
    if rest.contains(p) {
        let i = choose|i: int| 0 <= i < rest.len() && rest[i] == p;
        assert(w[i + 1] == p);
    }
    if p == x {
        assert(w[0] == p);
    }
}

/// The band of a diagonal from `f` to `t`: the coordinates of the box between them whose
/// distances from `f` along the two axes differ by at most one.
pub open spec fn diagonal_band(f: (int, int), t: (int, int), p: (int, int)) -> bool {
    let a = if f.0 < t.0 {
        p.0 - f.0
    } else {
        f.0 - p.0
    };
    let b = if f.1 < t.1 {
        p.1 - f.1
    } else {
        f.1 - p.1
    };
    in_box(p, bounding_box(f, t).0, bounding_box(f, t).1) && -1 <= a - b <= 1
}

/// A walk between ends as far apart on both axes gives exactly the band of their diagonal.
proof fn lemma_diagonal_walk(f: (int, int), t: (int, int), p: (int, int))
    requires
        dist(f.0, t.0) == dist(f.1, t.1),
    ensures
        sight_walk(SightState::Default, f, t).contains(p) <==> diagonal_band(f, t, p),
    decreases dist(f.0, t.0),
{
    lemma_walk_unfold(SightState::Default, f, t);
    if dist(f.0, t.0) == 0 {
        assert(sight_walk(SightState::Complete, f, t) =~= Seq::<(int, int)>::empty());
        lemma_cons_contains(f, Seq::empty(), p);
    } else {
        let v = Vector { x: toward(f.0, t.0) as i8, y: toward(f.1, t.1) as i8 };
        let nf = (f.0 + v.x, f.1 + v.y);
        lemma_walk_unfold(SightState::Diagonal1(v), f, t);
        lemma_walk_unfold(SightState::Diagonal2(v), f, t);
        lemma_diagonal_walk(nf, t, p);
        let rest = sight_walk(SightState::Default, nf, t);
        let r2 = sight_walk(SightState::Diagonal2(v), f, t);
        let r1 = sight_walk(SightState::Diagonal1(v), f, t);
        lemma_cons_contains((f.0, f.1 + v.y), rest, p);
        lemma_cons_contains((f.0 + v.x, f.1), r2, p);
        lemma_cons_contains(f, r1, p);
    }
}

/// A walk and the walk between the same ends taken the other way give the same tiles.
proof fn lemma_walk_reverse(f: (int, int), t: (int, int), p: (int, int))
    ensures
        sight_walk(SightState::Default, f, t).contains(p) <==> sight_walk(SightState::Default, t, f).contains(p),
    decreases dist(f.0, t.0) + dist(f.1, t.1),
{
    let ax = dist(f.0, t.0);
    let ay = dist(f.1, t.1);
    if ax == ay {
        lemma_diagonal_walk(f, t, p);
        lemma_diagonal_walk(t, f, p);
    } else {
        let v = if ax > ay {
            Vector { x: toward(f.0, t.0) as i8, y: 0 }
        } else {
            Vector { x: 0, y: toward(f.1, t.1) as i8 }
        };
        let w = if ax > ay {
            Vector { x: toward(t.0, f.0) as i8, y: 0 }
        } else {
            Vector { x: 0, y: toward(t.1, f.1) as i8 }
        };
        lemma_walk_unfold(SightState::Default, f, t);
        lemma_walk_unfold(SightState::Parallel1(v), f, t);
        lemma_walk_unfold(SightState::Default, t, f);
        lemma_walk_unfold(SightState::Parallel1(w), t, f);
        let nf = (f.0 + v.x, f.1 + v.y);
        let nt = (t.0 - v.x, t.1 - v.y);
        assert((t.0 + w.x, t.1 + w.y) == nt);
        assert((f.0 - w.x, f.1 - w.y) == nf);
        let forward = sight_walk(SightState::Parallel1(v), f, t);
        let backward = sight_walk(SightState::Parallel1(w), t, f);
        if nf == t {
            assert(nt == f);
            assert(sight_walk(SightState::Complete, nf, nt) =~= Seq::<(int, int)>::empty());
            assert(sight_walk(SightState::Complete, nt, nf) =~= Seq::<(int, int)>::empty());
            lemma_cons_contains(t, Seq::empty(), p);
            lemma_cons_contains(f, Seq::empty(), p);
            lemma_cons_contains(f, forward, p);
            lemma_cons_contains(t, backward, p);
        } else {
            lemma_walk_reverse(nf, nt, p);
            lemma_cons_contains(t, sight_walk(SightState::Default, nf, nt), p);
            lemma_cons_contains(f, sight_walk(SightState::Default, nt, nf), p);
            lemma_cons_contains(f, forward, p);
            lemma_cons_contains(t, backward, p);
        }
    }
}

/// Law: the walk from one tile to another and the walk back give the same set of tiles.
pub proof fn law_line_of_sight_reverse(from: (int, int), to: (int, int))
    ensures
        sight_walk(SightState::Default, from, to).to_set() == sight_walk(SightState::Default, to, from).to_set(),
{
    assert forall|p: (int, int)| sight_walk(SightState::Default, from, to).to_set().contains(p) <==> sight_walk(
        SightState::Default,
        to,
        from,
    ).to_set().contains(p) by {
        lemma_walk_reverse(from, to, p);
    }
    assert(sight_walk(SightState::Default, from, to).to_set() =~= sight_walk(SightState::Default, to, from).to_set());
}

/// Iterates all tiles in a line between `from` and `to` in some order
pub fn line_of_sight_tiles<const COLS: u8, const ROWS: u8>(
    from: &Tile<COLS, ROWS>,
    to: &Tile<COLS, ROWS>,
) -> (r: Vec<Tile<COLS, ROWS>>)
    requires
        Tile::<COLS, ROWS>::legal(),
        from.wf(),
        to.wf(),
    ensures
        r@.len() == sight_walk(SightState::Default, tile_xy(*from), tile_xy(*to)).len(),
        forall|i: int|
            0 <= i < r@.len() ==> (#[trigger] r@[i]).wf() && tile_xy(r@[i]) == sight_walk(
                SightState::Default,
                tile_xy(*from),
                tile_xy(*to),
            )[i],
        r@.len() > 0,
        r@[0] == *from,
        exists|i: int| 0 <= i < r@.len() && r@[i] == *to,
        forall|i: int, j: int| 0 <= i < j < r@.len() ==> r@[i] != r@[j],
        forall|i: int|
            0 <= i < r@.len() ==> in_box(
                #[trigger] tile_xy(r@[i]),
                bounding_box(tile_xy(*from), tile_xy(*to)).0,
                bounding_box(tile_xy(*from), tile_xy(*to)).1,
            ),
{
    let ghost whole = sight_walk(SightState::Default, tile_xy(*from), tile_xy(*to));
    let mut state = SightState::Default;
    let mut f = *from;
    let mut t = *to;
    let mut result: Vec<Tile<COLS, ROWS>> = Vec::new();
    proof {
        from.lemma_coords();
        to.lemma_coords();
    }
    loop
        invariant
            Tile::<COLS, ROWS>::legal(),
            f.wf(),
            t.wf(),
            sight_valid(state, tile_xy(f), tile_xy(t)),
            whole == sight_walk(SightState::Default, tile_xy(*from), tile_xy(*to)),
            whole.len() == result@.len() + sight_walk(state, tile_xy(f), tile_xy(t)).len(),
            forall|i: int| 0 <= i < result@.len() ==> (#[trigger] result@[i]).wf() && tile_xy(result@[i]) == whole[i],
            forall|i: int|
                0 <= i < sight_walk(state, tile_xy(f), tile_xy(t)).len() ==> #[trigger] sight_walk(
                    state,
                    tile_xy(f),
                    tile_xy(t),
                )[i] == whole[result@.len() + i],
        ensures
            state is Complete,
            whole.len() == result@.len(),
            forall|i: int| 0 <= i < result@.len() ==> (#[trigger] result@[i]).wf() && tile_xy(result@[i]) == whole[i],
        decreases sight_measure(state, tile_xy(f), tile_xy(t)),
    {
        if let SightState::Complete = state {
            break;
        }
        let ghost (ns, nf, nt, out) = sight_step(state, tile_xy(f), tile_xy(t));
        let ghost walk = sight_walk(state, tile_xy(f), tile_xy(t));
        proof {
            f.lemma_coords();
            t.lemma_coords();
            lemma_sight_step(state, tile_xy(f), tile_xy(t), (0, 0), (COLS - 1, ROWS - 1));
            Tile::<COLS, ROWS>::lemma_in_grid(nf.0, nf.1);
            Tile::<COLS, ROWS>::lemma_in_grid(nt.0, nt.1);
            Tile::<COLS, ROWS>::lemma_in_grid(out.0, out.1);
            assert(walk == seq![out] + sight_walk(ns, nf, nt));
            assert(walk[0] == whole[result@.len() as int]);
            assert forall|i: int| 0 <= i < sight_walk(ns, nf, nt).len() implies #[trigger] sight_walk(ns, nf, nt)[i]
                == whole[result@.len() + 1 + i] by {
                assert(sight_walk(ns, nf, nt)[i] == walk[i + 1]);
                assert(walk[i + 1] == whole[result@.len() + (i + 1)]);
            }
        }
        let ghost before = result@;
        let given = match state {
            SightState::Default => {
                let fx = f.x();
                let fy = f.y();
                let tx = t.x();
                let ty = t.y();
                let abs_x = u8_abs_diff(fx, tx);
                let abs_y = u8_abs_diff(fy, ty);
                state = if abs_x == abs_y {
                    if abs_x == 0 {
                        SightState::Complete
                    } else {
                        let x: i8 = if fx < tx { 1 } else { -1 };
                        let y: i8 = if fy < ty { 1 } else { -1 };
                        SightState::Diagonal1(Vector { x, y })
                    }
                } else {
                    let vector = if abs_x > abs_y {
                        if fx < tx { Vector::east() } else { Vector::west() }
                    } else {
                        if fy < ty { Vector::south() } else { Vector::north() }
                    };
                    SightState::Parallel1(vector)
                };
                f
            },
            SightState::Parallel1(vector) => {
                let next = t;
                f = f.const_add(&vector).unwrap();
                state = if f == t { SightState::Complete } else { SightState::Default };
                t = t.const_add(&vector.const_neg()).unwrap();
                next
            },
            SightState::Diagonal1(vector) => {
                state = SightState::Diagonal2(vector);
                f.const_add(&vector.horizontal_component()).unwrap()
            },
            SightState::Diagonal2(vector) => {
                state = SightState::Default;
                let next = f.const_add(&vector.vertical_component()).unwrap();
                f = f.const_add(&vector).unwrap();
                next
            },
            SightState::Complete => f,
        };
        proof {
            f.lemma_coords();
            t.lemma_coords();
            given.lemma_coords();
            assert(state == ns);
            assert(tile_xy(f) == nf);
            assert(tile_xy(t) == nt);
            assert(tile_xy(given) == out);
        }
        result.push(given);
        proof {
            assert(result@ == before.push(given));
            assert(result@[before.len() as int] == given);
        }
    }
    proof {
        law_line_of_sight(tile_xy(*from), tile_xy(*to));
        result@[0].lemma_coords();
        from.lemma_coords();
        result@[0].lemma_index_injective(*from);
        let k = choose|k: int| 0 <= k < whole.len() && whole[k] == tile_xy(*to);
        result@[k].lemma_coords();
        to.lemma_coords();
        result@[k].lemma_index_injective(*to);
        assert forall|i: int| 0 <= i < result@.len() implies in_box(
            #[trigger] tile_xy(result@[i]),
            bounding_box(tile_xy(*from), tile_xy(*to)).0,
            bounding_box(tile_xy(*from), tile_xy(*to)).1,
        ) by {
            assert(tile_xy(result@[i]) == whole[i]);
        }
        law_line_of_sight_distinct(tile_xy(*from), tile_xy(*to));
        assert forall|i: int, j: int| 0 <= i < j < result@.len() implies result@[i] != result@[j] by {
            assert(tile_xy(result@[i]) == whole[i]);
            assert(tile_xy(result@[j]) == whole[j]);
            assert(whole[i] != whole[j]);
        }
    }
    result
}

} // verus!
