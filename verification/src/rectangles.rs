//! Breaking a polyomino into rectangles.
use vstd::multiset::Multiset;
use vstd::prelude::*;

use itertools::Itertools;

use crate::dynamic_tile::DynamicTile;
use crate::dynamic_vertex::DynamicVertex;
use crate::rectangle::Rectangle;
use crate::vector::Vector;

verus! {

/// Whether tiles can be broken into rectangles: each coordinate lies in `-127..=126`, so that
/// the coordinates of the tiles beside them are bytes too.
pub open spec fn decomposable_tiles(s: Seq<DynamicTile>) -> bool {
    forall|i: int| 0 <= i < s.len() ==> -127 <= (#[trigger] s[i]).0.x <= 126 && -127 <= s[i].0.y <= 126
}

broadcast use {vstd::seq_lib::group_to_multiset_ensures, vstd::multiset::group_multiset_properties};

/// Whether a tile is on the row `y`: beside the run of columns `lo..=hi` (`beside`), or within
/// it (not `beside`).
pub open spec fn row_match(t: DynamicTile, y: int, lo: int, hi: int, beside: bool) -> bool {
    if beside {
        t.0.y == y && (t.0.x == hi + 1 || t.0.x == lo - 1)
    } else {
        t.0.y == y && lo <= t.0.x <= hi
    }
}

/// The first index from `i` on of a tile that matches (see `row_match`).
pub open spec fn first_match(s: Seq<DynamicTile>, y: int, lo: int, hi: int, beside: bool, i: int) -> Option<int>
    decreases s.len() - i,
{
    if i < 0 || i >= s.len() {
        None
    } else if row_match(s[i], y, lo, hi, beside) {
        Some(i)
    } else {
        first_match(s, y, lo, hi, beside, i + 1)
    }
}

/// The tiles without the one at `i`, whose place the last one takes (`Vec::swap_remove`).
pub open spec fn swap_removed(s: Seq<DynamicTile>, i: int) -> Seq<DynamicTile> {
    s.update(i, s.last()).drop_last()
}

/// The number of tiles that match (see `row_match`).
pub open spec fn count_matches(s: Seq<DynamicTile>, y: int, lo: int, hi: int, beside: bool) -> nat
    decreases s.len(),
{
    if s.len() == 0 {
        0
    } else {
        count_matches(s.drop_last(), y, lo, hi, beside) + if row_match(s.last(), y, lo, hi, beside) {
            1nat
        } else {
            0nat
        }
    }
}

/// Extends the run of columns `lo..=hi` on the row `y` by the tiles beside it, one at a time,
/// each the first beside the run, until none is; gives the tiles left and the run.
pub open spec fn extend_row(s: Seq<DynamicTile>, y: int, lo: int, hi: int) -> (Seq<DynamicTile>, int, int)
    decreases s.len(),
{
    match first_match(s, y, lo, hi, true, 0) {
        None => (s, lo, hi),
        Some(i) => {
            let t = s[i];
            proof {
                lemma_first_match(s, y, lo, hi, true, 0);
            }
            extend_row(
                swap_removed(s, i),
                y,
                if t.0.x < lo { t.0.x as int } else { lo },
                if t.0.x > hi { t.0.x as int } else { hi },
            )
        },
    }
}

/// Removes the tiles that match (see `row_match`), each the first that does, until none does.
pub open spec fn remove_matches(s: Seq<DynamicTile>, y: int, lo: int, hi: int) -> Seq<DynamicTile>
    decreases s.len(),
{
    match first_match(s, y, lo, hi, false, 0) {
        None => s,
        Some(i) => {
            proof {
                lemma_first_match(s, y, lo, hi, false, 0);
            }
            remove_matches(swap_removed(s, i), y, lo, hi)
        },
    }
}

/// Grows the rows `min_y..=max_y` of the run of columns `lo..=hi`: while the row above (then,
/// failing that, the row below) holds as many tiles within the run as the run is wide, takes
/// it in; gives the tiles left and the rows.
pub open spec fn grow_rows(s: Seq<DynamicTile>, lo: int, hi: int, min_y: int, max_y: int) -> (Seq<DynamicTile>, int, int)
    decreases s.len(),
{
    if lo <= hi && count_matches(s, min_y - 1, lo, hi, false) == hi - lo + 1 {
        proof {
            lemma_remove_matches(s, min_y - 1, lo, hi);
        }
        grow_rows(remove_matches(s, min_y - 1, lo, hi), lo, hi, min_y - 1, max_y)
    } else if lo <= hi && count_matches(s, max_y + 1, lo, hi, false) == hi - lo + 1 {
        proof {
            lemma_remove_matches(s, max_y + 1, lo, hi);
        }
        grow_rows(remove_matches(s, max_y + 1, lo, hi), lo, hi, min_y, max_y + 1)
    } else {
        (s, min_y, max_y)
    }
}

/// The next rectangle taken from the tiles, with the tiles left: the last tile, widened along
/// its row, then grown by whole rows above and below.
pub open spec fn take_rectangle(s: Seq<DynamicTile>) -> (Seq<DynamicTile>, (int, int, int, int)) {
    let p = s.last();
    let (s1, lo, hi) = extend_row(s.drop_last(), p.0.y as int, p.0.x as int, p.0.x as int);
    let (s2, min_y, max_y) = grow_rows(s1, lo, hi, p.0.y as int, p.0.y as int);
    (s2, (lo, min_y, hi - lo + 1, max_y - min_y + 1))
}

/// The rectangles taken from the tiles one after the other, as north west corner, width and
/// height, until no tile is left.
pub open spec fn rectangles_of(s: Seq<DynamicTile>) -> Seq<(int, int, int, int)>
    decreases s.len(),
{
    if s.len() == 0 {
        Seq::empty()
    } else {
        let (rest, r) = take_rectangle(s);
        proof {
            lemma_take_rectangle_len(s);
        }
        seq![r] + rectangles_of(rest)
    }
}

/// The first match is a match, and none comes before it.
pub proof fn lemma_first_match(s: Seq<DynamicTile>, y: int, lo: int, hi: int, beside: bool, i: int)
    requires
        0 <= i,
    ensures
        first_match(s, y, lo, hi, beside, i) matches Some(k) ==> i <= k < s.len() && row_match(s[k], y, lo, hi, beside),
        first_match(s, y, lo, hi, beside, i) matches Some(k) ==> forall|j: int| i <= j < k ==> !row_match(#[trigger] s[j], y, lo, hi, beside),
        first_match(s, y, lo, hi, beside, i) is None ==> forall|j: int| i <= j < s.len() ==> !row_match(#[trigger] s[j], y, lo, hi, beside),
    decreases s.len() - i,
{
    if i < s.len() && !row_match(s[i], y, lo, hi, beside) {
        lemma_first_match(s, y, lo, hi, beside, i + 1);
    }
}

/// Swapping out a tile leaves one fewer, and one fewer match if it matched.
pub proof fn lemma_swap_removed_count(s: Seq<DynamicTile>, i: int, y: int, lo: int, hi: int, beside: bool)
    requires
        0 <= i < s.len(),
    ensures
        swap_removed(s, i).len() == s.len() - 1,
        count_matches(swap_removed(s, i), y, lo, hi, beside) + (if row_match(s[i], y, lo, hi, beside) { 1int } else { 0int })
            == count_matches(s, y, lo, hi, beside),
{
    let r = swap_removed(s, i);
    lemma_count_multiset(s, y, lo, hi, beside);
    lemma_count_multiset(r, y, lo, hi, beside);
    assert(s.update(i, s.last()).to_multiset() == s.to_multiset().insert(s.last()).remove(s[i])) by {
        vstd::seq_lib::to_multiset_update(s, i, s.last());
    }
    let u = s.update(i, s.last());
    assert(u.drop_last() == r);
    assert(u == r.push(u.last()));
    assert(u.last() == s.last());
    vstd::seq_lib::to_multiset_build(r, s.last());
    assert(r.to_multiset().insert(s.last()) == s.to_multiset().insert(s.last()).remove(s[i]));
    assert(s.to_multiset().count(s[i]) > 0) by {
        assert(s.contains(s[i]));
    }
    assert forall|x: DynamicTile| #[trigger] r.to_multiset().count(x) == s.to_multiset().remove(s[i]).count(x) by {
        assert(r.to_multiset().insert(s.last()).count(x) == s.to_multiset().insert(s.last()).remove(s[i]).count(x));
    }
    assert(r.to_multiset() =~= s.to_multiset().remove(s[i]));
    lemma_count_filter(s.to_multiset(), s[i], y, lo, hi, beside);
}

/// The number of matches is read off the multiset of the tiles.
pub open spec fn count_in_multiset(m: Multiset<DynamicTile>, y: int, lo: int, hi: int, beside: bool) -> nat {
    m.filter(|t: DynamicTile| row_match(t, y, lo, hi, beside)).len()
}

/// The number of matches of a sequence is that of its multiset.
pub proof fn lemma_count_multiset(s: Seq<DynamicTile>, y: int, lo: int, hi: int, beside: bool)
    ensures
        count_matches(s, y, lo, hi, beside) == count_in_multiset(s.to_multiset(), y, lo, hi, beside),
    decreases s.len(),
{
    if s.len() == 0 {
        assert(s.to_multiset().len() == 0);
        assert(s.to_multiset() =~= Multiset::empty());
        assert(s.to_multiset().filter(|t: DynamicTile| row_match(t, y, lo, hi, beside)) =~= Multiset::empty());
    } else {
        let d = s.drop_last();
        lemma_count_multiset(d, y, lo, hi, beside);
        assert(s == d.push(s.last()));
        vstd::seq_lib::to_multiset_build(d, s.last());
        let f = |t: DynamicTile| row_match(t, y, lo, hi, beside);
        if f(s.last()) {
            assert(s.to_multiset().filter(f) =~= d.to_multiset().filter(f).insert(s.last()));
        } else {
            assert(s.to_multiset().filter(f) =~= d.to_multiset().filter(f));
        }
    }
}

/// Removing an element from a multiset removes one match if it matched.
pub proof fn lemma_count_filter(m: Multiset<DynamicTile>, t: DynamicTile, y: int, lo: int, hi: int, beside: bool)
    requires
        m.contains(t),
    ensures
        count_in_multiset(m.remove(t), y, lo, hi, beside) + (if row_match(t, y, lo, hi, beside) { 1int } else { 0int })
            == count_in_multiset(m, y, lo, hi, beside),
{
    let f = |x: DynamicTile| row_match(x, y, lo, hi, beside);
    if f(t) {
        assert(m.filter(f) =~= m.remove(t).filter(f).insert(t));
    } else {
        assert(m.filter(f) =~= m.remove(t).filter(f));
    }
}

/// Removing the matches removes as many tiles as match.
pub proof fn lemma_remove_matches(s: Seq<DynamicTile>, y: int, lo: int, hi: int)
    ensures
        remove_matches(s, y, lo, hi).len() == s.len() - count_matches(s, y, lo, hi, false),
        count_matches(remove_matches(s, y, lo, hi), y, lo, hi, false) == 0,
    decreases s.len(),
{
    lemma_first_match(s, y, lo, hi, false, 0);
    match first_match(s, y, lo, hi, false, 0) {
        None => {
            lemma_no_match_count(s, y, lo, hi, false);
        },
        Some(i) => {
            lemma_swap_removed_count(s, i, y, lo, hi, false);
            lemma_remove_matches(swap_removed(s, i), y, lo, hi);
        },
    }
}

/// Without a match there is no match to count.
pub proof fn lemma_no_match_count(s: Seq<DynamicTile>, y: int, lo: int, hi: int, beside: bool)
    requires
        forall|j: int| 0 <= j < s.len() ==> !row_match(#[trigger] s[j], y, lo, hi, beside),
    ensures
        count_matches(s, y, lo, hi, beside) == 0,
    decreases s.len(),
{
    if s.len() > 0 {
        let d = s.drop_last();
        assert forall|j: int| 0 <= j < d.len() implies !row_match(#[trigger] d[j], y, lo, hi, beside) by {
            assert(d[j] == s[j]);
        }
        lemma_no_match_count(d, y, lo, hi, beside);
        assert(!row_match(s[s.len() - 1], y, lo, hi, beside));
    }
}

/// Widening a row removes one tile per column gained.
pub proof fn lemma_extend_row(s: Seq<DynamicTile>, y: int, lo: int, hi: int)
    requires
        lo <= hi,
    ensures
        ({
            let (r, lo2, hi2) = extend_row(s, y, lo, hi);
            &&& lo2 <= lo <= hi <= hi2
            &&& r.len() + (hi2 - lo2) - (hi - lo) == s.len()
        }),
    decreases s.len(),
{
    lemma_first_match(s, y, lo, hi, true, 0);
    match first_match(s, y, lo, hi, true, 0) {
        None => {},
        Some(i) => {
            let t = s[i];
            lemma_swap_removed_count(s, i, y, lo, hi, true);
            lemma_extend_row(
                swap_removed(s, i),
                y,
                if t.0.x < lo { t.0.x as int } else { lo },
                if t.0.x > hi { t.0.x as int } else { hi },
            );
        },
    }
}

/// Growing the rows removes a full row of tiles per row gained.
pub proof fn lemma_grow_rows(s: Seq<DynamicTile>, lo: int, hi: int, min_y: int, max_y: int)
    requires
        lo <= hi,
        min_y <= max_y,
    ensures
        ({
            let (r, min_y2, max_y2) = grow_rows(s, lo, hi, min_y, max_y);
            &&& min_y2 <= min_y <= max_y <= max_y2
            &&& r.len() + (hi - lo + 1) * ((max_y2 - min_y2) - (max_y - min_y)) == s.len()
        }),
    decreases s.len(),
{
    let w = hi - lo + 1;
    if count_matches(s, min_y - 1, lo, hi, false) == w {
        lemma_remove_matches(s, min_y - 1, lo, hi);
        lemma_grow_rows(remove_matches(s, min_y - 1, lo, hi), lo, hi, min_y - 1, max_y);
        let (r, a, b) = grow_rows(s, lo, hi, min_y, max_y);
        assert(w * ((b - a) - (max_y - (min_y - 1))) + w == w * ((b - a) - (max_y - min_y))) by (nonlinear_arith);
    } else if count_matches(s, max_y + 1, lo, hi, false) == w {
        lemma_remove_matches(s, max_y + 1, lo, hi);
        lemma_grow_rows(remove_matches(s, max_y + 1, lo, hi), lo, hi, min_y, max_y + 1);
        let (r, a, b) = grow_rows(s, lo, hi, min_y, max_y);
        assert(w * ((b - a) - (max_y + 1 - min_y)) + w == w * ((b - a) - (max_y - min_y))) by (nonlinear_arith);
    } else {
        assert(w * 0 == 0) by (nonlinear_arith);
    }
}

/// Taking a rectangle removes as many tiles as the rectangle covers.
pub proof fn lemma_take_rectangle_len(s: Seq<DynamicTile>)
    requires
        s.len() > 0,
    ensures
        ({
            let (rest, r) = take_rectangle(s);
            &&& r.2 >= 1 && r.3 >= 1
            &&& rest.len() + r.2 * r.3 == s.len()
            &&& rest.len() < s.len()
        }),
{
    let p = s.last();
    let x = p.0.x as int;
    let y = p.0.y as int;
    lemma_extend_row(s.drop_last(), y, x, x);
    let (s1, lo, hi) = extend_row(s.drop_last(), y, x, x);
    lemma_grow_rows(s1, lo, hi, y, y);
    let (s2, a, b) = grow_rows(s1, lo, hi, y, y);
    assert((hi - lo + 1) * (b - a) + (hi - lo + 1) == (hi - lo + 1) * (b - a + 1)) by (nonlinear_arith);
    assert((hi - lo + 1) * (b - a + 1) >= 1) by (nonlinear_arith)
        requires
            hi - lo + 1 >= 1,
            b - a + 1 >= 1,
    ;
}

/// The total area of some rectangles, each as north west corner, width and height.
pub open spec fn total_area(rs: Seq<(int, int, int, int)>) -> int
    decreases rs.len(),
{
    if rs.len() == 0 {
        0
    } else {
        rs[0].2 * rs[0].3 + total_area(rs.drop_first())
    }
}

/// The rectangles that tiles break into cover as many tiles as there are.
pub proof fn law_rectangles_area(s: Seq<DynamicTile>)
    ensures
        total_area(rectangles_of(s)) == s.len(),
    decreases s.len(),
{
    if s.len() > 0 {
        lemma_take_rectangle_len(s);
        let (rest, r) = take_rectangle(s);
        law_rectangles_area(rest);
        assert(rectangles_of(s).drop_first() == rectangles_of(rest));
    }
}

/// Whether a tile lies in a rectangle given as north west corner, width and height.
pub open spec fn in_rectangle(t: DynamicTile, r: (int, int, int, int)) -> bool {
    r.0 <= t.0.x < r.0 + r.2 && r.1 <= t.0.y < r.1 + r.3
}

/// Swapping out a tile keeps every other tile.
pub proof fn lemma_swap_removed_keeps(s: Seq<DynamicTile>, i: int, t: DynamicTile)
    requires
        0 <= i < s.len(),
        s.contains(t),
        t != s[i],
    ensures
        swap_removed(s, i).contains(t),
{
    let j = choose|j: int| 0 <= j < s.len() && s[j] == t;
    let r = swap_removed(s, i);
    if j == s.len() - 1 {
        assert(r[i] == t);
    } else {
        assert(r[j] == t);
    }
}

/// Widening a row keeps every tile, or takes it into the widened run.
pub proof fn lemma_extend_row_keeps(s: Seq<DynamicTile>, y: int, lo: int, hi: int, t: DynamicTile)
    requires
        s.contains(t),
    ensures
        ({
            let (r, lo2, hi2) = extend_row(s, y, lo, hi);
            r.contains(t) || (t.0.y == y && lo2 <= t.0.x <= hi2)
        }),
    decreases s.len(),
{
    lemma_first_match(s, y, lo, hi, true, 0);
    match first_match(s, y, lo, hi, true, 0) {
        None => {},
        Some(i) => {
            let u = s[i];
            let nlo = if u.0.x < lo { u.0.x as int } else { lo };
            let nhi = if u.0.x > hi { u.0.x as int } else { hi };
            if t == u {
                let r2 = swap_removed(s, i);
                if r2.contains(t) {
                    lemma_extend_row_keeps(r2, y, nlo, nhi, t);
                } else {
                    lemma_extend_row_bounds(r2, y, nlo, nhi);
                }
            } else {
                lemma_swap_removed_keeps(s, i, t);
                lemma_extend_row_keeps(swap_removed(s, i), y, nlo, nhi, t);
            }
        },
    }
}

/// Widening a row keeps or widens the run it starts from.
pub proof fn lemma_extend_row_bounds(s: Seq<DynamicTile>, y: int, lo: int, hi: int)
    ensures
        ({
            let (r, lo2, hi2) = extend_row(s, y, lo, hi);
            lo2 <= lo && hi <= hi2
        }),
    decreases s.len(),
{
    lemma_first_match(s, y, lo, hi, true, 0);
    match first_match(s, y, lo, hi, true, 0) {
        None => {},
        Some(i) => {
            let u = s[i];
            lemma_extend_row_bounds(
                swap_removed(s, i),
                y,
                if u.0.x < lo { u.0.x as int } else { lo },
                if u.0.x > hi { u.0.x as int } else { hi },
            );
        },
    }
}

/// Removing the tiles of a row within a run keeps every other tile.
pub proof fn lemma_remove_matches_keeps(s: Seq<DynamicTile>, y: int, lo: int, hi: int, t: DynamicTile)
    requires
        s.contains(t),
        !row_match(t, y, lo, hi, false),
    ensures
        remove_matches(s, y, lo, hi).contains(t),
    decreases s.len(),
{
    lemma_first_match(s, y, lo, hi, false, 0);
    match first_match(s, y, lo, hi, false, 0) {
        None => {},
        Some(i) => {
            lemma_swap_removed_keeps(s, i, t);
            lemma_remove_matches_keeps(swap_removed(s, i), y, lo, hi, t);
        },
    }
}

/// Growing the rows keeps every tile, or takes it into the grown rectangle.
pub proof fn lemma_grow_rows_keeps(s: Seq<DynamicTile>, lo: int, hi: int, min_y: int, max_y: int, t: DynamicTile)
    requires
        s.contains(t),
        min_y <= max_y,
    ensures
        ({
            let (r, a, b) = grow_rows(s, lo, hi, min_y, max_y);
            &&& a <= min_y && max_y <= b
            &&& (r.contains(t) || (a <= t.0.y <= b && lo <= t.0.x <= hi))
        }),
    decreases s.len(),
{
    if lo <= hi && count_matches(s, min_y - 1, lo, hi, false) == hi - lo + 1 {
        lemma_remove_matches(s, min_y - 1, lo, hi);
        let r1 = remove_matches(s, min_y - 1, lo, hi);
        assert(grow_rows(s, lo, hi, min_y, max_y) == grow_rows(r1, lo, hi, min_y - 1, max_y));
        if row_match(t, min_y - 1, lo, hi, false) {
            lemma_grow_rows_bounds(r1, lo, hi, min_y - 1, max_y);
        } else {
            lemma_remove_matches_keeps(s, min_y - 1, lo, hi, t);
            lemma_grow_rows_keeps(r1, lo, hi, min_y - 1, max_y, t);
        }
    } else if lo <= hi && count_matches(s, max_y + 1, lo, hi, false) == hi - lo + 1 {
        lemma_remove_matches(s, max_y + 1, lo, hi);
        let r1 = remove_matches(s, max_y + 1, lo, hi);
        assert(grow_rows(s, lo, hi, min_y, max_y) == grow_rows(r1, lo, hi, min_y, max_y + 1));
        if row_match(t, max_y + 1, lo, hi, false) {
            lemma_grow_rows_bounds(r1, lo, hi, min_y, max_y + 1);
        } else {
            lemma_remove_matches_keeps(s, max_y + 1, lo, hi, t);
            lemma_grow_rows_keeps(r1, lo, hi, min_y, max_y + 1, t);
        }
    }
}

/// Growing the rows keeps or widens the rows it starts from.
pub proof fn lemma_grow_rows_bounds(s: Seq<DynamicTile>, lo: int, hi: int, min_y: int, max_y: int)
    ensures
        ({
            let (r, a, b) = grow_rows(s, lo, hi, min_y, max_y);
            a <= min_y && max_y <= b
        }),
    decreases s.len(),
{
    if lo <= hi && count_matches(s, min_y - 1, lo, hi, false) == hi - lo + 1 {
        lemma_remove_matches(s, min_y - 1, lo, hi);
        lemma_grow_rows_bounds(remove_matches(s, min_y - 1, lo, hi), lo, hi, min_y - 1, max_y);
    } else if lo <= hi && count_matches(s, max_y + 1, lo, hi, false) == hi - lo + 1 {
        lemma_remove_matches(s, max_y + 1, lo, hi);
        lemma_grow_rows_bounds(remove_matches(s, max_y + 1, lo, hi), lo, hi, min_y, max_y + 1);
    }
}

/// Taking a rectangle keeps every tile, or takes it into the rectangle.
pub proof fn lemma_take_rectangle_keeps(s: Seq<DynamicTile>, t: DynamicTile)
    requires
        s.contains(t),
    ensures
        ({
            let (rest, r) = take_rectangle(s);
            rest.contains(t) || in_rectangle(t, r)
        }),
{
    let p = s.last();
    let x = p.0.x as int;
    let y = p.0.y as int;
    let d = s.drop_last();
    lemma_extend_row_bounds(d, y, x, x);
    let (s1, lo, hi) = extend_row(d, y, x, x);
    lemma_grow_rows_bounds(s1, lo, hi, y, y);
    if t != p {
        let j = choose|j: int| 0 <= j < s.len() && s[j] == t;
        assert(d[j] == t);
        lemma_extend_row_keeps(d, y, x, x, t);
        if s1.contains(t) {
            lemma_grow_rows_keeps(s1, lo, hi, y, y, t);
        }
    }
}

/// Law: the rectangles that tiles break into cover every tile.
pub proof fn law_rectangles_cover(s: Seq<DynamicTile>, t: DynamicTile)
    requires
        s.contains(t),
    ensures
        exists|j: int| 0 <= j < rectangles_of(s).len() && in_rectangle(t, #[trigger] rectangles_of(s)[j]),
    decreases s.len(),
{
    lemma_take_rectangle_len(s);
    let (rest, r) = take_rectangle(s);
    lemma_take_rectangle_keeps(s, t);
    let rs = rectangles_of(s);
    assert(rs == seq![r] + rectangles_of(rest));
    if in_rectangle(t, r) {
        assert(in_rectangle(t, rs[0]));
    } else {
        law_rectangles_cover(rest, t);
        let j = choose|j: int| 0 <= j < rectangles_of(rest).len() && in_rectangle(t, #[trigger] rectangles_of(rest)[j]);
        assert(rs[j + 1] == rectangles_of(rest)[j]);
    }
}

/// The tile at a coordinate.
pub open spec fn tile_at(x: int, y: int) -> DynamicTile {
    DynamicTile(Vector { x: x as i8, y: y as i8 })
}

/// Swapping out a tile of distinct tiles leaves distinct tiles: all but that one.
pub proof fn lemma_swap_removed_distinct(s: Seq<DynamicTile>, i: int)
    requires
        0 <= i < s.len(),
        s.no_duplicates(),
    ensures
        swap_removed(s, i).no_duplicates(),
        forall|t: DynamicTile| #[trigger] swap_removed(s, i).contains(t) <==> (s.contains(t) && t != s[i]),
{
    let r = swap_removed(s, i);
    let n = s.len() - 1;
    assert forall|j: int| 0 <= j < r.len() implies #[trigger] r[j] == if j == i { s[n] } else { s[j] } by {
    }
    assert forall|a: int, b: int| 0 <= a < r.len() && 0 <= b < r.len() && a != b implies r[a] != r[b] by {
        let sa = if a == i { n } else { a };
        let sb = if b == i { n } else { b };
        assert(r[a] == s[sa] && r[b] == s[sb]);
    }
    assert forall|t: DynamicTile| #[trigger] r.contains(t) <==> (s.contains(t) && t != s[i]) by {
        if r.contains(t) {
            let j = choose|j: int| 0 <= j < r.len() && r[j] == t;
            let sj = if j == i { n } else { j };
            assert(s[sj] == t);
            assert(sj != i);
        }
        if s.contains(t) && t != s[i] {
            let j = choose|j: int| 0 <= j < s.len() && s[j] == t;
            if j == n {
                assert(r[i] == t);
            } else {
                assert(r[j] == t);
            }
        }
    }
}

/// Without any match counted, no tile matches.
pub proof fn lemma_zero_count(s: Seq<DynamicTile>, y: int, lo: int, hi: int, beside: bool)
    requires
        count_matches(s, y, lo, hi, beside) == 0,
    ensures
        forall|j: int| 0 <= j < s.len() ==> !row_match(#[trigger] s[j], y, lo, hi, beside),
    decreases s.len(),
{
    if s.len() > 0 {
        let d = s.drop_last();
        lemma_zero_count(d, y, lo, hi, beside);
        assert forall|j: int| 0 <= j < s.len() implies !row_match(#[trigger] s[j], y, lo, hi, beside) by {
            if j < d.len() {
                assert(s[j] == d[j]);
            }
        }
    }
}

/// The matches within a run are those left of a column, at it, and right of it.
pub proof fn lemma_count_split(s: Seq<DynamicTile>, y: int, lo: int, m: int, hi: int)
    requires
        lo <= m <= hi,
    ensures
        count_matches(s, y, lo, hi, false) == count_matches(s, y, lo, m - 1, false) + count_matches(s, y, m, m, false)
            + count_matches(s, y, m + 1, hi, false),
    decreases s.len(),
{
    if s.len() > 0 {
        lemma_count_split(s.drop_last(), y, lo, m, hi);
    }
}

/// Distinct tiles match a run at most once per column.
pub proof fn lemma_count_bound(s: Seq<DynamicTile>, y: int, lo: int, hi: int)
    requires
        s.no_duplicates(),
    ensures
        count_matches(s, y, lo, hi, false) <= if lo <= hi { hi - lo + 1 } else { 0 },
    decreases if lo <= hi { hi - lo + 1 } else { 0 },
{
    if lo > hi {
        lemma_no_match_count(s, y, lo, hi, false);
    } else {
        lemma_count_split(s, y, lo, hi, hi);
        lemma_count_bound(s, y, lo, hi - 1);
        lemma_no_match_count(s, y, hi + 1, hi, false);
        if count_matches(s, y, hi, hi, false) > 1 {
            lemma_count_positive(s, y, hi, hi, false);
            let j = choose|j: int| 0 <= j < s.len() && row_match(#[trigger] s[j], y, hi, hi, false);
            lemma_swap_removed_count(s, j, y, hi, hi, false);
            lemma_swap_removed_distinct(s, j);
            lemma_count_positive(swap_removed(s, j), y, hi, hi, false);
            let k = choose|k: int| 0 <= k < swap_removed(s, j).len() && row_match(
                #[trigger] swap_removed(s, j)[k],
                y,
                hi,
                hi,
                false,
            );
            assert(swap_removed(s, j).contains(swap_removed(s, j)[k]));
            assert(s[j] == swap_removed(s, j)[k]);
        }
    }
}

/// Where distinct tiles match every column of a run, each column of the row holds a tile.
pub proof fn lemma_full_row(s: Seq<DynamicTile>, y: int, lo: int, hi: int, x: int)
    requires
        s.no_duplicates(),
        count_matches(s, y, lo, hi, false) == hi - lo + 1,
        lo <= x <= hi,
    ensures
        s.contains(tile_at(x, y)),
{
    lemma_count_split(s, y, lo, x, hi);
    lemma_count_bound(s, y, lo, x - 1);
    lemma_count_bound(s, y, x + 1, hi);
    lemma_count_positive(s, y, x, x, false);
    let j = choose|j: int| 0 <= j < s.len() && row_match(#[trigger] s[j], y, x, x, false);
    assert(s[j] == tile_at(x, y));
}

/// Widening a row of distinct tiles that holds none within the run: the tiles left are
/// distinct, among the tiles, and none within the widened run, each column of which held a
/// tile.
pub proof fn lemma_extend_row_exact(s: Seq<DynamicTile>, y: int, lo: int, hi: int)
    requires
        s.no_duplicates(),
        -128 <= lo <= hi <= 127,
        forall|t: DynamicTile| #[trigger] s.contains(t) ==> !(t.0.y == y && lo <= t.0.x <= hi),
    ensures
        ({
            let (r, lo2, hi2) = extend_row(s, y, lo, hi);
            &&& r.no_duplicates()
            &&& forall|t: DynamicTile| #[trigger] r.contains(t) ==> s.contains(t)
            &&& forall|t: DynamicTile| #[trigger] r.contains(t) ==> !(t.0.y == y && lo2 <= t.0.x <= hi2)
            &&& -128 <= lo2 <= lo && hi <= hi2 <= 127
            &&& forall|x: int| lo2 <= x <= hi2 && !(lo <= x <= hi) ==> s.contains(#[trigger] tile_at(x, y))
        }),
    decreases s.len(),
{
    lemma_first_match(s, y, lo, hi, true, 0);
    match first_match(s, y, lo, hi, true, 0) {
        None => {},
        Some(i) => {
            let u = s[i];
            let nlo = if u.0.x < lo { u.0.x as int } else { lo };
            let nhi = if u.0.x > hi { u.0.x as int } else { hi };
            lemma_swap_removed_distinct(s, i);
            let s2 = swap_removed(s, i);
            assert forall|t: DynamicTile| #[trigger] s2.contains(t) implies !(t.0.y == y && nlo <= t.0.x <= nhi) by {
                if t.0.y == y && t.0.x == u.0.x {
                    assert(t == u);
                }
            }
            lemma_extend_row_exact(s2, y, nlo, nhi);
            let (r, lo2, hi2) = extend_row(s2, y, nlo, nhi);
            assert(extend_row(s, y, lo, hi) == (r, lo2, hi2));
            assert(u == tile_at(u.0.x as int, y));
            assert(s.contains(u));
            assert forall|x: int| lo2 <= x <= hi2 && !(lo <= x <= hi) implies s.contains(#[trigger] tile_at(x, y)) by {
                if x != u.0.x {
                    assert(s2.contains(tile_at(x, y)));
                }
            }
        },
    }
}

/// Removing the matches of distinct tiles leaves distinct tiles, among them, none matching.
pub proof fn lemma_remove_matches_exact(s: Seq<DynamicTile>, y: int, lo: int, hi: int)
    requires
        s.no_duplicates(),
    ensures
        remove_matches(s, y, lo, hi).no_duplicates(),
        forall|t: DynamicTile| #[trigger] remove_matches(s, y, lo, hi).contains(t) ==> s.contains(t),
        forall|t: DynamicTile| #[trigger] remove_matches(s, y, lo, hi).contains(t) ==> !row_match(t, y, lo, hi, false),
    decreases s.len(),
{
    lemma_first_match(s, y, lo, hi, false, 0);
    match first_match(s, y, lo, hi, false, 0) {
        None => {
            assert forall|t: DynamicTile| #[trigger] s.contains(t) implies !row_match(t, y, lo, hi, false) by {
                let j = choose|j: int| 0 <= j < s.len() && s[j] == t;
                assert(!row_match(s[j], y, lo, hi, false));
            }
        },
        Some(i) => {
            lemma_swap_removed_distinct(s, i);
            lemma_remove_matches_exact(swap_removed(s, i), y, lo, hi);
        },
    }
}

/// Growing the rows of a rectangle that holds none of some distinct tiles: the tiles left are
/// distinct, among the tiles, and none within the grown rectangle, each cell of whose new rows
/// held a tile.
pub proof fn lemma_grow_rows_exact(s: Seq<DynamicTile>, lo: int, hi: int, min_y: int, max_y: int)
    requires
        s.no_duplicates(),
        lo <= hi,
        min_y <= max_y,
        -128 <= lo,
        hi <= 127,
        -128 <= min_y,
        max_y <= 127,
        forall|t: DynamicTile| #[trigger] s.contains(t) ==> !(lo <= t.0.x <= hi && min_y <= t.0.y <= max_y),
    ensures
        ({
            let (r, a, b) = grow_rows(s, lo, hi, min_y, max_y);
            &&& r.no_duplicates()
            &&& forall|t: DynamicTile| #[trigger] r.contains(t) ==> s.contains(t)
            &&& forall|t: DynamicTile| #[trigger] r.contains(t) ==> !(lo <= t.0.x <= hi && a <= t.0.y <= b)
            &&& -128 <= a <= min_y && max_y <= b <= 127
            &&& forall|x: int, yy: int|
                lo <= x <= hi && a <= yy <= b && !(min_y <= yy <= max_y) ==> s.contains(#[trigger] tile_at(x, yy))
        }),
    decreases s.len(),
{
    let w = hi - lo + 1;
    if count_matches(s, min_y - 1, lo, hi, false) == w {
        lemma_remove_matches(s, min_y - 1, lo, hi);
        lemma_remove_matches_exact(s, min_y - 1, lo, hi);
        lemma_count_positive(s, min_y - 1, lo, hi, false);
        let r1 = remove_matches(s, min_y - 1, lo, hi);
        assert(grow_rows(s, lo, hi, min_y, max_y) == grow_rows(r1, lo, hi, min_y - 1, max_y));
        lemma_grow_rows_exact(r1, lo, hi, min_y - 1, max_y);
        let (r, a, b) = grow_rows(r1, lo, hi, min_y - 1, max_y);
        assert forall|x: int, yy: int|
            lo <= x <= hi && a <= yy <= b && !(min_y <= yy <= max_y) implies s.contains(#[trigger] tile_at(x, yy)) by {
            if yy == min_y - 1 {
                lemma_full_row(s, min_y - 1, lo, hi, x);
            } else {
                assert(r1.contains(tile_at(x, yy)));
            }
        }
    } else if count_matches(s, max_y + 1, lo, hi, false) == w {
        lemma_remove_matches(s, max_y + 1, lo, hi);
        lemma_remove_matches_exact(s, max_y + 1, lo, hi);
        lemma_count_positive(s, max_y + 1, lo, hi, false);
        let r1 = remove_matches(s, max_y + 1, lo, hi);
        assert(grow_rows(s, lo, hi, min_y, max_y) == grow_rows(r1, lo, hi, min_y, max_y + 1));
        lemma_grow_rows_exact(r1, lo, hi, min_y, max_y + 1);
        let (r, a, b) = grow_rows(r1, lo, hi, min_y, max_y + 1);
        assert forall|x: int, yy: int|
            lo <= x <= hi && a <= yy <= b && !(min_y <= yy <= max_y) implies s.contains(#[trigger] tile_at(x, yy)) by {
            if yy == max_y + 1 {
                lemma_full_row(s, max_y + 1, lo, hi, x);
            } else {
                assert(r1.contains(tile_at(x, yy)));
            }
        }
    }
}

/// Taking a rectangle from distinct tiles leaves distinct tiles, among them, none within the
/// rectangle, each cell of which was a tile.
pub proof fn lemma_take_rectangle_exact(s: Seq<DynamicTile>)
    requires
        s.len() > 0,
        s.no_duplicates(),
    ensures
        ({
            let (rest, r) = take_rectangle(s);
            &&& rest.no_duplicates()
            &&& forall|t: DynamicTile| #[trigger] rest.contains(t) ==> s.contains(t)
            &&& forall|t: DynamicTile| #[trigger] rest.contains(t) ==> !in_rectangle(t, r)
            &&& forall|c: DynamicTile| #[trigger] in_rectangle(c, r) ==> s.contains(c)
        }),
{
    let p = s.last();
    let x = p.0.x as int;
    let y = p.0.y as int;
    let d = s.drop_last();
    assert(s.contains(p));
    assert forall|t: DynamicTile| #[trigger] d.contains(t) implies s.contains(t) && t != p by {
        let j = choose|j: int| 0 <= j < d.len() && d[j] == t;
        assert(s[j] == t);
    }
    assert forall|t: DynamicTile| #[trigger] d.contains(t) implies !(t.0.y == y && x <= t.0.x <= x) by {
        if t.0.y == y && t.0.x == x {
            assert(t == p);
        }
    }
    lemma_extend_row_exact(d, y, x, x);
    let (s1, lo, hi) = extend_row(d, y, x, x);
    lemma_grow_rows_exact(s1, lo, hi, y, y);
    let (s2, a, b) = grow_rows(s1, lo, hi, y, y);
    assert(take_rectangle(s) == (s2, (lo, a, hi - lo + 1, b - a + 1)));
    let r = (lo, a, hi - lo + 1, b - a + 1);
    assert forall|c: DynamicTile| #[trigger] in_rectangle(c, r) implies s.contains(c) by {
        let cx = c.0.x as int;
        let cy = c.0.y as int;
        assert(tile_at(cx, cy) == c);
        if cy == y {
            if cx == x {
                assert(c == p);
            } else {
                assert(d.contains(tile_at(cx, y)));
            }
        } else {
            assert(s1.contains(tile_at(cx, cy)));
        }
    }
}

/// Law: the rectangles that distinct tiles break into are disjoint, and each of their cells is
/// one of the tiles.
pub proof fn law_rectangles_exact(s: Seq<DynamicTile>, c: DynamicTile, j: int, k: int)
    requires
        s.no_duplicates(),
        0 <= j < rectangles_of(s).len(),
        in_rectangle(c, rectangles_of(s)[j]),
    ensures
        s.contains(c),
        (0 <= k < rectangles_of(s).len() && in_rectangle(c, rectangles_of(s)[k])) ==> j == k,
    decreases s.len(),
{
    lemma_take_rectangle_len(s);
    lemma_take_rectangle_exact(s);
    let (rest, r) = take_rectangle(s);
    let rs = rectangles_of(s);
    assert(rs == seq![r] + rectangles_of(rest));
    if j == 0 {
        assert(rs[0] == r);
        if 1 <= k < rs.len() && in_rectangle(c, rs[k]) {
            assert(rs[k] == rectangles_of(rest)[k - 1]);
            law_rectangles_exact(rest, c, k - 1, k - 1);
        }
    } else {
        assert(rs[j] == rectangles_of(rest)[j - 1]);
        law_rectangles_exact(rest, c, j - 1, k - 1);
        if 1 <= k < rs.len() {
            assert(rs[k] == rectangles_of(rest)[k - 1]);
        }
    }
}

/// Swapping out a tile keeps the others within bounds.
pub proof fn lemma_swap_removed_inside(s: Seq<DynamicTile>, i: int)
    requires
        0 <= i < s.len(),
        decomposable_tiles(s),
    ensures
        decomposable_tiles(swap_removed(s, i)),
{
    assert forall|k: int| 0 <= k < swap_removed(s, i).len() implies -127 <= (#[trigger] swap_removed(s, i)[k]).0.x <= 126
        && -127 <= swap_removed(s, i)[k].0.y <= 126 by {
        if k == i {
            assert(swap_removed(s, i)[k] == s[s.len() - 1]);
        } else {
            assert(swap_removed(s, i)[k] == s[k]);
        }
    }
}

/// Where tiles match, one of them does.
pub proof fn lemma_count_positive(s: Seq<DynamicTile>, y: int, lo: int, hi: int, beside: bool)
    requires
        count_matches(s, y, lo, hi, beside) > 0,
    ensures
        exists|j: int| 0 <= j < s.len() && row_match(#[trigger] s[j], y, lo, hi, beside),
{
    if forall|j: int| 0 <= j < s.len() ==> !row_match(#[trigger] s[j], y, lo, hi, beside) {
        lemma_no_match_count(s, y, lo, hi, beside);
    }
}

/// Whether a tile matches (see `row_match`).
fn tile_matches(t: &DynamicTile, y: i8, lo: i8, hi: i8, beside: bool) -> (r: bool)
    requires
        -127 <= lo,
        hi <= 126,
    ensures
        r == row_match(*t, y as int, lo as int, hi as int, beside),
{
    if beside {
        t.0.y == y && (t.0.x == hi + 1 || t.0.x == lo - 1)
    } else {
        t.0.y == y && lo <= t.0.x && t.0.x <= hi
    }
}

/// The index and the value of the first tile that matches (see `row_match`):
/// `Itertools::find_position` over the tiles. The itertools documentation gives it as the
/// position and value of the first element that satisfies the predicate.
#[verifier::external_body]
fn find_position_matching(tiles: &Vec<DynamicTile>, y: i8, lo: i8, hi: i8, beside: bool) -> (r: Option<(usize, DynamicTile)>)
    requires
        -127 <= lo,
        hi <= 126,
    ensures
        match first_match(tiles@, y as int, lo as int, hi as int, beside, 0) {
            None => r is None,
            Some(i) => r matches Some((k, t)) && k == i && t == tiles@[i],
        },
{
    tiles.iter().find_position(|t| tile_matches(t, y, lo, hi, beside)).map(|(i, t)| (i, *t))
}

/// Widens the run of columns `lo..=hi` on the row `y` (see `extend_row`).
fn extend_row_tiles(remaining: &mut Vec<DynamicTile>, y: i8, lo0: i8, hi0: i8) -> (r: (i8, i8))
    requires
        decomposable_tiles(old(remaining)@),
        -127 <= lo0 <= hi0 <= 126,
    ensures
        decomposable_tiles(final(remaining)@),
        -127 <= r.0 <= r.1 <= 126,
        extend_row(old(remaining)@, y as int, lo0 as int, hi0 as int) == (final(remaining)@, r.0 as int, r.1 as int),
{
    let mut lo = lo0;
    let mut hi = hi0;
    loop
        invariant
            decomposable_tiles(remaining@),
            -127 <= lo <= hi <= 126,
            extend_row(old(remaining)@, y as int, lo0 as int, hi0 as int) == extend_row(remaining@, y as int, lo as int, hi as int),
        ensures
            extend_row(remaining@, y as int, lo as int, hi as int) == (remaining@, lo as int, hi as int),
        decreases remaining@.len(),
    {
        match find_position_matching(remaining, y, lo, hi, true) {
            None => {
                break;
            },
            Some((index, tile)) => {
                let ghost s = remaining@;
                proof {
                    lemma_first_match(remaining@, y as int, lo as int, hi as int, true, 0);
                    lemma_swap_removed_inside(remaining@, index as int);
                    assert(first_match(s, y as int, lo as int, hi as int, true, 0) == Some(index as int));
                    assert(tile == s[index as int]);
                    assert(extend_row(s, y as int, lo as int, hi as int) == extend_row(
                        swap_removed(s, index as int),
                        y as int,
                        if tile.0.x < lo { tile.0.x as int } else { lo as int },
                        if tile.0.x > hi { tile.0.x as int } else { hi as int },
                    ));
                }
                remaining.swap_remove(index);
                assert(remaining@ == swap_removed(s, index as int));
                if tile.0.x < lo {
                    lo = tile.0.x;
                }
                if tile.0.x > hi {
                    hi = tile.0.x;
                }
            },
        }
    }
    (lo, hi)
}

/// The number of tiles that match (see `row_match`).
fn count_matching(tiles: &Vec<DynamicTile>, y: i8, lo: i8, hi: i8) -> (r: usize)
    requires
        -127 <= lo,
        hi <= 126,
    ensures
        r == count_matches(tiles@, y as int, lo as int, hi as int, false),
{
    let mut count: usize = 0;
    let mut i: usize = 0;
    while i < tiles.len()
        invariant
            -127 <= lo,
            hi <= 126,
            i <= tiles@.len(),
            count <= i,
            count == count_matches(tiles@.subrange(0, i as int), y as int, lo as int, hi as int, false),
        decreases tiles@.len() - i,
    {
        assert(tiles@.subrange(0, i + 1).drop_last() == tiles@.subrange(0, i as int));
        if tile_matches(&tiles[i], y, lo, hi, false) {
            count = count + 1;
        }
        i = i + 1;
    }
    assert(tiles@.subrange(0, tiles@.len() as int) == tiles@);
    count
}

/// Removes the tiles that match (see `remove_matches`).
fn remove_matching(remaining: &mut Vec<DynamicTile>, y: i8, lo: i8, hi: i8)
    requires
        decomposable_tiles(old(remaining)@),
        -127 <= lo,
        hi <= 126,
    ensures
        decomposable_tiles(final(remaining)@),
        final(remaining)@ == remove_matches(old(remaining)@, y as int, lo as int, hi as int),
{
    loop
        invariant
            decomposable_tiles(remaining@),
            -127 <= lo,
            hi <= 126,
            remove_matches(old(remaining)@, y as int, lo as int, hi as int) == remove_matches(remaining@, y as int, lo as int, hi as int),
        ensures
            remove_matches(remaining@, y as int, lo as int, hi as int) == remaining@,
        decreases remaining@.len(),
    {
        match find_position_matching(remaining, y, lo, hi, false) {
            None => {
                break;
            },
            Some((index, _)) => {
                proof {
                    lemma_first_match(remaining@, y as int, lo as int, hi as int, false, 0);
                    lemma_swap_removed_inside(remaining@, index as int);
                }
                remaining.swap_remove(index);
            },
        }
    }
}

/// Grows the rows of a run of columns (see `grow_rows`).
fn grow_rows_tiles(remaining: &mut Vec<DynamicTile>, lo: i8, hi: i8, min_y0: i8, max_y0: i8) -> (r: (i8, i8))
    requires
        decomposable_tiles(old(remaining)@),
        -127 <= lo <= hi <= 126,
        -127 <= min_y0 <= max_y0 <= 126,
    ensures
        decomposable_tiles(final(remaining)@),
        -127 <= r.0 <= r.1 <= 126,
        grow_rows(old(remaining)@, lo as int, hi as int, min_y0 as int, max_y0 as int) == (final(remaining)@, r.0 as int, r.1 as int),
{
    let width: usize = (hi as i16 - lo as i16) as usize + 1;
    let mut min_y = min_y0;
    let mut max_y = max_y0;
    loop
        invariant
            decomposable_tiles(remaining@),
            -127 <= lo <= hi <= 126,
            -127 <= min_y <= max_y <= 126,
            width == hi - lo + 1,
            grow_rows(old(remaining)@, lo as int, hi as int, min_y0 as int, max_y0 as int) == grow_rows(remaining@, lo as int, hi as int, min_y as int, max_y as int),
        ensures
            grow_rows(remaining@, lo as int, hi as int, min_y as int, max_y as int) == (remaining@, min_y as int, max_y as int),
        decreases remaining@.len(),
    {
        if count_matching(remaining, min_y - 1, lo, hi) == width {
            proof {
                lemma_remove_matches(remaining@, min_y - 1, lo as int, hi as int);
                lemma_count_positive(remaining@, min_y - 1, lo as int, hi as int, false);
                let j = choose|j: int| 0 <= j < remaining@.len() && row_match(#[trigger] remaining@[j], min_y - 1, lo as int, hi as int, false);
                assert(-127 <= remaining@[j].0.y);
            }
            remove_matching(remaining, min_y - 1, lo, hi);
            min_y = min_y - 1;
        } else if count_matching(remaining, max_y + 1, lo, hi) == width {
            proof {
                lemma_remove_matches(remaining@, max_y + 1, lo as int, hi as int);
                lemma_count_positive(remaining@, max_y + 1, lo as int, hi as int, false);
                let j = choose|j: int| 0 <= j < remaining@.len() && row_match(#[trigger] remaining@[j], max_y + 1, lo as int, hi as int, false);
                assert(remaining@[j].0.y <= 126);
            }
            remove_matching(remaining, max_y + 1, lo, hi);
            max_y = max_y + 1;
        } else {
            break;
        }
    }
    (min_y, max_y)
}

/// Takes the next rectangle from the tiles (see `take_rectangle`), if any tile is left.
pub fn take_rectangle_tiles(remaining: &mut Vec<DynamicTile>) -> (r: Option<Rectangle>)
    requires
        decomposable_tiles(old(remaining)@),
    ensures
        decomposable_tiles(final(remaining)@),
        old(remaining)@.len() == 0 ==> r is None && final(remaining)@ == old(remaining)@,
        old(remaining)@.len() > 0 ==> (r matches Some(rect) && take_rectangle(old(remaining)@) == (
            final(remaining)@,
            (rect.north_west.0.x as int, rect.north_west.0.y as int, rect.width as int, rect.height as int),
        )),
{
    let ghost before = remaining@;
    let p1 = match remaining.pop() {
        None => {
            return None;
        },
        Some(p) => p,
    };
    proof {
        assert(p1 == before[before.len() - 1]);
        assert forall|k: int| 0 <= k < remaining@.len() implies -127 <= (#[trigger] remaining@[k]).0.x <= 126
            && -127 <= remaining@[k].0.y <= 126 by {
            assert(remaining@[k] == before[k]);
        }
    }
    let (lo, hi) = extend_row_tiles(remaining, p1.0.y, p1.0.x, p1.0.x);
    let (min_y, max_y) = grow_rows_tiles(remaining, lo, hi, p1.0.y, p1.0.y);
    let north_west = DynamicVertex(Vector { x: lo, y: min_y });
    let width: u8 = (hi as i16 - lo as i16) as u8 + 1;
    let height: u8 = (max_y as i16 - min_y as i16) as u8 + 1;
    Some(Rectangle { north_west, height, width })
}

} // verus!
