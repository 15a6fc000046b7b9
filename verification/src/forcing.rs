//! Board forcing: a tile that must be laid down but can stand in no group
//! made of the tiles at hand condemns the whole table, and the search
//! need not go on with it.

use crate::candidates::{joins, lemma_rising_numbers, rising};
use crate::group::{
    canonical, fills_run, fills_set, is_group, is_run, is_set, lemma_canonical,
    lemma_group_is_well_formed,
};
use crate::plan::{fits, lemma_uses_member, lemma_uses_remove, used_at, uses};
use crate::table::{count_at, holds};
use crate::tile::{Colour, Tile, lemma_at_index, lemma_index_orders, lemma_order_is_strict_total};
use vstd::prelude::*;
use vstd::seq_lib::*;

verus! {

/// The table holds the tile of number `n` in the colour at position `c`.
pub open spec fn held(rem: Seq<usize>, c: int, n: int) -> bool {
    0 <= c < 4 && 1 <= n <= 13 && rem[c * 13 + n - 1] > 0
}

/// The table holds two neighbours with which the tile could begin, fill
/// or end three consecutive numbers of its colour.
pub open spec fn run_room(rem: Seq<usize>, c: int, n: int) -> bool {
    ||| held(rem, c, n - 2) && held(rem, c, n - 1)
    ||| held(rem, c, n - 1) && held(rem, c, n + 1)
    ||| held(rem, c, n + 1) && held(rem, c, n + 2)
}

/// The table holds the tile's number in two other colours.
pub open spec fn set_room(rem: Seq<usize>, c: int, n: int) -> bool {
    exists|a: int, b: int| a != c && b != c && a != b && held(rem, a, n) && held(rem, b, n)
}

/// The table is condemned at first sight: it holds no joker, and some
/// tile that must be laid down has room in no group.
pub open spec fn stuck(rem: Seq<usize>, cap: Seq<usize>) -> bool {
    rem[52] == 0 && exists|c: int, n: int|
        0 <= c < 4 && 1 <= n <= 13 && #[trigger] rem[c * 13 + n - 1] > cap[c * 13 + n - 1]
            && !run_room(rem, c, n) && !set_room(rem, c, n)
}

/// Decides `held`.
fn is_held(rem: &Vec<usize>, c: usize, n: usize) -> (r: bool)
    requires
        rem@.len() == 53,
        c < 4,
        n <= 15,
    ensures
        r == held(rem@, c as int, n as int),
{
    1 <= n && n <= 13 && rem[c * 13 + n - 1] > 0
}

/// Decides `run_room`.
fn has_run_room(rem: &Vec<usize>, c: usize, n: usize) -> (r: bool)
    requires
        rem@.len() == 53,
        c < 4,
        1 <= n <= 13,
    ensures
        r == run_room(rem@, c as int, n as int),
{
    let below: bool = n >= 2 && is_held(rem, c, n - 1);
    let above: bool = is_held(rem, c, n + 1);
    (below && n >= 3 && is_held(rem, c, n - 2)) || (below && above) || (above && is_held(
        rem,
        c,
        n + 2,
    ))
}

/// Decides `set_room`.
fn has_set_room(rem: &Vec<usize>, c: usize, n: usize) -> (r: bool)
    requires
        rem@.len() == 53,
        c < 4,
        1 <= n <= 13,
    ensures
        r == set_room(rem@, c as int, n as int),
{
    let mut others: usize = 0;
    let ghost mut seen: int = -1;
    let mut a: usize = 0;
    while a < 4
        invariant
            rem@.len() == 53,
            c < 4,
            1 <= n <= 13,
            a <= 4,
            others <= a,
            others == 0 ==> forall|x: int| 0 <= x < a && x != c ==> !held(rem@, x, n as int),
            others == 1 ==> 0 <= seen < a && seen != c && held(rem@, seen, n as int) && forall|
                x: int,
            | 0 <= x < a && x != c && x != seen ==> !held(rem@, x, n as int),
            others >= 2 ==> set_room(rem@, c as int, n as int),
        decreases 4 - a,
    {
        if a != c && is_held(rem, a, n) {
            proof {
                if others == 1 {
                    assert(held(rem@, seen, n as int) && held(rem@, a as int, n as int));
                }
                seen = a as int;
            }
            others += 1;
        }
        a += 1;
    }
    others >= 2
}

/// The tiles of the table that make a group without a joker, written in
/// canonical order, rise strictly.
proof fn lemma_tidy(g: Seq<Tile>, rem: Seq<usize>, pivot: Tile)
    requires
        rem.len() == 53,
        rem[52] == 0,
        is_group(g),
        holds(rem, g),
        g.contains(pivot),
    ensures
        is_group(canonical(g)),
        rising(canonical(g)),
        canonical(g).contains(pivot),
        forall|x: int|
            0 <= x < canonical(g).len() ==> rem[(#[trigger] canonical(g)[x]).index()] > 0,
{
    lemma_canonical(g);
    let h = canonical(g);
    lemma_group_is_well_formed(h);
    g.to_multiset_ensures();
    h.to_multiset_ensures();
    assert(h.contains(pivot)) by {
        assert(g.to_multiset().count(pivot) > 0);
    }
    assert forall|x: int| 0 <= x < h.len() implies (#[trigger] h[x]) != Tile::Joker && h[x].wf()
        && rem[h[x].index()] > 0 by {
        lemma_index_orders(h[x], h[x]);
        assert(h.contains(h[x]));
        assert(count_at(h, h[x].index()) > 0);
        assert(count_at(g, h[x].index()) <= rem[h[x].index()]);
    }
    assert forall|a: int, b: int| 0 <= a < b < h.len() implies h[a].before(h[b]) by {
        assert(!h[b].before(h[a]));
        assert(h[a] != h[b]);
        lemma_order_is_strict_total(h[a], h[b], h[a]);
    }
}

/// A run without a joker holds consecutive numbers, so each of its tiles
/// has two neighbours in it.
proof fn lemma_run_needs_room(h: Seq<Tile>, rem: Seq<usize>, c: int, n: int)
    requires
        rem.len() == 53,
        0 <= c < 4,
        1 <= n <= 13,
        is_run(h),
        rising(h),
        h.contains(Tile::at(c * 13 + n - 1)),
        forall|x: int| 0 <= x < h.len() ==> rem[(#[trigger] h[x]).index()] > 0,
    ensures
        run_room(rem, c, n),
{
    let j = c * 13 + n - 1;
    lemma_at_index(j);
    let y = choose|y: int| 0 <= y < h.len() && h[y] == Tile::at(j);
    let len = h.len() as int;
    let (c0, first) = choose|c0: Colour, first: int| fills_run(h, c0, first);
    assert forall|x: int| 0 <= x < h.len() implies joins(h[0], #[trigger] h[x], true) by {}
    let low = h[0]->Normal_1 as int;
    lemma_rising_numbers(h, h[0], 0, len - 1);
    assert forall|x: int| 0 <= x < h.len() implies (#[trigger] h[x]) == Tile::Normal(
        c0,
        (low + x) as u8,
    ) by {
        lemma_rising_numbers(h, h[0], 0, x);
        lemma_rising_numbers(h, h[0], x, len - 1);
    }
    assert(h[y] == Tile::Normal(c0, n as u8));
    assert(c0.rank() == c);
    assert(n == low + y);
    let (p, q) = if y >= 2 {
        (y - 2, y - 1)
    } else if y == 1 {
        (0int, 2int)
    } else {
        (1int, 2int)
    };
    assert(h[p] == Tile::Normal(c0, (low + p) as u8));
    assert(h[q] == Tile::Normal(c0, (low + q) as u8));
    assert(rem[h[p].index()] > 0 && rem[h[q].index()] > 0);
    assert(held(rem, c, low + p) && held(rem, c, low + q));
}

/// A set without a joker holds its number in three colours at least.
proof fn lemma_set_needs_room(h: Seq<Tile>, rem: Seq<usize>, c: int, n: int)
    requires
        rem.len() == 53,
        0 <= c < 4,
        1 <= n <= 13,
        is_set(h),
        rising(h),
        h.contains(Tile::at(c * 13 + n - 1)),
        forall|x: int| 0 <= x < h.len() ==> rem[(#[trigger] h[x]).index()] > 0,
    ensures
        set_room(rem, c, n),
{
    let j = c * 13 + n - 1;
    lemma_at_index(j);
    let y = choose|y: int| 0 <= y < h.len() && h[y] == Tile::at(j);
    let m = choose|m: int| fills_set(h, m);
    assert(h[y] == Tile::Normal(Colour::at(c), n as u8));
    assert(m == n);
    let p = if y == 0 {
        1int
    } else {
        0int
    };
    let q = if y == 2 {
        1int
    } else {
        2int
    };
    assert(h[p] != h[y] && h[q] != h[y] && h[p] != h[q]) by {
        lemma_order_is_strict_total(h[p], h[y], h[q]);
        lemma_order_is_strict_total(h[y], h[p], h[q]);
        lemma_order_is_strict_total(h[p], h[q], h[y]);
    }
    let a = h[p]->Normal_0.rank();
    let b = h[q]->Normal_0.rank();
    assert(rem[h[p].index()] > 0 && rem[h[q].index()] > 0);
    assert(held(rem, a, n));
    assert(held(rem, b, n));
    assert(a != c && b != c && a != b);
}

/// Where the table holds no joker, a group that its tiles can make around
/// a coloured tile needs room for it: two neighbours for a run, or the
/// number in two other colours for a set.
proof fn lemma_group_needs_room(g: Seq<Tile>, rem: Seq<usize>, c: int, n: int)
    requires
        rem.len() == 53,
        rem[52] == 0,
        0 <= c < 4,
        1 <= n <= 13,
        is_group(g),
        holds(rem, g),
        g.contains(Tile::at(c * 13 + n - 1)),
    ensures
        run_room(rem, c, n) || set_room(rem, c, n),
{
    lemma_tidy(g, rem, Tile::at(c * 13 + n - 1));
    let h = canonical(g);
    if is_run(h) {
        lemma_run_needs_room(h, rem, c, n);
    } else {
        lemma_set_needs_room(h, rem, c, n);
    }
}

/// A plan that can be played uses every tile that must not be left over,
/// so such a tile stands in one of its groups, and the table has room for
/// that group.
proof fn lemma_forced_tile_has_room(
    q: Seq<Seq<Tile>>,
    rem: Seq<usize>,
    cap: Seq<usize>,
    c: int,
    n: int,
)
    requires
        rem.len() == 53,
        cap.len() == 53,
        rem[52] == 0,
        0 <= c < 4,
        1 <= n <= 13,
        rem[c * 13 + n - 1] > cap[c * 13 + n - 1],
        fits(q, rem, cap),
    ensures
        run_room(rem, c, n) || set_room(rem, c, n),
{
    let j = c * 13 + n - 1;
    assert(used_at(q, j) <= rem[j] && rem[j] - used_at(q, j) <= cap[j]);
    let i = lemma_uses_member(q, Tile::at(j));
    lemma_uses_remove(q, i);
    q[i].to_multiset_ensures();
    assert forall|k: int| 0 <= k < 53 implies count_at(q[i], k) <= rem[k] by {
        assert(used_at(q, k) <= rem[k]);
    }
    lemma_group_needs_room(q[i], rem, c, n);
}

/// No plan can be played from a table that is condemned at first sight.
pub proof fn lemma_stuck(q: Seq<Seq<Tile>>, rem: Seq<usize>, cap: Seq<usize>)
    requires
        rem.len() == 53,
        cap.len() == 53,
        stuck(rem, cap),
    ensures
        !fits(q, rem, cap),
{
    let (c, n) = choose|c: int, n: int|
        0 <= c < 4 && 1 <= n <= 13 && #[trigger] rem[c * 13 + n - 1] > cap[c * 13 + n - 1]
            && !run_room(rem, c, n) && !set_room(rem, c, n);
    if fits(q, rem, cap) {
        lemma_forced_tile_has_room(q, rem, cap, c, n);
    }
}

/// Whether the table is condemned at first sight.
pub fn stranded(rem: &Vec<usize>, cap: &Vec<usize>) -> (b: bool)
    requires
        rem@.len() == 53,
        cap@.len() == 53,
    ensures
        b == stuck(rem@, cap@),
{
    if rem[52] > 0 {
        return false;
    }
    let mut c: usize = 0;
    while c < 4
        invariant
            rem@.len() == 53,
            cap@.len() == 53,
            rem@[52] == 0,
            c <= 4,
            forall|a: int, n: int|
                0 <= a < c && 1 <= n <= 13 && #[trigger] rem@[a * 13 + n - 1] > cap@[a * 13 + n
                    - 1] ==> run_room(rem@, a, n) || set_room(rem@, a, n),
        decreases 4 - c,
    {
        let mut n: usize = 1;
        while n <= 13
            invariant
                rem@.len() == 53,
                cap@.len() == 53,
                rem@[52] == 0,
                c < 4,
                1 <= n <= 14,
                forall|a: int, m: int|
                    0 <= a < c && 1 <= m <= 13 && #[trigger] rem@[a * 13 + m - 1] > cap@[a * 13
                        + m - 1] ==> run_room(rem@, a, m) || set_room(rem@, a, m),
                forall|m: int|
                    1 <= m < n && #[trigger] rem@[c * 13 + m - 1] > cap@[c * 13 + m - 1]
                        ==> run_room(rem@, c as int, m) || set_room(rem@, c as int, m),
            decreases 14 - n,
        {
            let j: usize = c * 13 + n - 1;
            if rem[j] > cap[j] && !has_run_room(rem, c, n) && !has_set_room(rem, c, n) {
                return true;
            }
            n += 1;
        }
        c += 1;
    }
    false
}

} // verus!
