//! The groups that can hold a given tile: every run and every set that can
//! be built from the tiles of a table with that tile as its first.

use crate::plan::group_lt;
use crate::group::{
    fills_run, fills_set, is_group, is_run, is_set, is_valid, lemma_group_is_well_formed,
};
use crate::table::{ascending, copies, count_at, holds, lemma_count_concat, lemma_count_copies};
use crate::tile::{Colour, Tile, lemma_index_orders};
use vstd::multiset::*;
use vstd::prelude::*;
use vstd::seq_lib::*;

verus! {

/// The tiles of `w` are well-formed coloured tiles in strictly rising
/// canonical order.
pub open spec fn rising(w: Seq<Tile>) -> bool {
    &&& forall|i: int| 0 <= i < w.len() ==> (#[trigger] w[i]) != Tile::Joker && w[i].wf()
    &&& forall|i: int, j: int| 0 <= i < j < w.len() ==> w[i].before(w[j])
}

/// The tile `t` can stand in a group with `pivot`: in a run when it has
/// the same colour, in a set when it has the same number.
pub open spec fn joins(pivot: Tile, t: Tile, runs: bool) -> bool {
    match (pivot, t) {
        (Tile::Normal(c, n), Tile::Normal(c2, n2)) => if runs {
            c2 == c
        } else {
            n2 == n
        },
        _ => false,
    }
}

/// The coloured tiles `w` followed by `j` jokers.
pub open spec fn with_jokers(w: Seq<Tile>, j: nat) -> Seq<Tile> {
    w + copies(Tile::Joker, j)
}

/// Some entry of `out` is the group `g`.
pub open spec fn lists(out: Seq<Vec<Tile>>, g: Seq<Tile>) -> bool {
    exists|i: int| 0 <= i < out.len() && (#[trigger] out[i])@ == g
}

/// `new` holds the entries of `old` and perhaps more behind them.
pub open spec fn extends(new: Seq<Vec<Tile>>, old: Seq<Vec<Tile>>) -> bool {
    old.len() <= new.len() && forall|i: int| 0 <= i < old.len() ==> new[i] == old[i]
}

/// Every entry of `out` from position `from` on is a legal group in
/// canonical order whose first tile is `pivot`, made of tiles that the
/// table holds.
pub open spec fn sound(out: Seq<Vec<Tile>>, from: int, pivot: Tile, rem: Seq<usize>) -> bool {
    forall|i: int|
        from <= i < out.len() ==> is_group((#[trigger] out[i])@) && ascending(out[i]@)
            && out[i]@[0] == pivot && holds(rem, out[i]@)
}

/// The entries of `out` from position `from` up to position `to` stand in
/// strictly rising order.
pub open spec fn in_order(out: Seq<Vec<Tile>>, from: int, to: int) -> bool {
    forall|i: int, j: int|
        from <= i < j < to ==> group_lt((#[trigger] out[i])@, (#[trigger] out[j])@)
}

/// The group `g` is made of the coloured tiles `normals` and of jokers,
/// `lo` of them at least and fewer than `end`.
pub open spec fn is_made(g: Seq<Tile>, normals: Seq<Tile>, lo: nat, end: nat) -> bool {
    exists|j: nat| lo <= j < end && g == #[trigger] with_jokers(normals, j)
}

/// Each entry of `out` from position `from` up to position `to` is made
/// of the coloured tiles `normals` and of jokers, `lo` of them at least
/// and fewer than `end`.
pub open spec fn made_of(
    out: Seq<Vec<Tile>>,
    from: int,
    to: int,
    normals: Seq<Tile>,
    lo: nat,
    end: nat,
) -> bool {
    forall|i: int| from <= i < to ==> is_made((#[trigger] out[i])@, normals, lo, end)
}

/// Each entry of `out` from position `from` up to position `to` begins
/// with `prefix` and goes on with a coloured tile that can stand in a group
/// with `pivot` and whose kind stands below position `below`.
pub open spec fn continued(
    out: Seq<Vec<Tile>>,
    from: int,
    to: int,
    prefix: Seq<Tile>,
    pivot: Tile,
    runs: bool,
    below: int,
) -> bool {
    forall|i: int|
        from <= i < to ==> {
            let g = (#[trigger] out[i])@;
            &&& g.len() > prefix.len()
            &&& g.take(prefix.len() as int) =~= prefix
            &&& g[prefix.len() as int].wf()
            &&& joins(pivot, g[prefix.len() as int], runs)
            &&& g[prefix.len() as int].index() < below
        }
}

/// The tiles of `w` are tiles that the table holds.
pub open spec fn at_hand(w: Seq<Tile>, rem: Seq<usize>) -> bool {
    forall|i: int| 0 <= i < w.len() ==> rem[(#[trigger] w[i]).index()] > 0
}

/// `w` continues `prefix` by tiles that the table holds and that can
/// stand in a group with `pivot`.
pub open spec fn continues(
    w: Seq<Tile>,
    prefix: Seq<Tile>,
    pivot: Tile,
    runs: bool,
    rem: Seq<usize>,
) -> bool {
    &&& prefix.len() <= w.len()
    &&& w.take(prefix.len() as int) =~= prefix
    &&& rising(w)
    &&& forall|i: int|
        prefix.len() <= i < w.len() ==> joins(pivot, #[trigger] w[i], runs) && rem[w[i].index()]
            > 0
}

/// `w` continues `prefix` by one tile at least.
pub open spec fn proper(
    w: Seq<Tile>,
    prefix: Seq<Tile>,
    pivot: Tile,
    runs: bool,
    rem: Seq<usize>,
) -> bool {
    continues(w, prefix, pivot, runs, rem) && w.len() > prefix.len()
}

/// The position, among the kinds, of the first tile by which `w` continues
/// `prefix`.
pub open spec fn next_at(w: Seq<Tile>, prefix: Seq<Tile>) -> int {
    w[prefix.len() as int].index()
}

/// `out` lists every legal group made of a proper continuation of
/// `prefix`, whose next tile stands below position `below`, and of jokers
/// that the table holds.
pub open spec fn covers(
    out: Seq<Vec<Tile>>,
    prefix: Seq<Tile>,
    pivot: Tile,
    runs: bool,
    rem: Seq<usize>,
    below: int,
) -> bool {
    forall|w: Seq<Tile>, j: nat|
        #![trigger with_jokers(w, j)]
        proper(w, prefix, pivot, runs, rem) && next_at(w, prefix) < below && j <= rem[52]
            && is_group(with_jokers(w, j)) ==> lists(
            out,
            with_jokers(w, j),
        )
}

/// A copy of a sequence of tiles.
pub fn copy_tiles(v: &Vec<Tile>) -> (r: Vec<Tile>)
    ensures
        r@ == v@,
{
    let mut r: Vec<Tile> = Vec::new();
    let mut i: usize = 0;
    while i < v.len()
        invariant
            i <= v@.len(),
            r@ == v@.take(i as int),
        decreases v@.len() - i,
    {
        r.push(v[i]);
        i += 1;
        proof {
            assert(v@.take(i as int) =~= v@.take(i - 1).push(v@[i - 1]));
        }
    }
    proof {
        assert(v@.take(v@.len() as int) =~= v@);
    }
    r
}

/// Decides `joins`.
fn can_join(pivot: &Tile, t: &Tile, runs: bool) -> (b: bool)
    ensures
        b == joins(*pivot, *t, runs),
{
    match (pivot, t) {
        (Tile::Normal(c, n), Tile::Normal(c2, n2)) => if runs {
            *c2 == *c
        } else {
            *n2 == *n
        },
        _ => false,
    }
}

/// In a rising sequence of tiles of one colour the numbers rise by at
/// least one from each tile to the next.
pub proof fn lemma_rising_numbers(w: Seq<Tile>, pivot: Tile, a: int, b: int)
    requires
        rising(w),
        forall|i: int| 0 <= i < w.len() ==> joins(pivot, #[trigger] w[i], true),
        0 <= a <= b < w.len(),
    ensures
        w[a] is Normal,
        w[b] is Normal,
        w[b]->Normal_1 - w[a]->Normal_1 >= b - a,
    decreases b - a,
{
    assert(joins(pivot, w[a], true));
    assert(joins(pivot, w[b], true));
    if a < b {
        lemma_rising_numbers(w, pivot, a, b - 1);
        assert(joins(pivot, w[b - 1], true));
        assert(w[b - 1].before(w[b]));
    }
}

/// A group in canonical order, seen as coloured tiles followed by jokers.
proof fn lemma_group_parts(w: Seq<Tile>, j: nat)
    requires
        rising(w),
    ensures
        ascending(with_jokers(w, j)),
        forall|i: int| 0 <= i < w.len() ==> with_jokers(w, j)[i] == w[i],
        forall|i: int| w.len() <= i < w.len() + j ==> with_jokers(w, j)[i] == Tile::Joker,
        with_jokers(w, j).len() == w.len() + j,
{
    let g = with_jokers(w, j);
    assert forall|a: int, b: int| 0 <= a < b < g.len() implies !g[b].before(g[a]) by {
        if b < w.len() {
            assert(w[a].before(w[b]));
            crate::tile::lemma_order_is_strict_total(w[a], w[b], w[a]);
        }
    }
}

/// Of two groups that begin alike, the one whose next tile stands before
/// the other's comes first.
pub proof fn lemma_lt_by_next(a: Seq<Tile>, b: Seq<Tile>, n: int)
    requires
        0 <= n < a.len(),
        n < b.len(),
        a.take(n) =~= b.take(n),
        a[n].before(b[n]),
    ensures
        group_lt(a, b),
    decreases n,
{
    if n > 0 {
        assert(a.take(n)[0] == b.take(n)[0]);
        assert(a.drop_first().take(n - 1) =~= a.take(n).drop_first());
        assert(b.drop_first().take(n - 1) =~= b.take(n).drop_first());
        lemma_lt_by_next(a.drop_first(), b.drop_first(), n - 1);
    }
}

/// A group comes before every group that it begins.
pub proof fn lemma_prefix_lt(a: Seq<Tile>, b: Seq<Tile>)
    requires
        a.len() < b.len(),
        b.take(a.len() as int) =~= a,
    ensures
        group_lt(a, b),
    decreases a.len(),
{
    if a.len() > 0 {
        assert(b.take(a.len() as int)[0] == a[0]);
        assert(b.drop_first().take(a.len() - 1) =~= b.take(a.len() as int).drop_first());
        lemma_prefix_lt(a.drop_first(), b.drop_first());
    }
}

/// A rising sequence holds no tile twice.
proof fn lemma_rising_count(w: Seq<Tile>, k: int)
    requires
        rising(w),
        0 <= k < 53,
    ensures
        count_at(w, k) <= 1,
        count_at(w, k) > 0 ==> w.contains(Tile::at(k)),
    decreases w.len(),
{
    broadcast use group_to_multiset_ensures;
    broadcast use group_multiset_axioms;

    w.to_multiset_ensures();
    if w.len() == 0 {
        assert(w.to_multiset().len() == 0);
    } else {
        let front = w.drop_last();
        let last = w.last();
        assert(w =~= front.push(last));
        assert forall|i: int, j: int| 0 <= i < j < front.len() implies front[i].before(
            front[j],
        ) by {
            assert(w[i].before(w[j]));
        }
        assert(rising(front)) by {
            assert forall|i: int| 0 <= i < front.len() implies (#[trigger] front[i])
                != Tile::Joker && front[i].wf() by {
                assert(front[i] == w[i]);
            }
        }
        lemma_rising_count(front, k);
        crate::table::lemma_count_push(front, last, k);
        if last.index() == k && count_at(front, k) > 0 {
            let i = choose|i: int| 0 <= i < front.len() && front[i] == Tile::at(k);
            assert(w[i].before(w[w.len() - 1]));
            lemma_index_orders(w[i], last);
        }
    }
}

/// Coloured tiles that the table holds, followed by no more jokers than
/// it holds, are tiles that the table holds.
proof fn lemma_parts_held(w: Seq<Tile>, j: nat, rem: Seq<usize>)
    requires
        rem.len() == 53,
        rising(w),
        at_hand(w, rem),
        j <= rem[52],
    ensures
        holds(rem, with_jokers(w, j)),
{
    w.to_multiset_ensures();
    assert forall|k: int| 0 <= k < 53 implies count_at(with_jokers(w, j), k) <= rem[k] by {
        lemma_count_concat(w, copies(Tile::Joker, j), k);
        lemma_count_copies(Tile::Joker, j, k);
        lemma_rising_count(w, k);
        crate::tile::lemma_at_index(k);
        if count_at(w, k) > 0 {
            let i = choose|i: int| 0 <= i < w.len() && w[i] == Tile::at(k);
            assert(rem[w[i].index()] > 0);
        }
    }
}

/// A run cannot skip more numbers than it has jokers: once a
/// continuation reaches a tile that lies too far from the first, no number
/// of jokers within the table's makes it a group. Nor can two tiles of
/// one colour stand in a set.
proof fn lemma_too_far(w: Seq<Tile>, pivot: Tile, m: int, j: nat)
    requires
        rising(w),
        forall|i: int| 0 <= i < w.len() ==> joins(pivot, #[trigger] w[i], true),
        1 <= m < w.len(),
        w[0] == pivot,
        pivot is Normal,
        w[m] is Normal,
        w[m]->Normal_1 - pivot->Normal_1 - m > j,
    ensures
        !is_group(with_jokers(w, j)),
{
    let g = with_jokers(w, j);
    lemma_group_parts(w, j);
    let last = w.len() - 1;
    lemma_rising_numbers(w, pivot, m, last);
    lemma_rising_numbers(w, pivot, 0, m);
    if is_run(g) {
        let (c, first) = choose|c: Colour, first: int| fills_run(g, c, first);
        assert(g[0] == w[0]);
        assert(g[last] == w[last]);
    } else if is_set(g) {
        let n = choose|n: int| fills_set(g, n);
        assert(g[0] == w[0]);
        assert(g[m] == w[m]);
    }
}

/// An entry that a list holds stays listed when the list grows.
proof fn lemma_lists_extends(new: Seq<Vec<Tile>>, old: Seq<Vec<Tile>>, g: Seq<Tile>)
    requires
        extends(new, old),
        lists(old, g),
    ensures
        lists(new, g),
{
    let x = choose|x: int| 0 <= x < old.len() && (#[trigger] old[x])@ == g;
    assert(new[x] == old[x]);
}

/// Appends to `out`, in rising order, every legal group made of the
/// coloured tiles `normals` followed by jokers of the table, `lo` of them
/// at least and `hi` at most.
fn emit(rem: &Vec<usize>, normals: &Vec<Tile>, lo: usize, hi: usize, out: &mut Vec<Vec<Tile>>)
    requires
        rem@.len() == 53,
        rising(normals@),
        at_hand(normals@, rem@),
        normals@.len() > 0,
        hi <= 13,
    ensures
        extends(final(out)@, old(out)@),
        sound(final(out)@, old(out)@.len() as int, normals@[0], rem@),
        made_of(
            final(out)@,
            old(out)@.len() as int,
            final(out)@.len() as int,
            normals@,
            lo as nat,
            (hi + 1) as nat,
        ),
        in_order(final(out)@, old(out)@.len() as int, final(out)@.len() as int),
        forall|j: nat|
            lo <= j <= hi && j <= rem@[52] && is_group(#[trigger] with_jokers(normals@, j))
                ==> lists(final(out)@, with_jokers(normals@, j)),
{
    let jokers: usize = rem[52];
    let mut cand: Vec<Tile> = copy_tiles(normals);
    let mut j: usize = 0;
    let ghost before = out@;
    proof {
        assert(cand@ =~= with_jokers(normals@, 0));
    }
    while j <= jokers && j <= hi && cand.len() <= 13
        invariant
            rem@.len() == 53,
            jokers == rem@[52],
            rising(normals@),
            at_hand(normals@, rem@),
            normals@.len() > 0,
            hi <= 13,
            cand@ == with_jokers(normals@, j as nat),
            j <= hi + 1,
            extends(out@, before),
            sound(out@, before.len() as int, normals@[0], rem@),
            made_of(out@, before.len() as int, out@.len() as int, normals@, lo as nat, j as nat),
            in_order(out@, before.len() as int, out@.len() as int),
            forall|i: nat|
                lo <= i < j && is_group(#[trigger] with_jokers(normals@, i)) ==> lists(
                    out@,
                    with_jokers(normals@, i),
                ),
        decreases 14 - cand@.len(),
    {
        if j >= lo && is_valid(cand.as_slice()) {
            let ghost prev = out@;
            let g: Vec<Tile> = copy_tiles(&cand);
            out.push(g);
            proof {
                lemma_group_parts(normals@, j as nat);
                lemma_parts_held(normals@, j as nat, rem@);
                assert(out@[prev.len() as int]@ == with_jokers(normals@, j as nat));
                assert forall|i: nat|
                    lo <= i < j + 1 && is_group(#[trigger] with_jokers(normals@, i)) implies lists(
                    out@,
                    with_jokers(normals@, i),
                ) by {
                    if i < j {
                        lemma_lists_extends(out@, prev, with_jokers(normals@, i));
                    }
                }
                assert forall|i: int| before.len() <= i < out@.len() implies is_made(
                    (#[trigger] out@[i])@,
                    normals@,
                    lo as nat,
                    (j + 1) as nat,
                ) by {
                    if i < prev.len() {
                        assert(out@[i] == prev[i]);
                        let x = choose|x: nat|
                            lo <= x < j && prev[i]@ == #[trigger] with_jokers(normals@, x);
                        assert(lo <= x < j + 1 && out@[i]@ == with_jokers(normals@, x));
                    } else {
                        assert(lo <= j < j + 1 && out@[i]@ == with_jokers(normals@, j as nat));
                    }
                }
                assert forall|a: int, b: int| before.len() <= a < b < out@.len() implies group_lt(
                    (#[trigger] out@[a])@,
                    (#[trigger] out@[b])@,
                ) by {
                    assert(out@[a] == prev[a]);
                    if b < prev.len() {
                        assert(out@[b] == prev[b]);
                    } else {
                        let x = choose|x: nat|
                            lo <= x < j && prev[a]@ == #[trigger] with_jokers(normals@, x);
                        lemma_group_parts(normals@, x);
                        lemma_prefix_lt(with_jokers(normals@, x), with_jokers(normals@, j as nat));
                    }
                }
            }
        } else {
            proof {
                assert forall|i: int| before.len() <= i < out@.len() implies is_made(
                    (#[trigger] out@[i])@,
                    normals@,
                    lo as nat,
                    (j + 1) as nat,
                ) by {
                    let x = choose|x: nat|
                        lo <= x < j && out@[i]@ == #[trigger] with_jokers(normals@, x);
                    assert(lo <= x < j + 1 && out@[i]@ == with_jokers(normals@, x));
                }
            }
        }
        cand.push(Tile::Joker);
        j += 1;
        proof {
            assert(cand@ =~= with_jokers(normals@, j as nat));
        }
    }
    proof {
        assert forall|i: nat|
            lo <= i <= hi && i <= rem@[52] && is_group(
                #[trigger] with_jokers(normals@, i),
            ) implies lists(out@, with_jokers(normals@, i)) by {
            lemma_group_is_well_formed(with_jokers(normals@, i));
            lemma_group_parts(normals@, i);
        }
        assert forall|i: int| before.len() <= i < out@.len() implies is_made(
            (#[trigger] out@[i])@,
            normals@,
            lo as nat,
            (hi + 1) as nat,
        ) by {
            let x = choose|x: nat| lo <= x < j && out@[i]@ == #[trigger] with_jokers(normals@, x);
            assert(lo <= x < hi + 1 && out@[i]@ == with_jokers(normals@, x));
        }
    }
}

/// What a list covers it still covers when it grows.
proof fn lemma_covers_extends(
    new: Seq<Vec<Tile>>,
    old: Seq<Vec<Tile>>,
    prefix: Seq<Tile>,
    pivot: Tile,
    runs: bool,
    rem: Seq<usize>,
    below: int,
)
    requires
        extends(new, old),
        covers(old, prefix, pivot, runs, rem, below),
    ensures
        covers(new, prefix, pivot, runs, rem, below),
{
    assert forall|w: Seq<Tile>, j: nat|
        #![trigger with_jokers(w, j)]
        proper(w, prefix, pivot, runs, rem) && next_at(w, prefix) < below && j <= rem[52]
            && is_group(with_jokers(w, j)) implies lists(
        new,
        with_jokers(w, j),
    ) by {
        lemma_lists_extends(new, old, with_jokers(w, j));
    }
}

/// Order among old entries stays when the list grows.
proof fn lemma_keep_order(new: Seq<Vec<Tile>>, old: Seq<Vec<Tile>>, from: int, to: int)
    requires
        extends(new, old),
        0 <= from,
        to <= old.len(),
        in_order(old, from, to),
    ensures
        in_order(new, from, to),
{
    assert forall|i: int, j: int| from <= i < j < to implies group_lt(
        (#[trigger] new[i])@,
        (#[trigger] new[j])@,
    ) by {
        assert(new[i] == old[i] && new[j] == old[j]);
    }
}

/// How old entries begin stays when the list grows.
proof fn lemma_keep_continued(
    new: Seq<Vec<Tile>>,
    old: Seq<Vec<Tile>>,
    from: int,
    to: int,
    prefix: Seq<Tile>,
    pivot: Tile,
    runs: bool,
    below: int,
    wider: int,
)
    requires
        extends(new, old),
        0 <= from,
        to <= old.len(),
        below <= wider,
        continued(old, from, to, prefix, pivot, runs, below),
    ensures
        continued(new, from, to, prefix, pivot, runs, wider),
{
    assert forall|i: int| from <= i < to implies {
        let g = (#[trigger] new[i])@;
        &&& g.len() > prefix.len()
        &&& g.take(prefix.len() as int) =~= prefix
        &&& g[prefix.len() as int].wf()
        &&& joins(pivot, g[prefix.len() as int], runs)
        &&& g[prefix.len() as int].index() < wider
    } by {
        assert(new[i] == old[i]);
    }
}

/// What old entries are made of stays when the list grows.
proof fn lemma_keep_made(
    new: Seq<Vec<Tile>>,
    old: Seq<Vec<Tile>>,
    from: int,
    to: int,
    normals: Seq<Tile>,
    lo: nat,
    end: nat,
)
    requires
        extends(new, old),
        0 <= from,
        to <= old.len(),
        made_of(old, from, to, normals, lo, end),
    ensures
        made_of(new, from, to, normals, lo, end),
{
    assert forall|i: int| from <= i < to implies is_made(
        (#[trigger] new[i])@,
        normals,
        lo,
        end,
    ) by {
        assert(new[i] == old[i]);
    }
}

/// The groups that continue `prefix` by the tile of kind `k` come behind
/// those that continue it by a tile of a lower kind, and among themselves
/// they stand in rising order: first the group that ends with that tile,
/// then those that go on with coloured tiles, last those that go on with
/// jokers.
proof fn lemma_block(
    out: Seq<Vec<Tile>>,
    base: int,
    b0: int,
    b1: int,
    b2: int,
    prefix: Seq<Tile>,
    longer: Seq<Tile>,
    pivot: Tile,
    runs: bool,
    k: int,
)
    requires
        0 <= base <= b0 <= b1 <= b2 <= out.len(),
        0 <= k < 52,
        longer == prefix.push(Tile::at(k)),
        joins(pivot, Tile::at(k), runs),
        in_order(out, base, b0),
        continued(out, base, b0, prefix, pivot, runs, k),
        in_order(out, b0, b1),
        made_of(out, b0, b1, longer, 0, 1),
        in_order(out, b1, b2),
        continued(out, b1, b2, longer, pivot, runs, 52),
        in_order(out, b2, out.len() as int),
        made_of(out, b2, out.len() as int, longer, 1, 14),
    ensures
        in_order(out, base, out.len() as int),
        continued(out, base, out.len() as int, prefix, pivot, runs, k + 1),
{
    let n = prefix.len() as int;
    let t = Tile::at(k);
    crate::tile::lemma_at_index(k);
    assert(longer.take(n) =~= prefix);
    assert forall|j: int| b0 <= j < out.len() implies (#[trigger] out[j])@.len() > n
        && out[j]@.take(n + 1) =~= longer by {
        if j < b1 {
            let x = choose|x: nat| 0 <= x < 1 && out[j]@ == #[trigger] with_jokers(longer, x);
            assert(out[j]@ =~= longer);
        } else if j < b2 {
            assert(out[j]@.take(n + 1) =~= longer);
        } else {
            let x = choose|x: nat| 1 <= x < 14 && out[j]@ == #[trigger] with_jokers(longer, x);
            assert(out[j]@.take(n + 1) =~= longer);
        }
    }
    assert forall|j: int| b0 <= j < out.len() implies {
        let g = (#[trigger] out[j])@;
        &&& g.len() > prefix.len()
        &&& g.take(prefix.len() as int) =~= prefix
        &&& g[prefix.len() as int].wf()
        &&& joins(pivot, g[prefix.len() as int], runs)
        &&& g[prefix.len() as int].index() < k + 1
    } by {
        let g = out[j]@;
        assert(g.take(n + 1)[n] == longer[n]);
        assert(g.take(n) =~= g.take(n + 1).take(n));
    }
    assert forall|i: int, j: int| base <= i < j < out.len() implies group_lt(
        (#[trigger] out[i])@,
        (#[trigger] out[j])@,
    ) by {
        let a = out[i]@;
        let b = out[j]@;
        if j < b0 {
        } else if i < b0 {
            assert(b.take(n + 1)[n] == longer[n]);
            assert(b.take(n) =~= b.take(n + 1).take(n));
            lemma_index_orders(a[n], t);
            lemma_lt_by_next(a, b, n);
        } else if i < b1 {
            let x = choose|x: nat| 0 <= x < 1 && a == #[trigger] with_jokers(longer, x);
            assert(a =~= longer);
            if j < b1 {
            } else {
                lemma_prefix_lt(a, b);
            }
        } else if i < b2 {
            if j < b2 {
            } else {
                let x = choose|x: nat| 1 <= x < 14 && b == #[trigger] with_jokers(longer, x);
                assert(b[n + 1] == Tile::Joker);
                assert(joins(pivot, a[n + 1], runs));
                assert(b.take(n + 1) =~= a.take(n + 1));
                lemma_lt_by_next(a, b, n + 1);
            }
        } else {
        }
    }
}

/// Appends to `out` every legal group that continues the coloured tiles
/// `prefix` by at least one more coloured tile of the table and ends in
/// jokers of the table: runs of the colour of `pivot` when `runs` is set,
/// sets of its number otherwise.
fn grow(rem: &Vec<usize>, pivot: Tile, prefix: &Vec<Tile>, runs: bool, out: &mut Vec<Vec<Tile>>)
    requires
        rem@.len() == 53,
        pivot is Normal,
        prefix@.len() > 0,
        prefix@[0] == pivot,
        rising(prefix@),
        at_hand(prefix@, rem@),
        forall|i: int| 0 <= i < prefix@.len() ==> joins(pivot, #[trigger] prefix@[i], runs),
    ensures
        extends(final(out)@, old(out)@),
        sound(final(out)@, old(out)@.len() as int, pivot, rem@),
        in_order(final(out)@, old(out)@.len() as int, final(out)@.len() as int),
        continued(
            final(out)@,
            old(out)@.len() as int,
            final(out)@.len() as int,
            prefix@,
            pivot,
            runs,
            52,
        ),
        covers(final(out)@, prefix@, pivot, runs, rem@, 52),
    decreases 52 - prefix@.last().index(),
{
    let ghost before = out@;
    let jokers: usize = rem[52];
    let depth: usize = prefix.len();
    let last: Tile = prefix[depth - 1];
    let from: usize = last.kind() + 1;
    let mut k: usize = from;
    proof {
        assert forall|w: Seq<Tile>, j: nat|
            #![trigger with_jokers(w, j)]
            proper(w, prefix@, pivot, runs, rem@) && next_at(w, prefix@) < from && j <= rem@[52]
                && is_group(with_jokers(w, j)) implies lists(
            out@,
            with_jokers(w, j),
        ) by {
            assert(w.take(depth as int)[depth - 1] == w[depth - 1]);
            assert(w[depth - 1].before(w[depth as int]));
            lemma_index_orders(w[depth - 1], w[depth as int]);
        }
    }
    while k < 52
        invariant
            rem@.len() == 53,
            pivot is Normal,
            prefix@.len() > 0,
            depth == prefix@.len(),
            prefix@[0] == pivot,
            rising(prefix@),
            at_hand(prefix@, rem@),
            forall|i: int| 0 <= i < prefix@.len() ==> joins(pivot, #[trigger] prefix@[i], runs),
            last == prefix@.last(),
            from == last.index() + 1,
            from <= k <= 52,
            jokers == rem@[52],
            extends(out@, before),
            sound(out@, before.len() as int, pivot, rem@),
            in_order(out@, before.len() as int, out@.len() as int),
            continued(
                out@,
                before.len() as int,
                out@.len() as int,
                prefix@,
                pivot,
                runs,
                k as int,
            ),
            covers(out@, prefix@, pivot, runs, rem@, k as int),
        decreases 52 - k,
    {
        let t: Tile = Tile::of_kind(k);
        let ghost prev = out@;
        if rem[k] > 0 && can_join(&pivot, &t, runs) {
            let near: bool = match (pivot, t) {
                (Tile::Normal(_, n), Tile::Normal(_, n2)) => !runs || (n2 >= n && ((n2 - n) as usize
                    <= depth || (n2 - n) as usize - depth <= jokers)),
                _ => false,
            };
            if near {
                let mut longer: Vec<Tile> = copy_tiles(prefix);
                longer.push(t);
                proof {
                    lemma_index_orders(last, t);
                    assert forall|i: int, j: int|
                        0 <= i < j < longer@.len() implies longer@[i].before(longer@[j]) by {
                        if j == depth {
                            if i < depth - 1 {
                                assert(prefix@[i].before(prefix@[depth - 1]));
                                crate::tile::lemma_order_is_strict_total(
                                    prefix@[i],
                                    prefix@[depth - 1],
                                    t,
                                );
                            }
                        } else {
                            assert(prefix@[i].before(prefix@[j]));
                        }
                    }
                    assert(rising(longer@));
                    assert forall|i: int| 0 <= i < longer@.len() implies rem@[(
                    #[trigger] longer@[i]).index()] > 0 by {
                        if i < depth {
                            assert(rem@[prefix@[i].index()] > 0);
                        }
                    }
                    assert forall|i: int| 0 <= i < longer@.len() implies joins(
                        pivot,
                        #[trigger] longer@[i],
                        runs,
                    ) by {
                        if i < depth {
                            assert(joins(pivot, prefix@[i], runs));
                        }
                    }
                }
                emit(rem, &longer, 0, 0, out);
                let ghost mid = out@;
                grow(rem, pivot, &longer, runs, out);
                let ghost late = out@;
                emit(rem, &longer, 1, 13, out);
                proof {
                    assert(extends(out@, prev));
                    assert(extends(out@, mid));
                    let base = before.len() as int;
                    let b0 = prev.len() as int;
                    let b1 = mid.len() as int;
                    let b2 = late.len() as int;
                    lemma_keep_order(out@, prev, base, b0);
                    lemma_keep_continued(out@, prev, base, b0, prefix@, pivot, runs, k as int, k as int);
                    lemma_keep_order(out@, mid, b0, b1);
                    lemma_keep_made(out@, mid, b0, b1, longer@, 0, 1);
                    lemma_keep_order(out@, late, b1, b2);
                    lemma_keep_continued(out@, late, b1, b2, longer@, pivot, runs, 52, 52);
                    lemma_block(out@, base, b0, b1, b2, prefix@, longer@, pivot, runs, k as int);
                    assert forall|w: Seq<Tile>, j: nat|
                        #![trigger with_jokers(w, j)]
                        proper(w, prefix@, pivot, runs, rem@) && next_at(w, prefix@) == k
                            && j <= rem@[52] && is_group(with_jokers(w, j)) implies lists(
                        out@,
                        with_jokers(w, j),
                    ) by {
                        lemma_index_orders(w[depth as int], t);
                        assert(w.take(depth + 1) =~= w.take(depth as int).push(w[depth as int]));
                        assert(w.take(depth + 1) =~= longer@);
                        if w.len() == depth + 1 {
                            assert(w =~= longer@);
                            if j == 0 {
                                assert(lists(mid, with_jokers(longer@, j)));
                                lemma_lists_extends(out@, mid, with_jokers(w, j));
                            }
                        } else {
                            assert(continues(w, longer@, pivot, runs, rem@));
                            assert(w[depth as int].before(w[depth + 1]));
                            lemma_index_orders(w[depth + 1], w[depth as int]);
                            assert(lists(late, with_jokers(w, j)));
                            lemma_lists_extends(out@, late, with_jokers(w, j));
                        }
                    }
                }
            } else {
                proof {
                    assert forall|w: Seq<Tile>, j: nat|
                        #![trigger with_jokers(w, j)]
                        proper(w, prefix@, pivot, runs, rem@) && next_at(w, prefix@) == k
                            && j <= rem@[52] implies !is_group(with_jokers(w, j)) by {
                        lemma_index_orders(w[depth as int], t);
                        assert forall|i: int| 0 <= i < w.len() implies joins(
                            pivot,
                            #[trigger] w[i],
                            true,
                        ) by {
                            if i < depth {
                                assert(w.take(depth as int)[i] == w[i]);
                                assert(joins(pivot, prefix@[i], runs));
                            }
                        }
                        assert(w.take(depth as int)[0] == w[0]);
                        lemma_rising_numbers(w, pivot, 0, depth as int);
                        lemma_too_far(w, pivot, depth as int, j);
                    }
                }
            }
        } else {
            proof {
                assert forall|w: Seq<Tile>, j: nat|
                    #![trigger with_jokers(w, j)]
                    proper(w, prefix@, pivot, runs, rem@) && next_at(w, prefix@) == k
                        && j <= rem@[52] implies !is_group(with_jokers(w, j)) by {
                    lemma_index_orders(w[depth as int], t);
                }
            }
        }
        proof {
            lemma_covers_extends(out@, prev, prefix@, pivot, runs, rem@, k as int);
            if out@.len() == prev.len() {
                lemma_keep_continued(
                    out@,
                    prev,
                    before.len() as int,
                    prev.len() as int,
                    prefix@,
                    pivot,
                    runs,
                    k as int,
                    k + 1,
                );
            }
        }
        k += 1;
    }
}

/// In a sequence in canonical order the jokers stand at the end: the
/// result is the number of coloured tiles in front of them.
proof fn lemma_jokers_last(g: Seq<Tile>) -> (m: int)
    requires
        ascending(g),
    ensures
        0 <= m <= g.len(),
        forall|i: int| 0 <= i < m ==> g[i] != Tile::Joker,
        forall|i: int| m <= i < g.len() ==> g[i] == Tile::Joker,
    decreases g.len(),
{
    if g.len() == 0 {
        0
    } else if g.last() != Tile::Joker {
        assert forall|i: int| 0 <= i < g.len() implies g[i] != Tile::Joker by {
            if i < g.len() - 1 {
                assert(!g[g.len() - 1].before(g[i]));
            }
        }
        g.len() as int
    } else {
        let h = g.drop_last();
        assert forall|i: int, j: int| 0 <= i < j < h.len() implies !h[j].before(h[i]) by {
            assert(!g[j].before(g[i]));
        }
        let m = lemma_jokers_last(h);
        assert forall|i: int| 0 <= i < m implies g[i] != Tile::Joker by {
            assert(h[i] == g[i]);
        }
        assert forall|i: int| m <= i < g.len() implies g[i] == Tile::Joker by {
            if i < h.len() {
                assert(h[i] == g[i]);
            }
        }
        m
    }
}

/// The runs that begin with a tile come before the sets that begin with
/// it, and both before the groups that it makes with jokers alone.
proof fn lemma_families(out: Seq<Vec<Tile>>, b1: int, b2: int, pivot: Tile, rem: Seq<usize>)
    requires
        0 <= b1 <= b2 <= out.len(),
        pivot is Normal,
        sound(out, 0, pivot, rem),
        in_order(out, 0, b1),
        continued(out, 0, b1, seq![pivot], pivot, true, 52),
        in_order(out, b1, b2),
        continued(out, b1, b2, seq![pivot], pivot, false, 52),
        in_order(out, b2, out.len() as int),
        made_of(out, b2, out.len() as int, seq![pivot], 1, 14),
    ensures
        in_order(out, 0, out.len() as int),
{
    assert forall|i: int, j: int| 0 <= i < j < out.len() implies group_lt(
        (#[trigger] out[i])@,
        (#[trigger] out[j])@,
    ) by {
        let a = out[i]@;
        let b = out[j]@;
        assert(a[0] == pivot && b[0] == pivot);
        assert(a.take(1) =~= seq![pivot]);
        assert(b.take(1) =~= seq![pivot]);
        if j < b1 {
        } else if i < b1 {
            if j < b2 {
                lemma_group_is_well_formed(b);
                assert(!b[1].before(b[0]));
                assert(b[0] != b[1]);
                crate::tile::lemma_order_is_strict_total(b[0], b[1], a[1]);
                assert(joins(pivot, a[1], true) && joins(pivot, b[1], false));
            } else {
                let x = choose|x: nat|
                    1 <= x < 14 && b == #[trigger] with_jokers(seq![pivot], x);
                assert(b[1] == Tile::Joker);
                assert(joins(pivot, a[1], true));
            }
            lemma_lt_by_next(a, b, 1);
        } else if i < b2 {
            if j < b2 {
            } else {
                let x = choose|x: nat|
                    1 <= x < 14 && b == #[trigger] with_jokers(seq![pivot], x);
                assert(b[1] == Tile::Joker);
                assert(joins(pivot, a[1], false));
                lemma_lt_by_next(a, b, 1);
            }
        } else {
        }
    }
}

/// Every legal group in canonical order whose first tile is the coloured
/// tile at position `k`, and whose tiles the table holds, in rising order.
pub fn candidates(rem: &Vec<usize>, k: usize) -> (out: Vec<Vec<Tile>>)
    requires
        rem@.len() == 53,
        k < 52,
        rem@[k as int] > 0,
    ensures
        sound(out@, 0, Tile::at(k as int), rem@),
        in_order(out@, 0, out@.len() as int),
        forall|g: Seq<Tile>|
            is_group(g) && ascending(g) && g[0] == Tile::at(k as int) && holds(rem@, g) ==> lists(
                out@,
                g,
            ),
{
    let pivot: Tile = Tile::of_kind(k);
    let mut out: Vec<Vec<Tile>> = Vec::new();
    let mut first: Vec<Tile> = Vec::new();
    first.push(pivot);
    grow(rem, pivot, &first, true, &mut out);
    let ghost in_runs = out@;
    grow(rem, pivot, &first, false, &mut out);
    let ghost in_sets = out@;
    emit(rem, &first, 1, 13, &mut out);
    proof {
        assert(first@ =~= seq![pivot]);
        let b1 = in_runs.len() as int;
        let b2 = in_sets.len() as int;
        assert(extends(out@, in_runs));
        lemma_keep_order(out@, in_runs, 0, b1);
        lemma_keep_continued(out@, in_runs, 0, b1, first@, pivot, true, 52, 52);
        lemma_keep_order(out@, in_sets, b1, b2);
        lemma_keep_continued(out@, in_sets, b1, b2, first@, pivot, false, 52, 52);
        lemma_families(out@, b1, b2, pivot, rem@);
        assert forall|g: Seq<Tile>|
            is_group(g) && ascending(g) && g[0] == Tile::at(k as int) && holds(
                rem@,
                g,
            ) implies lists(out@, g) by {
            broadcast use group_to_multiset_ensures;

            lemma_group_is_well_formed(g);
            let m = lemma_jokers_last(g);
            let w = g.take(m);
            let j = (g.len() - m) as nat;
            assert(g =~= with_jokers(w, j));
            assert forall|a: int, b: int| 0 <= a < b < w.len() implies w[a].before(w[b]) by {
                assert(!g[b].before(g[a]));
                assert(g[a] != g[b]);
                crate::tile::lemma_order_is_strict_total(g[a], g[b], g[a]);
            }
            assert(rising(w));
            assert(j <= rem@[52]) by {
                lemma_count_concat(w, copies(Tile::Joker, j), 52);
                lemma_count_copies(Tile::Joker, j, 52);
                assert(count_at(g, 52) <= rem@[52]);
            }
            assert forall|i: int| 0 <= i < w.len() implies rem@[(#[trigger] w[i]).index()]
                > 0 by {
                lemma_index_orders(w[i], w[i]);
                assert(g[i] == w[i]);
                assert(g.contains(w[i]));
                assert(count_at(g, w[i].index()) > 0);
            }
            if m == 1 {
                assert(w =~= first@);
                assert(lists(out@, with_jokers(first@, j)));
            } else {
                if is_run(g) {
                    let (c, low) = choose|c: Colour, low: int| fills_run(g, c, low);
                    assert(g[0] == pivot);
                    assert forall|i: int| 1 <= i < w.len() implies joins(
                        pivot,
                        #[trigger] w[i],
                        true,
                    ) by {
                        assert(g[i] == w[i]);
                    }
                    assert(w.take(1) =~= first@);
                    assert(continues(w, first@, pivot, true, rem@));
                    assert(lists(in_runs, with_jokers(w, j)));
                    lemma_lists_extends(out@, in_runs, g);
                } else {
                    let n = choose|n: int| fills_set(g, n);
                    assert(g[0] == pivot);
                    assert forall|i: int| 1 <= i < w.len() implies joins(
                        pivot,
                        #[trigger] w[i],
                        false,
                    ) by {
                        assert(g[i] == w[i]);
                    }
                    assert(w.take(1) =~= first@);
                    assert(continues(w, first@, pivot, false, rem@));
                    assert(lists(in_sets, with_jokers(w, j)));
                    lemma_lists_extends(out@, in_sets, g);
                }
            }
        }
    }
    out
}

} // verus!
