//! The search: a depth-first walk over the ways to lay the tiles of a
//! table into groups, which keeps the plan that is preferred to all others.

use crate::candidates::{candidates, copy_tiles, lists, sound};
use crate::forcing::{lemma_stuck, stranded};
use crate::group::{canonical, is_group, lemma_canonical, lemma_group_is_well_formed};
use crate::memo::Memo;
use crate::plan::{
    better, fits, group_lt, lemma_better_front, lemma_better_than_before, lemma_no_better_chain,
    lemma_uses_front, lemma_uses_member, lemma_uses_remove, ordered, plan_lt, size, used_at,
};
use crate::table::{ascending, count_at, first_held, holds, one_less, take_out, total, without};
use crate::tile::{Tile, lemma_at_index, lemma_index_orders};
use vstd::prelude::*;
use vstd::seq_lib::*;

verus! {

/// The groups of a plan held in vectors.
pub open spec fn views(p: Seq<Vec<Tile>>) -> Seq<Seq<Tile>> {
    Seq::new(p.len(), |i: int| p[i]@)
}

/// Whether two groups hold the same tiles in the same order.
fn same_tiles(a: &Vec<Tile>, b: &Vec<Tile>) -> (r: bool)
    ensures
        r == (a@ == b@),
{
    if a.len() != b.len() {
        return false;
    }
    let mut i: usize = 0;
    while i < a.len()
        invariant
            a@.len() == b@.len(),
            i <= a@.len(),
            forall|j: int| 0 <= j < i ==> a@[j] == b@[j],
        decreases a@.len() - i,
    {
        if a[i] != b[i] {
            return false;
        }
        i += 1;
    }
    proof {
        assert(a@ =~= b@);
    }
    true
}

/// Decides the order on groups.
fn group_precedes(a: &Vec<Tile>, b: &Vec<Tile>) -> (r: bool)
    ensures
        r == group_lt(a@, b@),
{
    let mut i: usize = 0;
    proof {
        assert(a@.skip(0) =~= a@);
        assert(b@.skip(0) =~= b@);
    }
    loop
        invariant
            i <= a@.len(),
            i <= b@.len(),
            group_lt(a@, b@) == group_lt(a@.skip(i as int), b@.skip(i as int)),
        decreases a@.len() - i,
    {
        if i >= b.len() {
            return false;
        }
        if i >= a.len() {
            return true;
        }
        if a[i] != b[i] {
            return a[i].precedes(&b[i]);
        }
        proof {
            assert(a@.skip(i as int).drop_first() =~= a@.skip(i + 1));
            assert(b@.skip(i as int).drop_first() =~= b@.skip(i + 1));
        }
        i += 1;
    }
}

/// Decides the order on plans.
fn plan_precedes(p: &Vec<Vec<Tile>>, q: &Vec<Vec<Tile>>) -> (r: bool)
    ensures
        r == plan_lt(views(p@), views(q@)),
{
    let mut i: usize = 0;
    proof {
        assert(views(p@).skip(0) =~= views(p@));
        assert(views(q@).skip(0) =~= views(q@));
    }
    loop
        invariant
            i <= p@.len(),
            i <= q@.len(),
            plan_lt(views(p@), views(q@)) == plan_lt(
                views(p@).skip(i as int),
                views(q@).skip(i as int),
            ),
        decreases p@.len() - i,
    {
        if i >= q.len() {
            return false;
        }
        if i >= p.len() {
            return true;
        }
        if !same_tiles(&p[i], &q[i]) {
            return group_precedes(&p[i], &q[i]);
        }
        proof {
            assert(views(p@).skip(i as int).drop_first() =~= views(p@).skip(i + 1));
            assert(views(q@).skip(i as int).drop_first() =~= views(q@).skip(i + 1));
        }
        i += 1;
    }
}

/// Whether a plan in canonical form is preferred to another.
fn improves(cand: &Vec<Vec<Tile>>, placed: usize, best: &Vec<Vec<Tile>>, best_placed: usize) -> (r:
    bool)
    requires
        ordered(views(cand@)),
        placed == size(views(cand@)),
        best_placed == size(views(best@)),
    ensures
        r == better(views(cand@), views(best@)),
{
    if placed != best_placed {
        placed > best_placed
    } else if cand.len() != best.len() {
        cand.len() > best.len()
    } else {
        plan_precedes(cand, best)
    }
}

/// What a search found: a plan and the number of tiles it lays down.
pub type Found = Option<(Vec<Vec<Tile>>, usize)>;

/// The plan that was found; the empty plan where none was.
pub open spec fn found_plan(best: Found) -> Seq<Seq<Tile>> {
    match best {
        Some((p, _)) => views(p@),
        None => Seq::empty(),
    }
}

/// The number that stands beside the plan that was found.
pub open spec fn found_size(best: Found) -> nat {
    match best {
        Some((_, n)) => n as nat,
        None => 0,
    }
}

/// The plan `q` is not preferred to what was found.
pub open spec fn settled(q: Seq<Seq<Tile>>, best: Found) -> bool {
    best matches Some((p, _)) && !better(q, views(p@))
}

/// What was found can be played from the table, is written in canonical
/// form, and lays down the number of tiles that stands beside it.
pub open spec fn playable(best: Found, rem: Seq<usize>, cap: Seq<usize>) -> bool {
    best matches Some((p, n)) ==> fits(views(p@), rem, cap) && ordered(views(p@)) && n == size(
        views(p@),
    ) && n <= total(rem)
}

/// No plan that can be played from the table is preferred to what was
/// found; where nothing was found, no plan can be played.
pub open spec fn optimal(best: Found, rem: Seq<usize>, cap: Seq<usize>) -> bool {
    forall|q: Seq<Seq<Tile>>| #[trigger] fits(q, rem, cap) ==> settled(q, best)
}

/// No plan that begins with the group `g` is preferred to what was found.
pub open spec fn covered(rem: Seq<usize>, cap: Seq<usize>, g: Seq<Tile>, best: Found) -> bool {
    forall|q: Seq<Seq<Tile>>|
        holds(rem, g) && #[trigger] fits(q, without(rem, g), cap) ==> settled(seq![g] + q, best)
}

/// No plan that leaves over a tile of the kind at position `k` is
/// preferred to what was found.
pub open spec fn skipped(rem: Seq<usize>, cap: Seq<usize>, k: int, best: Found) -> bool {
    forall|q: Seq<Seq<Tile>>|
        #[trigger] fits(q, rem, cap) && used_at(q, k) < rem[k] ==> settled(q, best)
}

proof fn lemma_skip_sound(s: Seq<Seq<Tile>>, rem: Seq<usize>, cap: Seq<usize>, k: int)
    requires
        rem.len() == 53,
        cap.len() == 53,
        0 <= k < 53,
        rem[k] > 0,
        cap[k] > 0,
        fits(s, rem.update(k, (rem[k] - 1) as usize), cap.update(k, (cap[k] - 1) as usize)),
    ensures
        fits(s, rem, cap),
{
    let rem2 = rem.update(k, (rem[k] - 1) as usize);
    let cap2 = cap.update(k, (cap[k] - 1) as usize);
    assert forall|j: int| 0 <= j < 53 implies #[trigger] used_at(s, j) <= rem[j] && rem[j]
        - used_at(s, j) <= cap[j] by {
        assert(used_at(s, j) <= rem2[j] && rem2[j] - used_at(s, j) <= cap2[j]);
    }
}

proof fn lemma_skip_complete(q: Seq<Seq<Tile>>, rem: Seq<usize>, cap: Seq<usize>, k: int)
    requires
        rem.len() == 53,
        cap.len() == 53,
        0 <= k < 53,
        fits(q, rem, cap),
        used_at(q, k) < rem[k],
    ensures
        cap[k] > 0,
        fits(q, rem.update(k, (rem[k] - 1) as usize), cap.update(k, (cap[k] - 1) as usize)),
{
    let rem2 = rem.update(k, (rem[k] - 1) as usize);
    let cap2 = cap.update(k, (cap[k] - 1) as usize);
    assert(used_at(q, k) <= rem[k] && rem[k] - used_at(q, k) <= cap[k]);
    assert forall|j: int| 0 <= j < 53 implies #[trigger] used_at(q, j) <= rem2[j] && rem2[j]
        - used_at(q, j) <= cap2[j] by {
        assert(used_at(q, j) <= rem[j] && rem[j] - used_at(q, j) <= cap[j]);
    }
}

proof fn lemma_front_sound(g: Seq<Tile>, s: Seq<Seq<Tile>>, rem: Seq<usize>, cap: Seq<usize>)
    requires
        rem.len() == 53,
        is_group(g),
        holds(rem, g),
        fits(s, without(rem, g), cap),
    ensures
        fits(seq![g] + s, rem, cap),
{
    let p = seq![g] + s;
    lemma_uses_front(g, s);
    assert forall|i: int| 0 <= i < p.len() implies is_group(#[trigger] p[i]) by {
        if i > 0 {
            assert(p[i] == s[i - 1]);
        }
    }
    assert forall|j: int| 0 <= j < 53 implies #[trigger] used_at(p, j) <= rem[j] && rem[j]
        - used_at(p, j) <= cap[j] by {
        assert(used_at(s, j) <= without(rem, g)[j] && without(rem, g)[j] - used_at(s, j)
            <= cap[j]);
        assert(count_at(g, j) <= rem[j]);
    }
}

proof fn lemma_remove_fits(
    q: Seq<Seq<Tile>>,
    i: int,
    g: Seq<Tile>,
    rem: Seq<usize>,
    cap: Seq<usize>,
)
    requires
        rem.len() == 53,
        fits(q, rem, cap),
        0 <= i < q.len(),
        g.to_multiset() == q[i].to_multiset(),
    ensures
        holds(rem, g),
        fits(q.remove(i), without(rem, g), cap),
        size(q) == g.len() + size(q.remove(i)),
{
    let r = q.remove(i);
    lemma_uses_remove(q, i);
    g.to_multiset_ensures();
    q[i].to_multiset_ensures();
    assert forall|j: int| 0 <= j < r.len() implies is_group(#[trigger] r[j]) by {
        if j < i {
            assert(r[j] == q[j]);
        } else {
            assert(r[j] == q[j + 1]);
        }
    }
    assert forall|j: int| 0 <= j < 53 implies count_at(g, j) <= rem[j] by {
        assert(used_at(q, j) <= rem[j]);
    }
    assert forall|j: int| 0 <= j < 53 implies #[trigger] used_at(r, j) <= without(rem, g)[j]
        && without(rem, g)[j] - used_at(r, j) <= cap[j] by {
        assert(used_at(q, j) <= rem[j] && rem[j] - used_at(q, j) <= cap[j]);
    }
}

/// Every tile of a plan that can be played is a well-formed tile that the
/// table holds.
proof fn lemma_tiles_held(s: Seq<Seq<Tile>>, rem: Seq<usize>, cap: Seq<usize>, i: int, x: int)
    requires
        rem.len() == 53,
        fits(s, rem, cap),
        0 <= i < s.len(),
        0 <= x < s[i].len(),
    ensures
        s[i][x].wf(),
        0 <= s[i][x].index() < 53,
        rem[s[i][x].index()] >= 1,
{
    let t = s[i][x];
    lemma_group_is_well_formed(s[i]);
    lemma_index_orders(t, t);
    lemma_uses_remove(s, i);
    s[i].to_multiset_ensures();
    assert(s[i].contains(t));
    assert(count_at(s[i], t.index()) > 0);
    assert(used_at(s, t.index()) <= rem[t.index()]);
}

/// A sequence in canonical order that holds the smallest tile of all
/// begins with it.
proof fn lemma_first_is_pivot(g: Seq<Tile>, k: int)
    requires
        0 <= k < 53,
        ascending(g),
        g.contains(Tile::at(k)),
        forall|x: int| 0 <= x < g.len() ==> (#[trigger] g[x]).wf() && g[x].index() >= k,
    ensures
        g.len() > 0,
        g[0] == Tile::at(k),
{
    let y = choose|y: int| 0 <= y < g.len() && g[y] == Tile::at(k);
    lemma_at_index(k);
    lemma_index_orders(g[0], Tile::at(k));
    if y > 0 {
        assert(!g[y].before(g[0]));
    }
}

/// A plan in canonical form stays in canonical form with a group in front
/// whose first tile stands before no first tile of the plan.
proof fn lemma_ordered_front(g: Seq<Tile>, s: Seq<Seq<Tile>>)
    requires
        g.len() > 0,
        ascending(g),
        ordered(s),
        forall|i: int| 0 <= i < s.len() ==> !(#[trigger] s[i])[0].before(g[0]),
    ensures
        ordered(seq![g] + s),
{
    let p = seq![g] + s;
    assert forall|i: int| 0 <= i < p.len() implies (#[trigger] p[i]).len() > 0 && ascending(
        p[i],
    ) by {
        if i > 0 {
            assert(p[i] == s[i - 1]);
        }
    }
    assert forall|i: int, j: int| 0 <= i < j < p.len() implies !(#[trigger] p[j])[0].before(
        (#[trigger] p[i])[0],
    ) by {
        assert(p[j] == s[j - 1]);
        if i > 0 {
            assert(p[i] == s[i - 1]);
        }
    }
}

/// The case analysis at the heart of the search. Let the kind at position
/// `k` be the first of which the table holds a tile. A plan that can be
/// played either leaves a tile of that kind over, or holds a group with
/// such a tile, and that group, written in canonical order, is among the
/// candidates.
proof fn lemma_pivot_cases(
    q: Seq<Seq<Tile>>,
    rem: Seq<usize>,
    cap: Seq<usize>,
    k: int,
    cands: Seq<Vec<Tile>>,
    best: Found,
)
    requires
        rem.len() == 53,
        cap.len() == 53,
        0 <= k < 53,
        rem[k] > 0,
        forall|j: int| 0 <= j < k ==> rem[j] == 0,
        skipped(rem, cap, k, best),
        k < 52 ==> forall|g: Seq<Tile>|
            is_group(g) && ascending(g) && g[0] == Tile::at(k) && holds(rem, g) ==> lists(
                cands,
                g,
            ),
        forall|j: int| 0 <= j < cands.len() ==> covered(rem, cap, (#[trigger] cands[j])@, best),
        fits(q, rem, cap),
    ensures
        settled(q, best),
{
    lemma_at_index(k);
    if used_at(q, k) < rem[k] {
    } else {
        let i = lemma_uses_member(q, Tile::at(k));
        q[i].to_multiset_ensures();
        lemma_group_is_well_formed(q[i]);
        assert forall|a: int, x: int| 0 <= a < q.len() && 0 <= x < q[a].len() implies (
        #[trigger] q[a][x]).wf() && q[a][x].index() >= k by {
            lemma_tiles_held(q, rem, cap, a, x);
        }
        assert(k < 52) by {
            let x = choose|x: int| 0 <= x < q[i].len() && q[i][x] != Tile::Joker;
            assert(q[i][x].wf() && q[i][x].index() >= k);
        }
        if ordered(q) {
            lemma_first_is_pivot(q[i], k);
            if i > 0 {
                assert(!q[i][0].before(q[0][0]));
                lemma_index_orders(q[0][0], Tile::at(k));
            }
            let g = q[0];
            assert(g[0] == Tile::at(k));
            lemma_remove_fits(q, 0, g, rem, cap);
            let j = choose|j: int| 0 <= j < cands.len() && (#[trigger] cands[j])@ == g;
            assert(covered(rem, cap, cands[j]@, best));
            assert(fits(q.remove(0), without(rem, g), cap));
            assert(q =~= seq![g] + q.remove(0));
        } else {
            let g = canonical(q[i]);
            lemma_canonical(q[i]);
            g.to_multiset_ensures();
            assert forall|x: int| 0 <= x < g.len() implies (#[trigger] g[x]).wf() && g[x].index()
                >= k by {
                assert(g.contains(g[x]));
                assert(g.to_multiset().count(g[x]) > 0);
                assert(q[i].contains(g[x]));
                let y = choose|y: int| 0 <= y < q[i].len() && q[i][y] == g[x];
                assert(q[i][y].wf() && q[i][y].index() >= k);
            }
            assert(g.contains(Tile::at(k)));
            lemma_first_is_pivot(g, k);
            lemma_remove_fits(q, i, g, rem, cap);
            let j = choose|j: int| 0 <= j < cands.len() && (#[trigger] cands[j])@ == g;
            assert(covered(rem, cap, cands[j]@, best));
            let r = q.remove(i);
            assert(fits(r, without(rem, g), cap));
            assert(settled(seq![g] + r, best));
            lemma_uses_front(g, r);
        }
    }
}

/// A plan with one more group in front.
fn prepend(g: &Vec<Tile>, s: &Vec<Vec<Tile>>) -> (r: Vec<Vec<Tile>>)
    ensures
        views(r@) == seq![g@] + views(s@),
{
    let mut r: Vec<Vec<Tile>> = Vec::new();
    r.push(copy_tiles(g));
    let mut i: usize = 0;
    while i < s.len()
        invariant
            i <= s@.len(),
            r@.len() == i + 1,
            r@[0]@ == g@,
            forall|j: int| 0 <= j < i ==> (#[trigger] r@[j + 1])@ == s@[j]@,
        decreases s@.len() - i,
    {
        r.push(copy_tiles(&s[i]));
        i += 1;
    }
    proof {
        assert(views(r@) =~= seq![g@] + views(s@)) by {
            assert forall|j: int| 0 <= j < views(r@).len() implies views(r@)[j] == (seq![g@]
                + views(s@))[j] by {
                if j > 0 {
                    assert(r@[(j - 1) + 1]@ == s@[j - 1]@);
                }
            }
        }
    }
    r
}

/// Keeps the preferred one of two finds.
fn keep_better(best: Found, cand: Vec<Vec<Tile>>, placed: usize) -> (r: Found)
    requires
        ordered(views(cand@)),
        placed == size(views(cand@)),
        best matches Some((p, n)) ==> n == size(views(p@)),
    ensures
        r is Some,
        r == best || r == Some((cand, placed)),
        best matches Some((p, _)) ==> (if better(views(cand@), views(p@)) {
            r == Some((cand, placed))
        } else {
            r == best
        }),
        best is None ==> r == Some((cand, placed)),
{
    match best {
        None => Some((cand, placed)),
        Some((p, n)) => {
            if improves(&cand, placed, &p, n) {
                Some((cand, placed))
            } else {
                Some((p, n))
            }
        },
    }
}

/// What was covered stays covered when the find is replaced by a
/// preferred one.
proof fn lemma_covered_keeps(
    rem: Seq<usize>,
    cap: Seq<usize>,
    g: Seq<Tile>,
    old_best: Found,
    new_best: Found,
)
    requires
        covered(rem, cap, g, old_best),
        new_best is Some,
        old_best matches Some((p, _)) ==> new_best == old_best || better(
            found_plan(new_best),
            views(p@),
        ),
    ensures
        covered(rem, cap, g, new_best),
{
    assert forall|q: Seq<Seq<Tile>>|
        holds(rem, g) && #[trigger] fits(q, without(rem, g), cap) implies settled(
        seq![g] + q,
        new_best,
    ) by {
        assert(settled(seq![g] + q, old_best));
        if new_best != old_best {
            lemma_better_than_before(seq![g] + q, found_plan(old_best), found_plan(new_best));
        }
    }
}

proof fn lemma_skipped_keeps(
    rem: Seq<usize>,
    cap: Seq<usize>,
    k: int,
    old_best: Found,
    new_best: Found,
)
    requires
        skipped(rem, cap, k, old_best),
        new_best is Some,
        old_best matches Some((p, _)) ==> new_best == old_best || better(
            found_plan(new_best),
            views(p@),
        ),
    ensures
        skipped(rem, cap, k, new_best),
{
    assert forall|q: Seq<Seq<Tile>>|
        #[trigger] fits(q, rem, cap) && used_at(q, k) < rem[k] implies settled(q, new_best) by {
        assert(settled(q, old_best));
        if new_best != old_best {
            lemma_better_than_before(q, found_plan(old_best), found_plan(new_best));
        }
    }
}

/// The table `cap`, with no entry above that of `rem`.
fn clamp(cap: &Vec<usize>, rem: &Vec<usize>) -> (r: Vec<usize>)
    requires
        rem@.len() == 53,
        cap@.len() == 53,
    ensures
        r@.len() == 53,
        forall|k: int|
            0 <= k < 53 ==> r@[k] == if cap@[k] < rem@[k] {
                cap@[k]
            } else {
                rem@[k]
            },
{
    let mut r: Vec<usize> = Vec::new();
    let mut k: usize = 0;
    while k < 53
        invariant
            rem@.len() == 53,
            cap@.len() == 53,
            k <= 53,
            r@.len() == k,
            forall|j: int|
                0 <= j < k ==> r@[j] == if cap@[j] < rem@[j] {
                    cap@[j]
                } else {
                    rem@[j]
                },
        decreases 53 - k,
    {
        r.push(if cap[k] < rem[k] {
            cap[k]
        } else {
            rem[k]
        });
        k += 1;
    }
    r
}

/// To allow more tiles of a kind to be left over than the table holds
/// allows nothing more.
proof fn lemma_clamp(q: Seq<Seq<Tile>>, rem: Seq<usize>, cap: Seq<usize>, need: Seq<usize>)
    requires
        rem.len() == 53,
        cap.len() == 53,
        need.len() == 53,
        forall|k: int|
            0 <= k < 53 ==> need[k] == if cap[k] < rem[k] {
                cap[k]
            } else {
                rem[k]
            },
    ensures
        fits(q, rem, cap) == fits(q, rem, need),
{
    if fits(q, rem, cap) {
        assert forall|k: int| 0 <= k < 53 implies #[trigger] used_at(q, k) <= rem[k] && rem[k]
            - used_at(q, k) <= need[k] by {
            assert(used_at(q, k) <= rem[k] && rem[k] - used_at(q, k) <= cap[k]);
        }
    }
    if fits(q, rem, need) {
        assert forall|k: int| 0 <= k < 53 implies #[trigger] used_at(q, k) <= rem[k] && rem[k]
            - used_at(q, k) <= cap[k] by {
            assert(used_at(q, k) <= rem[k] && rem[k] - used_at(q, k) <= need[k]);
        }
    }
}

/// The search proper: picks the first kind of which the table holds a
/// tile, tries to leave one such tile over and to lay it down in each
/// group that can hold it, and keeps the preferred outcome. What is found
/// is remembered in `memo`, and taken from there when the same tables come
/// again. A table on which a tile that must be laid down has room in no
/// group is given up at once.
fn explore(rem: &Vec<usize>, cap: &Vec<usize>, memo: &mut Memo) -> (found: Found)
    requires
        rem@.len() == 53,
        cap@.len() == 53,
        total(rem@) <= usize::MAX,
        old(memo).wf(),
    ensures
        playable(found, rem@, cap@),
        optimal(found, rem@, cap@),
        final(memo).wf(),
        final(memo).capacity() == old(memo).capacity(),
    decreases total(rem@),
{
    let pivot: Option<usize> = first_held(rem);
    proof {
        crate::table::lemma_total_nonnegative(rem@);
    }
    match pivot {
        None => {
            let p: Vec<Vec<Tile>> = Vec::new();
            let found: Found = Some((p, 0));
            proof {
                assert(views(p@) =~= Seq::<Seq<Tile>>::empty());
                assert forall|q: Seq<Seq<Tile>>| #[trigger] fits(q, rem@, cap@) implies settled(
                    q,
                    found,
                ) by {
                    if q.len() > 0 {
                        lemma_group_is_well_formed(q[0]);
                        lemma_tiles_held(q, rem@, cap@, 0, 0);
                    }
                    assert(q =~= Seq::<Seq<Tile>>::empty());
                }
            }
            found
        },
        Some(k) => {
            let need: Vec<usize> = clamp(cap, rem);
            match memo.lookup(rem, &need) {
                Some(known) => {
                    proof {
                        if known is Some {
                            lemma_clamp(found_plan(known), rem@, cap@, need@);
                        }
                        assert forall|q: Seq<Seq<Tile>>| #[trigger]
                            fits(q, rem@, cap@) implies settled(q, known) by {
                            lemma_clamp(q, rem@, cap@, need@);
                        }
                    }
                    return known;
                },
                None => {},
            }
            if stranded(rem, cap) {
                let nothing: Found = None;
                proof {
                    assert forall|q: Seq<Seq<Tile>>| !fits(q, rem@, cap@) by {
                        lemma_stuck(q, rem@, cap@);
                    }
                    assert forall|q: Seq<Seq<Tile>>| #[trigger]
                        fits(q, rem@, need@) implies settled(q, nothing) by {
                        lemma_clamp(q, rem@, cap@, need@);
                    }
                }
                memo.store(rem, &need, &nothing);
                return nothing;
            }
            let mut best: Found = None;
            if cap[k] > 0 {
                let rem2: Vec<usize> = one_less(rem, k);
                let cap2: Vec<usize> = one_less(cap, k);
                proof {
                    crate::table::lemma_total_nonnegative(rem2@);
                }
                best = explore(&rem2, &cap2, memo);
                proof {
                    if best is Some {
                        lemma_skip_sound(found_plan(best), rem@, cap@, k as int);
                    }
                }
            }
            proof {
                assert forall|q: Seq<Seq<Tile>>|
                    #[trigger] fits(q, rem@, cap@) && used_at(q, k as int)
                        < rem@[k as int] implies settled(q, best) by {
                    lemma_skip_complete(q, rem@, cap@, k as int);
                }
            }
            let mut cands: Vec<Vec<Tile>> = Vec::new();
            if k < 52 {
                cands = candidates(rem, k);
            }
            let mut i: usize = 0;
            while i < cands.len()
                invariant
                    rem@.len() == 53,
                    cap@.len() == 53,
                    total(rem@) <= usize::MAX,
                    k < 53,
                    rem@[k as int] > 0,
                    forall|j: int| 0 <= j < k ==> rem@[j] == 0,
                    i <= cands@.len(),
                    memo.wf(),
                    memo.capacity() == old(memo).capacity(),
                    sound(cands@, 0, Tile::at(k as int), rem@),
                    playable(best, rem@, cap@),
                    skipped(rem@, cap@, k as int, best),
                    forall|j: int|
                        0 <= j < i ==> covered(rem@, cap@, (#[trigger] cands@[j])@, best),
                decreases cands@.len() - i,
            {
                let g: &Vec<Tile> = &cands[i];
                let ghost old_best = best;
                proof {
                    lemma_group_is_well_formed(g@);
                }
                match take_out(rem, g) {
                    None => {},
                    Some(rem2) => {
                        proof {
                            crate::table::lemma_total_nonnegative(rem2@);
                        }
                        match explore(&rem2, cap, memo) {
                            None => {},
                            Some((s, n)) => {
                                let cand: Vec<Vec<Tile>> = prepend(g, &s);
                                proof {
                                    lemma_front_sound(g@, views(s@), rem@, cap@);
                                    lemma_uses_front(g@, views(s@));
                                    assert forall|a: int| 0 <= a < s@.len() implies !(
                                    #[trigger] views(s@)[a])[0].before(g@[0]) by {
                                        lemma_group_is_well_formed(views(s@)[a]);
                                        lemma_tiles_held(views(s@), rem2@, cap@, a, 0);
                                        lemma_at_index(k as int);
                                        lemma_index_orders(views(s@)[a][0], g@[0]);
                                    }
                                    lemma_ordered_front(g@, views(s@));
                                }
                                let placed: usize = g.len() + n;
                                best = keep_better(best, cand, placed);
                                proof {
                                    assert forall|q: Seq<Seq<Tile>>|
                                        holds(rem@, g@) && #[trigger] fits(
                                            q,
                                            without(rem@, g@),
                                            cap@,
                                        ) implies settled(seq![g@] + q, best) by {
                                        lemma_better_front(g@, q, views(s@));
                                        if old_best is Some && !better(
                                            views(cand@),
                                            found_plan(old_best),
                                        ) {
                                            lemma_no_better_chain(
                                                seq![g@] + q,
                                                views(cand@),
                                                found_plan(old_best),
                                            );
                                        }
                                    }
                                    lemma_skipped_keeps(rem@, cap@, k as int, old_best, best);
                                    assert forall|j: int| 0 <= j < i implies covered(
                                        rem@,
                                        cap@,
                                        (#[trigger] cands@[j])@,
                                        best,
                                    ) by {
                                        lemma_covered_keeps(
                                            rem@,
                                            cap@,
                                            cands@[j]@,
                                            old_best,
                                            best,
                                        );
                                    }
                                }
                            },
                        }
                    },
                }
                i += 1;
            }
            proof {
                assert forall|q: Seq<Seq<Tile>>| #[trigger] fits(q, rem@, cap@) implies settled(
                    q,
                    best,
                ) by {
                    lemma_pivot_cases(q, rem@, cap@, k as int, cands@, best);
                }
                if best is Some {
                    lemma_clamp(found_plan(best), rem@, cap@, need@);
                }
                assert forall|q: Seq<Seq<Tile>>| #[trigger] fits(q, rem@, need@) implies settled(
                    q,
                    best,
                ) by {
                    lemma_clamp(q, rem@, cap@, need@);
                }
            }
            memo.store(rem, &need, &best);
            best
        },
    }
}

/// The most slots that the memory of one search has.
pub const MEMORY: usize = 131072;

/// The number of slots that the memory of a search gets for a table of
/// `tiles` tiles: 128 for up to 12 tiles, 4096 for up to 24, `MEMORY` for
/// more.
pub open spec fn slots_for(tiles: int) -> usize {
    if tiles <= 12 {
        128
    } else if tiles <= 24 {
        4096
    } else {
        MEMORY
    }
}

/// The number of slots that the memory of a search gets: the more tiles
/// the table holds, the more slots, up to `MEMORY`.
fn memory_for(rem: &Vec<usize>) -> (slots: usize)
    ensures
        slots == slots_for(total(rem@)),
        slots <= MEMORY,
{
    let mut tiles: usize = 0;
    let mut k: usize = 0;
    proof {
        assert(rem@.take(0) =~= Seq::<usize>::empty());
    }
    while k < rem.len()
        invariant
            k <= rem@.len(),
            tiles <= 32,
            tiles == if total(rem@.take(k as int)) < 32 {
                total(rem@.take(k as int))
            } else {
                32
            },
        decreases rem@.len() - k,
    {
        proof {
            crate::table::lemma_total_nonnegative(rem@.take(k as int));
            assert(rem@.take(k + 1).drop_last() =~= rem@.take(k as int));
            assert(rem@.take(k + 1).last() == rem@[k as int]);
        }
        if rem[k] >= 32 - tiles {
            tiles = 32;
        } else {
            tiles = tiles + rem[k];
        }
        k += 1;
    }
    proof {
        assert(rem@.take(rem@.len() as int) =~= rem@);
    }
    if tiles <= 12 {
        128
    } else if tiles <= 24 {
        4096
    } else {
        MEMORY
    }
}

/// The plan that is preferred to every other plan that can be played from
/// the tiles of the table `rem` and leaves over, of each kind, no more
/// tiles than the table `cap` allows; `None` where no plan can be played.
pub fn search(rem: &Vec<usize>, cap: &Vec<usize>) -> (found: Found)
    requires
        rem@.len() == 53,
        cap@.len() == 53,
        total(rem@) <= usize::MAX,
    ensures
        playable(found, rem@, cap@),
        optimal(found, rem@, cap@),
{
    let mut memo: Memo = Memo::new(memory_for(rem));
    explore(rem, cap, &mut memo)
}

} // verus!
