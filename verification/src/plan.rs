//! Plans: sequences of groups laid on the board, what they use of the
//! tiles at hand, and the order in which one plan is preferred to another.

use crate::group::is_group;
use crate::table::{ascending, count_at};
use crate::tile::{Tile, lemma_order_is_strict_total};
use vstd::multiset::*;
use vstd::prelude::*;

verus! {

/// The tiles of all the groups of a plan.
pub open spec fn uses(p: Seq<Seq<Tile>>) -> Multiset<Tile>
    decreases p.len(),
{
    if p.len() == 0 {
        Multiset::empty()
    } else {
        p[0].to_multiset().add(uses(p.drop_first()))
    }
}

/// How many tiles of the kind at position `k` a plan uses.
pub open spec fn used_at(p: Seq<Seq<Tile>>, k: int) -> nat {
    uses(p).count(Tile::at(k))
}

/// The number of tiles that a plan lays down.
pub open spec fn size(p: Seq<Seq<Tile>>) -> nat
    decreases p.len(),
{
    if p.len() == 0 {
        0
    } else {
        p[0].len() + size(p.drop_first())
    }
}

/// Every group of the plan is a legal group.
pub open spec fn all_groups(p: Seq<Seq<Tile>>) -> bool {
    forall|i: int| 0 <= i < p.len() ==> is_group(#[trigger] p[i])
}

/// The plan can be played from the tiles of the table `rem`: its groups
/// are legal, it uses no more tiles of any kind than `rem` holds, and of
/// each kind it leaves over no more than `cap` allows.
pub open spec fn fits(p: Seq<Seq<Tile>>, rem: Seq<usize>, cap: Seq<usize>) -> bool {
    &&& all_groups(p)
    &&& forall|k: int|
        0 <= k < 53 ==> #[trigger] used_at(p, k) <= rem[k] && rem[k] - used_at(p, k) <= cap[k]
}

/// Lexicographic order on groups, tile by tile in the canonical order; a
/// proper prefix comes first.
pub open spec fn group_lt(a: Seq<Tile>, b: Seq<Tile>) -> bool
    decreases a.len(),
{
    if b.len() == 0 {
        false
    } else if a.len() == 0 {
        true
    } else if a[0] == b[0] {
        group_lt(a.drop_first(), b.drop_first())
    } else {
        a[0].before(b[0])
    }
}

/// Lexicographic order on plans, group by group; a proper prefix comes
/// first.
pub open spec fn plan_lt(p: Seq<Seq<Tile>>, q: Seq<Seq<Tile>>) -> bool
    decreases p.len(),
{
    if q.len() == 0 {
        false
    } else if p.len() == 0 {
        true
    } else if p[0] == q[0] {
        plan_lt(p.drop_first(), q.drop_first())
    } else {
        group_lt(p[0], q[0])
    }
}

/// The plan is written in canonical form: the tiles of each group stand in
/// canonical order, and the groups stand in the order of their first tiles.
pub open spec fn ordered(p: Seq<Seq<Tile>>) -> bool {
    &&& forall|i: int| 0 <= i < p.len() ==> (#[trigger] p[i]).len() > 0 && ascending(p[i])
    &&& forall|i: int, j: int|
        0 <= i < j < p.len() ==> !(#[trigger] p[j])[0].before((#[trigger] p[i])[0])
}

/// The plan `q` is preferred to the plan `p`: it lays down more tiles; or
/// as many, in more groups; or as many in as many groups, and it is written
/// in canonical form and comes first in the lexicographic order.
pub open spec fn better(q: Seq<Seq<Tile>>, p: Seq<Seq<Tile>>) -> bool {
    ||| size(q) > size(p)
    ||| size(q) == size(p) && q.len() > p.len()
    ||| size(q) == size(p) && q.len() == p.len() && ordered(q) && plan_lt(q, p)
}

/// A plan with one more group in front uses that group's tiles besides.
pub proof fn lemma_uses_front(g: Seq<Tile>, p: Seq<Seq<Tile>>)
    ensures
        uses(seq![g] + p) =~= g.to_multiset().add(uses(p)),
        size(seq![g] + p) == g.len() + size(p),
        forall|k: int| used_at(seq![g] + p, k) == count_at(g, k) + used_at(p, k),
{
    broadcast use group_multiset_axioms;

    assert((seq![g] + p).drop_first() =~= p);
}

/// A plan uses the tiles of any one of its groups and those of the others.
pub proof fn lemma_uses_remove(p: Seq<Seq<Tile>>, i: int)
    requires
        0 <= i < p.len(),
    ensures
        uses(p) =~= p[i].to_multiset().add(uses(p.remove(i))),
        size(p) == p[i].len() + size(p.remove(i)),
        forall|k: int| used_at(p, k) == count_at(p[i], k) + used_at(p.remove(i), k),
    decreases p.len(),
{
    broadcast use group_multiset_axioms;

    if i == 0 {
        assert(p.remove(0) =~= p.drop_first());
    } else {
        lemma_uses_remove(p.drop_first(), i - 1);
        assert(p.remove(i).drop_first() =~= p.drop_first().remove(i - 1));
        assert(p.remove(i)[0] == p[0]);
    }
}

/// A tile that a plan uses stands in one of its groups.
pub proof fn lemma_uses_member(p: Seq<Seq<Tile>>, t: Tile) -> (i: int)
    requires
        uses(p).count(t) > 0,
    ensures
        0 <= i < p.len(),
        p[i].to_multiset().count(t) > 0,
    decreases p.len(),
{
    broadcast use group_multiset_axioms;

    if p.len() == 0 {
        0
    } else if p[0].to_multiset().count(t) > 0 {
        0
    } else {
        lemma_uses_member(p.drop_first(), t) + 1
    }
}

/// The order on groups is a strict total order.
pub proof fn lemma_group_order(a: Seq<Tile>, b: Seq<Tile>, c: Seq<Tile>)
    ensures
        !group_lt(a, a),
        group_lt(a, b) && group_lt(b, c) ==> group_lt(a, c),
        a == b || group_lt(a, b) || group_lt(b, a),
    decreases a.len(), b.len(),
{
    if a.len() > 0 {
        lemma_group_order(a.drop_first(), a.drop_first(), a.drop_first());
    }
    if a.len() > 0 && b.len() > 0 {
        lemma_order_is_strict_total(a[0], b[0], a[0]);
        lemma_group_order(a.drop_first(), b.drop_first(), b.drop_first());
        if a[0] == b[0] && a.drop_first() == b.drop_first() {
            assert(a =~= seq![a[0]] + a.drop_first());
            assert(b =~= seq![b[0]] + b.drop_first());
        }
        if c.len() > 0 {
            lemma_order_is_strict_total(a[0], b[0], c[0]);
            lemma_group_order(a.drop_first(), b.drop_first(), c.drop_first());
        }
    } else if a.len() == 0 && b.len() == 0 {
        assert(a =~= b);
    }
}

/// The order on plans is a strict total order.
pub proof fn lemma_plan_order(p: Seq<Seq<Tile>>, q: Seq<Seq<Tile>>, r: Seq<Seq<Tile>>)
    ensures
        !plan_lt(p, p),
        plan_lt(p, q) && plan_lt(q, r) ==> plan_lt(p, r),
        p == q || plan_lt(p, q) || plan_lt(q, p),
    decreases p.len(), q.len(),
{
    if p.len() > 0 {
        lemma_plan_order(p.drop_first(), p.drop_first(), p.drop_first());
    }
    if p.len() > 0 && q.len() > 0 {
        lemma_group_order(p[0], q[0], p[0]);
        lemma_plan_order(p.drop_first(), q.drop_first(), q.drop_first());
        if p[0] == q[0] && p.drop_first() == q.drop_first() {
            assert(p =~= seq![p[0]] + p.drop_first());
            assert(q =~= seq![q[0]] + q.drop_first());
        }
        if r.len() > 0 {
            lemma_group_order(p[0], q[0], r[0]);
            lemma_group_order(q[0], r[0], q[0]);
            lemma_group_order(p[0], r[0], p[0]);
            lemma_plan_order(p.drop_first(), q.drop_first(), r.drop_first());
        }
    } else if p.len() == 0 && q.len() == 0 {
        assert(p =~= q);
    }
}

/// A plan that is preferred to the better of two plans is preferred to the
/// other: what was not preferred to the old plan is not preferred to a
/// plan that was.
pub proof fn lemma_better_than_before(
    x: Seq<Seq<Tile>>,
    old_best: Seq<Seq<Tile>>,
    new_best: Seq<Seq<Tile>>,
)
    requires
        !better(x, old_best),
        better(new_best, old_best),
    ensures
        !better(x, new_best),
{
    lemma_plan_order(x, new_best, old_best);
}

/// What is not preferred to a plan in canonical form is not preferred to
/// any plan that this one is not preferred to.
pub proof fn lemma_no_better_chain(x: Seq<Seq<Tile>>, c: Seq<Seq<Tile>>, o: Seq<Seq<Tile>>)
    requires
        ordered(c),
        !better(x, c),
        !better(c, o),
    ensures
        !better(x, o),
{
    lemma_plan_order(x, c, o);
    lemma_plan_order(c, x, o);
}

/// Two plans that begin with the same group compare as their remainders
/// do.
pub proof fn lemma_better_front(g: Seq<Tile>, q: Seq<Seq<Tile>>, p: Seq<Seq<Tile>>)
    requires
        !better(q, p),
    ensures
        !better(seq![g] + q, seq![g] + p),
{
    lemma_uses_front(g, q);
    lemma_uses_front(g, p);
    let gq = seq![g] + q;
    let gp = seq![g] + p;
    assert(gq.drop_first() =~= q);
    assert(gp.drop_first() =~= p);
    if ordered(gq) {
        assert forall|i: int| 0 <= i < q.len() implies (#[trigger] q[i]).len() > 0 && ascending(
            q[i],
        ) by {
            assert(q[i] == gq[i + 1]);
        }
        assert forall|i: int, j: int| 0 <= i < j < q.len() implies !(#[trigger] q[j])[0].before(
            (#[trigger] q[i])[0],
        ) by {
            assert(q[i] == gq[i + 1]);
            assert(q[j] == gq[j + 1]);
        }
        assert(ordered(q));
    }
}

} // verus!
