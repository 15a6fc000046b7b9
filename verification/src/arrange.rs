//! The written form of a group: a run with each tile at the place of its
//! number and a joker at each place that is left, a set with its colours in
//! canonical order and its jokers last.

use crate::group::{
    GroupKind, canonical, classify, fills_run, is_group, is_run, kind_of, lemma_canonical,
    lemma_group_is_well_formed, lemma_same_tiles_same_group, lemma_two_places,
};
use crate::table::{copies, lay_out, lemma_count_copies, tally, tiles_of};
use crate::tile::{Colour, Tile, lemma_order_is_strict_total};
use vstd::multiset::*;
use vstd::prelude::*;
use vstd::seq_lib::*;

verus! {

/// The number at which a run is written to begin: its lowest number, or,
/// where its tiles would then pass 13, the number from which they end at 13.
pub open spec fn run_start(g: Seq<Tile>) -> int {
    let low = canonical(g)[0]->Normal_1 as int;
    if low + g.len() <= 14 {
        low
    } else {
        14 - g.len()
    }
}

/// The tile at a place of a run as it is written: the tile of the place's
/// number where the run holds it, a joker where it does not.
pub open spec fn run_slot(g: Seq<Tile>, i: int) -> Tile {
    let t = Tile::Normal(canonical(g)[0]->Normal_0, (run_start(g) + i) as u8);
    if g.contains(t) {
        t
    } else {
        Tile::Joker
    }
}

/// A group as it is written.
pub open spec fn arrangement(g: Seq<Tile>) -> Seq<Tile> {
    if is_run(g) {
        Seq::new(g.len(), |i: int| run_slot(g, i))
    } else {
        canonical(g)
    }
}

/// The first tile of a group in canonical order is a coloured tile of the
/// group, and no tile of the group stands before it.
pub proof fn lemma_least(g: Seq<Tile>)
    requires
        is_group(g),
    ensures
        canonical(g).len() == g.len(),
        canonical(g)[0] != Tile::Joker,
        canonical(g)[0].wf(),
        g.contains(canonical(g)[0]),
        forall|i: int| 0 <= i < g.len() ==> !(#[trigger] g[i]).before(canonical(g)[0]),
{
    let h = canonical(g);
    lemma_canonical(g);
    lemma_group_is_well_formed(h);
    g.to_multiset_ensures();
    h.to_multiset_ensures();
    let x = choose|x: int| 0 <= x < h.len() && h[x] != Tile::Joker;
    if x > 0 {
        assert(!h[x].before(h[0]));
    }
    assert(h.contains(h[0]));
    assert(g.to_multiset().count(h[0]) > 0);
    assert forall|i: int| 0 <= i < g.len() implies !(#[trigger] g[i]).before(h[0]) by {
        assert(g.contains(g[i]));
        assert(h.to_multiset().count(g[i]) > 0);
        let y = choose|y: int| 0 <= y < h.len() && h[y] == g[i];
        if y > 0 {
            assert(!h[y].before(h[0]));
        }
    }
}

/// The places of a run as it is written are numbers from 1 to 13, and
/// every coloured tile of the run has its place among them.
pub proof fn lemma_run_window(g: Seq<Tile>)
    requires
        is_run(g),
    ensures
        1 <= run_start(g),
        run_start(g) + g.len() - 1 <= 13,
        forall|i: int|
            0 <= i < g.len() ==> match #[trigger] g[i] {
                Tile::Joker => true,
                Tile::Normal(c, n) => c == canonical(g)[0]->Normal_0 && run_start(g) <= n
                    < run_start(g) + g.len(),
            },
{
    let h = canonical(g);
    lemma_least(g);
    let (c0, first) = choose|c0: Colour, first: int| fills_run(g, c0, first);
    let at = choose|at: int| 0 <= at < g.len() && g[at] == h[0];
    assert(g[at] == h[0]);
    assert forall|i: int| 0 <= i < g.len() implies match #[trigger] g[i] {
        Tile::Joker => true,
        Tile::Normal(c, n) => c == h[0]->Normal_0 && run_start(g) <= n < run_start(g)
            + g.len(),
    } by {
        assert(!g[i].before(h[0]));
    }
}

/// A group as it is written holds the tiles of the group, and is a group
/// of the same kind.
pub proof fn lemma_arrangement(g: Seq<Tile>)
    requires
        is_group(g),
    ensures
        arrangement(g).to_multiset() == g.to_multiset(),
        arrangement(g).len() == g.len(),
        is_group(arrangement(g)),
        kind_of(arrangement(g)) == kind_of(g),
{
    broadcast use group_multiset_axioms;

    lemma_canonical(g);
    lemma_least(g);
    if is_run(g) {
        let a = arrangement(g);
        let c = canonical(g)[0]->Normal_0;
        let start = run_start(g);
        lemma_run_window(g);
        lemma_group_is_well_formed(g);
        g.to_multiset_ensures();
        a.to_multiset_ensures();
        let mg = g.to_multiset();
        let ma = a.to_multiset();
        assert forall|t: Tile| t != Tile::Joker implies ma.count(t) == mg.count(t) by {
            if mg.count(t) >= 2 {
                let at = lemma_two_places(g, t);
            }
            if ma.count(t) >= 2 {
                let at = lemma_two_places(a, t);
                assert(a[at.0] == run_slot(g, at.0));
                assert(a[at.1] == run_slot(g, at.1));
            }
            if g.contains(t) {
                let i = choose|i: int| 0 <= i < g.len() && g[i] == t;
                assert(g[i] == t);
                let place = t->Normal_1 - start;
                assert(a[place] == run_slot(g, place));
                assert(a.contains(t));
            }
            if a.contains(t) {
                let i = choose|i: int| 0 <= i < a.len() && a[i] == t;
                assert(a[i] == run_slot(g, i));
            }
        }
        let ja = ma.count(Tile::Joker);
        let jg = mg.count(Tile::Joker);
        let spare_a = copies(Tile::Joker, ja).to_multiset();
        let spare_g = copies(Tile::Joker, jg).to_multiset();
        copies(Tile::Joker, ja).to_multiset_ensures();
        copies(Tile::Joker, jg).to_multiset_ensures();
        lemma_count_copies(Tile::Joker, ja, 52);
        lemma_count_copies(Tile::Joker, jg, 52);
        assert forall|t: Tile| t != Tile::Joker implies spare_a.count(t) == 0 && spare_g.count(
            t,
        ) == 0 by {
            if copies(Tile::Joker, ja).contains(t) {
                let i = choose|i: int| 0 <= i < ja && copies(Tile::Joker, ja)[i] == t;
            }
            if copies(Tile::Joker, jg).contains(t) {
                let i = choose|i: int| 0 <= i < jg && copies(Tile::Joker, jg)[i] == t;
            }
        }
        assert(spare_a.subset_of(ma));
        assert(spare_g.subset_of(mg));
        assert(ma.sub(spare_a) =~= mg.sub(spare_g));
        assert(ma.sub(spare_a).len() == ma.len() - spare_a.len());
        assert(mg.sub(spare_g).len() == mg.len() - spare_g.len());
        assert(ja == jg);
        assert(ma =~= mg);
        lemma_same_tiles_same_group(g, a);
    }
}

/// Whether a tile stands in a sequence.
fn has(g: &[Tile], t: Tile) -> (r: bool)
    ensures
        r == g@.contains(t),
{
    let mut i: usize = 0;
    while i < g.len()
        invariant
            i <= g@.len(),
            forall|j: int| 0 <= j < i ==> g@[j] != t,
        decreases g@.len() - i,
    {
        if g[i] == t {
            return true;
        }
        i += 1;
    }
    false
}

/// The tile of a sequence before which no other stands.
fn least(g: &[Tile]) -> (t: Tile)
    requires
        g@.len() > 0,
    ensures
        g@.contains(t),
        forall|i: int| 0 <= i < g@.len() ==> !(#[trigger] g@[i]).before(t),
{
    let mut t: Tile = g[0];
    let mut i: usize = 1;
    while i < g.len()
        invariant
            1 <= i <= g@.len(),
            g@.contains(t),
            forall|j: int| 0 <= j < i ==> !(#[trigger] g@[j]).before(t),
        decreases g@.len() - i,
    {
        if g[i].precedes(&t) {
            proof {
                assert forall|j: int| 0 <= j < i + 1 implies !(#[trigger] g@[j]).before(
                    g@[i as int],
                ) by {
                    lemma_order_is_strict_total(g@[j], g@[i as int], t);
                }
            }
            t = g[i];
        }
        i += 1;
    }
    t
}

/// Writes a group: a run with each tile at the place of its number and a
/// joker at each place that is left, a set with its colours in canonical
/// order and its jokers last. What is no group has no written form.
pub fn arrange(g: &[Tile]) -> (r: Option<Vec<Tile>>)
    ensures
        match r {
            Some(v) => is_group(g@) && v@ == arrangement(g@),
            None => !is_group(g@),
        },
{
    match classify(g) {
        GroupKind::Invalid => None,
        GroupKind::Run => {
            let first: Tile = least(g);
            proof {
                lemma_least(g@);
                lemma_run_window(g@);
                let h = canonical(g@);
                let at = choose|at: int| 0 <= at < g@.len() && g@[at] == h[0];
                let to = choose|to: int| 0 <= to < g@.len() && g@[to] == first;
                assert(!g@[at].before(first) && !g@[to].before(h[0]));
                lemma_order_is_strict_total(first, h[0], first);
            }
            match first {
                Tile::Joker => None,
                Tile::Normal(c, low) => {
                    let n: usize = g.len();
                    let start: usize = if low as usize + n <= 14 {
                        low as usize
                    } else {
                        14 - n
                    };
                    let mut v: Vec<Tile> = Vec::new();
                    let mut i: usize = 0;
                    while i < n
                        invariant
                            n == g@.len(),
                            i <= n,
                            is_run(g@),
                            start == run_start(g@),
                            1 <= start,
                            start + n <= 14,
                            c == canonical(g@)[0]->Normal_0,
                            v@.len() == i,
                            forall|x: int| 0 <= x < i ==> v@[x] == run_slot(g@, x),
                        decreases n - i,
                    {
                        let t: Tile = Tile::Normal(c, (start + i) as u8);
                        if has(g, t) {
                            v.push(t);
                        } else {
                            v.push(Tile::Joker);
                        }
                        i += 1;
                    }
                    proof {
                        assert(v@ =~= arrangement(g@));
                    }
                    Some(v)
                },
            }
        },
        GroupKind::NumberSet => {
            proof {
                lemma_group_is_well_formed(g@);
            }
            let t: Vec<usize> = tally(g);
            let v: Vec<Tile> = tiles_of(&lay_out(&t));
            proof {
                assert(t@ =~= Seq::new(53, |k: int| g@.to_multiset().count(Tile::at(k)) as usize))
                    by {
                    assert forall|k: int| 0 <= k < 53 implies t@[k] == g@.to_multiset().count(
                        Tile::at(k),
                    ) as usize by {
                        assert(t@[k] == crate::table::count_at(g@, k));
                    }
                }
            }
            Some(v)
        },
    }
}

} // verus!
