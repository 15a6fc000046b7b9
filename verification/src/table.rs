//! Frequency tables: how many tiles of each of the 53 kinds a collection
//! holds. The search works on tables, so that equal tiles are interchangeable.

use crate::tile::Tile;
use std::collections::VecDeque;
use vstd::multiset::*;
use vstd::prelude::*;
use vstd::seq_lib::*;

verus! {

/// The number of kinds of tile: 4 colours of 13 numbers, and the joker.
pub const KINDS: usize = 53;

/// The position of the joker among the kinds.
pub const JOKER: usize = 52;

/// Every tile of `s` is well formed.
pub open spec fn well_formed(s: Seq<Tile>) -> bool {
    forall|i: int| 0 <= i < s.len() ==> (#[trigger] s[i]).wf()
}

/// How many tiles of the kind at position `k` the sequence `s` holds.
pub open spec fn count_at(s: Seq<Tile>, k: int) -> nat {
    s.to_multiset().count(Tile::at(k))
}

/// `t` is the frequency table of `s`.
pub open spec fn tallies(t: Seq<usize>, s: Seq<Tile>) -> bool {
    t.len() == 53 && forall|k: int| 0 <= k < 53 ==> t[k] == count_at(s, k)
}

/// The sum of a table's entries.
pub open spec fn total(t: Seq<usize>) -> int
    decreases t.len(),
{
    if t.len() == 0 {
        0
    } else {
        total(t.drop_last()) + t.last()
    }
}

/// `n` copies of the tile `x`.
pub open spec fn copies(x: Tile, n: nat) -> Seq<Tile> {
    Seq::new(n, |i: int| x)
}

/// The tiles that the first `k` entries of a table stand for, in canonical
/// order.
pub open spec fn laid_out(t: Seq<usize>, k: int) -> Seq<Tile>
    decreases k,
{
    if k <= 0 {
        Seq::empty()
    } else {
        laid_out(t, k - 1) + copies(Tile::at(k - 1), t[k - 1] as nat)
    }
}

/// The tiles of a multiset in canonical order.
pub open spec fn arranged(m: Multiset<Tile>) -> Seq<Tile> {
    laid_out(Seq::new(53, |k: int| m.count(Tile::at(k)) as usize), 53)
}

/// Every tile of the multiset is well formed.
pub open spec fn well_formed_bag(m: Multiset<Tile>) -> bool {
    forall|x: Tile| m.count(x) > 0 ==> x.wf()
}

/// The tiles of `s` stand in canonical order.
pub open spec fn ascending(s: Seq<Tile>) -> bool {
    forall|i: int, j: int| 0 <= i < j < s.len() ==> !s[j].before(s[i])
}

/// The table `t` holds the tiles of `g`, each as often as `g` does.
pub open spec fn holds(t: Seq<usize>, g: Seq<Tile>) -> bool {
    forall|k: int| 0 <= k < 53 ==> count_at(g, k) <= t[k]
}

/// The table `t` without the tiles of `g`.
pub open spec fn without(t: Seq<usize>, g: Seq<Tile>) -> Seq<usize> {
    Seq::new(53, |k: int| (t[k] - count_at(g, k)) as usize)
}

/// A changed entry changes the sum by as much.
pub proof fn lemma_total_update(t: Seq<usize>, k: int, v: usize)
    requires
        0 <= k < t.len(),
    ensures
        total(t.update(k, v)) == total(t) - t[k] + v,
    decreases t.len(),
{
    if k == t.len() - 1 {
        assert(t.update(k, v).drop_last() =~= t.drop_last());
    } else {
        assert(t.update(k, v).drop_last() =~= t.drop_last().update(k, v));
        lemma_total_update(t.drop_last(), k, v);
    }
}

/// No entry is greater than the sum.
pub proof fn lemma_total_bounds(t: Seq<usize>, k: int)
    requires
        0 <= k < t.len(),
    ensures
        0 <= t[k] <= total(t),
    decreases t.len(),
{
    lemma_total_nonnegative(t.drop_last());
    if k < t.len() - 1 {
        lemma_total_bounds(t.drop_last(), k);
    }
}

/// The sum is not negative.
pub proof fn lemma_total_nonnegative(t: Seq<usize>)
    ensures
        0 <= total(t),
    decreases t.len(),
{
    if t.len() > 0 {
        lemma_total_nonnegative(t.drop_last());
    }
}

/// A table of zeros sums to zero.
pub proof fn lemma_total_zero(t: Seq<usize>)
    requires
        forall|k: int| 0 <= k < t.len() ==> t[k] == 0,
    ensures
        total(t) == 0,
    decreases t.len(),
{
    if t.len() > 0 {
        lemma_total_zero(t.drop_last());
    }
}

/// One more tile at the end counts once more for its own kind and leaves
/// the other counts as they were.
pub proof fn lemma_count_push(s: Seq<Tile>, x: Tile, k: int)
    requires
        x.wf(),
        0 <= k < 53,
    ensures
        count_at(s.push(x), k) == count_at(s, k) + if x.index() == k {
            1nat
        } else {
            0nat
        },
{
    broadcast use group_to_multiset_ensures;
    broadcast use group_multiset_axioms;

    crate::tile::lemma_at_index(k);
    crate::tile::lemma_index_orders(x, Tile::at(k));
    assert(s.push(x).to_multiset() =~= s.to_multiset().insert(x));
}

/// The counts of a concatenation are the sums of the counts.
pub proof fn lemma_count_concat(a: Seq<Tile>, b: Seq<Tile>, k: int)
    ensures
        count_at(a + b, k) == count_at(a, k) + count_at(b, k),
{
    broadcast use group_multiset_axioms;

    lemma_multiset_commutative(a, b);
}

/// A sequence of copies of one tile counts for that tile's kind alone.
pub proof fn lemma_count_copies(x: Tile, n: nat, k: int)
    requires
        x.wf(),
        0 <= k < 53,
    ensures
        count_at(copies(x, n), k) == if x.index() == k {
            n
        } else {
            0nat
        },
    decreases n,
{
    broadcast use group_to_multiset_ensures;
    broadcast use group_multiset_axioms;

    if n == 0 {
        assert(copies(x, n) =~= Seq::<Tile>::empty());
        assert(copies(x, n).to_multiset().len() == 0);
    } else {
        lemma_count_copies(x, (n - 1) as nat, k);
        assert(copies(x, n) =~= copies(x, (n - 1) as nat).push(x));
        lemma_count_push(copies(x, (n - 1) as nat), x, k);
    }
}

/// What a table lays out holds, of each kind laid out so far, as many tiles
/// as the table says, in canonical order, and nothing else.
pub proof fn lemma_laid_out(t: Seq<usize>, k: int)
    requires
        t.len() == 53,
        0 <= k <= 53,
    ensures
        forall|j: int|
            0 <= j < 53 ==> #[trigger] count_at(laid_out(t, k), j) == if j < k {
                t[j] as nat
            } else {
                0nat
            },
        forall|i: int|
            0 <= i < laid_out(t, k).len() ==> (#[trigger] laid_out(t, k)[i]).wf() && laid_out(
                t,
                k,
            )[i].index() < k,
        ascending(laid_out(t, k)),
        laid_out(t, k).len() == total(t.take(k)),
    decreases k,
{
    broadcast use group_to_multiset_ensures;
    broadcast use group_multiset_axioms;

    if k <= 0 {
        assert(laid_out(t, k).to_multiset().len() == 0);
        assert(t.take(0) =~= Seq::<usize>::empty());
    } else {
        lemma_laid_out(t, k - 1);
        let a = laid_out(t, k - 1);
        let x = Tile::at(k - 1);
        let b = copies(x, t[k - 1] as nat);
        crate::tile::lemma_at_index(k - 1);
        assert forall|j: int| 0 <= j < 53 implies #[trigger] count_at(laid_out(t, k), j) == if j
            < k {
            t[j] as nat
        } else {
            0nat
        } by {
            lemma_count_concat(a, b, j);
            lemma_count_copies(x, t[k - 1] as nat, j);
        }
        assert forall|i: int, j: int| 0 <= i < j < (a + b).len() implies !(a + b)[j].before(
            (a + b)[i],
        ) by {
            crate::tile::lemma_index_orders((a + b)[i], (a + b)[j]);
            crate::tile::lemma_index_orders((a + b)[j], (a + b)[i]);
        }
        assert(t.take(k).drop_last() =~= t.take(k - 1));
    }
}

/// A multiset of well-formed tiles, arranged in canonical order, is a
/// sequence in canonical order of the same tiles.
pub proof fn lemma_arranged(m: Multiset<Tile>)
    requires
        well_formed_bag(m),
        m.len() <= usize::MAX,
    ensures
        arranged(m).to_multiset() == m,
        ascending(arranged(m)),
        well_formed(arranged(m)),
        arranged(m).len() == m.len(),
{
    broadcast use group_to_multiset_ensures;
    broadcast use group_multiset_axioms;

    let t = Seq::new(53, |k: int| m.count(Tile::at(k)) as usize);
    let c = arranged(m);
    lemma_laid_out(t, 53);
    assert forall|x: Tile| c.to_multiset().count(x) == m.count(x) by {
        if x.wf() {
            crate::tile::lemma_index_orders(x, x);
            let k = x.index();
            assert(count_at(c, k) == t[k]);
            assert(m.count(x) <= m.len());
        } else {
            if c.contains(x) {
                let i = choose|i: int| 0 <= i < c.len() && c[i] == x;
                assert(c[i].wf());
            }
        }
    }
    assert(c.to_multiset() =~= m);
    c.to_multiset_ensures();
}

/// The tiles of a collection, in a row.
pub fn tiles_of(v: &VecDeque<Tile>) -> (r: Vec<Tile>)
    ensures
        r@ == v@,
{
    let mut r: Vec<Tile> = Vec::new();
    let mut i: usize = 0;
    while i < v.len()
        invariant
            i <= v@.len(),
            r@ == v@.take(i as int),
        decreases v@.len() - i,
    {
        r.push(v[i]);
        i += 1;
        proof {
            assert(v@.take(i as int) =~= v@.take(i - 1).push(v@[i - 1]));
        }
    }
    proof {
        assert(v@.take(v@.len() as int) =~= v@);
    }
    r
}

/// The frequency table of a collection of well-formed tiles.
pub fn tally(tiles: &[Tile]) -> (t: Vec<usize>)
    requires
        well_formed(tiles@),
    ensures
        tallies(t@, tiles@),
        total(t@) == tiles@.len(),
{
    let mut t: Vec<usize> = vec![0usize; 53];
    let n: usize = tiles.len();
    let mut i: usize = 0;
    proof {
        broadcast use group_to_multiset_ensures;
        broadcast use group_multiset_axioms;

        assert(tiles@.take(0) =~= Seq::<Tile>::empty());
        assert(tiles@.take(0).to_multiset().len() == 0);
        lemma_total_zero(t@);
    }
    while i < n
        invariant
            n == tiles@.len(),
            i <= n,
            well_formed(tiles@),
            tallies(t@, tiles@.take(i as int)),
            total(t@) == i,
        decreases n - i,
    {
        let k: usize = tiles[i].kind();
        proof {
            lemma_total_bounds(t@, k as int);
            lemma_total_update(t@, k as int, (t@[k as int] + 1) as usize);
            assert(tiles@.take(i + 1) =~= tiles@.take(i as int).push(tiles@[i as int]));
            assert forall|j: int| 0 <= j < 53 implies count_at(tiles@.take(i + 1), j) == count_at(
                tiles@.take(i as int),
                j,
            ) + if k == j {
                1nat
            } else {
                0nat
            } by {
                lemma_count_push(tiles@.take(i as int), tiles@[i as int], j);
            }
        }
        let c: usize = t[k];
        t.set(k, c + 1);
        i += 1;
    }
    proof {
        assert(tiles@.take(n as int) =~= tiles@);
    }
    t
}

/// The tiles that a table stands for, in canonical order.
pub fn lay_out(t: &Vec<usize>) -> (tiles: VecDeque<Tile>)
    requires
        t@.len() == 53,
    ensures
        tiles@ == laid_out(t@, 53),
        tallies(t@, tiles@),
        well_formed(tiles@),
        ascending(tiles@),
        tiles@.len() == total(t@),
{
    let mut tiles: VecDeque<Tile> = VecDeque::new();
    let mut k: usize = 0;
    while k < 53
        invariant
            t@.len() == 53,
            k <= 53,
            tiles@ == laid_out(t@, k as int),
        decreases 53 - k,
    {
        let x: Tile = Tile::of_kind(k);
        let n: usize = t[k];
        let mut c: usize = 0;
        while c < n
            invariant
                c <= n,
                n == t@[k as int],
                k < 53,
                x == Tile::at(k as int),
                tiles@ == laid_out(t@, k as int) + copies(x, c as nat),
            decreases n - c,
        {
            tiles.push_back(x);
            c += 1;
            proof {
                assert(copies(x, c as nat) =~= copies(x, (c - 1) as nat).push(x));
                assert(tiles@ =~= laid_out(t@, k as int) + copies(x, c as nat));
            }
        }
        k += 1;
    }
    proof {
        lemma_laid_out(t@, 53);
        assert(t@.take(53) =~= t@);
    }
    tiles
}

/// A copy of a table.
pub fn copy_table(t: &Vec<usize>) -> (r: Vec<usize>)
    ensures
        r@ == t@,
{
    let mut r: Vec<usize> = Vec::new();
    let mut i: usize = 0;
    while i < t.len()
        invariant
            i <= t@.len(),
            r@ == t@.take(i as int),
        decreases t@.len() - i,
    {
        r.push(t[i]);
        i += 1;
        proof {
            assert(t@.take(i as int) =~= t@.take(i - 1).push(t@[i - 1]));
        }
    }
    proof {
        assert(t@.take(t@.len() as int) =~= t@);
    }
    r
}

/// The table with one tile less of the kind at position `k`.
pub fn one_less(t: &Vec<usize>, k: usize) -> (r: Vec<usize>)
    requires
        k < t@.len(),
        t@[k as int] > 0,
    ensures
        r@ == t@.update(k as int, (t@[k as int] - 1) as usize),
        total(r@) == total(t@) - 1,
{
    let mut r: Vec<usize> = copy_table(t);
    let c: usize = r[k];
    r.set(k, c - 1);
    proof {
        lemma_total_update(t@, k as int, (c - 1) as usize);
    }
    r
}

/// The first kind of which the table holds a tile, if it holds any.
pub fn first_held(t: &Vec<usize>) -> (r: Option<usize>)
    ensures
        match r {
            Some(k) => k < t@.len() && t@[k as int] > 0 && forall|j: int|
                0 <= j < k ==> t@[j] == 0,
            None => forall|j: int| 0 <= j < t@.len() ==> t@[j] == 0,
        },
{
    let mut k: usize = 0;
    while k < t.len()
        invariant
            k <= t@.len(),
            forall|j: int| 0 <= j < k ==> t@[j] == 0,
        decreases t@.len() - k,
    {
        if t[k] > 0 {
            return Some(k);
        }
        k += 1;
    }
    None
}

/// The table without the tiles of `g`, if it holds them all.
pub fn take_out(t: &Vec<usize>, g: &Vec<Tile>) -> (r: Option<Vec<usize>>)
    requires
        t@.len() == 53,
        well_formed(g@),
    ensures
        match r {
            Some(u) => holds(t@, g@) && u@ == without(t@, g@) && total(u@) == total(t@)
                - g@.len(),
            None => !holds(t@, g@),
        },
{
    let mut u: Vec<usize> = copy_table(t);
    let n: usize = g.len();
    let mut i: usize = 0;
    proof {
        broadcast use group_to_multiset_ensures;
        broadcast use group_multiset_axioms;

        assert(g@.take(0) =~= Seq::<Tile>::empty());
        assert(g@.take(0).to_multiset().len() == 0);
    }
    while i < n
        invariant
            n == g@.len(),
            i <= n,
            t@.len() == 53,
            u@.len() == 53,
            well_formed(g@),
            forall|k: int| 0 <= k < 53 ==> u@[k] + count_at(g@.take(i as int), k) == t@[k],
            total(u@) == total(t@) - i,
        decreases n - i,
    {
        let k: usize = g[i].kind();
        proof {
            assert(g@.take(i + 1) =~= g@.take(i as int).push(g@[i as int]));
            assert forall|j: int| 0 <= j < 53 implies count_at(g@.take(i + 1), j) == count_at(
                g@.take(i as int),
                j,
            ) + if k == j {
                1nat
            } else {
                0nat
            } by {
                lemma_count_push(g@.take(i as int), g@[i as int], j);
            }
        }
        let c: usize = u[k];
        if c == 0 {
            proof {
                assert(g@ =~= g@.take(i + 1) + g@.skip(i + 1));
                lemma_count_concat(g@.take(i + 1), g@.skip(i + 1), k as int);
                assert(count_at(g@, k as int) > t@[k as int]);
            }
            return None;
        }
        proof {
            lemma_total_update(u@, k as int, (c - 1) as usize);
        }
        u.set(k, c - 1);
        i += 1;
    }
    proof {
        assert(g@.take(n as int) =~= g@);
        assert(u@ =~= without(t@, g@));
    }
    Some(u)
}

} // verus!
