//! Groups of tiles: what makes a run, what makes a set, and the validator
//! that tells them apart.

use crate::table::{arranged, ascending, lemma_arranged};
use crate::tile::{Colour, Tile};
use vstd::multiset::*;
use vstd::prelude::*;
use vstd::seq_lib::*;

verus! {

/// What a sequence of tiles is, as a group.
#[derive(Debug, PartialEq, Eq, Copy, Clone, Structural)]
pub enum GroupKind {
    /// Consecutive numbers of one colour.
    Run,
    /// One number in different colours.
    NumberSet,
    /// No legal group.
    Invalid,
}

/// No coloured tile occurs twice in `g`.
pub open spec fn distinct_normals(g: Seq<Tile>) -> bool {
    forall|i: int, j: int| 0 <= i < j < g.len() && g[i] != Tile::Joker ==> g[i] != g[j]
}

/// Some tile of `g` is not a joker.
pub open spec fn has_normal(g: Seq<Tile>) -> bool {
    exists|i: int| 0 <= i < g.len() && g[i] != Tile::Joker
}

/// The tiles of `g`, in whatever order they stand, fill the consecutive
/// numbers `first`, `first + 1`, ... of colour `c`, one tile for each number:
/// every coloured tile has colour `c` and a number of its own among them, and
/// the jokers stand for the numbers that are left.
pub open spec fn fills_run(g: Seq<Tile>, c: Colour, first: int) -> bool {
    &&& 1 <= first
    &&& first + g.len() - 1 <= 13
    &&& has_normal(g)
    &&& distinct_normals(g)
    &&& forall|i: int|
        0 <= i < g.len() ==> match #[trigger] g[i] {
            Tile::Joker => true,
            Tile::Normal(col, n) => col == c && first <= n < first + g.len(),
        }
}

/// The tiles of `g` are coloured tiles of number `n` in different colours,
/// and jokers.
pub open spec fn fills_set(g: Seq<Tile>, n: int) -> bool {
    &&& 1 <= n <= 13
    &&& has_normal(g)
    &&& distinct_normals(g)
    &&& forall|i: int|
        0 <= i < g.len() ==> match #[trigger] g[i] {
            Tile::Joker => true,
            Tile::Normal(_, m) => m == n,
        }
}

/// A run: 3 to 13 tiles that fill consecutive numbers of one colour, with
/// at least one coloured tile among them.
pub open spec fn is_run(g: Seq<Tile>) -> bool {
    3 <= g.len() <= 13 && exists|c: Colour, first: int| fills_run(g, c, first)
}

/// A set: 3 or 4 tiles of one number in different colours, with at least
/// one coloured tile among them.
pub open spec fn is_set(g: Seq<Tile>) -> bool {
    3 <= g.len() <= 4 && exists|n: int| fills_set(g, n)
}

/// A legal group is a run or a set.
pub open spec fn is_group(g: Seq<Tile>) -> bool {
    is_run(g) || is_set(g)
}

/// What the validator answers: a sequence that is both a run and a set (one
/// coloured tile and two jokers) counts as a run.
pub open spec fn kind_of(g: Seq<Tile>) -> GroupKind {
    if is_run(g) {
        GroupKind::Run
    } else if is_set(g) {
        GroupKind::NumberSet
    } else {
        GroupKind::Invalid
    }
}

/// Whether no coloured tile occurs twice in a short sequence.
fn all_distinct(g: &[Tile]) -> (d: bool)
    ensures
        d == distinct_normals(g@),
{
    let n: usize = g.len();
    let mut j: usize = 0;
    while j < n
        invariant
            n == g@.len(),
            j <= n,
            forall|a: int, b: int| 0 <= a < b < j && g@[a] != Tile::Joker ==> g@[a] != g@[b],
        decreases n - j,
    {
        let mut i: usize = 0;
        while i < j
            invariant
                n == g@.len(),
                j < n,
                i <= j,
                forall|a: int| 0 <= a < i && g@[a] != Tile::Joker ==> g@[a] != g@[j as int],
            decreases j - i,
        {
            if !g[i].is_joker() && g[i] == g[j] {
                return false;
            }
            i += 1;
        }
        j += 1;
    }
    true
}

/// Tells whether a sequence of tiles is a run, a set, or no group at all.
pub fn classify(g: &[Tile]) -> (k: GroupKind)
    ensures
        k == kind_of(g@),
{
    let n: usize = g.len();
    if n < 3 || n > 13 {
        return GroupKind::Invalid;
    }
    let mut anchor: Option<(Colour, u8)> = None;
    let mut lo: u8 = 0;
    let mut hi: u8 = 0;
    let mut one_colour: bool = true;
    let mut one_number: bool = true;
    let mut in_range: bool = true;
    let ghost mut at_anchor: int = 0;
    let ghost mut at_lo: int = 0;
    let ghost mut at_hi: int = 0;
    let mut i: usize = 0;
    while i < n
        invariant
            n == g@.len(),
            i <= n,
            anchor is None <==> forall|j: int| 0 <= j < i ==> g@[j] == Tile::Joker,
            anchor is None ==> one_colour && one_number,
            anchor matches Some((c0, x0)) ==> {
                &&& 0 <= at_anchor < i && g@[at_anchor] == Tile::Normal(c0, x0)
                &&& 0 <= at_lo < i
                &&& (g@[at_lo] matches Tile::Normal(_, x) && x == lo)
                &&& 0 <= at_hi < i
                &&& (g@[at_hi] matches Tile::Normal(_, x) && x == hi)
                &&& one_colour <==> forall|j: int|
                    0 <= j < i ==> (#[trigger] g@[j] matches Tile::Normal(c, _) ==> c == c0)
                &&& one_number <==> forall|j: int|
                    0 <= j < i ==> (#[trigger] g@[j] matches Tile::Normal(_, x) ==> x == x0)
                &&& forall|j: int|
                    0 <= j < i ==> (#[trigger] g@[j] matches Tile::Normal(_, x) ==> lo <= x <= hi)
            },
            in_range <==> forall|j: int| 0 <= j < i ==> (#[trigger] g@[j]).wf(),
        decreases n - i,
    {
        match g[i] {
            Tile::Joker => {},
            Tile::Normal(c, x) => {
                if x < 1 || x > 13 {
                    in_range = false;
                }
                match anchor {
                    None => {
                        anchor = Some((c, x));
                        lo = x;
                        hi = x;
                        proof {
                            at_anchor = i as int;
                            at_lo = i as int;
                            at_hi = i as int;
                        }
                    },
                    Some((c0, x0)) => {
                        if c != c0 {
                            one_colour = false;
                        }
                        if x != x0 {
                            one_number = false;
                        }
                        if x < lo {
                            lo = x;
                            proof {
                                at_lo = i as int;
                            }
                        }
                        if x > hi {
                            hi = x;
                            proof {
                                at_hi = i as int;
                            }
                        }
                    },
                }
            },
        }
        i += 1;
    }
    let distinct: bool = all_distinct(g);
    match anchor {
        None => {
            GroupKind::Invalid
        },
        Some((c0, x0)) => {
            if !in_range || !distinct {
                proof {
                    lemma_group_is_well_formed(g@);
                }
                GroupKind::Invalid
            } else if one_colour && (hi - lo) as usize + 1 <= n {
                proof {
                    let first: int = if lo as int + n <= 14 {
                        lo as int
                    } else {
                        14 - n
                    };
                    assert(fills_run(g@, c0, first));
                }
                GroupKind::Run
            } else if one_number && n <= 4 {
                proof {
                    assert(fills_set(g@, x0 as int));
                    assert(!is_run(g@)) by {
                        if is_run(g@) {
                            let (c, first) = choose|c: Colour, first: int| fills_run(g@, c, first);
                            assert(g@[at_anchor] == Tile::Normal(c0, x0));
                            assert(g@[at_lo] is Normal);
                            assert(g@[at_hi] is Normal);
                        }
                    }
                }
                GroupKind::NumberSet
            } else {
                proof {
                    assert(!is_run(g@)) by {
                        if is_run(g@) {
                            let (c, first) = choose|c: Colour, first: int| fills_run(g@, c, first);
                            assert(g@[at_anchor] == Tile::Normal(c0, x0));
                            assert(g@[at_lo] is Normal);
                            assert(g@[at_hi] is Normal);
                        }
                    }
                    assert(!is_set(g@)) by {
                        if is_set(g@) {
                            let m = choose|m: int| fills_set(g@, m);
                            assert(g@[at_anchor] == Tile::Normal(c0, x0));
                        }
                    }
                }
                GroupKind::Invalid
            }
        },
    }
}

/// Whether a sequence of tiles is a legal group.
pub fn is_valid(g: &[Tile]) -> (b: bool)
    ensures
        b == is_group(g@),
{
    match classify(g) {
        GroupKind::Invalid => false,
        _ => true,
    }
}

/// The tiles of a legal group are well formed, no coloured tile occurs twice
/// in it, and it holds a coloured tile.
pub proof fn lemma_group_is_well_formed(g: Seq<Tile>)
    ensures
        is_group(g) ==> distinct_normals(g) && has_normal(g) && 3 <= g.len() <= 13 && forall|
            i: int,
        | 0 <= i < g.len() ==> (#[trigger] g[i]).wf(),
{
    if is_run(g) {
        let (c, first) = choose|c: Colour, first: int| fills_run(g, c, first);
        assert forall|i: int| 0 <= i < g.len() implies (#[trigger] g[i]).wf() by {}
    } else if is_set(g) {
        let n = choose|n: int| fills_set(g, n);
        assert forall|i: int| 0 <= i < g.len() implies (#[trigger] g[i]).wf() by {}
    }
}

/// A tile that stands at two places of a sequence counts twice in it.
pub proof fn lemma_twice(s: Seq<Tile>, i: int, j: int)
    requires
        0 <= i < j < s.len(),
        s[i] == s[j],
    ensures
        s.to_multiset().count(s[i]) >= 2,
    decreases s.len(),
{
    broadcast use group_to_multiset_ensures;
    broadcast use group_multiset_axioms;

    let front = s.drop_last();
    assert(s =~= front.push(s.last()));
    if j == s.len() - 1 {
        assert(front[i] == s[i]);
        assert(front.contains(s[i]));
    } else {
        assert(front[i] == s[i] && front[j] == s[j]);
        lemma_twice(front, i, j);
    }
}

/// A tile that counts twice in a sequence stands at two places of it.
pub proof fn lemma_two_places(s: Seq<Tile>, t: Tile) -> (at: (int, int))
    requires
        s.to_multiset().count(t) >= 2,
    ensures
        0 <= at.0 < at.1 < s.len(),
        s[at.0] == t,
        s[at.1] == t,
    decreases s.len(),
{
    broadcast use group_to_multiset_ensures;
    broadcast use group_multiset_axioms;

    if s.len() == 0 {
        assert(s.to_multiset().len() == 0);
        (0, 0)
    } else {
        let front = s.drop_last();
        assert(s =~= front.push(s.last()));
        if s.last() == t {
            assert(front.contains(t));
            let i = choose|i: int| 0 <= i < front.len() && front[i] == t;
            assert(s[i] == front[i]);
            (i, s.len() - 1)
        } else {
            let at = lemma_two_places(front, t);
            assert(s[at.0] == front[at.0] && s[at.1] == front[at.1]);
            at
        }
    }
}

/// Whether tiles form a group does not depend on the order in which they
/// stand: a sequence with the same tiles as a legal group is a legal group
/// of the same kind.
pub proof fn lemma_same_tiles_same_group(g: Seq<Tile>, h: Seq<Tile>)
    requires
        g.to_multiset() == h.to_multiset(),
    ensures
        is_run(g) == is_run(h),
        is_set(g) == is_set(h),
        is_group(g) == is_group(h),
        kind_of(g) == kind_of(h),
{
    lemma_same_tiles_one_way(g, h);
    lemma_same_tiles_one_way(h, g);
}

proof fn lemma_same_tiles_one_way(g: Seq<Tile>, h: Seq<Tile>)
    requires
        g.to_multiset() == h.to_multiset(),
    ensures
        is_run(g) ==> is_run(h),
        is_set(g) ==> is_set(h),
{
    broadcast use group_to_multiset_ensures;
    broadcast use group_multiset_axioms;

    g.to_multiset_ensures();
    h.to_multiset_ensures();
    assert(g.len() == h.len());
    assert forall|i: int| 0 <= i < h.len() implies g.contains(#[trigger] h[i]) by {
        assert(h.contains(h[i]));
        assert(h.to_multiset().count(h[i]) > 0);
    }
    if has_normal(g) {
        let i = choose|i: int| 0 <= i < g.len() && g[i] != Tile::Joker;
        assert(g.contains(g[i]));
        assert(g.to_multiset().count(g[i]) > 0);
        assert(h.to_multiset().count(g[i]) > 0);
        assert(h.contains(g[i]));
    }
    if distinct_normals(g) {
        assert forall|i: int, j: int| 0 <= i < j < h.len() && h[i] != Tile::Joker implies h[i]
            != h[j] by {
            if h[i] == h[j] {
                lemma_twice(h, i, j);
                let at = lemma_two_places(g, h[i]);
            }
        }
    }
    if is_run(g) {
        let (c, first) = choose|c: Colour, first: int| fills_run(g, c, first);
        assert forall|i: int| 0 <= i < h.len() implies match #[trigger] h[i] {
            Tile::Joker => true,
            Tile::Normal(col, n) => col == c && first <= n < first + h.len(),
        } by {
            assert(g.contains(h[i]));
            let i0 = choose|i0: int| 0 <= i0 < g.len() && g[i0] == h[i];
            assert(g[i0] == h[i]);
        }
        assert(fills_run(h, c, first));
    }
    if is_set(g) {
        let n = choose|n: int| fills_set(g, n);
        assert forall|i: int| 0 <= i < h.len() implies match #[trigger] h[i] {
            Tile::Joker => true,
            Tile::Normal(_, m) => m == n,
        } by {
            assert(g.contains(h[i]));
            let i0 = choose|i0: int| 0 <= i0 < g.len() && g[i0] == h[i];
            assert(g[i0] == h[i]);
        }
        assert(fills_set(h, n));
    }
}

/// The coloured tiles of `g` have the colour `c`.
pub open spec fn of_colour(g: Seq<Tile>, c: Colour) -> bool {
    forall|i: int| 0 <= i < g.len() ==> (#[trigger] g[i] matches Tile::Normal(col, _) ==> col == c)
}

/// The coloured tiles of `g` have one colour.
pub open spec fn one_colour(g: Seq<Tile>) -> bool {
    exists|c: Colour| of_colour(g, c)
}

/// From the lowest to the highest number of `g` there are no more numbers
/// than `g` has tiles.
pub open spec fn spans(g: Seq<Tile>) -> bool {
    forall|i: int, j: int|
        0 <= i < g.len() && 0 <= j < g.len() ==> (#[trigger] g[i] matches Tile::Normal(_, n)
            ==> (#[trigger] g[j] matches Tile::Normal(_, m) ==> m - n + 1 <= g.len()))
}

/// Among the first `n` tiles of `g`, a coloured tile whose number no other
/// goes below.
proof fn lemma_lowest(g: Seq<Tile>, n: int) -> (at: int)
    requires
        0 <= n <= g.len(),
        exists|i: int| 0 <= i < n && g[i] != Tile::Joker,
    ensures
        0 <= at < n,
        g[at] is Normal,
        forall|i: int|
            0 <= i < n ==> (#[trigger] g[i] matches Tile::Normal(_, m) ==> g[at]->Normal_1 <= m),
    decreases n,
{
    let last = n - 1;
    if exists|i: int| 0 <= i < last && g[i] != Tile::Joker {
        let at = lemma_lowest(g, last);
        match g[last] {
            Tile::Joker => at,
            Tile::Normal(_, m) => if m < g[at]->Normal_1 {
                last
            } else {
                at
            },
        }
    } else {
        last
    }
}

/// The rule of the run, in numbers: 3 to 13 tiles are a run exactly if
/// one of them at least is coloured, the coloured ones are well formed,
/// differ from each other and have one colour, and from the lowest number
/// to the highest there are no more numbers than the run has tiles.
pub proof fn lemma_run_rule(g: Seq<Tile>)
    ensures
        is_run(g) <==> {
            &&& 3 <= g.len() <= 13
            &&& has_normal(g)
            &&& distinct_normals(g)
            &&& forall|i: int| 0 <= i < g.len() ==> (#[trigger] g[i]).wf()
            &&& one_colour(g)
            &&& spans(g)
        },
{
    if is_run(g) {
        let (c, first) = choose|c: Colour, first: int| fills_run(g, c, first);
        assert forall|i: int| 0 <= i < g.len() implies (#[trigger] g[i]).wf() by {}
        assert(of_colour(g, c));
    }
    if 3 <= g.len() <= 13 && has_normal(g) && distinct_normals(g) && one_colour(g) && spans(g)
        && forall|i: int| 0 <= i < g.len() ==> (#[trigger] g[i]).wf() {
        let at = lemma_lowest(g, g.len() as int);
        let c = g[at]->Normal_0;
        let low = g[at]->Normal_1 as int;
        let first = if low + g.len() <= 14 {
            low
        } else {
            14 - g.len()
        };
        let one = choose|one: Colour| of_colour(g, one);
        assert(g[at] matches Tile::Normal(col, _) ==> col == one);
        assert forall|i: int| 0 <= i < g.len() implies match #[trigger] g[i] {
            Tile::Joker => true,
            Tile::Normal(col, n) => col == c && first <= n < first + g.len(),
        } by {
            assert(g[i].wf());
            assert(g[at] matches Tile::Normal(_, n) ==> (g[i] matches Tile::Normal(_, m) ==> m - n
                + 1 <= g.len()));
        }
        assert(fills_run(g, c, first));
    }
}

/// The tiles of `g` in canonical order.
pub open spec fn canonical(g: Seq<Tile>) -> Seq<Tile> {
    arranged(g.to_multiset())
}

/// Every legal group can be written in canonical order: the result has the
/// same tiles, stands in canonical order and is a legal group of the same
/// kind.
pub proof fn lemma_canonical(g: Seq<Tile>)
    requires
        is_group(g),
    ensures
        canonical(g).to_multiset() == g.to_multiset(),
        ascending(canonical(g)),
        is_group(canonical(g)),
        kind_of(canonical(g)) == kind_of(g),
{
    lemma_group_is_well_formed(g);
    g.to_multiset_ensures();
    assert forall|x: Tile| g.to_multiset().count(x) > 0 implies x.wf() by {
        assert(g.contains(x));
        let i = choose|i: int| 0 <= i < g.len() && g[i] == x;
        assert(g[i].wf());
    }
    lemma_arranged(g.to_multiset());
    lemma_same_tiles_same_group(g, canonical(g));
}

} // verus!
