//! The tiles in play: those on the board and those in the player's hand,
//! each kept in canonical order as tiles are added.

use crate::table::{ascending, tiles_of};
use crate::text::listing;
use crate::tile::{Tile, lemma_order_is_strict_total};
use std::collections::VecDeque;
use vstd::prelude::*;
use vstd::seq_lib::*;
use vstd::string::*;

verus! {

/// The board and the hand.
pub struct State {
    pub board: VecDeque<Tile>,
    pub hand: VecDeque<Tile>,
}

/// The place at which `tile` enters a sequence in canonical order: behind
/// the tiles that stand before it in the order, in front of the others.
pub open spec fn is_slot(s: Seq<Tile>, tile: Tile, at: int) -> bool {
    &&& 0 <= at <= s.len()
    &&& forall|j: int| 0 <= j < at ==> (#[trigger] s[j]).before(tile)
    &&& forall|j: int| at <= j < s.len() ==> !(#[trigger] s[j]).before(tile)
}

/// The place that a binary search for `tile` between the places `lo` and
/// `hi` of `s` ends at.
pub open spec fn searched(s: Seq<Tile>, tile: Tile, lo: int, hi: int) -> int
    decreases hi - lo,
{
    if lo >= hi {
        lo
    } else {
        let mid = lo + (hi - lo) / 2;
        if s[mid].before(tile) {
            searched(s, tile, mid + 1, hi)
        } else {
            searched(s, tile, lo, mid)
        }
    }
}

/// The place that a binary search finds for `tile` in `s`.
pub open spec fn slot_of(s: Seq<Tile>, tile: Tile) -> int {
    searched(s, tile, 0, s.len() as int)
}

impl State {
    /// An empty board and an empty hand.
    pub fn new() -> (s: State)
        ensures
            s.board@ == Seq::<Tile>::empty(),
            s.hand@ == Seq::<Tile>::empty(),
    {
        State { board: VecDeque::new(), hand: VecDeque::new() }
    }

    /// The place that a binary search finds for a tile.
    fn find_slot(vec: &VecDeque<Tile>, new_tile: &Tile) -> (at: usize)
        ensures
            at == slot_of(vec@, *new_tile),
            at <= vec@.len(),
            ascending(vec@) ==> is_slot(vec@, *new_tile, at as int),
    {
        let mut lo: usize = 0;
        let mut hi: usize = vec.len();
        while lo < hi
            invariant
                lo <= hi <= vec@.len(),
                searched(vec@, *new_tile, lo as int, hi as int) == slot_of(vec@, *new_tile),
                ascending(vec@) ==> forall|j: int|
                    0 <= j < lo ==> (#[trigger] vec@[j]).before(*new_tile),
                ascending(vec@) ==> forall|j: int|
                    hi <= j < vec@.len() ==> !(#[trigger] vec@[j]).before(*new_tile),
            decreases hi - lo,
        {
            let mid: usize = lo + (hi - lo) / 2;
            if vec[mid].precedes(new_tile) {
                proof {
                    if ascending(vec@) {
                        assert forall|j: int| 0 <= j < mid + 1 implies (#[trigger] vec@[j]).before(
                            *new_tile,
                        ) by {
                            if j < mid {
                                assert(!vec@[mid as int].before(vec@[j]));
                                lemma_order_is_strict_total(vec@[j], vec@[mid as int], *new_tile);
                            }
                        }
                    }
                }
                lo = mid + 1;
            } else {
                proof {
                    if ascending(vec@) {
                        assert forall|j: int| mid <= j < vec@.len() implies !(
                        #[trigger] vec@[j]).before(*new_tile) by {
                            if j > mid {
                                assert(!vec@[j].before(vec@[mid as int]));
                                lemma_order_is_strict_total(vec@[mid as int], vec@[j], *new_tile);
                            }
                        }
                    }
                }
                hi = mid;
            }
        }
        lo
    }

    /// Inserts a tile at the place that a binary search finds for it. In a
    /// sequence in canonical order that is the tile's slot, and the
    /// sequence stays in canonical order.
    fn sorted_vec_insert(vec: &mut VecDeque<Tile>, new_tile: Tile)
        ensures
            final(vec)@ == old(vec)@.insert(slot_of(old(vec)@, new_tile), new_tile),
            final(vec)@.to_multiset() == old(vec)@.to_multiset().insert(new_tile),
            0 <= slot_of(old(vec)@, new_tile) <= old(vec)@.len(),
            ascending(old(vec)@) ==> is_slot(old(vec)@, new_tile, slot_of(old(vec)@, new_tile))
                && ascending(final(vec)@),
    {
        let at: usize = Self::find_slot(vec, &new_tile);
        let ghost before = vec@;
        vec.insert(at, new_tile);
        proof {
            to_multiset_insert(before, at as int, new_tile);
            if ascending(before) {
                assert forall|i: int, j: int| 0 <= i < j < vec@.len() implies !vec@[j].before(
                    vec@[i],
                ) by {
                    if j < at {
                        assert(!before[j].before(before[i]));
                    } else if j == at {
                        assert(before[i].before(new_tile));
                        lemma_order_is_strict_total(before[i], new_tile, before[i]);
                    } else if i < at {
                        assert(!before[j - 1].before(before[i]));
                    } else if i == at {
                        assert(!before[j - 1].before(new_tile));
                    } else {
                        assert(!before[j - 1].before(before[i - 1]));
                    }
                }
            }
        }
    }

    /// Adds a tile to the board, at the place that a binary search finds
    /// for it: on a board in canonical order, behind the tiles that stand
    /// before it in the order and in front of the others.
    pub fn add_to_board(&mut self, tile: Tile)
        ensures
            final(self).hand == old(self).hand,
            final(self).board@ == old(self).board@.insert(slot_of(old(self).board@, tile), tile),
            final(self).board@.to_multiset() == old(self).board@.to_multiset().insert(tile),
            0 <= slot_of(old(self).board@, tile) <= old(self).board@.len(),
            ascending(old(self).board@) ==> is_slot(
                old(self).board@,
                tile,
                slot_of(old(self).board@, tile),
            ) && ascending(final(self).board@),
    {
        Self::sorted_vec_insert(&mut self.board, tile);
    }

    /// Adds a tile to the hand, at the place that a binary search finds
    /// for it: in a hand in canonical order, behind the tiles that stand
    /// before it in the order and in front of the others.
    pub fn add_to_hand(&mut self, tile: Tile)
        ensures
            final(self).board == old(self).board,
            final(self).hand@ == old(self).hand@.insert(slot_of(old(self).hand@, tile), tile),
            final(self).hand@.to_multiset() == old(self).hand@.to_multiset().insert(tile),
            0 <= slot_of(old(self).hand@, tile) <= old(self).hand@.len(),
            ascending(old(self).hand@) ==> is_slot(
                old(self).hand@,
                tile,
                slot_of(old(self).hand@, tile),
            ) && ascending(final(self).hand@),
    {
        Self::sorted_vec_insert(&mut self.hand, tile);
    }

    /// Writes the board and the hand, each under its heading.
    pub fn format(&mut self) -> (s: String)
        ensures
            *final(self) == *old(self),
            s@ == "Board:\n"@ + listing(old(self).board@) + "Hand:\n"@ + listing(
                old(self).hand@,
            ),
    {
        let mut string: String = String::new();
        string.append("Board:\n");
        let board: Vec<Tile> = tiles_of(&self.board);
        string.append(Tile::format_list(board.as_slice()).as_str());
        string.append("Hand:\n");
        let hand: Vec<Tile> = tiles_of(&self.hand);
        string.append(Tile::format_list(hand.as_slice()).as_str());
        proof {
            assert(string@ =~= "Board:\n"@ + listing(self.board@) + "Hand:\n"@ + listing(
                self.hand@,
            ));
        }
        string
    }

    /// The tiles on the board, open to change.
    pub fn board(&mut self) -> (b: &mut VecDeque<Tile>)
        ensures
            *b == old(self).board,
            final(self).board == *final(b),
            final(self).hand == old(self).hand,
    {
        &mut self.board
    }

    /// The tiles in the hand, open to change.
    pub fn hand(&mut self) -> (h: &mut VecDeque<Tile>)
        ensures
            *h == old(self).hand,
            final(self).hand == *final(h),
            final(self).board == old(self).board,
    {
        &mut self.hand
    }
}

} // verus!
