//! The solver: given the board and the hand, the rearrangement of the
//! board's tiles and some of the hand's into groups that lays down the most
//! tiles of the hand.

use crate::group::{is_group, lemma_group_is_well_formed};
use crate::plan::{
    all_groups, better, fits, lemma_plan_order, lemma_uses_front, ordered, size, used_at, uses,
};
use crate::search::{Found, found_plan, search, settled, views};
use crate::state::State;
use crate::table::{
    arranged, ascending, copy_table, count_at, holds, lay_out, lemma_arranged, lemma_total_bounds,
    take_out, tallies, tally, tiles_of, total, well_formed, well_formed_bag,
};
use crate::tile::{Tile, lemma_index_orders};
use std::collections::VecDeque;
use vstd::multiset::*;
use vstd::prelude::*;
use vstd::seq_lib::*;

verus! {

/// The tiles of the board and of the hand together.
pub open spec fn all_tiles(board: Seq<Tile>, hand: Seq<Tile>) -> Multiset<Tile> {
    board.to_multiset().add(hand.to_multiset())
}

/// The plan is a legal rearrangement: its groups are legal, it uses every
/// tile of the board, and besides them only tiles of the hand.
pub open spec fn feasible(p: Seq<Seq<Tile>>, board: Seq<Tile>, hand: Seq<Tile>) -> bool {
    &&& all_groups(p)
    &&& board.to_multiset().subset_of(uses(p))
    &&& uses(p).subset_of(all_tiles(board, hand))
}

/// The plan is the one that the solver prefers: a legal rearrangement in
/// canonical form to which no legal rearrangement is preferred.
pub open spec fn is_best(p: Seq<Seq<Tile>>, board: Seq<Tile>, hand: Seq<Tile>) -> bool {
    &&& feasible(p, board, hand)
    &&& ordered(p)
    &&& forall|q: Seq<Seq<Tile>>| #[trigger] feasible(q, board, hand) ==> !better(q, p)
}

/// Some legal rearrangement exists.
pub open spec fn solvable(board: Seq<Tile>, hand: Seq<Tile>) -> bool {
    exists|q: Seq<Seq<Tile>>| feasible(q, board, hand)
}

/// What the solver returns for a board and a hand. Where a legal
/// rearrangement exists, the new board holds the tiles of the preferred
/// one and the new hand the tiles that it leaves over, both in canonical
/// order. Where none exists, board and hand come back as they were.
pub open spec fn solution(
    board: Seq<Tile>,
    hand: Seq<Tile>,
    new_board: Seq<Tile>,
    new_hand: Seq<Tile>,
) -> bool {
    if solvable(board, hand) {
        exists|p: Seq<Seq<Tile>>|
            #![trigger is_best(p, board, hand)]
            is_best(p, board, hand) && new_board == arranged(uses(p)) && new_hand == arranged(
                all_tiles(board, hand).sub(uses(p)),
            )
    } else {
        new_board == board && new_hand == hand
    }
}

/// The tiles of a plan are the tiles of its parts.
pub proof fn lemma_uses_concat(a: Seq<Seq<Tile>>, b: Seq<Seq<Tile>>)
    ensures
        uses(a + b) =~= uses(a).add(uses(b)),
        size(a + b) == size(a) + size(b),
    decreases a.len(),
{
    broadcast use group_multiset_axioms;

    if a.len() == 0 {
        assert(a + b =~= b);
    } else {
        lemma_uses_concat(a.drop_first(), b);
        assert((a + b).drop_first() =~= a.drop_first() + b);
    }
}

/// A plan of legal groups uses well-formed tiles only, and as many as it
/// lays down.
pub proof fn lemma_uses_well_formed(p: Seq<Seq<Tile>>)
    requires
        all_groups(p),
    ensures
        well_formed_bag(uses(p)),
        uses(p).len() == size(p),
    decreases p.len(),
{
    broadcast use group_multiset_axioms;

    if p.len() > 0 {
        let r = p.drop_first();
        assert forall|i: int| 0 <= i < r.len() implies is_group(#[trigger] r[i]) by {
            assert(r[i] == p[i + 1]);
        }
        lemma_uses_well_formed(r);
        lemma_group_is_well_formed(p[0]);
        p[0].to_multiset_ensures();
        assert forall|x: Tile| uses(p).count(x) > 0 implies x.wf() by {
            if p[0].to_multiset().count(x) > 0 {
                assert(p[0].contains(x));
                let i = choose|i: int| 0 <= i < p[0].len() && p[0][i] == x;
                assert(p[0][i].wf());
            }
        }
    }
}

/// On the tables of board and hand, a plan is a legal rearrangement
/// exactly if it can be played from the table of all tiles and leaves over
/// no more of any kind than the hand holds.
pub proof fn lemma_feasible_fits(
    q: Seq<Seq<Tile>>,
    board: Seq<Tile>,
    hand: Seq<Tile>,
    rem: Seq<usize>,
    cap: Seq<usize>,
)
    requires
        well_formed(board),
        well_formed(hand),
        rem.len() == 53,
        forall|k: int| 0 <= k < 53 ==> rem[k] == count_at(board, k) + count_at(hand, k),
        tallies(cap, hand),
    ensures
        feasible(q, board, hand) <==> fits(q, rem, cap),
{
    broadcast use group_multiset_axioms;

    board.to_multiset_ensures();
    hand.to_multiset_ensures();
    if feasible(q, board, hand) {
        assert forall|k: int| 0 <= k < 53 implies #[trigger] used_at(q, k) <= rem[k] && rem[k]
            - used_at(q, k) <= cap[k] by {
            let x = Tile::at(k);
            assert(board.to_multiset().count(x) <= uses(q).count(x));
            assert(uses(q).count(x) <= all_tiles(board, hand).count(x));
        }
    }
    if fits(q, rem, cap) {
        lemma_uses_well_formed(q);
        assert forall|x: Tile|
            board.to_multiset().count(x) <= uses(q).count(x) && uses(q).count(x) <= all_tiles(
                board,
                hand,
            ).count(x) by {
            if x.wf() {
                lemma_index_orders(x, x);
                let k = x.index();
                assert(used_at(q, k) <= rem[k] && rem[k] - used_at(q, k) <= cap[k]);
            } else {
                if board.contains(x) {
                    let i = choose|i: int| 0 <= i < board.len() && board[i] == x;
                    assert(board[i].wf());
                }
            }
        }
    }
}

/// What holds of every solution; the laws below state it piece by piece.
proof fn lemma_solution(
    board: Seq<Tile>,
    hand: Seq<Tile>,
    new_board: Seq<Tile>,
    new_hand: Seq<Tile>,
)
    requires
        well_formed(board),
        well_formed(hand),
        board.len() + hand.len() <= usize::MAX,
        solution(board, hand, new_board, new_hand),
    ensures
        new_board.to_multiset().add(new_hand.to_multiset()) == all_tiles(board, hand),
        board.to_multiset().subset_of(new_board.to_multiset()),
        new_hand.to_multiset().subset_of(hand.to_multiset()),
        solvable(board, hand) ==> exists|p: Seq<Seq<Tile>>|
            #![trigger is_best(p, board, hand)]
            is_best(p, board, hand) && uses(p) == new_board.to_multiset() && size(p)
                == new_board.len(),
        solvable(board, hand) ==> ascending(new_board) && ascending(new_hand),
{
    broadcast use group_multiset_axioms;

    board.to_multiset_ensures();
    hand.to_multiset_ensures();
    if solvable(board, hand) {
        let p = choose|p: Seq<Seq<Tile>>|
            #![trigger is_best(p, board, hand)]
            is_best(p, board, hand) && new_board == arranged(uses(p)) && new_hand == arranged(
                all_tiles(board, hand).sub(uses(p)),
            );
        let all = all_tiles(board, hand);
        let rest = all.sub(uses(p));
        lemma_uses_well_formed(p);
        assert(all =~= uses(p).add(rest));
        assert(all.len() == board.to_multiset().len() + hand.to_multiset().len());
        assert(uses(p).add(rest).len() == uses(p).len() + rest.len());
        assert forall|x: Tile| all.count(x) > 0 implies x.wf() by {
            if board.to_multiset().count(x) > 0 {
                assert(board.contains(x));
                let i = choose|i: int| 0 <= i < board.len() && board[i] == x;
                assert(board[i].wf());
            } else {
                assert(hand.contains(x));
                let i = choose|i: int| 0 <= i < hand.len() && hand[i] == x;
                assert(hand[i].wf());
            }
        }
        lemma_arranged(uses(p));
        lemma_arranged(rest);
        assert(new_hand.to_multiset().subset_of(hand.to_multiset())) by {
            assert forall|x: Tile| rest.count(x) <= hand.to_multiset().count(x) by {
                assert(board.to_multiset().count(x) <= uses(p).count(x));
            }
        }
    }
}

/// Conservation: the new board and the new hand together hold exactly the
/// tiles of the board and the hand.
pub proof fn lemma_conservation(
    board: Seq<Tile>,
    hand: Seq<Tile>,
    new_board: Seq<Tile>,
    new_hand: Seq<Tile>,
)
    requires
        well_formed(board),
        well_formed(hand),
        board.len() + hand.len() <= usize::MAX,
        solution(board, hand, new_board, new_hand),
    ensures
        new_board.to_multiset().add(new_hand.to_multiset()) == board.to_multiset().add(
            hand.to_multiset(),
        ),
{
    lemma_solution(board, hand, new_board, new_hand);
}

/// Board preservation: every tile of the board lies on the new board.
pub proof fn lemma_board_preserved(
    board: Seq<Tile>,
    hand: Seq<Tile>,
    new_board: Seq<Tile>,
    new_hand: Seq<Tile>,
)
    requires
        well_formed(board),
        well_formed(hand),
        board.len() + hand.len() <= usize::MAX,
        solution(board, hand, new_board, new_hand),
    ensures
        board.to_multiset().subset_of(new_board.to_multiset()),
{
    lemma_solution(board, hand, new_board, new_hand);
}

/// Where board and hand come back as they were and the board's tiles
/// cannot be laid into groups by themselves, no legal rearrangement exists.
pub proof fn lemma_unchanged_means_unsolvable(
    board: Seq<Tile>,
    hand: Seq<Tile>,
    new_board: Seq<Tile>,
    new_hand: Seq<Tile>,
)
    requires
        well_formed(board),
        well_formed(hand),
        board.len() + hand.len() <= usize::MAX,
        solution(board, hand, new_board, new_hand),
        new_board == board,
        new_hand == hand,
        !exists|p: Seq<Seq<Tile>>| all_groups(p) && uses(p) == board.to_multiset(),
    ensures
        !solvable(board, hand),
{
    lemma_solution(board, hand, new_board, new_hand);
    if solvable(board, hand) {
        let p = choose|p: Seq<Seq<Tile>>|
            #![trigger is_best(p, board, hand)]
            is_best(p, board, hand) && uses(p) == new_board.to_multiset() && size(p)
                == new_board.len();
        assert(all_groups(p) && uses(p) == board.to_multiset());
    }
}

/// Hand monotonicity: the new hand holds tiles of the hand only.
pub proof fn lemma_hand_shrinks(
    board: Seq<Tile>,
    hand: Seq<Tile>,
    new_board: Seq<Tile>,
    new_hand: Seq<Tile>,
)
    requires
        well_formed(board),
        well_formed(hand),
        board.len() + hand.len() <= usize::MAX,
        solution(board, hand, new_board, new_hand),
    ensures
        new_hand.to_multiset().subset_of(hand.to_multiset()),
{
    lemma_solution(board, hand, new_board, new_hand);
}

/// Group validity: where a legal rearrangement exists, the tiles of the
/// new board can be laid into legal groups.
pub proof fn lemma_board_is_groups(
    board: Seq<Tile>,
    hand: Seq<Tile>,
    new_board: Seq<Tile>,
    new_hand: Seq<Tile>,
)
    requires
        well_formed(board),
        well_formed(hand),
        board.len() + hand.len() <= usize::MAX,
        solution(board, hand, new_board, new_hand),
        solvable(board, hand),
    ensures
        exists|p: Seq<Seq<Tile>>| all_groups(p) && uses(p) == new_board.to_multiset(),
{
    lemma_solution(board, hand, new_board, new_hand);
    let p = choose|p: Seq<Seq<Tile>>|
        #![trigger is_best(p, board, hand)]
        is_best(p, board, hand) && uses(p) == new_board.to_multiset() && size(p)
            == new_board.len();
    assert(all_groups(p) && uses(p) == new_board.to_multiset());
}

/// Determinism: board and hand have one solution only.
pub proof fn lemma_deterministic(
    board: Seq<Tile>,
    hand: Seq<Tile>,
    board_1: Seq<Tile>,
    hand_1: Seq<Tile>,
    board_2: Seq<Tile>,
    hand_2: Seq<Tile>,
)
    requires
        solution(board, hand, board_1, hand_1),
        solution(board, hand, board_2, hand_2),
    ensures
        board_1 == board_2,
        hand_1 == hand_2,
{
    if solvable(board, hand) {
        let p = choose|p: Seq<Seq<Tile>>|
            #![trigger is_best(p, board, hand)]
            is_best(p, board, hand) && board_1 == arranged(uses(p)) && hand_1 == arranged(
                all_tiles(board, hand).sub(uses(p)),
            );
        let q = choose|q: Seq<Seq<Tile>>|
            #![trigger is_best(q, board, hand)]
            is_best(q, board, hand) && board_2 == arranged(uses(q)) && hand_2 == arranged(
                all_tiles(board, hand).sub(uses(q)),
            );
        assert(feasible(p, board, hand) && feasible(q, board, hand));
        assert(!better(p, q) && !better(q, p));
        lemma_plan_order(p, q, p);
    }
}

/// Optimality: no legal rearrangement lays down more tiles than the new
/// board holds, so none places more tiles of the hand.
pub proof fn lemma_optimal(
    board: Seq<Tile>,
    hand: Seq<Tile>,
    new_board: Seq<Tile>,
    new_hand: Seq<Tile>,
    q: Seq<Seq<Tile>>,
)
    requires
        well_formed(board),
        well_formed(hand),
        board.len() + hand.len() <= usize::MAX,
        solution(board, hand, new_board, new_hand),
        feasible(q, board, hand),
    ensures
        size(q) <= new_board.len(),
        size(q) - board.len() <= new_board.len() - board.len(),
{
    lemma_solution(board, hand, new_board, new_hand);
    let p = choose|p: Seq<Seq<Tile>>|
        #![trigger is_best(p, board, hand)]
        is_best(p, board, hand) && uses(p) == new_board.to_multiset() && size(p)
            == new_board.len();
    assert(!better(q, p));
}

/// The sum of two tables, kind by kind.
fn add_tables(a: &Vec<usize>, b: &Vec<usize>) -> (r: Vec<usize>)
    requires
        a@.len() == 53,
        b@.len() == 53,
        total(a@) + total(b@) <= usize::MAX,
    ensures
        r@.len() == 53,
        forall|k: int| 0 <= k < 53 ==> r@[k] == a@[k] + b@[k],
        total(r@) == total(a@) + total(b@),
{
    let mut r: Vec<usize> = Vec::new();
    let mut i: usize = 0;
    proof {
        assert(a@.take(0) =~= Seq::<usize>::empty());
        assert(b@.take(0) =~= Seq::<usize>::empty());
    }
    while i < 53
        invariant
            a@.len() == 53,
            b@.len() == 53,
            total(a@) + total(b@) <= usize::MAX,
            i <= 53,
            r@.len() == i,
            forall|k: int| 0 <= k < i ==> r@[k] == a@[k] + b@[k],
            total(r@) == total(a@.take(i as int)) + total(b@.take(i as int)),
        decreases 53 - i,
    {
        proof {
            lemma_total_bounds(a@, i as int);
            lemma_total_bounds(b@, i as int);
            assert(a@.take(i + 1).drop_last() =~= a@.take(i as int));
            assert(b@.take(i + 1).drop_last() =~= b@.take(i as int));
        }
        let ghost before = r@;
        r.push(a[i] + b[i]);
        proof {
            assert(r@.drop_last() =~= before);
        }
        i += 1;
    }
    proof {
        assert(a@.take(53) =~= a@);
        assert(b@.take(53) =~= b@);
    }
    r
}

/// The table of the tiles that a plan leaves over.
fn leftover(rem: &Vec<usize>, plan: &Vec<Vec<Tile>>) -> (left: Vec<usize>)
    requires
        rem@.len() == 53,
        all_groups(views(plan@)),
        forall|k: int| 0 <= k < 53 ==> used_at(views(plan@), k) <= rem@[k],
    ensures
        left@.len() == 53,
        forall|k: int| 0 <= k < 53 ==> left@[k] == rem@[k] - used_at(views(plan@), k),
{
    let mut left: Vec<usize> = copy_table(rem);
    let ghost p = views(plan@);
    let mut i: usize = 0;
    proof {
        broadcast use group_multiset_axioms;

        assert(p.take(0) =~= Seq::<Seq<Tile>>::empty());
    }
    while i < plan.len()
        invariant
            rem@.len() == 53,
            left@.len() == 53,
            p == views(plan@),
            all_groups(p),
            i <= plan@.len(),
            forall|k: int| 0 <= k < 53 ==> used_at(p, k) <= rem@[k],
            forall|k: int| 0 <= k < 53 ==> left@[k] + used_at(p.take(i as int), k) == rem@[k],
        decreases plan@.len() - i,
    {
        proof {
            broadcast use group_multiset_axioms;

            assert(is_group(p[i as int]));
            lemma_group_is_well_formed(plan@[i as int]@);
            assert(p.take(i + 1) =~= p.take(i as int) + seq![p[i as int]]);
            lemma_uses_concat(p.take(i as int), seq![p[i as int]]);
            lemma_uses_front(p[i as int], Seq::<Seq<Tile>>::empty());
            assert(seq![p[i as int]] + Seq::<Seq<Tile>>::empty() =~= seq![p[i as int]]);
            assert(uses(seq![p[i as int]]) =~= p[i as int].to_multiset());
            assert(p =~= p.take(i + 1) + p.skip(i + 1));
            lemma_uses_concat(p.take(i + 1), p.skip(i + 1));
        }
        match take_out(&left, &plan[i]) {
            Some(next) => {
                left = next;
            },
            None => {
                proof {
                    assert forall|k: int| 0 <= k < 53 implies count_at(plan@[i as int]@, k)
                        <= left@[k] by {
                        assert(used_at(p, k) <= rem@[k]);
                    }
                }
            },
        }
        i += 1;
    }
    proof {
        assert(p.take(plan@.len() as int) =~= p);
    }
    left
}

/// A copy of a collection of tiles.
fn copy_deque(v: &VecDeque<Tile>) -> (r: VecDeque<Tile>)
    ensures
        r@ == v@,
{
    let mut r: VecDeque<Tile> = VecDeque::new();
    let mut i: usize = 0;
    while i < v.len()
        invariant
            i <= v@.len(),
            r@ == v@.take(i as int),
        decreases v@.len() - i,
    {
        r.push_back(v[i]);
        i += 1;
        proof {
            assert(v@.take(i as int) =~= v@.take(i - 1).push(v@[i - 1]));
        }
    }
    proof {
        assert(v@.take(v@.len() as int) =~= v@);
    }
    r
}

/// The preferred legal rearrangement of the board's tiles and some of the
/// hand's, if there is any.
pub fn best_plan(board: &VecDeque<Tile>, hand: &VecDeque<Tile>) -> (plan: Option<Vec<Vec<Tile>>>)
    requires
        well_formed(board@),
        well_formed(hand@),
        board@.len() + hand@.len() <= usize::MAX,
    ensures
        match plan {
            Some(p) => is_best(views(p@), board@, hand@),
            None => !solvable(board@, hand@),
        },
{
    let b: Vec<usize> = tally(tiles_of(board).as_slice());
    let h: Vec<usize> = tally(tiles_of(hand).as_slice());
    let rem: Vec<usize> = add_tables(&b, &h);
    let found: Found = search(&rem, &h);
    proof {
        assert forall|q: Seq<Seq<Tile>>| #[trigger]
            feasible(q, board@, hand@) implies settled(q, found) by {
            lemma_feasible_fits(q, board@, hand@, rem@, h@);
            assert(fits(q, rem@, h@));
        }
        if found is Some {
            lemma_feasible_fits(found_plan(found), board@, hand@, rem@, h@);
        }
    }
    match found {
        Some((p, _)) => Some(p),
        None => None,
    }
}

/// Solves the puzzle: where the tiles of the board and some of the hand
/// can be laid into legal groups, the new board holds the tiles of the
/// preferred way to do so and the new hand the tiles left over, both in
/// canonical order; where they cannot, board and hand come back as they
/// were.
pub fn solve(state: &State) -> (solved: State)
    requires
        well_formed(state.board@),
        well_formed(state.hand@),
        state.board@.len() + state.hand@.len() <= usize::MAX,
    ensures
        solution(state.board@, state.hand@, solved.board@, solved.hand@),
        solved.board@.to_multiset().add(solved.hand@.to_multiset())
            == state.board@.to_multiset().add(state.hand@.to_multiset()),
        state.board@.to_multiset().subset_of(solved.board@.to_multiset()),
        solved.hand@.to_multiset().subset_of(state.hand@.to_multiset()),
        solvable(state.board@, state.hand@) ==> exists|p: Seq<Seq<Tile>>|
            all_groups(p) && uses(p) == solved.board@.to_multiset(),
        solvable(state.board@, state.hand@) ==> ascending(solved.board@) && ascending(
            solved.hand@,
        ),
        forall|q: Seq<Seq<Tile>>| #[trigger]
            feasible(q, state.board@, state.hand@) ==> size(q) <= solved.board@.len(),
{
    let b: Vec<usize> = tally(tiles_of(&state.board).as_slice());
    let h: Vec<usize> = tally(tiles_of(&state.hand).as_slice());
    let all: Vec<usize> = add_tables(&b, &h);
    let solved: State = match best_plan(&state.board, &state.hand) {
        None => State { board: copy_deque(&state.board), hand: copy_deque(&state.hand) },
        Some(plan) => {
            proof {
                broadcast use group_multiset_axioms;

                lemma_feasible_fits(views(plan@), state.board@, state.hand@, all@, h@);
                assert forall|k: int| 0 <= k < 53 implies used_at(views(plan@), k) <= all@[k] by {
                    assert(used_at(views(plan@), k) <= all@[k] && all@[k] - used_at(
                        views(plan@),
                        k,
                    ) <= h@[k]);
                }
            }
            let left: Vec<usize> = leftover(&all, &plan);
            let mut used: Vec<usize> = Vec::new();
            let mut k: usize = 0;
            while k < 53
                invariant
                    k <= 53,
                    all@.len() == 53,
                    left@.len() == 53,
                    used@.len() == k,
                    forall|j: int| 0 <= j < 53 ==> left@[j] <= all@[j],
                    forall|j: int| 0 <= j < k ==> used@[j] == all@[j] - left@[j],
                decreases 53 - k,
            {
                used.push(all[k] - left[k]);
                k += 1;
            }
            let new_board: VecDeque<Tile> = lay_out(&used);
            let new_hand: VecDeque<Tile> = lay_out(&left);
            proof {
                broadcast use group_multiset_axioms;

                let p = views(plan@);
                let rest = all_tiles(state.board@, state.hand@).sub(uses(p));
                assert(used@ =~= Seq::new(53, |k: int| uses(p).count(Tile::at(k)) as usize));
                assert(left@ =~= Seq::new(53, |k: int| rest.count(Tile::at(k)) as usize)) by {
                    assert forall|j: int| 0 <= j < 53 implies left@[j] == rest.count(Tile::at(j))
                        as usize by {
                        assert(all@[j] == count_at(state.board@, j) + count_at(state.hand@, j));
                    }
                }
                assert(feasible(p, state.board@, state.hand@));
                assert(is_best(p, state.board@, state.hand@));
            }
            State { board: new_board, hand: new_hand }
        },
    };
    proof {
        lemma_solution(state.board@, state.hand@, solved.board@, solved.hand@);
        if solvable(state.board@, state.hand@) {
            let p = choose|p: Seq<Seq<Tile>>|
                #![trigger is_best(p, state.board@, state.hand@)]
                is_best(p, state.board@, state.hand@) && uses(p) == solved.board@.to_multiset()
                    && size(p) == solved.board@.len();
            assert(all_groups(p) && uses(p) == solved.board@.to_multiset());
            assert forall|q: Seq<Seq<Tile>>| #[trigger]
                feasible(q, state.board@, state.hand@) implies size(q)
                <= solved.board@.len() by {
                assert(!better(q, p));
            }
        }
    }
    solved
}

} // verus!
