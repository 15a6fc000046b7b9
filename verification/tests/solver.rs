use rummikub_solver::group::is_valid;
use rummikub_solver::solver::{best_plan, solve};
use rummikub_solver::state::State;
use rummikub_solver::tile::Tile;

fn t(token: &str) -> Tile {
    Tile::from_str(token).unwrap()
}

fn tiles(tokens: &[&str]) -> Vec<Tile> {
    tokens.iter().map(|s| t(s)).collect()
}

fn state(board: &[&str], hand: &[&str]) -> State {
    let mut s = State::new();
    for token in board {
        s.add_to_board(t(token));
    }
    for token in hand {
        s.add_to_hand(t(token));
    }
    s
}

fn board_of(s: &State) -> Vec<Tile> {
    s.board.iter().copied().collect()
}

fn hand_of(s: &State) -> Vec<Tile> {
    s.hand.iter().copied().collect()
}

fn sorted(mut v: Vec<Tile>) -> Vec<Tile> {
    v.sort();
    v
}

fn plan(board: &[&str], hand: &[&str]) -> Option<Vec<Vec<Tile>>> {
    let s = state(board, hand);
    best_plan(&s.board, &s.hand)
}

fn check_laws(board: &[&str], hand: &[&str]) -> State {
    let input = state(board, hand);
    let output = solve(&input);
    let mut before = board_of(&input);
    before.extend(hand_of(&input));
    let mut after = board_of(&output);
    after.extend(hand_of(&output));
    assert_eq!(sorted(before), sorted(after));
    let mut rest = board_of(&output);
    for tile in board_of(&input) {
        let at = rest.iter().position(|x| *x == tile).expect("a board tile is missing");
        rest.remove(at);
    }
    let mut hand_left = hand_of(&input);
    for tile in hand_of(&output) {
        let at = hand_left.iter().position(|x| *x == tile).expect("a tile came into the hand");
        hand_left.remove(at);
    }
    let again = solve(&input);
    assert_eq!(board_of(&again), board_of(&output));
    assert_eq!(hand_of(&again), hand_of(&output));
    match best_plan(&input.board, &input.hand) {
        Some(groups) => {
            let mut laid: Vec<Tile> = Vec::new();
            for group in &groups {
                assert!(is_valid(group));
                laid.extend(group.iter().copied());
            }
            assert_eq!(sorted(laid), board_of(&output));
            assert_eq!(sorted(hand_of(&output)), hand_of(&output));
        }
        None => {
            assert_eq!(board_of(&output), board_of(&input));
            assert_eq!(hand_of(&output), hand_of(&input));
        }
    }
    output
}

#[test]
fn empty_hand_valid_board() {
    let out = check_laws(&["r1", "r2", "r3"], &[]);
    assert_eq!(board_of(&out), tiles(&["r1", "r2", "r3"]));
    assert_eq!(hand_of(&out), tiles(&[]));
}

#[test]
fn hand_completes_a_set() {
    let out = check_laws(&["r5", "b5"], &["y5", "x5"]);
    assert_eq!(board_of(&out), tiles(&["r5", "b5", "y5", "x5"]));
    assert_eq!(hand_of(&out), tiles(&[]));
    assert_eq!(plan(&["r5", "b5"], &["y5", "x5"]), Some(vec![tiles(&["r5", "b5", "y5", "x5"])]));
}

#[test]
fn joker_as_substitute() {
    let out = check_laws(&["r7", "j"], &["r8", "r9"]);
    assert_eq!(board_of(&out), tiles(&["r7", "r8", "r9", "j"]));
    assert_eq!(hand_of(&out), tiles(&[]));
    assert_eq!(plan(&["r7", "j"], &["r8", "r9"]), Some(vec![tiles(&["r7", "r8", "r9", "j"])]));
}

#[test]
fn no_legal_partition() {
    let out = check_laws(&["r1", "b2"], &[]);
    assert_eq!(board_of(&out), tiles(&["r1", "b2"]));
    assert_eq!(hand_of(&out), tiles(&[]));
    assert_eq!(plan(&["r1", "b2"], &[]), None);
}

#[test]
fn no_legal_partition_keeps_the_hand() {
    let out = check_laws(&["r1", "b2"], &["y9", "j"]);
    assert_eq!(board_of(&out), tiles(&["r1", "b2"]));
    assert_eq!(hand_of(&out), tiles(&["y9", "j"]));
}

#[test]
fn unsolvable_input_comes_back_in_its_own_order() {
    let mut input = State::new();
    input.board.push_back(t("b2"));
    input.board.push_back(t("r1"));
    input.hand.push_back(t("j"));
    input.hand.push_back(t("y9"));
    input.hand.push_back(t("y9"));
    let out = solve(&input);
    assert_eq!(board_of(&out), tiles(&["b2", "r1"]));
    assert_eq!(hand_of(&out), tiles(&["j", "y9", "y9"]));
}

#[test]
fn hand_tile_not_placeable() {
    let out = check_laws(&["r1", "r2", "r3"], &["y13"]);
    assert_eq!(board_of(&out), tiles(&["r1", "r2", "r3"]));
    assert_eq!(hand_of(&out), tiles(&["y13"]));
}

#[test]
fn rearrangement_required() {
    let out = check_laws(&["r1", "r2", "r3", "b1", "y1"], &["x1"]);
    assert_eq!(board_of(&out), tiles(&["r1", "r2", "r3", "b1", "y1", "x1"]));
    assert_eq!(hand_of(&out), tiles(&[]));
    assert_eq!(
        plan(&["r1", "r2", "r3", "b1", "y1"], &["x1"]),
        Some(vec![tiles(&["r1", "r2", "r3"]), tiles(&["b1", "y1", "x1"])])
    );
}

#[test]
fn empty_board_and_empty_hand() {
    let out = check_laws(&[], &[]);
    assert!(board_of(&out).is_empty());
    assert!(hand_of(&out).is_empty());
    assert_eq!(plan(&[], &[]), Some(vec![]));
}

#[test]
fn empty_board_lays_down_what_the_hand_allows() {
    let out = check_laws(&[], &["r1", "r2", "r3", "b9", "j"]);
    assert_eq!(board_of(&out), tiles(&["r1", "r2", "r3", "j"]));
    assert_eq!(hand_of(&out), tiles(&["b9"]));
}

#[test]
fn hand_alone_cannot_be_laid_down() {
    let out = check_laws(&[], &["r1", "r2", "b3", "y7"]);
    assert!(board_of(&out).is_empty());
    assert_eq!(hand_of(&out), tiles(&["r1", "r2", "b3", "y7"]));
}

#[test]
fn jokers_alone_stay_in_the_hand() {
    let out = check_laws(&[], &["j", "j"]);
    assert!(board_of(&out).is_empty());
    assert_eq!(hand_of(&out), tiles(&["j", "j"]));
}

#[test]
fn joker_on_the_board_must_be_used() {
    let out = check_laws(&["j"], &["r1"]);
    assert_eq!(board_of(&out), tiles(&["j"]));
    assert_eq!(hand_of(&out), tiles(&["r1"]));
    assert_eq!(plan(&["j"], &["r1"]), None);
    assert_eq!(plan(&["j"], &["r1", "r2"]), Some(vec![tiles(&["r1", "r2", "j"])]));
}

#[test]
fn most_tiles_win_over_more_groups() {
    let got = plan(&[], &["r1", "r2", "r3", "r4", "r5", "b3", "y3"]);
    assert_eq!(got, Some(vec![tiles(&["r1", "r2", "r3", "r4", "r5"])]));
    let out = check_laws(&[], &["r1", "r2", "r3", "r4", "r5", "b3", "y3"]);
    assert_eq!(hand_of(&out), tiles(&["b3", "y3"]));
}

#[test]
fn more_groups_win_among_equal_counts() {
    let got = plan(&["r1", "r2", "r3", "r4", "r5", "r6"], &[]);
    assert_eq!(got, Some(vec![tiles(&["r1", "r2", "r3"]), tiles(&["r4", "r5", "r6"])]));
}

#[test]
fn smallest_plan_wins_among_equal_counts_and_groups() {
    let got = plan(&["r1", "r2", "r3", "r4", "r5", "r6", "r7"], &[]);
    assert_eq!(got, Some(vec![tiles(&["r1", "r2", "r3"]), tiles(&["r4", "r5", "r6", "r7"])]));
    let got = plan(&[], &["r1", "r2", "r3", "b3", "y3"]);
    assert_eq!(got, Some(vec![tiles(&["r1", "r2", "r3"])]));
    let out = check_laws(&[], &["r1", "r2", "r3", "b3", "y3"]);
    assert_eq!(hand_of(&out), tiles(&["b3", "y3"]));
}

#[test]
fn duplicates_are_told_apart() {
    let out = check_laws(&["r1", "r2", "r3", "r1", "r2", "r3"], &["r1"]);
    assert_eq!(board_of(&out), tiles(&["r1", "r1", "r2", "r2", "r3", "r3"]));
    assert_eq!(hand_of(&out), tiles(&["r1"]));
    assert_eq!(
        plan(&["r1", "r2", "r3", "r1", "r2", "r3"], &[]),
        Some(vec![tiles(&["r1", "r2", "r3"]), tiles(&["r1", "r2", "r3"])])
    );
}

#[test]
fn board_must_be_taken_apart_to_place_the_hand() {
    let out = check_laws(&["r3", "r4", "r5", "r6", "b6", "y6", "x6"], &["r7", "r2"]);
    assert_eq!(hand_of(&out), tiles(&[]));
    assert_eq!(board_of(&out), tiles(&["r2", "r3", "r4", "r5", "r6", "r7", "b6", "y6", "x6"]));
}

#[test]
fn a_crowded_board_is_rearranged() {
    let board = [
        "r1", "r4", "r12", "b1", "b4", "b12", "y1", "y2", "y3", "x1", "x1", "x2", "x3", "x4",
        "x4", "x6", "x8", "x12", "j",
    ];
    let out = check_laws(&board, &[]);
    assert_eq!(board_of(&out).len(), 19);
    assert!(hand_of(&out).is_empty());
}

#[test]
fn a_crowded_board_takes_tiles_from_a_full_hand() {
    let board = [
        "r1", "r4", "r12", "b1", "b4", "b12", "y1", "y2", "y3", "x1", "x1", "x2", "x3", "x4",
        "x4", "x6", "x8", "x12", "j",
    ];
    let hand = ["y6", "y6", "b9", "x9", "r7", "y7", "r1", "r2", "x8", "x12", "r13"];
    let out = check_laws(&board, &hand);
    assert_eq!(board_of(&out).len() + hand_of(&out).len(), 30);
}
