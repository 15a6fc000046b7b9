use rummikub_solver::state::State;
use rummikub_solver::tile::{Colour, Tile};

fn t(token: &str) -> Tile {
    Tile::from_str(token).unwrap()
}

#[test]
fn new_state_is_empty() {
    let mut s = State::new();
    assert!(s.board().is_empty());
    assert!(s.hand().is_empty());
}

#[test]
fn tiles_enter_the_board_in_canonical_order() {
    let mut s = State::new();
    for token in ["x3", "r12", "j", "b1", "r4", "r1", "y2", "j", "r4"] {
        s.add_to_board(t(token));
    }
    let expected: Vec<Tile> =
        ["r1", "r4", "r4", "r12", "b1", "y2", "x3", "j", "j"].iter().map(|s| t(s)).collect();
    assert_eq!(s.board().iter().copied().collect::<Vec<Tile>>(), expected);
    assert!(s.hand().is_empty());
}

#[test]
fn tiles_enter_the_hand_in_canonical_order() {
    let mut s = State::new();
    for token in ["y6", "y6", "b9", "x9", "r7", "y7", "r1", "r2", "x8", "x12", "r13"] {
        s.add_to_hand(t(token));
    }
    let expected: Vec<Tile> = ["r1", "r2", "r7", "r13", "b9", "y6", "y6", "y7", "x8", "x9", "x12"]
        .iter()
        .map(|s| t(s))
        .collect();
    assert_eq!(s.hand().iter().copied().collect::<Vec<Tile>>(), expected);
    assert!(s.board().is_empty());
}

#[test]
fn adding_keeps_every_tile() {
    let mut s = State::new();
    let mut count = 0;
    for c in [Colour::Black, Colour::Red, Colour::Yellow, Colour::Blue] {
        for n in (1..=13u8).rev() {
            s.add_to_board(Tile::Normal(c, n));
            s.add_to_board(Tile::Normal(c, n));
            count += 2;
            assert_eq!(s.board().len(), count);
        }
    }
    let board: Vec<Tile> = s.board().iter().copied().collect();
    let mut sorted = board.clone();
    sorted.sort();
    assert_eq!(board, sorted);
    for c in [Colour::Black, Colour::Red, Colour::Yellow, Colour::Blue] {
        for n in 1..=13u8 {
            assert_eq!(board.iter().filter(|t| **t == Tile::Normal(c, n)).count(), 2);
        }
    }
}

#[test]
fn accessors_give_the_tiles_to_change() {
    let mut s = State::new();
    s.add_to_board(t("r1"));
    s.add_to_hand(t("b2"));
    s.board().push_back(t("y3"));
    s.hand().clear();
    assert_eq!(s.board().len(), 2);
    assert_eq!(s.board()[1], t("y3"));
    assert!(s.hand().is_empty());
}

#[test]
fn format_of_the_empty_state() {
    let mut s = State::new();
    assert_eq!(s.format(), "Board:\nHand:\n");
}

#[test]
fn format_lists_board_and_hand() {
    let mut s = State::new();
    for token in ["r1", "r2", "r3", "b1", "b2", "b3", "y1", "y2", "y3", "x1", "x2", "j"] {
        s.add_to_board(t(token));
    }
    s.add_to_hand(t("y13"));
    assert_eq!(
        s.format(),
        "Board:\nr1 r2 r3 b1 b2 b3 y1 y2 y3 x1 \nx2 j \nHand:\ny13 \n"
    );
    assert_eq!(s.board().len(), 12);
    assert_eq!(s.hand().len(), 1);
}
