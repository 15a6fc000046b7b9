use rummikub_solver::group::{classify, is_valid, GroupKind};
use rummikub_solver::tile::{Colour, Tile};

fn t(token: &str) -> Tile {
    Tile::from_str(token).unwrap()
}

fn g(tokens: &[&str]) -> Vec<Tile> {
    tokens.iter().map(|s| t(s)).collect()
}

#[test]
fn plain_run() {
    assert_eq!(classify(&g(&["r1", "r2", "r3"])), GroupKind::Run);
    assert!(is_valid(&g(&["r1", "r2", "r3"])));
}

#[test]
fn run_in_any_order() {
    assert_eq!(classify(&g(&["r3", "r1", "r2"])), GroupKind::Run);
    assert_eq!(classify(&g(&["b9", "j", "b7"])), GroupKind::Run);
}

#[test]
fn longest_run() {
    let all: Vec<Tile> = (1..=13u8).map(|n| Tile::Normal(Colour::Yellow, n)).collect();
    assert_eq!(classify(&all), GroupKind::Run);
}

#[test]
fn run_with_joker_in_a_gap() {
    assert_eq!(classify(&g(&["r7", "j", "r9"])), GroupKind::Run);
}

#[test]
fn run_with_joker_at_an_end() {
    assert_eq!(classify(&g(&["r7", "r8", "r9", "j"])), GroupKind::Run);
    assert_eq!(classify(&g(&["j", "x12", "x13"])), GroupKind::Run);
    assert_eq!(classify(&g(&["x1", "x2", "j"])), GroupKind::Run);
}

#[test]
fn run_with_two_jokers() {
    assert_eq!(classify(&g(&["b3", "j", "j", "b6"])), GroupKind::Run);
    assert_eq!(classify(&g(&["b3", "j", "j", "b7"])), GroupKind::Invalid);
}

#[test]
fn run_with_a_gap_too_wide() {
    assert_eq!(classify(&g(&["r1", "r2", "r4"])), GroupKind::Invalid);
    assert_eq!(classify(&g(&["r1", "j", "r4"])), GroupKind::Invalid);
}

#[test]
fn run_of_mixed_colours_is_invalid() {
    assert_eq!(classify(&g(&["r1", "r2", "b3"])), GroupKind::Invalid);
}

#[test]
fn run_with_a_repeated_number_is_invalid() {
    assert_eq!(classify(&g(&["r1", "r2", "r2", "r3"])), GroupKind::Invalid);
}

#[test]
fn run_too_long_for_the_numbers_is_invalid() {
    let mut all: Vec<Tile> = (1..=13u8).map(|n| Tile::Normal(Colour::Yellow, n)).collect();
    all.push(Tile::Joker);
    assert_eq!(classify(&all), GroupKind::Invalid);
}

#[test]
fn plain_sets() {
    assert_eq!(classify(&g(&["r5", "b5", "y5"])), GroupKind::NumberSet);
    assert_eq!(classify(&g(&["x5", "r5", "b5", "y5"])), GroupKind::NumberSet);
    assert!(is_valid(&g(&["x5", "r5", "b5", "y5"])));
}

#[test]
fn set_with_jokers() {
    assert_eq!(classify(&g(&["r5", "b5", "j"])), GroupKind::NumberSet);
    assert_eq!(classify(&g(&["r5", "b5", "j", "j"])), GroupKind::NumberSet);
    assert_eq!(classify(&g(&["r5", "b5", "y5", "j"])), GroupKind::NumberSet);
}

#[test]
fn set_of_five_is_invalid() {
    assert_eq!(classify(&g(&["r5", "b5", "y5", "x5", "j"])), GroupKind::Invalid);
}

#[test]
fn set_with_a_repeated_colour_is_invalid() {
    assert_eq!(classify(&g(&["r5", "r5", "b5"])), GroupKind::Invalid);
    assert_eq!(classify(&g(&["r5", "r5", "j"])), GroupKind::Invalid);
}

#[test]
fn two_tiles_and_a_joker() {
    assert_eq!(classify(&g(&["r5", "b5", "j"])), GroupKind::NumberSet);
    assert_eq!(classify(&g(&["r5", "b6", "j"])), GroupKind::Invalid);
    assert_eq!(classify(&g(&["r5", "r6", "j"])), GroupKind::Run);
}

#[test]
fn one_tile_and_two_jokers_counts_as_a_run() {
    assert_eq!(classify(&g(&["r5", "j", "j"])), GroupKind::Run);
    assert_eq!(classify(&g(&["j", "x13", "j"])), GroupKind::Run);
}

#[test]
fn three_jokers_are_invalid() {
    assert_eq!(classify(&g(&["j", "j", "j"])), GroupKind::Invalid);
    assert!(!is_valid(&g(&["j", "j", "j"])));
}

#[test]
fn short_sequences_are_invalid() {
    assert_eq!(classify(&[]), GroupKind::Invalid);
    assert_eq!(classify(&g(&["r1"])), GroupKind::Invalid);
    assert_eq!(classify(&g(&["r1", "r2"])), GroupKind::Invalid);
    assert_eq!(classify(&g(&["r1", "j"])), GroupKind::Invalid);
    assert!(!is_valid(&g(&["r1", "r2"])));
}

#[test]
fn numbers_out_of_range_are_invalid() {
    let zero = vec![Tile::Normal(Colour::Red, 0), Tile::Normal(Colour::Red, 1), Tile::Normal(Colour::Red, 2)];
    assert_eq!(classify(&zero), GroupKind::Invalid);
    let high = vec![Tile::Normal(Colour::Red, 12), Tile::Normal(Colour::Red, 13), Tile::Normal(Colour::Red, 14)];
    assert_eq!(classify(&high), GroupKind::Invalid);
    let set = vec![Tile::Normal(Colour::Red, 14), Tile::Normal(Colour::Blue, 14), Tile::Normal(Colour::Black, 14)];
    assert_eq!(classify(&set), GroupKind::Invalid);
}

#[test]
fn validity_does_not_depend_on_order() {
    let tiles = g(&["b4", "j", "b6", "b7"]);
    let mut orders = vec![tiles.clone()];
    let mut reversed = tiles.clone();
    reversed.reverse();
    orders.push(reversed);
    let mut rotated = tiles.clone();
    rotated.rotate_left(1);
    orders.push(rotated);
    for order in orders {
        assert_eq!(classify(&order), GroupKind::Run);
    }
}
