use rummikub_solver::arrange::arrange;
use rummikub_solver::tile::{Colour, Tile};

fn g(tokens: &[&str]) -> Vec<Tile> {
    tokens.iter().map(|s| Tile::from_str(s).unwrap()).collect()
}

#[test]
fn run_is_written_in_rising_order() {
    assert_eq!(arrange(&g(&["r3", "r1", "r2"])), Some(g(&["r1", "r2", "r3"])));
}

#[test]
fn joker_fills_the_gap() {
    assert_eq!(arrange(&g(&["r9", "j", "r7"])), Some(g(&["r7", "j", "r9"])));
    assert_eq!(arrange(&g(&["j", "b3", "b6", "j"])), Some(g(&["b3", "j", "j", "b6"])));
    assert_eq!(arrange(&g(&["j", "b3", "b5", "j"])), Some(g(&["b3", "j", "b5", "j"])));
}

#[test]
fn spare_joker_goes_to_the_top() {
    assert_eq!(arrange(&g(&["j", "r7", "r8", "r9"])), Some(g(&["r7", "r8", "r9", "j"])));
    assert_eq!(arrange(&g(&["j", "r5", "j"])), Some(g(&["r5", "j", "j"])));
    assert_eq!(arrange(&g(&["j", "x11", "x12"])), Some(g(&["x11", "x12", "j"])));
}

#[test]
fn spare_joker_goes_below_where_the_top_is_taken() {
    assert_eq!(arrange(&g(&["x12", "x13", "j"])), Some(g(&["j", "x12", "x13"])));
    assert_eq!(arrange(&g(&["x13", "j", "j"])), Some(g(&["j", "j", "x13"])));
    assert_eq!(arrange(&g(&["x12", "j", "j"])), Some(g(&["j", "x12", "j"])));
}

#[test]
fn full_run_keeps_its_thirteen_places() {
    let mut all: Vec<Tile> = (1..=13u8).rev().map(|n| Tile::Normal(Colour::Yellow, n)).collect();
    all[4] = Tile::Joker;
    let mut expected: Vec<Tile> = (1..=13u8).map(|n| Tile::Normal(Colour::Yellow, n)).collect();
    expected[8] = Tile::Joker;
    assert_eq!(arrange(&all), Some(expected));
}

#[test]
fn set_is_written_by_colour_with_jokers_last() {
    assert_eq!(arrange(&g(&["x5", "j", "r5"])), Some(g(&["r5", "x5", "j"])));
    assert_eq!(arrange(&g(&["x5", "y5", "b5", "r5"])), Some(g(&["r5", "b5", "y5", "x5"])));
    assert_eq!(arrange(&g(&["j", "y5", "j", "b5"])), Some(g(&["b5", "y5", "j", "j"])));
}

#[test]
fn what_is_no_group_has_no_written_form() {
    assert_eq!(arrange(&g(&["r1", "r2"])), None);
    assert_eq!(arrange(&g(&["j", "j", "j"])), None);
    assert_eq!(arrange(&g(&["r1", "r2", "b3"])), None);
    assert_eq!(arrange(&g(&["r1", "r1", "r2", "r3"])), None);
    assert_eq!(arrange(&[]), None);
}

#[test]
fn written_form_keeps_the_tiles() {
    for tokens in [
        vec!["r9", "j", "r7"],
        vec!["x13", "j", "j"],
        vec!["b5", "y5", "j"],
        vec!["y4", "y2", "j", "y1", "j", "y6"],
    ] {
        let group = g(&tokens);
        let written = arrange(&group).unwrap();
        let mut a = group.clone();
        let mut b = written.clone();
        a.sort();
        b.sort();
        assert_eq!(a, b);
        assert_eq!(arrange(&written), Some(written));
    }
}
