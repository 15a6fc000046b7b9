use rummikub_solver::candidates::candidates;
use rummikub_solver::forcing::stranded;
use rummikub_solver::group::is_valid;
use rummikub_solver::search::search;
use rummikub_solver::table::{first_held, lay_out, one_less, take_out, tally};
use rummikub_solver::tile::Tile;

fn tiles(tokens: &[&str]) -> Vec<Tile> {
    tokens.iter().map(|s| Tile::from_str(s).unwrap()).collect()
}

fn table(tokens: &[&str]) -> Vec<usize> {
    tally(&tiles(tokens))
}

#[test]
fn tally_counts_each_kind() {
    let t = table(&["r1", "r1", "b1", "x13", "j", "j"]);
    assert_eq!(t.len(), 53);
    assert_eq!(t[0], 2);
    assert_eq!(t[13], 1);
    assert_eq!(t[51], 1);
    assert_eq!(t[52], 2);
    assert_eq!(t.iter().sum::<usize>(), 6);
}

#[test]
fn lay_out_gives_the_tiles_in_canonical_order() {
    let t = table(&["j", "x13", "b1", "r1", "j", "r1"]);
    let laid: Vec<Tile> = lay_out(&t).into_iter().collect();
    assert_eq!(laid, tiles(&["r1", "r1", "b1", "x13", "j", "j"]));
}

#[test]
fn lay_out_of_the_empty_table_is_empty() {
    assert!(lay_out(&table(&[])).is_empty());
}

#[test]
fn first_held_finds_the_smallest_kind() {
    assert_eq!(first_held(&table(&[])), None);
    assert_eq!(first_held(&table(&["j"])), Some(52));
    assert_eq!(first_held(&table(&["x2", "b7", "j"])), Some(19));
}

#[test]
fn one_less_takes_one_tile_away() {
    let t = table(&["r1", "r1", "b1"]);
    assert_eq!(one_less(&t, 0), table(&["r1", "b1"]));
    assert_eq!(one_less(&t, 13), table(&["r1", "r1"]));
}

#[test]
fn take_out_removes_a_group() {
    let t = table(&["r1", "r2", "r3", "r3", "j"]);
    assert_eq!(take_out(&t, &tiles(&["r1", "r2", "r3"])), Some(table(&["r3", "j"])));
    assert_eq!(take_out(&t, &tiles(&["r3", "j", "r3"])), Some(table(&["r1", "r2"])));
    assert_eq!(take_out(&t, &tiles(&[])), Some(t.clone()));
}

#[test]
fn take_out_fails_where_a_tile_is_missing() {
    let t = table(&["r1", "r2", "r3", "j"]);
    assert_eq!(take_out(&t, &tiles(&["r1", "r1", "r2"])), None);
    assert_eq!(take_out(&t, &tiles(&["j", "j", "r1"])), None);
    assert_eq!(take_out(&t, &tiles(&["b5"])), None);
}

#[test]
fn candidates_of_a_lonely_tile() {
    assert!(candidates(&table(&["r1"]), 0).is_empty());
    assert!(candidates(&table(&["r1", "r2", "b1"]), 0).is_empty());
}

#[test]
fn candidates_are_all_the_groups_with_the_tile_in_front() {
    let rem = table(&["r1", "r2", "r3", "r4", "b1", "y1", "x2"]);
    let mut got = candidates(&rem, 0);
    got.sort();
    let mut expected = vec![
        tiles(&["r1", "r2", "r3"]),
        tiles(&["r1", "r2", "r3", "r4"]),
        tiles(&["r1", "b1", "y1"]),
    ];
    expected.sort();
    assert_eq!(got, expected);
}

#[test]
fn candidates_use_the_jokers_of_the_table() {
    let rem = table(&["r1", "r3", "b1", "j"]);
    let mut got = candidates(&rem, 0);
    got.sort();
    let mut expected = vec![tiles(&["r1", "r3", "j"]), tiles(&["r1", "b1", "j"])];
    expected.sort();
    assert_eq!(got, expected);
    for group in &got {
        assert!(is_valid(group));
    }
}

#[test]
fn candidates_with_two_jokers() {
    let rem = table(&["x12", "x13", "j", "j"]);
    let mut got = candidates(&rem, 50);
    got.sort();
    let mut expected = vec![
        tiles(&["x12", "j", "j"]),
        tiles(&["x12", "x13", "j"]),
        tiles(&["x12", "x13", "j", "j"]),
    ];
    expected.sort();
    assert_eq!(got, expected);
}

#[test]
fn candidates_begin_with_the_tile_asked_for() {
    let rem = table(&["r1", "r2", "r3", "r4", "r5", "b3", "y3", "x3", "j", "j"]);
    let got = candidates(&rem, 2);
    assert!(got.contains(&tiles(&["r3", "r4", "r5"])));
    assert!(got.contains(&tiles(&["r3", "b3", "y3", "x3"])));
    assert!(got.contains(&tiles(&["r3", "r5", "j"])));
    assert!(!got.contains(&tiles(&["r1", "r2", "r3"])));
    for group in &got {
        assert_eq!(group[0], Tile::from_str("r3").unwrap());
        assert!(is_valid(group));
        assert!(take_out(&rem, group).is_some());
    }
    let mut unique = got.clone();
    unique.sort();
    unique.dedup();
    assert_eq!(unique.len(), got.len());
}

#[test]
fn candidates_come_in_rising_order() {
    let rem = table(&[
        "r1", "r2", "r3", "r4", "r5", "r5", "b3", "y3", "x3", "b4", "b5", "j", "j",
    ]);
    for k in [0usize, 2, 4, 15] {
        let got = candidates(&rem, k);
        let mut sorted = got.clone();
        sorted.sort();
        sorted.dedup();
        assert_eq!(got, sorted);
        assert!(!got.is_empty());
    }
    assert_eq!(
        candidates(&table(&["x11", "x12", "x13", "j"]), 49),
        vec![
            tiles(&["x11", "x12", "x13"]),
            tiles(&["x11", "x12", "x13", "j"]),
            tiles(&["x11", "x12", "j"]),
            tiles(&["x11", "x13", "j"]),
        ]
    );
}

#[test]
fn stranded_tile_condemns_the_table() {
    let none = table(&[]);
    assert!(stranded(&table(&["r1", "b2"]), &none));
    assert!(stranded(&table(&["r1", "r2", "r3", "y9"]), &none));
    assert!(stranded(&table(&["r1", "r2", "r4"]), &none));
}

#[test]
fn tiles_with_room_do_not_condemn_the_table() {
    let none = table(&[]);
    assert!(!stranded(&table(&["r1", "r2", "r3"]), &none));
    assert!(!stranded(&table(&["r1", "b1", "x1"]), &none));
    assert!(!stranded(&table(&[]), &none));
}

#[test]
fn tiles_that_may_stay_do_not_condemn_the_table() {
    assert!(!stranded(&table(&["r1", "b2"]), &table(&["r1", "b2"])));
    assert!(stranded(&table(&["r1", "b2"]), &table(&["r1"])));
}

#[test]
fn a_joker_at_hand_keeps_the_table_open() {
    let none = table(&[]);
    assert!(!stranded(&table(&["r1", "b2", "j"]), &none));
}

#[test]
fn search_lays_down_everything_it_can() {
    let rem = table(&["r1", "r2", "r3", "y13"]);
    let cap = table(&["y13"]);
    assert_eq!(search(&rem, &cap), Some((vec![tiles(&["r1", "r2", "r3"])], 3)));
}

#[test]
fn search_fails_where_a_tile_must_stay() {
    let rem = table(&["r1", "r2", "r3", "y13"]);
    assert_eq!(search(&rem, &table(&[])), None);
}

#[test]
fn search_of_the_empty_table_finds_the_empty_plan() {
    assert_eq!(search(&table(&[]), &table(&[])), Some((vec![], 0)));
}

#[test]
fn search_prefers_tiles_then_groups_then_order() {
    let all = ["r1", "r2", "r3", "r4", "r5", "r6", "b4", "y4"];
    let got = search(&table(&all), &table(&all));
    assert_eq!(
        got,
        Some((vec![tiles(&["r1", "r2", "r3"]), tiles(&["r4", "r5", "r6"])], 6))
    );
    let all = ["r1", "r2", "r3", "r4", "r5", "r6", "b4", "y4", "x4"];
    let got = search(&table(&all), &table(&all));
    assert_eq!(
        got,
        Some((
            vec![
                tiles(&["r1", "r2", "r3"]),
                tiles(&["r4", "r5", "r6"]),
                tiles(&["b4", "y4", "x4"])
            ],
            9
        ))
    );
}
