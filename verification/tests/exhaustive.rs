use rummikub_solver::solver::{best_plan, solve};
use rummikub_solver::state::State;
use rummikub_solver::tile::{Colour, Tile};

struct Dice(u64);

impl Dice {
    fn roll(&mut self, n: usize) -> usize {
        self.0 = self.0.wrapping_mul(6364136223846793005).wrapping_add(1442695040888963407);
        ((self.0 >> 33) as usize) % n
    }
}

fn random_tile(dice: &mut Dice, numbers: u8) -> Tile {
    let colours = [Colour::Red, Colour::Blue, Colour::Yellow, Colour::Black];
    if dice.roll(8) == 0 {
        Tile::Joker
    } else {
        Tile::Normal(colours[dice.roll(4)], 1 + dice.roll(numbers as usize) as u8)
    }
}

fn legal(group: &[Tile]) -> bool {
    let normals: Vec<(Colour, u8)> = group
        .iter()
        .filter_map(|t| match t {
            Tile::Normal(c, n) => Some((*c, *n)),
            Tile::Joker => None,
        })
        .collect();
    if group.len() < 3 || normals.is_empty() {
        return false;
    }
    for (i, a) in normals.iter().enumerate() {
        for b in &normals[i + 1..] {
            if a == b {
                return false;
            }
        }
    }
    let lowest = normals.iter().map(|x| x.1).min().unwrap();
    let highest = normals.iter().map(|x| x.1).max().unwrap();
    let run = group.len() <= 13
        && normals.iter().all(|x| x.0 == normals[0].0)
        && (highest - lowest) as usize + 1 <= group.len();
    let set = group.len() <= 4 && normals.iter().all(|x| x.1 == normals[0].1);
    lowest >= 1 && highest <= 13 && (run || set)
}

fn partitions(
    rest: &mut Vec<(Tile, bool)>,
    so_far: &mut Vec<Vec<Tile>>,
    found: &mut Vec<Vec<Vec<Tile>>>,
) {
    if rest.is_empty() {
        let mut plan = so_far.clone();
        plan.sort();
        found.push(plan);
        return;
    }
    let (first, from_hand) = rest.remove(0);
    if from_hand {
        partitions(rest, so_far, found);
    }
    let n = rest.len();
    for mask in 1u32..(1u32 << n) {
        if mask.count_ones() < 2 || mask.count_ones() > 12 {
            continue;
        }
        let mut group = vec![first];
        let mut others = Vec::new();
        for (i, entry) in rest.iter().enumerate() {
            if mask & (1 << i) != 0 {
                group.push(entry.0);
            } else {
                others.push(*entry);
            }
        }
        if legal(&group) {
            group.sort();
            so_far.push(group);
            partitions(&mut others, so_far, found);
            so_far.pop();
        }
    }
    rest.insert(0, (first, from_hand));
}

fn preferred(board: &[Tile], hand: &[Tile]) -> Option<Vec<Vec<Tile>>> {
    let mut all: Vec<(Tile, bool)> = board.iter().map(|t| (*t, false)).collect();
    all.extend(hand.iter().map(|t| (*t, true)));
    all.sort_by(|a, b| (a.0, b.1).cmp(&(b.0, a.1)));
    let mut found = Vec::new();
    partitions(&mut all, &mut Vec::new(), &mut found);
    found.sort_by(|a, b| {
        let size_a: usize = a.iter().map(|g| g.len()).sum();
        let size_b: usize = b.iter().map(|g| g.len()).sum();
        size_b.cmp(&size_a).then(b.len().cmp(&a.len())).then(a.cmp(b))
    });
    found.into_iter().next()
}

fn compare(seed: u64, board_size: usize, hand_size: usize, numbers: u8) {
    let mut dice = Dice(seed);
    let mut state = State::new();
    let mut board = Vec::new();
    let mut hand = Vec::new();
    for _ in 0..board_size {
        let t = random_tile(&mut dice, numbers);
        board.push(t);
        state.add_to_board(t);
    }
    for _ in 0..hand_size {
        let t = random_tile(&mut dice, numbers);
        hand.push(t);
        state.add_to_hand(t);
    }
    let expected = preferred(&board, &hand);
    let got = best_plan(&state.board, &state.hand);
    assert_eq!(got, expected, "board {:?} hand {:?}", board, hand);
    let solved = solve(&state);
    let new_board: Vec<Tile> = solved.board.iter().copied().collect();
    let new_hand: Vec<Tile> = solved.hand.iter().copied().collect();
    match expected {
        Some(plan) => {
            let mut laid: Vec<Tile> = plan.into_iter().flatten().collect();
            laid.sort();
            let mut rest = board.clone();
            rest.extend(hand.iter().copied());
            for t in &laid {
                let at = rest.iter().position(|x| x == t).unwrap();
                rest.remove(at);
            }
            rest.sort();
            assert_eq!(new_board, laid);
            assert_eq!(new_hand, rest);
        }
        None => {
            board.sort();
            hand.sort();
            assert_eq!(new_board, board);
            assert_eq!(new_hand, hand);
        }
    }
}

#[test]
fn agrees_with_exhaustive_search_on_hands_alone() {
    for seed in 0..150 {
        compare(seed, 0, 3 + (seed as usize % 6), 4);
    }
}

#[test]
fn agrees_with_exhaustive_search_on_small_boards() {
    for seed in 0..150 {
        compare(1000 + seed, 1 + (seed as usize % 4), seed as usize % 6, 4);
    }
}

#[test]
fn agrees_with_exhaustive_search_on_narrow_numbers() {
    for seed in 0..150 {
        compare(2000 + seed, seed as usize % 5, 2 + (seed as usize % 6), 3);
    }
}

#[test]
fn agrees_with_exhaustive_search_on_boards_of_groups() {
    let tokens = [
        ["r1", "r2", "r3"],
        ["b2", "y2", "x2"],
        ["r3", "b3", "y3"],
        ["y1", "y2", "y3"],
        ["x1", "x2", "j"],
    ];
    for seed in 0..60u64 {
        let mut dice = Dice(3000 + seed);
        let mut state = State::new();
        let mut board = Vec::new();
        let mut hand = Vec::new();
        for group in tokens.iter().skip(dice.roll(3)).take(2) {
            for token in group {
                let t = Tile::from_str(token).unwrap();
                board.push(t);
                state.add_to_board(t);
            }
        }
        for _ in 0..(1 + dice.roll(4)) {
            let t = random_tile(&mut dice, 4);
            hand.push(t);
            state.add_to_hand(t);
        }
        let expected = preferred(&board, &hand);
        assert!(expected.is_some());
        assert_eq!(best_plan(&state.board, &state.hand), expected);
    }
}
