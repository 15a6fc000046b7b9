use rummikub_solver::tile::{Colour, Tile};

fn all_tiles() -> Vec<Tile> {
    let mut v = Vec::new();
    for c in [Colour::Red, Colour::Blue, Colour::Yellow, Colour::Black] {
        for n in 1..=13u8 {
            v.push(Tile::Normal(c, n));
        }
    }
    v.push(Tile::Joker);
    v
}

#[test]
fn colour_letters() {
    assert_eq!(Colour::Red.get_char(), 'r');
    assert_eq!(Colour::Blue.get_char(), 'b');
    assert_eq!(Colour::Yellow.get_char(), 'y');
    assert_eq!(Colour::Black.get_char(), 'x');
    assert_eq!(Colour::RED_CHAR, 'r');
    assert_eq!(Colour::BLACK_CHAR, 'x');
}

#[test]
fn colour_positions_round_trip() {
    for (i, c) in [Colour::Red, Colour::Blue, Colour::Yellow, Colour::Black].iter().enumerate() {
        assert_eq!(c.position(), i);
        assert_eq!(Colour::from_position(i), *c);
    }
}

#[test]
fn accessors_of_a_coloured_tile() {
    let t = Tile::Normal(Colour::Yellow, 7);
    assert!(!t.is_joker());
    assert_eq!(t.colour(), Some(Colour::Yellow));
    assert_eq!(t.number(), Some(7));
}

#[test]
fn accessors_of_the_joker() {
    let t = Tile::Joker;
    assert!(t.is_joker());
    assert_eq!(t.colour(), None);
    assert_eq!(t.number(), None);
}

#[test]
fn kinds_count_the_tiles_in_order() {
    let tiles = all_tiles();
    assert_eq!(tiles.len(), 53);
    for (k, t) in tiles.iter().enumerate() {
        assert_eq!(t.kind(), k);
        assert_eq!(Tile::of_kind(k), *t);
    }
    assert_eq!(Tile::Normal(Colour::Blue, 1).kind(), 13);
    assert_eq!(Tile::Normal(Colour::Black, 13).kind(), 51);
    assert_eq!(Tile::Joker.kind(), 52);
}

#[test]
fn order_is_colour_then_number_then_joker() {
    let r13 = Tile::Normal(Colour::Red, 13);
    let b1 = Tile::Normal(Colour::Blue, 1);
    let b2 = Tile::Normal(Colour::Blue, 2);
    let x13 = Tile::Normal(Colour::Black, 13);
    assert!(r13.precedes(&b1));
    assert!(!b1.precedes(&r13));
    assert!(b1.precedes(&b2));
    assert!(!b2.precedes(&b1));
    assert!(!b1.precedes(&b1));
    assert!(x13.precedes(&Tile::Joker));
    assert!(!Tile::Joker.precedes(&x13));
    assert!(!Tile::Joker.precedes(&Tile::Joker));
}

#[test]
fn order_is_a_strict_total_order_on_all_tiles() {
    let tiles = all_tiles();
    for (i, a) in tiles.iter().enumerate() {
        for (j, b) in tiles.iter().enumerate() {
            assert_eq!(a.precedes(b), i < j);
            assert_eq!(a.precedes(b), a < b);
            assert_eq!(a == b, i == j);
        }
    }
}

#[test]
fn parse_joker() {
    assert_eq!(Tile::from_str("j"), Ok(Tile::Joker));
}

#[test]
fn parse_coloured_tiles() {
    assert_eq!(Tile::from_str("r12"), Ok(Tile::Normal(Colour::Red, 12)));
    assert_eq!(Tile::from_str("b1"), Ok(Tile::Normal(Colour::Blue, 1)));
    assert_eq!(Tile::from_str("y13"), Ok(Tile::Normal(Colour::Yellow, 13)));
    assert_eq!(Tile::from_str("x4"), Ok(Tile::Normal(Colour::Black, 4)));
}

#[test]
fn parse_accepts_sign_and_leading_zeros() {
    assert_eq!(Tile::from_str("r+5"), Ok(Tile::Normal(Colour::Red, 5)));
    assert_eq!(Tile::from_str("r007"), Ok(Tile::Normal(Colour::Red, 7)));
    assert_eq!(Tile::from_str("x0000000000000000000000013"), Ok(Tile::Normal(Colour::Black, 13)));
}

#[test]
fn parse_empty_token() {
    assert_eq!(Tile::from_str(""), Err("No string"));
}

#[test]
fn parse_single_character_that_is_no_joker() {
    assert_eq!(Tile::from_str("r"), Err("Not joker"));
    assert_eq!(Tile::from_str("5"), Err("Not joker"));
    assert_eq!(Tile::from_str(" "), Err("Not joker"));
}

#[test]
fn parse_unknown_colour() {
    assert_eq!(Tile::from_str("g5"), Err("Invalid colour"));
    assert_eq!(Tile::from_str("j1"), Err("Invalid colour"));
    assert_eq!(Tile::from_str("R5"), Err("Invalid colour"));
    assert_eq!(Tile::from_str("\u{e9}"), Err("Invalid colour"));
}

#[test]
fn parse_invalid_number() {
    assert_eq!(Tile::from_str("rx"), Err("Invalid number"));
    assert_eq!(Tile::from_str("r1a"), Err("Invalid number"));
    assert_eq!(Tile::from_str("r-1"), Err("Invalid number"));
    assert_eq!(Tile::from_str("r+"), Err("Invalid number"));
    assert_eq!(Tile::from_str("r++1"), Err("Invalid number"));
    assert_eq!(Tile::from_str("r 1"), Err("Invalid number"));
    assert_eq!(Tile::from_str("r1 "), Err("Invalid number"));
    assert_eq!(Tile::from_str("r256"), Err("Invalid number"));
    assert_eq!(Tile::from_str("r99999999999999999999"), Err("Invalid number"));
}

#[test]
fn parse_number_out_of_range() {
    assert_eq!(Tile::from_str("r0"), Err("Number out of range"));
    assert_eq!(Tile::from_str("r14"), Err("Number out of range"));
    assert_eq!(Tile::from_str("r255"), Err("Number out of range"));
}

#[test]
fn parse_agrees_with_the_standard_number_parser() {
    for tail in ["", "+", "-", "0", "1", "13", "14", "+13", "013", "255", "256", "1e1", "\u{663}", "1\u{663}"] {
        let token = format!("b{}", tail);
        let expected = if token.len() == 1 {
            Err("Not joker")
        } else {
            match tail.parse::<u8>() {
                Err(_) => Err("Invalid number"),
                Ok(n) if (1..=13).contains(&n) => Ok(Tile::Normal(Colour::Blue, n)),
                Ok(_) => Err("Number out of range"),
            }
        };
        assert_eq!(Tile::from_str(&token), expected, "token {:?}", token);
    }
}

#[test]
fn render_tiles() {
    assert_eq!(Tile::Joker.to_string(), "j ");
    assert_eq!(Tile::Normal(Colour::Red, 5).to_string(), "r5 ");
    assert_eq!(Tile::Normal(Colour::Black, 13).to_string(), "x13 ");
    assert_eq!(Tile::Normal(Colour::Yellow, 10).to_string(), "y10 ");
    assert_eq!(Tile::Normal(Colour::Blue, 9).to_string(), "b9 ");
}

#[test]
fn render_numbers_of_three_digits() {
    assert_eq!(Tile::Normal(Colour::Blue, 100).to_string(), "b100 ");
    assert_eq!(Tile::Normal(Colour::Blue, 255).to_string(), "b255 ");
    assert_eq!(Tile::Normal(Colour::Blue, 0).to_string(), "b0 ");
}

#[test]
fn render_agrees_with_the_standard_formatter() {
    for n in 0..=255u8 {
        assert_eq!(Tile::Normal(Colour::Red, n).to_string(), format!("r{} ", n));
    }
}

#[test]
fn round_trip_of_every_tile() {
    for t in all_tiles() {
        let text = t.to_string();
        assert_eq!(Tile::from_str(text.trim_end()), Ok(t));
    }
}

#[test]
fn format_empty_list() {
    assert_eq!(Tile::format_list(&[]), "");
}

#[test]
fn format_short_list() {
    let list = [Tile::Normal(Colour::Red, 1), Tile::Joker];
    assert_eq!(Tile::format_list(&list), "r1 j \n");
}

#[test]
fn format_list_of_exactly_ten() {
    let list: Vec<Tile> = (1..=10u8).map(|n| Tile::Normal(Colour::Red, n)).collect();
    assert_eq!(Tile::format_list(&list), "r1 r2 r3 r4 r5 r6 r7 r8 r9 r10 \n");
}

#[test]
fn format_list_breaks_after_ten_tiles() {
    let mut list: Vec<Tile> = (1..=13u8).map(|n| Tile::Normal(Colour::Blue, n)).collect();
    list.extend((1..=8u8).map(|n| Tile::Normal(Colour::Black, n)));
    assert_eq!(
        Tile::format_list(&list),
        "b1 b2 b3 b4 b5 b6 b7 b8 b9 b10 \nb11 b12 b13 x1 x2 x3 x4 x5 x6 x7 \nx8 \n"
    );
}
