//! Tiles as text: the tokens that stand for tiles, how a token is read and
//! how tiles and lists of tiles are written.

use crate::tile::{Colour, Tile};
use vstd::prelude::*;
use vstd::string::*;

verus! {

/// The colour that a letter stands for.
pub open spec fn colour_of(c: char) -> Option<Colour> {
    if c == 'r' {
        Some(Colour::Red)
    } else if c == 'b' {
        Some(Colour::Blue)
    } else if c == 'y' {
        Some(Colour::Yellow)
    } else if c == 'x' {
        Some(Colour::Black)
    } else {
        None
    }
}

/// The character is one of the ten decimal digits.
pub open spec fn is_digit(c: char) -> bool {
    48 <= c as u32 <= 57
}

/// The decimal digit for a number below ten.
pub open spec fn digit(d: int) -> char {
    ((48 + d) as u32) as char
}

/// Every character of `s` is a decimal digit.
pub open spec fn all_digits(s: Seq<char>) -> bool {
    forall|i: int| 0 <= i < s.len() ==> is_digit(#[trigger] s[i])
}

/// The number that a sequence of decimal digits denotes.
pub open spec fn value(s: Seq<char>) -> nat
    decreases s.len(),
{
    if s.len() == 0 {
        0
    } else {
        (10 * value(s.drop_last()) + (s.last() as u32 - 48)) as nat
    }
}

/// The number that decimal digits denote, where there is at least one
/// digit and the number is at most 255.
pub open spec fn unsigned(digits: Seq<char>) -> Option<u8> {
    if digits.len() > 0 && all_digits(digits) && value(digits) <= 255 {
        Some(value(digits) as u8)
    } else {
        None
    }
}

/// The number that a token's tail denotes: decimal digits with an
/// optional plus sign in front.
pub open spec fn number_of(s: Seq<char>) -> Option<u8> {
    if s.len() > 0 && s[0] == '+' {
        unsigned(s.skip(1))
    } else {
        unsigned(s)
    }
}

/// What a token stands for, or the reason why it stands for no tile. A
/// token of a single byte is the joker `j` or an error; any other token is
/// a colour letter followed by a number from 1 to 13.
pub open spec fn parse(s: Seq<char>) -> Result<Tile, Seq<char>> {
    if s.len() == 0 {
        Err("No string"@)
    } else if s.len() == 1 && (s[0] as u32) < 128 {
        if s[0] == 'j' {
            Ok(Tile::Joker)
        } else {
            Err("Not joker"@)
        }
    } else {
        match colour_of(s[0]) {
            None => Err("Invalid colour"@),
            Some(c) => match number_of(s.skip(1)) {
                None => Err("Invalid number"@),
                Some(n) => if 1 <= n <= 13 {
                    Ok(Tile::Normal(c, n))
                } else {
                    Err("Number out of range"@)
                },
            },
        }
    }
}

/// A number in decimal digits, without leading zeros.
pub open spec fn decimal(n: nat) -> Seq<char>
    decreases n,
{
    if n < 10 {
        seq![digit(n as int)]
    } else {
        decimal(n / 10).push(digit((n % 10) as int))
    }
}

/// The token that stands for a tile.
pub open spec fn token(t: Tile) -> Seq<char> {
    match t {
        Tile::Joker => seq!['j'],
        Tile::Normal(c, n) => seq![c.letter()] + decimal(n as nat),
    }
}

/// A tile as it is written: its token and a space.
pub open spec fn rendering(t: Tile) -> Seq<char> {
    token(t).push(' ')
}

/// Tiles written one after the other.
pub open spec fn row(s: Seq<Tile>) -> Seq<char>
    decreases s.len(),
{
    if s.len() == 0 {
        Seq::empty()
    } else {
        row(s.drop_last()) + rendering(s.last())
    }
}

/// A list of tiles as it is written: ten tiles to a line, and a line feed
/// after each line.
pub open spec fn listing(s: Seq<Tile>) -> Seq<char>
    decreases s.len(),
{
    if s.len() == 0 {
        Seq::empty()
    } else if s.len() <= 10 {
        row(s).push('\n')
    } else {
        row(s.take(10)).push('\n') + listing(s.skip(10))
    }
}

/// The text of a decimal digit.
fn digit_text(d: u8) -> (s: &'static str)
    requires
        d < 10,
    ensures
        s@ == seq![digit(d as int)],
{
    proof {
        reveal_strlit("0");
        reveal_strlit("1");
        reveal_strlit("2");
        reveal_strlit("3");
        reveal_strlit("4");
        reveal_strlit("5");
        reveal_strlit("6");
        reveal_strlit("7");
        reveal_strlit("8");
        reveal_strlit("9");
    }
    let s: &'static str = if d == 0 {
        "0"
    } else if d == 1 {
        "1"
    } else if d == 2 {
        "2"
    } else if d == 3 {
        "3"
    } else if d == 4 {
        "4"
    } else if d == 5 {
        "5"
    } else if d == 6 {
        "6"
    } else if d == 7 {
        "7"
    } else if d == 8 {
        "8"
    } else {
        "9"
    };
    proof {
        assert(s@ =~= seq![digit(d as int)]);
    }
    s
}

/// The text of a colour's letter.
fn letter_text(c: &Colour) -> (s: &'static str)
    ensures
        s@ == seq![c.letter()],
{
    proof {
        reveal_strlit("r");
        reveal_strlit("b");
        reveal_strlit("y");
        reveal_strlit("x");
    }
    let s: &'static str = match c {
        Colour::Red => "r",
        Colour::Blue => "b",
        Colour::Yellow => "y",
        Colour::Black => "x",
    };
    proof {
        assert(s@ =~= seq![c.letter()]);
    }
    s
}

/// The colour that a letter stands for, if it stands for one.
fn colour_for(c: char) -> (r: Option<Colour>)
    ensures
        r == colour_of(c),
{
    if c == 'r' {
        Some(Colour::Red)
    } else if c == 'b' {
        Some(Colour::Blue)
    } else if c == 'y' {
        Some(Colour::Yellow)
    } else if c == 'x' {
        Some(Colour::Black)
    } else {
        None
    }
}

/// Reads a token's tail as a number.
fn read_number(string: &str, from: usize) -> (r: Option<u8>)
    requires
        from <= string@.len(),
    ensures
        r == number_of(string@.skip(from as int)),
{
    let n: usize = string.unicode_len();
    let ghost tail = string@.skip(from as int);
    let mut start: usize = from;
    if start < n && string.get_char(start) == '+' {
        start = start + 1;
    }
    let ghost digits = string@.skip(start as int);
    proof {
        if start > from {
            assert(tail[0] == '+');
            assert(tail.skip(1) =~= digits);
        } else if from < n {
            assert(tail[0] == string@[from as int]);
        }
    }
    if start >= n {
        return None;
    }
    let mut acc: u32 = 0;
    let mut i: usize = start;
    proof {
        assert(digits.take(0) =~= Seq::<char>::empty());
    }
    while i < n
        invariant
            n == string@.len(),
            start <= i <= n,
            digits == string@.skip(start as int),
            number_of(string@.skip(from as int)) == unsigned(digits),
            all_digits(digits.take(i - start)),
            acc <= 256,
            acc == if value(digits.take(i - start)) > 255 {
                256
            } else {
                value(digits.take(i - start))
            },
        decreases n - i,
    {
        let c: char = string.get_char(i);
        let cu: u32 = c as u32;
        if cu < 48 || cu > 57 {
            proof {
                assert(digits[i - start] == c);
                assert(!is_digit(digits[i - start]));
            }
            return None;
        }
        proof {
            assert(digits.take(i + 1 - start).drop_last() =~= digits.take(i - start));
            assert(digits.take(i + 1 - start).last() == c);
            assert forall|j: int| 0 <= j < i + 1 - start implies is_digit(
                #[trigger] digits.take(i + 1 - start)[j],
            ) by {
                if j < i - start {
                    assert(digits.take(i - start)[j] == digits[j]);
                }
            }
        }
        if acc <= 255 {
            acc = 10 * acc + (cu - 48);
            if acc > 255 {
                acc = 256;
            }
        }
        i += 1;
    }
    proof {
        assert(digits.take(n - start) =~= digits);
    }
    if acc > 255 {
        None
    } else {
        Some(acc as u8)
    }
}

/// The decimal digits of a number are digits, and they denote the number.
pub proof fn lemma_decimal(n: nat)
    ensures
        decimal(n).len() > 0,
        all_digits(decimal(n)),
        value(decimal(n)) == n,
    decreases n,
{
    assert(digit((n % 10) as int) as u32 == 48 + n % 10);
    if n < 10 {
        assert(decimal(n).drop_last() =~= Seq::<char>::empty());
        assert(decimal(n).last() == digit(n as int));
        assert(value(decimal(n).drop_last()) == 0);
    } else {
        lemma_decimal(n / 10);
        assert(decimal(n).drop_last() =~= decimal(n / 10));
        assert(decimal(n).last() == digit((n % 10) as int));
    }
}

/// Round trip: the token of a well-formed tile is read as that tile.
pub proof fn lemma_round_trip(t: Tile)
    requires
        t.wf(),
    ensures
        parse(token(t)) == Ok::<Tile, Seq<char>>(t),
{
    match t {
        Tile::Joker => {},
        Tile::Normal(c, n) => {
            lemma_decimal(n as nat);
            assert(token(t).skip(1) =~= decimal(n as nat));
            assert(is_digit(decimal(n as nat)[0]));
        },
    }
}

impl Tile {
    /// Reads a token.
    pub fn from_str(string: &str) -> (r: Result<Tile, &'static str>)
        ensures
            match r {
                Ok(t) => parse(string@) == Ok::<Tile, Seq<char>>(t),
                Err(e) => parse(string@) == Err::<Tile, Seq<char>>(e@),
            },
    {
        let n: usize = string.unicode_len();
        if n == 0 {
            return Err("No string");
        }
        let first: char = string.get_char(0);
        if n == 1 && (first as u32) < 128 {
            return if first == 'j' {
                Ok(Tile::Joker)
            } else {
                Err("Not joker")
            };
        }
        match colour_for(first) {
            None => Err("Invalid colour"),
            Some(colour) => match read_number(string, 1) {
                None => Err("Invalid number"),
                Some(number) => if 1 <= number && number <= 13 {
                    Ok(Tile::Normal(colour, number))
                } else {
                    Err("Number out of range")
                },
            },
        }
    }

    /// Writes a list of tiles, ten to a line.
    pub fn format_list(list: &[Tile]) -> (s: String)
        ensures
            s@ == listing(list@),
    {
        let mut string: String = String::new();
        let n: usize = list.len();
        let mut start: usize = 0;
        proof {
            reveal_strlit("\n");
            assert(list@.skip(0) =~= list@);
        }
        while start < n
            invariant
                n == list@.len(),
                start <= n,
                string@ + listing(list@.skip(start as int)) == listing(list@),
                "\n"@ == seq!['\n'],
            decreases n - start,
        {
            let end: usize = if n - start <= 10 {
                n
            } else {
                start + 10
            };
            let ghost base = string@;
            let ghost line = list@.subrange(start as int, end as int);
            let mut i: usize = start;
            proof {
                assert(line.take(0) =~= Seq::<Tile>::empty());
            }
            while i < end
                invariant
                    start <= i <= end <= n,
                    n == list@.len(),
                    line == list@.subrange(start as int, end as int),
                    string@ == base + row(line.take(i - start)),
                decreases end - i,
            {
                let t: String = list[i].to_string();
                string.append(t.as_str());
                proof {
                    assert(line.take(i + 1 - start).drop_last() =~= line.take(i - start));
                    assert(line.take(i + 1 - start).last() == list@[i as int]);
                    assert(string@ =~= base + row(line.take(i + 1 - start)));
                }
                i += 1;
            }
            string.append("\n");
            proof {
                let rest = list@.skip(start as int);
                assert(line.take(end - start) =~= line);
                if n - start <= 10 {
                    assert(rest =~= line);
                    assert(list@.skip(end as int) =~= Seq::<Tile>::empty());
                    assert(string@ =~= base + listing(rest));
                    assert(string@ + listing(list@.skip(end as int)) =~= base + listing(rest));
                } else {
                    assert(rest.take(10) =~= line);
                    assert(rest.skip(10) =~= list@.skip(end as int));
                    assert(string@ + listing(list@.skip(end as int)) =~= base + listing(rest));
                }
            }
            start = end;
        }
        proof {
            assert(list@.skip(n as int) =~= Seq::<Tile>::empty());
            assert(string@ + Seq::<char>::empty() =~= string@);
        }
        string
    }

    /// Writes the tile: its token and a space.
    pub fn to_string(&self) -> (s: String)
        ensures
            s@ == rendering(*self),
    {
        let mut s: String = String::new();
        match self {
            Tile::Joker => {
                proof {
                    reveal_strlit("j");
                }
                s.append("j");
            },
            Tile::Normal(colour, number) => {
                let n: u8 = *number;
                s.append(letter_text(colour));
                if n >= 100 {
                    s.append(digit_text(n / 100));
                }
                if n >= 10 {
                    s.append(digit_text((n / 10) % 10));
                }
                s.append(digit_text(n % 10));
                proof {
                    reveal_with_fuel(decimal, 3);
                    assert(s@ =~= token(*self));
                }
            },
        }
        proof {
            reveal_strlit(" ");
        }
        s.append(" ");
        proof {
            assert(s@ =~= rendering(*self));
        }
        s
    }
}

} // verus!
