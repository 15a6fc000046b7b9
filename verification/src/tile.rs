//! Tiles, their colours and their canonical order.

use vstd::prelude::*;

verus! {

/// The four tile colours, in canonical order.
#[derive(Debug, PartialEq, Eq, PartialOrd, Ord, Copy, Clone, Hash, Structural)]
pub enum Colour {
    Red,
    Blue,
    Yellow,
    Black,
}

/// A tile: a coloured number or a joker.
#[derive(Debug, PartialEq, Eq, PartialOrd, Ord, Copy, Clone, Hash, Structural)]
pub enum Tile {
    Normal(Colour, u8),
    Joker,
}

impl Colour {
    /// The letter for red.
    pub const RED_CHAR: char = 'r';

    /// The letter for blue.
    pub const BLUE_CHAR: char = 'b';

    /// The letter for yellow.
    pub const YELLOW_CHAR: char = 'y';

    /// The letter for black.
    pub const BLACK_CHAR: char = 'x';

    /// Position of the colour in the canonical order.
    pub open spec fn rank(self) -> int {
        match self {
            Colour::Red => 0,
            Colour::Blue => 1,
            Colour::Yellow => 2,
            Colour::Black => 3,
        }
    }

    /// The letter that stands for the colour in a tile token.
    pub open spec fn letter(self) -> char {
        match self {
            Colour::Red => 'r',
            Colour::Blue => 'b',
            Colour::Yellow => 'y',
            Colour::Black => 'x',
        }
    }

    /// The colour that stands at a position of the canonical order.
    pub open spec fn at(r: int) -> Colour {
        if r == 0 {
            Colour::Red
        } else if r == 1 {
            Colour::Blue
        } else if r == 2 {
            Colour::Yellow
        } else {
            Colour::Black
        }
    }

    /// Position of the colour in the canonical order, as a machine integer.
    pub fn position(&self) -> (r: usize)
        ensures
            r == self.rank(),
    {
        match self {
            Colour::Red => 0,
            Colour::Blue => 1,
            Colour::Yellow => 2,
            Colour::Black => 3,
        }
    }

    /// The colour at a position of the canonical order.
    pub fn from_position(r: usize) -> (c: Colour)
        requires
            r < 4,
        ensures
            c == Colour::at(r as int),
            c.rank() == r,
    {
        if r == 0 {
            Colour::Red
        } else if r == 1 {
            Colour::Blue
        } else if r == 2 {
            Colour::Yellow
        } else {
            Colour::Black
        }
    }

    /// The letter that stands for the colour.
    pub fn get_char(&self) -> (c: char)
        ensures
            c == self.letter(),
    {
        match self {
            Colour::Red => Colour::RED_CHAR,
            Colour::Blue => Colour::BLUE_CHAR,
            Colour::Yellow => Colour::YELLOW_CHAR,
            Colour::Black => Colour::BLACK_CHAR,
        }
    }
}

impl Tile {
    /// The token that stands for the joker.
    pub const JOKER_CHAR: &'static str = "j";

    /// A tile is well formed when it is a joker or its number lies in 1..=13.
    pub open spec fn wf(self) -> bool {
        match self {
            Tile::Normal(_, n) => 1 <= n <= 13,
            Tile::Joker => true,
        }
    }

    /// The canonical order on tiles: coloured tiles by colour, then by
    /// number, and every coloured tile before the joker.
    pub open spec fn before(self, other: Tile) -> bool {
        match (self, other) {
            (Tile::Normal(c1, n1), Tile::Normal(c2, n2)) => c1.rank() < c2.rank() || (c1 == c2
                && n1 < n2),
            (Tile::Normal(_, _), Tile::Joker) => true,
            (Tile::Joker, _) => false,
        }
    }

    /// Position of a well-formed tile among the 53 kinds of tile, in
    /// canonical order: the 52 coloured tiles first, the joker last.
    pub open spec fn index(self) -> int {
        match self {
            Tile::Normal(c, n) => c.rank() * 13 + (n - 1),
            Tile::Joker => 52,
        }
    }

    /// The well-formed tile at a position among the 53 kinds.
    pub open spec fn at(k: int) -> Tile {
        if 0 <= k < 52 {
            Tile::Normal(Colour::at(k / 13), (k % 13 + 1) as u8)
        } else {
            Tile::Joker
        }
    }

    /// Decides the canonical order.
    pub fn precedes(&self, other: &Tile) -> (b: bool)
        ensures
            b == self.before(*other),
    {
        match (self, other) {
            (Tile::Normal(c1, n1), Tile::Normal(c2, n2)) => {
                let r1: usize = c1.position();
                let r2: usize = c2.position();
                r1 < r2 || (r1 == r2 && *n1 < *n2)
            },
            (Tile::Normal(_, _), Tile::Joker) => true,
            (Tile::Joker, _) => false,
        }
    }

    /// Position of a well-formed tile among the 53 kinds.
    pub fn kind(&self) -> (k: usize)
        requires
            self.wf(),
        ensures
            k == self.index(),
            k < 53,
            Tile::at(k as int) == *self,
    {
        match self {
            Tile::Normal(c, n) => {
                let r: usize = c.position();
                let m: usize = *n as usize;
                r * 13 + (m - 1)
            },
            Tile::Joker => 52,
        }
    }

    /// The well-formed tile at a position among the 53 kinds.
    pub fn of_kind(k: usize) -> (t: Tile)
        requires
            k < 53,
        ensures
            t == Tile::at(k as int),
            t.wf(),
            t.index() == k,
    {
        if k < 52 {
            let n: u8 = (k % 13 + 1) as u8;
            Tile::Normal(Colour::from_position(k / 13), n)
        } else {
            Tile::Joker
        }
    }

    /// Whether the tile is a joker.
    pub fn is_joker(&self) -> (b: bool)
        ensures
            b == (*self == Tile::Joker),
    {
        match self {
            Tile::Joker => true,
            Tile::Normal(_, _) => false,
        }
    }

    /// The colour of a coloured tile; a joker has none.
    pub fn colour(&self) -> (c: Option<Colour>)
        ensures
            c == match *self {
                Tile::Normal(col, _) => Some(col),
                Tile::Joker => None,
            },
    {
        match self {
            Tile::Normal(c, _) => Some(*c),
            Tile::Joker => None,
        }
    }

    /// The number of a coloured tile; a joker has none.
    pub fn number(&self) -> (n: Option<u8>)
        ensures
            n == match *self {
                Tile::Normal(_, num) => Some(num),
                Tile::Joker => None,
            },
    {
        match self {
            Tile::Normal(_, n) => Some(*n),
            Tile::Joker => None,
        }
    }
}

/// The canonical order is a strict total order: no tile stands before
/// itself, the order is transitive, and of two different tiles one stands
/// before the other.
pub proof fn lemma_order_is_strict_total(a: Tile, b: Tile, c: Tile)
    ensures
        !a.before(a),
        a.before(b) && b.before(c) ==> a.before(c),
        a == b || a.before(b) || b.before(a),
        !(a.before(b) && b.before(a)),
{
}

/// On well-formed tiles the canonical order is the order of the positions,
/// and a tile is found again from its position.
pub proof fn lemma_index_orders(a: Tile, b: Tile)
    requires
        a.wf(),
        b.wf(),
    ensures
        0 <= a.index() < 53,
        Tile::at(a.index()) == a,
        a.before(b) <==> a.index() < b.index(),
        a == b <==> a.index() == b.index(),
{
}

/// Every position among the 53 kinds holds a well-formed tile of that position.
pub proof fn lemma_at_index(k: int)
    requires
        0 <= k < 53,
    ensures
        Tile::at(k).wf(),
        Tile::at(k).index() == k,
{
}

} // verus!
