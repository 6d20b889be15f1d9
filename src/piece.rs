use vstd::prelude::*;

verus! {

/// The two sides of a game.
#[derive(Copy, Clone, Debug, PartialEq, Eq, Hash, Structural)]
pub enum Player {
    White,
    Black,
}

impl Player {
    pub open spec fn spec_other(self) -> Player {
        match self {
            Player::White => Player::Black,
            Player::Black => Player::White,
        }
    }

    /// The opponent of this side.
    pub fn other(&self) -> (r: Player)
        ensures
            r == self.spec_other(),
    {
        match self {
            Player::White => Player::Black,
            Player::Black => Player::White,
        }
    }
}

/// The kinds of pieces.
#[derive(Copy, Clone, Debug, PartialEq, Eq, Hash, Structural)]
pub enum Bug {
    Ant,
    Beetle,
    Grasshopper,
    Ladybug,
    Mosquito,
    Queen,
    Pillbug,
    Spider,
}

/// One piece: its kind, its owner, and which of the owner's pieces of that
/// kind it is (counting from 1).
#[derive(Copy, Clone, Debug, PartialEq, Eq, Hash, Structural)]
pub struct Piece {
    pub id: u8,
    pub bug: Bug,
    pub owner: Player,
}

impl Piece {
    /// The first (or only) piece of a kind.
    pub fn new(bug: Bug, owner: Player) -> (r: Piece)
        ensures
            r == (Piece { id: 1, bug, owner }),
    {
        Piece { owner, bug, id: 1 }
    }

    /// The pieces of a kind numbered `1..=num_pieces`, in order.
    pub fn new_set(bug: Bug, owner: Player, num_pieces: u8) -> (r: Vec<Piece>)
        ensures
            r@.len() == num_pieces,
            forall|i: int| 0 <= i < num_pieces ==> #[trigger] r@[i] == (Piece { id: (i + 1) as u8, bug, owner }),
    {
        let mut r: Vec<Piece> = Vec::new();
        let mut i: u8 = 0;
        while i < num_pieces
            invariant
                i <= num_pieces,
                r@.len() == i,
                forall|k: int| 0 <= k < i ==> #[trigger] r@[k] == (Piece { id: (k + 1) as u8, bug, owner }),
            decreases num_pieces - i,
        {
            r.push(Piece { bug, owner, id: i + 1 });
            i += 1;
        }
        r
    }
}

/// Kinds of which each side has a single piece; their notation carries no number.
pub open spec fn is_unique_bug(b: Bug) -> bool {
    b == Bug::Queen || b == Bug::Ladybug || b == Bug::Pillbug || b == Bug::Mosquito
}

/// The letter that stands for a kind in move notation.
pub open spec fn bug_char(b: Bug) -> char {
    match b {
        Bug::Ant => 'A',
        Bug::Beetle => 'B',
        Bug::Grasshopper => 'G',
        Bug::Ladybug => 'L',
        Bug::Mosquito => 'M',
        Bug::Queen => 'Q',
        Bug::Pillbug => 'P',
        Bug::Spider => 'S',
    }
}

/// The letter that stands for a side in move notation.
pub open spec fn player_char(p: Player) -> char {
    match p {
        Player::White => 'w',
        Player::Black => 'b',
    }
}

/// A digit character for `0..=9`.
pub open spec fn digit_char(d: int) -> char {
    ('0' as int + d) as char
}

/// A piece in move notation: side letter, kind letter, and the number unless
/// the kind is unique.
pub open spec fn piece_text(p: Piece) -> Seq<char> {
    if is_unique_bug(p.bug) {
        seq![player_char(p.owner), bug_char(p.bug)]
    } else {
        seq![player_char(p.owner), bug_char(p.bug), digit_char(p.id as int)]
    }
}

pub fn bug_letter(b: Bug) -> (r: char)
    ensures
        r == bug_char(b),
{
    match b {
        Bug::Ant => 'A',
        Bug::Beetle => 'B',
        Bug::Grasshopper => 'G',
        Bug::Ladybug => 'L',
        Bug::Mosquito => 'M',
        Bug::Queen => 'Q',
        Bug::Pillbug => 'P',
        Bug::Spider => 'S',
    }
}

/// Whether a kind has a single piece per side.
pub fn is_unique(b: Bug) -> (r: bool)
    ensures
        r == is_unique_bug(b),
{
    match b {
        Bug::Queen | Bug::Ladybug | Bug::Pillbug | Bug::Mosquito => true,
        _ => false,
    }
}

impl Piece {
    /// The piece in move notation (`wQ`, `bA2`), as characters.
    pub fn to_chars(&self) -> (r: Vec<char>)
        requires
            self.id <= 9,
        ensures
            r@ == piece_text(*self),
    {
        let mut r: Vec<char> = Vec::new();
        let c = match self.owner {
            Player::White => 'w',
            Player::Black => 'b',
        };
        r.push(c);
        r.push(bug_letter(self.bug));
        if !is_unique(self.bug) {
            r.push(digit_of(self.id));
        }
        proof {
            assert(r@ =~= piece_text(*self));
        }
        r
    }
}

/// The character of a decimal digit.
pub fn digit_of(d: u8) -> (r: char)
    requires
        d <= 9,
    ensures
        r == digit_char(d as int),
{
    match d {
        0 => '0',
        1 => '1',
        2 => '2',
        3 => '3',
        4 => '4',
        5 => '5',
        6 => '6',
        7 => '7',
        8 => '8',
        _ => '9',
    }
}

} // verus!
