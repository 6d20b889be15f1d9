use vstd::prelude::*;
use crate::hex::{Hex, neighbors_of, offset, lemma_neighbors_adjacent};
use crate::piece::{Bug, Piece, Player, piece_text, digit_char};
use crate::game_state::{
    GameState, Turn, find_hex, find_piece, has_stack, in_play, occupied, piece_at, lemma_piece_at,
    spec_hex_of, first_on_board, first_in_stacks,
};
use crate::text::{chars_of, push_all};

verus! {

broadcast use vstd::seq_lib::lemma_seq_contains_after_push;

/// Index of the first occupied neighbor of `h`, in the order ne, nw, se, sw, e, w.
pub open spec fn first_occupied_neighbor(board: Seq<(Hex, Piece)>, h: Hex, i: int) -> bool {
    0 <= i < 6 && occupied(board, neighbors_of(h)[i]) && forall|k: int|
        0 <= k < i ==> !occupied(board, #[trigger] neighbors_of(h)[k])
}

/// How a hex is written relative to its reference piece `r`, given which
/// neighbor of the hex the reference stands on.
pub open spec fn relative_text(target: Seq<char>, r: Seq<char>, i: int) -> Seq<char> {
    if i == 0 {
        target + seq![' ', '/'] + r
    } else if i == 1 {
        target + seq![' '] + r + seq!['\\']
    } else if i == 2 {
        target + seq![' ', '\\'] + r
    } else if i == 3 {
        target + seq![' '] + r + seq!['/']
    } else if i == 4 {
        target + seq![' ', '-'] + r
    } else {
        target + seq![' '] + r + seq!['-']
    }
}

/// A turn in move notation against `board`: a piece set down on an occupied
/// hex names the piece there; else it names the first occupied neighbor of
/// its destination and the side it lies on; with no neighbor (the first
/// move) the piece alone.
pub open spec fn turn_text(turn: Turn, board: Seq<(Hex, Piece)>) -> Seq<char> {
    match turn {
        Turn::Pass => seq!['p', 'a', 's', 's'],
        Turn::Place(p, h) => dest_text(p, h, board),
        Turn::Move(p, h) => dest_text(p, h, board),
    }
}

/// `p` set down on `h`, in move notation against `board`.
pub open spec fn dest_text(p: Piece, h: Hex, board: Seq<(Hex, Piece)>) -> Seq<char> {
    if occupied(board, h) {
        piece_text(p) + seq![' '] + piece_text(piece_at(board, h)->0)
    } else if exists|i: int| first_occupied_neighbor(board, h, i) {
        let i = choose|i: int| first_occupied_neighbor(board, h, i);
        relative_text(piece_text(p), piece_text(piece_at(board, neighbors_of(h)[i])->0), i)
    } else {
        piece_text(p)
    }
}

/// Every piece on the board is numbered `1..=9`.
pub open spec fn ids_in_range(board: Seq<(Hex, Piece)>) -> bool {
    forall|x: Hex| #![trigger piece_at(board, x)] occupied(board, x) ==> 1 <= piece_at(board, x)->0.id <= 9
}

pub open spec fn board_in_play(board: Seq<(Hex, Piece)>) -> bool {
    forall|x: Hex| #[trigger] occupied(board, x) ==> in_play(x)
}

/// The turn in move notation, as characters.
pub fn turn_chars(turn: &Turn, board: &Vec<(Hex, Piece)>) -> (r: Vec<char>)
    requires
        crate::game_state::unique_keys(board@),
        ids_in_range(board@),
        match *turn {
            Turn::Place(p, h) => 1 <= p.id <= 9 && h.bounded(),
            Turn::Move(p, h) => 1 <= p.id <= 9 && h.bounded(),
            Turn::Pass => true,
        },
    ensures
        r@ == turn_text(*turn, board@),
{
    match *turn {
        Turn::Place(p, h) => dest_chars(p, h, board),
        Turn::Move(p, h) => dest_chars(p, h, board),
        Turn::Pass => {
            let r = vec!['p', 'a', 's', 's'];
            proof {
                assert(r@ =~= seq!['p', 'a', 's', 's']);
            }
            r
        },
    }
}

/// The turn in move notation against the game's board.
pub fn get_turn_string(turn: &Turn, game: &GameState) -> (r: String)
    requires
        game.wf(),
        match *turn {
            Turn::Place(p, h) => 1 <= p.id <= 9 && h.bounded(),
            Turn::Move(p, h) => 1 <= p.id <= 9 && h.bounded(),
            Turn::Pass => true,
        },
    ensures
        r@ == turn_text(*turn, game.board@),
{
    let cs = turn_chars(turn, &game.board);
    crate::text::string_of(&cs)
}

/// `p` set down on `h`, in move notation, as characters.
fn dest_chars(p: Piece, h: Hex, board: &Vec<(Hex, Piece)>) -> (r: Vec<char>)
    requires
        crate::game_state::unique_keys(board@),
        ids_in_range(board@),
        1 <= p.id <= 9,
        h.bounded(),
    ensures
        r@ == dest_text(p, h, board@),
{
            let mut r = p.to_chars();
            if let Some(j) = find_hex(board, h) {
                proof {
                    lemma_piece_at(board@, j as int);
                }
                r.push(' ');
                let q = board[j].1.to_chars();
                push_all(&mut r, &q);
                proof {
                    assert(r@ =~= dest_text(p, h, board@));
                }
                return r;
            }
            proof {
                lemma_neighbors_adjacent(h);
            }
            let ns = h.neighbors();
            let mut i: usize = 0;
            while i < ns.len()
                invariant
                    ns@ == neighbors_of(h),
                    i <= ns.len(),
                    r@ == piece_text(p),
                    crate::game_state::unique_keys(board@),
                    ids_in_range(board@),
                    !occupied(board@, h),
                            forall|k: int| 0 <= k < i ==> !occupied(board@, #[trigger] neighbors_of(h)[k]),
                decreases ns.len() - i,
            {
                if let Some(j) = find_hex(board, ns[i]) {
                    proof {
                        lemma_piece_at(board@, j as int);
                        assert(first_occupied_neighbor(board@, h, i as int));
                        assert forall|k: int| #[trigger] first_occupied_neighbor(board@, h, k) implies k == i by {
                            if k < i {
                            } else if k > i {
                                assert(occupied(board@, neighbors_of(h)[i as int]));
                            }
                        }
                    }
                    let q = board[j].1.to_chars();
                    let ghost target = r@;
                    if i == 0 {
                        r.push(' ');
                        r.push('/');
                        push_all(&mut r, &q);
                    } else if i == 1 {
                        r.push(' ');
                        push_all(&mut r, &q);
                        r.push('\\');
                    } else if i == 2 {
                        r.push(' ');
                        r.push('\\');
                        push_all(&mut r, &q);
                    } else if i == 3 {
                        r.push(' ');
                        push_all(&mut r, &q);
                        r.push('/');
                    } else if i == 4 {
                        r.push(' ');
                        r.push('-');
                        push_all(&mut r, &q);
                    } else {
                        r.push(' ');
                        push_all(&mut r, &q);
                        r.push('-');
                    }
                    proof {
                        assert(r@ =~= relative_text(target, q@, i as int));
                    }
                    return r;
                }
                i += 1;
            }
            proof {
                assert forall|k: int| !first_occupied_neighbor(board@, h, k) by {
                    if 0 <= k < 6 {
                        assert(!occupied(board@, neighbors_of(h)[k]));
                    }
                }
            }
            r
}

/// Why a command or a piece of notation was refused.
#[derive(Clone, Debug, PartialEq, Eq)]
pub enum Error {
    ParserError(String),
    EngineError(String),
}

pub fn parser_error(msg: &str) -> (r: Error)
    ensures
        r is ParserError,
{
    Error::ParserError(msg.to_owned())
}

pub open spec fn spec_bug_of(c: char) -> Option<Bug> {
    if c == 'A' {
        Some(Bug::Ant)
    } else if c == 'B' {
        Some(Bug::Beetle)
    } else if c == 'G' {
        Some(Bug::Grasshopper)
    } else if c == 'L' {
        Some(Bug::Ladybug)
    } else if c == 'M' {
        Some(Bug::Mosquito)
    } else if c == 'P' {
        Some(Bug::Pillbug)
    } else if c == 'Q' {
        Some(Bug::Queen)
    } else if c == 'S' {
        Some(Bug::Spider)
    } else {
        None
    }
}

pub open spec fn is_digit(c: char) -> bool {
    '0' <= c <= '9'
}

/// A piece in move notation: side letter, kind letter, and an optional
/// number (1 when left out). Characters past the number are not read.
pub open spec fn parse_piece(cs: Seq<char>) -> Option<Piece> {
    if cs.len() < 2 || !(cs[0] == 'w' || cs[0] == 'b') || spec_bug_of(cs[1]) is None {
        None
    } else if cs.len() >= 3 && !is_digit(cs[2]) {
        None
    } else {
        Some(
            Piece {
                id: if cs.len() >= 3 {
                    (cs[2] as int - '0' as int) as u8
                } else {
                    1
                },
                bug: spec_bug_of(cs[1])->0,
                owner: if cs[0] == 'w' {
                    Player::White
                } else {
                    Player::Black
                },
            },
        )
    }
}

fn bug_of(c: char) -> (r: Option<Bug>)
    ensures
        r == spec_bug_of(c),
{
    match c {
        'A' => Some(Bug::Ant),
        'B' => Some(Bug::Beetle),
        'G' => Some(Bug::Grasshopper),
        'L' => Some(Bug::Ladybug),
        'M' => Some(Bug::Mosquito),
        'P' => Some(Bug::Pillbug),
        'Q' => Some(Bug::Queen),
        'S' => Some(Bug::Spider),
        _ => None,
    }
}

/// Reads a piece from characters.
pub fn parse_piece_chars(cs: &Vec<char>) -> (r: Result<Piece, Error>)
    ensures
        r is Ok <==> parse_piece(cs@) is Some,
        r is Ok ==> r->Ok_0 == parse_piece(cs@)->0,
{
    if cs.len() < 2 {
        return Err(parser_error("empty piece string"));
    }
    let owner = if cs[0] == 'w' {
        Player::White
    } else if cs[0] == 'b' {
        Player::Black
    } else {
        return Err(parser_error("unknown player"));
    };
    let bug = match bug_of(cs[1]) {
        Some(b) => b,
        None => {
            return Err(parser_error("unknown piece"));
        },
    };
    if cs.len() >= 3 {
        let c = cs[2];
        if c < '0' || c > '9' {
            return Err(parser_error("failed to parse id"));
        }
        let id = ((c as u32) - ('0' as u32)) as u8;
        Ok(Piece { owner, bug, id })
    } else {
        Ok(Piece::new(bug, owner))
    }
}

/// Reads a piece in move notation (`wQ`, `bA2`).
pub fn parse_piece_string(input: &str) -> (r: Result<Piece, Error>)
    ensures
        r is Ok <==> parse_piece(input@) is Some,
        r is Ok ==> r->Ok_0 == parse_piece(input@)->0,
{
    let cs = chars_of(input);
    parse_piece_chars(&cs)
}

pub open spec fn is_space(c: char) -> bool {
    c == ' ' || c == '\t' || c == '\n' || c == '\r'
}

/// The words of `cs` from position `i` on, given the word `cur` read so far
/// and the finished words `acc`.
pub open spec fn words_from(cs: Seq<char>, i: int, cur: Seq<char>, acc: Seq<Seq<char>>) -> Seq<
    Seq<char>,
>
    decreases cs.len() - i,
{
    if i >= cs.len() {
        if cur.len() > 0 {
            acc.push(cur)
        } else {
            acc
        }
    } else if is_space(cs[i]) {
        words_from(cs, i + 1, Seq::empty(), if cur.len() > 0 { acc.push(cur) } else { acc })
    } else {
        words_from(cs, i + 1, cur.push(cs[i]), acc)
    }
}

/// The maximal runs of non-space characters of `cs`.
pub open spec fn words(cs: Seq<char>) -> Seq<Seq<char>> {
    words_from(cs, 0, Seq::empty(), Seq::empty())
}

/// Splits characters into words separated by spaces.
pub fn split_words(cs: &Vec<char>) -> (r: Vec<Vec<char>>)
    ensures
        r@.len() == words(cs@).len(),
        forall|k: int| 0 <= k < r@.len() ==> (#[trigger] r@[k])@ == words(cs@)[k],
{
    let mut r: Vec<Vec<char>> = Vec::new();
    let mut cur: Vec<char> = Vec::new();
    let ghost mut acc: Seq<Seq<char>> = Seq::empty();
    let mut i: usize = 0;
    while i < cs.len()
        invariant
            i <= cs.len(),
            words(cs@) == words_from(cs@, i as int, cur@, acc),
            r@.len() == acc.len(),
            forall|k: int| 0 <= k < r@.len() ==> (#[trigger] r@[k])@ == acc[k],
        decreases cs.len() - i,
    {
        let c = cs[i];
        if c == ' ' || c == '\t' || c == '\n' || c == '\r' {
            if cur.len() > 0 {
                proof {
                    acc = acc.push(cur@);
                }
                r.push(cur);
                cur = Vec::new();
            } else {
                cur = Vec::new();
            }
        } else {
            cur.push(c);
        }
        i += 1;
    }
    if cur.len() > 0 {
        proof {
            acc = acc.push(cur@);
        }
        r.push(cur);
    }
    r
}

/// The hex on the given side of `target` that a direction mark names.
pub open spec fn dir_hex(target: Hex, east: bool, c: char) -> Option<Hex> {
    if east {
        if c == '-' {
            Some(offset(target, 1, -1, 0))
        } else if c == '/' {
            Some(offset(target, 1, 0, -1))
        } else if c == '\\' {
            Some(offset(target, 0, -1, 1))
        } else {
            None
        }
    } else {
        if c == '-' {
            Some(offset(target, -1, 1, 0))
        } else if c == '/' {
            Some(offset(target, -1, 0, 1))
        } else if c == '\\' {
            Some(offset(target, 0, 1, -1))
        } else {
            None
        }
    }
}

pub open spec fn has_dir_mark(w: Seq<char>) -> bool {
    w.contains('-') || w.contains('/') || w.contains('\\')
}

pub open spec fn on_board(board: Seq<(Hex, Piece)>, p: Piece) -> bool {
    exists|i: int| 0 <= i < board.len() && (#[trigger] board[i]).1 == p
}

/// The hex a destination word names: a reference piece, found on the board
/// or under a stack, with an optional direction mark before it (west side)
/// or after it (east side).
pub open spec fn parse_dest(
    w: Seq<char>,
    board: Seq<(Hex, Piece)>,
    stacks: Seq<(Hex, Vec<Piece>)>,
) -> Option<Hex> {
    let east_side = w[0] == 'w' || w[0] == 'b';
    let refs = if east_side {
        if has_dir_mark(w) {
            w.drop_last()
        } else {
            w
        }
    } else {
        w.drop_first()
    };
    match parse_piece(refs) {
        None => None,
        Some(r) => match spec_hex_of(board, stacks, r) {
            None => None,
            Some(t) => if east_side {
                if has_dir_mark(w) {
                    dir_hex(t, true, w.last())
                } else {
                    Some(t)
                }
            } else {
                dir_hex(t, false, w[0])
            },
        },
    }
}

/// A move in notation against a board: `pass`; a piece alone (placed at the
/// origin); or a piece and a destination word. It is a move when the piece
/// is in play (on the board or under a stack), else a placement.
pub open spec fn parse_move(
    cs: Seq<char>,
    board: Seq<(Hex, Piece)>,
    stacks: Seq<(Hex, Vec<Piece>)>,
) -> Option<Turn> {
    if cs == seq!['p', 'a', 's', 's'] {
        Some(Turn::Pass)
    } else if words(cs).len() == 0 || parse_piece(words(cs)[0]) is None {
        None
    } else {
        let p = parse_piece(words(cs)[0])->0;
        let dest = if words(cs).len() < 2 {
            Some(crate::hex::spec_origin())
        } else {
            parse_dest(words(cs)[1], board, stacks)
        };
        match dest {
            None => None,
            Some(h) => Some(
                if spec_hex_of(board, stacks, p) is Some {
                    Turn::Move(p, h)
                } else {
                    Turn::Place(p, h)
                },
            ),
        }
    }
}

/// Every stack lies under an occupied hex.
pub open spec fn stacks_on_board(board: Seq<(Hex, Piece)>, stacks: Seq<(Hex, Vec<Piece>)>) -> bool {
    forall|x: Hex| #[trigger] has_stack(stacks, x) ==> occupied(board, x)
}

proof fn lemma_words_nonempty(cs: Seq<char>, i: int, cur: Seq<char>, acc: Seq<Seq<char>>)
    requires
        0 <= i,
        forall|k: int| 0 <= k < acc.len() ==> (#[trigger] acc[k]).len() > 0,
    ensures
        forall|k: int| 0 <= k < words_from(cs, i, cur, acc).len() ==> (#[trigger] words_from(cs, i, cur, acc)[k]).len() > 0,
    decreases cs.len() - i,
{
    let acc2 = if cur.len() > 0 { acc.push(cur) } else { acc };
    assert forall|k: int| 0 <= k < acc2.len() implies (#[trigger] acc2[k]).len() > 0 by {
        if k < acc.len() {
            assert(acc2[k] == acc[k]);
        }
    }
    if i >= cs.len() {
        assert(words_from(cs, i, cur, acc) == acc2);
    } else if is_space(cs[i]) {
        lemma_words_nonempty(cs, i + 1, Seq::empty(), acc2);
        assert(words_from(cs, i, cur, acc) == words_from(cs, i + 1, Seq::empty(), acc2));
    } else {
        lemma_words_nonempty(cs, i + 1, cur.push(cs[i]), acc);
        assert(words_from(cs, i, cur, acc) == words_from(cs, i + 1, cur.push(cs[i]), acc));
    }
}

fn contains_char(w: &Vec<char>, c: char) -> (r: bool)
    ensures
        r == w@.contains(c),
{
    let mut i: usize = 0;
    while i < w.len()
        invariant
            i <= w.len(),
            forall|k: int| 0 <= k < i ==> w@[k] != c,
        decreases w.len() - i,
    {
        if w[i] == c {
            return true;
        }
        i += 1;
    }
    false
}

fn slice_chars(w: &Vec<char>, lo: usize, hi: usize) -> (r: Vec<char>)
    requires
        lo <= hi <= w@.len(),
    ensures
        r@ == w@.subrange(lo as int, hi as int),
{
    let mut r: Vec<char> = Vec::new();
    let mut i: usize = lo;
    while i < hi
        invariant
            lo <= i <= hi,
            hi <= w@.len(),
            r@ == w@.subrange(lo as int, i as int),
        decreases hi - i,
    {
        r.push(w[i]);
        proof {
            assert(w@.subrange(lo as int, i + 1) =~= w@.subrange(lo as int, i as int).push(w@[i as int]));
        }
        i += 1;
    }
    r
}

/// Where `p` stands: on top of the board, else under a stack.
pub fn hex_of_piece(board: &Vec<(Hex, Piece)>, stacks: &Vec<(Hex, Vec<Piece>)>, p: Piece) -> (r: Option<Hex>)
    ensures
        r == spec_hex_of(board@, stacks@, p),
{
    match find_piece(board, p) {
        Some(i) => {
            proof {
                assert forall|j: int| #[trigger] first_on_board(board@, p, j) implies j == i by {
                    if j < i {
                        assert(board@[j].1 != p);
                    } else if j > i {
                        assert(board@[i as int].1 == p);
                    }
                }
            }
            Some(board[i].0)
        },
        None => {
            proof {
                assert forall|j: int| !#[trigger] first_on_board(board@, p, j) by {
                    if 0 <= j < board@.len() {
                        assert(board@[j].1 != p);
                    }
                }
            }
            let mut k: usize = 0;
            while k < stacks.len()
                invariant
                    forall|j: int| !#[trigger] first_on_board(board@, p, j),
                    k <= stacks.len(),
                    forall|j: int| 0 <= j < k ==> !(#[trigger] stacks@[j]).1@.contains(p),
                decreases stacks.len() - k,
            {
                if crate::game_state::contains_piece(&stacks[k].1, p) {
                    proof {
                        assert(first_in_stacks(stacks@, p, k as int));
                        assert forall|j: int| #[trigger] first_in_stacks(stacks@, p, j) implies j == k by {
                            if j > k {
                                assert(stacks@[k as int].1@.contains(p));
                            }
                        }
                    }
                    return Some(stacks[k].0);
                }
                k += 1;
            }
            proof {
                assert forall|j: int| !#[trigger] first_in_stacks(stacks@, p, j) by {
                    if 0 <= j < stacks@.len() {
                        assert(!stacks@[j].1@.contains(p));
                    }
                }
            }
            None
        },
    }
}

/// Reads a destination word against a board.
fn parse_dest_chars(w: &Vec<char>, board: &Vec<(Hex, Piece)>, stacks: &Vec<(Hex, Vec<Piece>)>) -> (r: Option<Hex>)
    requires
        w@.len() > 0,
        board_in_play(board@),
        stacks_on_board(board@, stacks@),
    ensures
        r == parse_dest(w@, board@, stacks@),
{
    let east_side = w[0] == 'w' || w[0] == 'b';
    let marked = contains_char(w, '-') || contains_char(w, '/') || contains_char(w, '\\');
    let refs = if east_side {
        if marked {
            slice_chars(w, 0, w.len() - 1)
        } else {
            slice_chars(w, 0, w.len())
        }
    } else {
        slice_chars(w, 1, w.len())
    };
    proof {
        assert(w@.subrange(0, w@.len() as int) =~= w@);
        assert(w@.subrange(0, w@.len() - 1) =~= w@.drop_last());
        assert(w@.subrange(1, w@.len() as int) =~= w@.drop_first());
    }
    let r = match parse_piece_chars(&refs) {
        Ok(p) => p,
        Err(_) => {
            return None;
        },
    };
    let t = match hex_of_piece(board, stacks, r) {
        Some(t) => t,
        None => {
            return None;
        },
    };
    proof {
        if exists|i: int| #[trigger] first_on_board(board@, r, i) {
            let i = choose|i: int| #[trigger] first_on_board(board@, r, i);
            assert(occupied(board@, board@[i].0));
        } else {
            let i = choose|i: int| #[trigger] first_in_stacks(stacks@, r, i);
            assert(has_stack(stacks@, stacks@[i].0));
        }
        assert(in_play(t));
    }
    let c = if east_side {
        if marked {
            w[w.len() - 1]
        } else {
            return Some(t);
        }
    } else {
        w[0]
    };
    if east_side {
        if c == '-' {
            Some(t.e())
        } else if c == '/' {
            Some(t.ne())
        } else if c == '\\' {
            Some(t.se())
        } else {
            None
        }
    } else {
        if c == '-' {
            Some(t.w())
        } else if c == '/' {
            Some(t.sw())
        } else if c == '\\' {
            Some(t.nw())
        } else {
            None
        }
    }
}

/// Reads a move in notation against a board.
pub fn parse_move_chars(cs: &Vec<char>, board: &Vec<(Hex, Piece)>, stacks: &Vec<(Hex, Vec<Piece>)>) -> (r: Result<Turn, Error>)
    requires
        board_in_play(board@),
        stacks_on_board(board@, stacks@),
    ensures
        r is Ok <==> parse_move(cs@, board@, stacks@) is Some,
        r is Ok ==> r->Ok_0 == parse_move(cs@, board@, stacks@)->0,
{
    if cs.len() == 4 && cs[0] == 'p' && cs[1] == 'a' && cs[2] == 's' && cs[3] == 's' {
        proof {
            assert(cs@ =~= seq!['p', 'a', 's', 's']);
        }
        return Ok(Turn::Pass);
    }
    proof {
        if cs@ == seq!['p', 'a', 's', 's'] {
            assert(cs@[0] == 'p' && cs@[1] == 'a' && cs@[2] == 's' && cs@[3] == 's');
        }
    }
    let ws = split_words(cs);
    if ws.len() == 0 {
        return Err(parser_error("empty input"));
    }
    let piece = match parse_piece_chars(&ws[0]) {
        Ok(p) => p,
        Err(e) => {
            return Err(e);
        },
    };
    let dest = if ws.len() < 2 {
        crate::hex::origin()
    } else {
        proof {
            lemma_words_nonempty(cs@, 0, Seq::empty(), Seq::empty());
            assert(ws@[1]@ == words(cs@)[1]);
        }
        match parse_dest_chars(&ws[1], board, stacks) {
            Some(h) => h,
            None => {
                return Err(parser_error("bad destination"));
            },
        }
    };
    match hex_of_piece(board, stacks, piece) {
        Some(_) => Ok(Turn::Move(piece, dest)),
        None => Ok(Turn::Place(piece, dest)),
    }
}

/// Reads a move in notation (`wS1`, `bA1 -wQ`, `pass`) against a board.
pub fn parse_move_string(input: &str, board: &Vec<(Hex, Piece)>, stacks: &Vec<(Hex, Vec<Piece>)>) -> (r: Result<Turn, Error>)
    requires
        board_in_play(board@),
        stacks_on_board(board@, stacks@),
    ensures
        r is Ok <==> parse_move(input@, board@, stacks@) is Some,
        r is Ok ==> r->Ok_0 == parse_move(input@, board@, stacks@)->0,
{
    let cs = chars_of(input);
    parse_move_chars(&cs, board, stacks)
}

pub open spec fn no_space(w: Seq<char>) -> bool {
    forall|k: int| 0 <= k < w.len() ==> !is_space(#[trigger] w[k])
}

/// Reading a run without spaces adds it to the current word.
proof fn lemma_words_run(cs: Seq<char>, j: int, k: int, cur: Seq<char>, acc: Seq<Seq<char>>)
    requires
        0 <= j <= k <= cs.len(),
        forall|x: int| j <= x < k ==> !is_space(#[trigger] cs[x]),
    ensures
        words_from(cs, j, cur, acc) == words_from(cs, k, cur + cs.subrange(j, k), acc),
    decreases k - j,
{
    if j == k {
        assert(cur + cs.subrange(j, k) =~= cur);
    } else {
        lemma_words_run(cs, j + 1, k, cur.push(cs[j]), acc);
        assert(cur.push(cs[j]) + cs.subrange(j + 1, k) =~= cur + cs.subrange(j, k));
    }
}

/// A text without spaces is one word.
pub proof fn lemma_one_word(a: Seq<char>)
    requires
        a.len() > 0,
        no_space(a),
    ensures
        words(a) == seq![a],
{
    lemma_words_run(a, 0, a.len() as int, Seq::empty(), Seq::empty());
    assert(Seq::<char>::empty() + a.subrange(0, a.len() as int) =~= a);
    assert(Seq::<Seq<char>>::empty().push(a) =~= seq![a]);
}

/// Two texts without spaces joined by a space are two words.
pub proof fn lemma_two_words(a: Seq<char>, b: Seq<char>)
    requires
        a.len() > 0,
        b.len() > 0,
        no_space(a),
        no_space(b),
    ensures
        words(a + seq![' '] + b) == seq![a, b],
{
    let cs = a + seq![' '] + b;
    let n = a.len() as int;
    assert forall|x: int| 0 <= x < n implies !is_space(#[trigger] cs[x]) by {
        assert(cs[x] == a[x]);
    }
    lemma_words_run(cs, 0, n, Seq::empty(), Seq::empty());
    assert(Seq::<char>::empty() + cs.subrange(0, n) =~= a);
    assert(cs[n] == ' ');
    let acc = Seq::<Seq<char>>::empty().push(a);
    assert(words_from(cs, n, a, Seq::empty()) == words_from(cs, n + 1, Seq::empty(), acc));
    assert forall|x: int| n + 1 <= x < cs.len() implies !is_space(#[trigger] cs[x]) by {
        assert(cs[x] == b[x - n - 1]);
    }
    lemma_words_run(cs, n + 1, cs.len() as int, Seq::empty(), acc);
    assert(Seq::<char>::empty() + cs.subrange(n + 1, cs.len() as int) =~= b);
    assert(acc.push(b) =~= seq![a, b]);
}

/// The pieces a game is dealt: numbered 1 to 9, and 1 for the kinds a side
/// has one of.
pub open spec fn dealt_shape(p: Piece) -> bool {
    1 <= p.id <= 9 && (is_unique_kind(p.bug) ==> p.id == 1)
}

pub open spec fn is_unique_kind(b: Bug) -> bool {
    crate::piece::is_unique_bug(b)
}

/// Piece notation reads back as the piece.
pub proof fn lemma_piece_text_parses(p: Piece)
    requires
        dealt_shape(p),
    ensures
        parse_piece(piece_text(p)) == Some(p),
        piece_text(p).len() >= 2,
        no_space(piece_text(p)),
        piece_text(p)[0] == 'w' || piece_text(p)[0] == 'b',
        !has_dir_mark(piece_text(p)),
{
    let t = piece_text(p);
    assert(t[1] == crate::piece::bug_char(p.bug));
    if t.len() == 3 {
        assert(t[2] == digit_char(p.id as int));
    }
    assert(!t.contains('-') && !t.contains('/') && !t.contains('\\')) by {
        if t.contains('-') || t.contains('/') || t.contains('\\') {
            let k = choose|k: int| 0 <= k < t.len() && (t[k] == '-' || t[k] == '/' || t[k] == '\\');
        }
    }
    let r = parse_piece(t)->0;
    assert(r.owner == p.owner);
    assert(r.bug == p.bug);
    assert(r.id == p.id);
}

/// Every top piece of the board is found at its own hex and is shaped as dealt.
pub open spec fn board_readable(board: Seq<(Hex, Piece)>, stacks: Seq<(Hex, Vec<Piece>)>) -> bool {
    forall|i: int|
        0 <= i < board.len() ==> spec_hex_of(board, stacks, (#[trigger] board[i]).1) == Some(board[i].0)
            && dealt_shape(board[i].1)
}

proof fn lemma_top_readable(board: Seq<(Hex, Piece)>, stacks: Seq<(Hex, Vec<Piece>)>, x: Hex)
    requires
        board_readable(board, stacks),
        crate::game_state::unique_keys(board),
        occupied(board, x),
    ensures
        spec_hex_of(board, stacks, piece_at(board, x)->0) == Some(x),
        dealt_shape(piece_at(board, x)->0),
{
    let k = choose|k: int| 0 <= k < board.len() && (#[trigger] board[k]).0 == x;
    lemma_piece_at(board, k);
}

/// The reading of a destination word against the board: the hex it names.
proof fn lemma_neighbor_word(
    h: Hex,
    board: Seq<(Hex, Piece)>,
    stacks: Seq<(Hex, Vec<Piece>)>,
    i: int,
    w: Seq<char>,
)
    requires
        h.bounded(),
        0 <= i < 6,
        occupied(board, neighbors_of(h)[i]),
        crate::game_state::unique_keys(board),
        board_readable(board, stacks),
        w == relative_text(Seq::empty(), piece_text(piece_at(board, neighbors_of(h)[i])->0), i).drop_first(),
    ensures
        w.len() > 0,
        no_space(w),
        parse_dest(w, board, stacks) == Some(h),
{
    let nb = neighbors_of(h)[i];
    let q = piece_at(board, nb)->0;
    let tq = piece_text(q);
    lemma_top_readable(board, stacks, nb);
    lemma_piece_text_parses(q);
    assert forall|k: int| 0 <= k < w.len() implies !is_space(#[trigger] w[k]) by {
        if i == 0 || i == 2 || i == 4 {
            if k > 0 {
                assert(w[k] == tq[k - 1]);
            }
        } else {
            if k < tq.len() {
                assert(w[k] == tq[k]);
            }
        }
    }
    if i == 0 || i == 2 || i == 4 {
        assert(w.drop_first() =~= tq);
    } else {
        assert(w.drop_last() =~= tq);
        assert(w.contains(w.last())) by {
            assert(w[w.len() - 1] == w.last());
        }
    }
}

/// A destination in move notation reads back as the same destination: the
/// piece there, or a neighbor and its side, or the origin for a first move.
#[verifier::rlimit(40)]
pub proof fn lemma_dest_text_parses(
    p: Piece,
    h: Hex,
    board: Seq<(Hex, Piece)>,
    stacks: Seq<(Hex, Vec<Piece>)>,
)
    requires
        dealt_shape(p),
        h.bounded(),
        crate::game_state::unique_keys(board),
        board_readable(board, stacks),
        occupied(board, h) || (exists|i: int| first_occupied_neighbor(board, h, i)) || h
            == crate::hex::spec_origin(),
    ensures
        parse_move(dest_text(p, h, board), board, stacks) == Some(
            if spec_hex_of(board, stacks, p) is Some {
                Turn::Move(p, h)
            } else {
                Turn::Place(p, h)
            },
        ),
{
    let tp = piece_text(p);
    lemma_piece_text_parses(p);
    let text = dest_text(p, h, board);
    if occupied(board, h) {
        let q = piece_at(board, h)->0;
        lemma_top_readable(board, stacks, h);
        lemma_piece_text_parses(q);
        lemma_two_words(tp, piece_text(q));
        assert(text =~= tp + seq![' '] + piece_text(q));
        assert(text[0] == tp[0]);
    } else if exists|i: int| first_occupied_neighbor(board, h, i) {
        let i = choose|i: int| first_occupied_neighbor(board, h, i);
        let tq = piece_text(piece_at(board, neighbors_of(h)[i])->0);
        let w = relative_text(Seq::empty(), tq, i).drop_first();
        lemma_neighbor_word(h, board, stacks, i, w);
        assert(text =~= tp + seq![' '] + w);
        assert(text[0] == tp[0]);
        lemma_two_words(tp, w);
    } else {
        lemma_one_word(tp);
        assert(text == tp);
    }
}

} // verus!
