use vstd::prelude::*;
use crate::piece::Player;
use crate::game_state::{GameState, GameType, Turn, TurnError, is_terminal};
use crate::game_string::{
    chars_eq, parse_game_type_chars, parse_number, fresh_game, game_string_fails,
    game_string_reads_as, game_string_text, history_ok, parse_game_type_spec, restore_game,
};
use crate::moves::{legal_turn, lemma_legal_printable, printable_turn, turn_taken, valid_moves_result};
use crate::notation::{Error, parse_move, parse_move_chars, turn_chars, turn_text};
use crate::text::{chars_of, push_all, string_of};

verus! {

/// A UHP engine: the current game, if any, the game as it stood before each
/// of its turns (for `undo`), and the side that moves first in new games.
pub struct Engine {
    pub game: Option<GameState>,
    pub history: Vec<GameState>,
    pub first_player: Player,
}

/// The answer to `info`.
pub open spec fn info_text() -> Seq<char> {
    seq!['i', 'd', ' ', 'B', 'a', 'z', 'i', 'n', 'g', 'a', ' ', 'v', '1', '.', '0', '\n',
        'M', 'o', 's', 'q', 'u', 'i', 't', 'o', ';', 'L', 'a', 'd', 'y', 'b', 'u', 'g', ';',
        'P', 'i', 'l', 'l', 'b', 'u', 'g', '\n', 'o', 'k']
}

pub open spec fn ok_text() -> Seq<char> {
    seq!['o', 'k']
}

pub open spec fn ok_suffix() -> Seq<char> {
    seq!['\n', 'o', 'k']
}

/// A response that reports an error.
pub open spec fn is_err_text(r: Seq<char>) -> bool {
    r.len() >= 4 && r.subrange(0, 4) == seq!['e', 'r', 'r', ' ']
}

/// `cs` starts with `prefix`.
pub open spec fn has_prefix(cs: Seq<char>, prefix: Seq<char>) -> bool {
    prefix.len() <= cs.len() && cs.subrange(0, prefix.len() as int) == prefix
}

pub open spec fn newgame_word() -> Seq<char> {
    seq!['n', 'e', 'w', 'g', 'a', 'm', 'e']
}

pub open spec fn newgame_prefix() -> Seq<char> {
    seq!['n', 'e', 'w', 'g', 'a', 'm', 'e', ' ']
}

pub open spec fn play_prefix() -> Seq<char> {
    seq!['p', 'l', 'a', 'y', ' ']
}

pub open spec fn undo_prefix() -> Seq<char> {
    seq!['u', 'n', 'd', 'o', ' ']
}

/// The commands the engine answers: `newgame…`, `play …`, `pass`,
/// `validmoves`, `undo`, `undo …`, `options` and `info`.
pub open spec fn known_command(cs: Seq<char>) -> bool {
    ||| has_prefix(cs, newgame_word())
    ||| has_prefix(cs, play_prefix())
    ||| cs == seq!['p', 'a', 's', 's']
    ||| cs == seq!['v', 'a', 'l', 'i', 'd', 'm', 'o', 'v', 'e', 's']
    ||| cs == seq!['u', 'n', 'd', 'o']
    ||| has_prefix(cs, undo_prefix())
    ||| cs == seq!['o', 'p', 't', 'i', 'o', 'n', 's']
    ||| cs == seq!['i', 'n', 'f', 'o']
}

/// Nothing about the engine changed.
pub open spec fn unchanged(a: Engine, b: Engine) -> bool {
    &&& b.game == a.game
    &&& b.history@ == a.history@
    &&& b.first_player == a.first_player
}

/// `r` is the engine's game string followed by `ok`.
pub open spec fn game_response_text(e: Engine, r: Seq<char>) -> bool {
    &&& e.game is Some
    &&& exists|text: Seq<char>| #[trigger] game_string_text(e.game->0, text) && r == text + ok_suffix()
}

/// The turns of a list in move notation against `board`, joined by `;`.
pub open spec fn joined_text(v: Seq<Turn>, board: Seq<(crate::hex::Hex, crate::piece::Piece)>) -> Seq<char>
    decreases v.len(),
{
    if v.len() == 0 {
        Seq::empty()
    } else if v.len() == 1 {
        turn_text(v[0], board)
    } else {
        joined_text(v.drop_last(), board) + seq![';'] + turn_text(v.last(), board)
    }
}

/// What `play m` does: with no game, a game over, a move that does not read,
/// or a turn that is neither a pass nor legal, it answers `err` and changes
/// nothing; otherwise it takes the turn, keeps the game as it was in the
/// history, and answers the new game string.
pub open spec fn play_result(a: Engine, b: Engine, m: Seq<char>, r: Seq<char>) -> bool {
    &&& b.first_player == a.first_player
    &&& a.game is None ==> is_err_text(r) && unchanged(a, b)
    &&& a.game is Some ==> {
        let g = a.game->0;
        let pm = parse_move(m, g.board@, g.stacks@);
        let refused = g.turns@.len() >= MAX_TURNS || pm is None || is_terminal(g.status) || (
        pm->0 != Turn::Pass && !legal_turn(g, pm->0));
        &&& refused ==> is_err_text(r) && unchanged(a, b)
        &&& !refused ==> {
            &&& !is_err_text(r)
            &&& b.game is Some
            &&& turn_taken(g, b.game->0, pm->0)
            &&& game_response_text(b, r)
            &&& b.history@ == a.history@.push(g)
        }
    }
}

/// What `undo` with the count `count` does: with no game, a count that does
/// not read, or more turns than were played, it answers `err` and changes
/// nothing; `undo 0` changes nothing; otherwise the game goes back to what it
/// was before the last `n` turns. It answers the game string.
pub open spec fn undo_result(a: Engine, b: Engine, count: Seq<char>, r: Seq<char>) -> bool {
    let n = parse_number_spec(count);
    &&& b.first_player == a.first_player
    &&& (a.game is None || n is None || n->0 > a.game->0.turns@.len()) ==> is_err_text(r) && unchanged(a, b)
    &&& !(a.game is None || n is None || n->0 > a.game->0.turns@.len()) ==> {
        let len = a.game->0.turns@.len();
        &&& !is_err_text(r)
        &&& game_response_text(b, r)
        &&& n->0 == 0 ==> unchanged(a, b)
        &&& n->0 > 0 ==> b.game == Some(a.history@[len - n->0]) && b.history@ == a.history@.subrange(0, len - n->0)
        &&& b.game->0.turns@ == a.game->0.turns@.subrange(0, len - n->0)
    }
}

/// What `validmoves` does: with no game it answers `err`; otherwise every
/// valid move in notation, joined by `;`. It changes nothing.
pub open spec fn validmoves_result(a: Engine, b: Engine, r: Seq<char>) -> bool {
    &&& unchanged(a, b)
    &&& a.game is None ==> is_err_text(r)
    &&& a.game is Some ==> exists|v: Seq<Turn>|
        #[trigger] valid_moves_result(a.game->0, v) && r == joined_text(v, a.game->0.board@) + ok_suffix()
}

/// What `newgame` with an argument does: a game type starts a new game of
/// that type; otherwise the argument is read as a game string, and a game
/// string that does not read (or holds more turns than the engine keeps) is
/// answered with `err`, changing nothing.
pub open spec fn newgame_arg_result(a: Engine, b: Engine, arg: Seq<char>, r: Seq<char>) -> bool {
    &&& b.first_player == a.first_player
    &&& parse_game_type_spec(arg) is Some ==> !is_err_text(r) && b.game is Some && fresh_game(
        b.game->0,
        a.first_player,
        parse_game_type_spec(arg)->0,
    ) && b.history@.len() == 0 && game_response_text(b, r)
    &&& parse_game_type_spec(arg) is None && !is_err_text(r) ==> b.game is Some && game_string_reads_as(
        arg,
        b.game->0,
    ) && game_response_text(b, r)
    &&& parse_game_type_spec(arg) is None && is_err_text(r) ==> unchanged(a, b) && (game_string_fails(arg)
        || exists|g: GameState| #[trigger] game_string_reads_as(arg, g) && g.turns@.len() > MAX_TURNS)
}

/// `undo 0`, when the engine holds a game, is accepted and changes nothing.
pub proof fn law_undo_zero_is_a_no_op(a: Engine, b: Engine, r: Seq<char>)
    requires
        a.game is Some,
        undo_result(a, b, seq!['0'], r),
    ensures
        !is_err_text(r),
        unchanged(a, b),
{
    reveal_with_fuel(crate::game_string::digits_value, 2);
    assert(seq!['0'].drop_last() =~= Seq::<char>::empty());
    assert(parse_number_spec(seq!['0']) == Some(0nat));
}

/// A count in decimal that fits in a `usize`.
pub open spec fn parse_number_spec(cs: Seq<char>) -> Option<nat> {
    if cs.len() > 0 && crate::game_string::all_digits(cs) && crate::game_string::digits_value(cs)
        <= usize::MAX {
        Some(crate::game_string::digits_value(cs))
    } else {
        None
    }
}

/// The number of turns a game may record, kept clear of `usize::MAX`.
pub const MAX_TURNS: usize = 0xffff_0000;

impl Engine {
    /// The engine's invariant: a current game is well formed, short enough to
    /// take more turns, and has a game in the history for each of its turns;
    /// with no game the history is empty.
    pub open spec fn inv(&self) -> bool {
        &&& self.game is Some ==> self.game->0.wf() && self.game->0.turns@.len() <= MAX_TURNS
            && history_ok(self.game->0, self.history@)
        &&& self.game is None ==> self.history@.len() == 0
    }

    /// An engine with no game, White to move first in new games.
    pub fn new() -> (r: Engine)
        ensures
            r.inv(),
            r.game is None,
            r.first_player == Player::White,
    {
        Engine { game: None, history: Vec::new(), first_player: Player::White }
    }
}

fn lit(s: &str) -> (r: Vec<char>)
    ensures
        r@ == s@,
{
    chars_of(s)
}

/// Whether `cs` starts with `prefix`.
fn starts_with(cs: &Vec<char>, prefix: &Vec<char>) -> (r: bool)
    ensures
        r == (prefix@.len() <= cs@.len() && cs@.subrange(0, prefix@.len() as int) == prefix@),
{
    if prefix.len() > cs.len() {
        return false;
    }
    let mut i: usize = 0;
    while i < prefix.len()
        invariant
            prefix@.len() <= cs@.len(),
            i <= prefix.len(),
            forall|k: int| 0 <= k < i ==> cs@[k] == prefix@[k],
        decreases prefix.len() - i,
    {
        if cs[i] != prefix[i] {
            proof {
                assert(cs@.subrange(0, prefix@.len() as int)[i as int] == cs@[i as int]);
            }
            return false;
        }
        i += 1;
    }
    proof {
        assert(cs@.subrange(0, prefix@.len() as int) =~= prefix@);
    }
    true
}

/// The characters of `cs` from position `lo` on.
fn tail_from(cs: &Vec<char>, lo: usize) -> (r: Vec<char>)
    requires
        lo <= cs@.len(),
    ensures
        r@ == cs@.subrange(lo as int, cs@.len() as int),
{
    let mut r: Vec<char> = Vec::new();
    let mut i: usize = lo;
    while i < cs.len()
        invariant
            lo <= i <= cs@.len(),
            r@ == cs@.subrange(lo as int, i as int),
        decreases cs.len() - i,
    {
        r.push(cs[i]);
        proof {
            assert(cs@.subrange(lo as int, i + 1) =~= cs@.subrange(lo as int, i as int).push(cs@[i as int]));
        }
        i += 1;
    }
    r
}

/// A response to a command: optional text, then the closing `ok`.
pub struct Output {
    pub text: Option<String>,
}

impl Output {
    /// A response with nothing before `ok`.
    pub fn empty() -> (r: Output)
        ensures
            r.text is None,
    {
        Output { text: None }
    }

    /// The response as sent: the text and a newline, if any, then `ok`.
    pub fn to_text(&self) -> (r: String)
        ensures
            r@ == match self.text {
                Some(t) => t@ + seq!['\n', 'o', 'k'],
                None => ok_text(),
            },
    {
        let mut out: Vec<char> = Vec::new();
        match &self.text {
            Some(t) => {
                let cs = chars_of(t.as_str());
                push_all(&mut out, &cs);
                out.push('\n');
            },
            None => {},
        }
        out.push('o');
        out.push('k');
        proof {
            if self.text is Some {
                assert(out@ =~= self.text->0@ + seq!['\n', 'o', 'k']);
            } else {
                assert(out@ =~= ok_text());
            }
        }
        string_of(&out)
    }
}

/// A response carrying text, closed by `ok`.
fn respond(body: &Vec<char>) -> (r: String)
    ensures
        r@ == body@ + seq!['\n', 'o', 'k'],
{
    Output { text: Some(string_of(body)) }.to_text()
}

/// An error response: `err`, the detail, then `ok`.
fn respond_err(detail: &str) -> (r: String)
    ensures
        is_err_text(r@),
{
    let mut out: Vec<char> = vec!['e', 'r', 'r', ' '];
    let d = chars_of(detail);
    push_all(&mut out, &d);
    out.push('\n');
    out.push('o');
    out.push('k');
    proof {
        assert(out@.subrange(0, 4) =~= seq!['e', 'r', 'r', ' ']);
    }
    string_of(&out)
}

fn error_detail(e: &Error) -> (r: &str) {
    match e {
        Error::ParserError(s) => s.as_str(),
        Error::EngineError(s) => s.as_str(),
    }
}

fn turn_error_detail(e: TurnError) -> (r: &'static str) {
    match e {
        TurnError::WrongPlayer => "WrongPlayer",
        TurnError::InvalidMove => "InvalidMove",
        TurnError::GameOver => "GameOver",
    }
}

impl Engine {
    /// The current game string, closed by `ok`.
    fn game_response(&self) -> (r: String)
        requires
            self.inv(),
        ensures
            self.game is Some ==> !is_err_text(r@) && game_response_text(*self, r@),
            self.game is None ==> is_err_text(r@),
    {
        match &self.game {
            Some(g) => {
                let text = g.game_string();
                let s = chars_of(text.as_str());
                let r = respond(&s);
                proof {
                    assert(r@[0] == 'B');
                    assert(r@.subrange(0, 4)[0] == 'B');
                    assert(game_string_text(*g, text@));
                }
                r
            },
            None => respond_err("game not created yet"),
        }
    }

    fn handle_newgame(&mut self, cs: &Vec<char>) -> (r: String)
        requires
            old(self).inv(),
        ensures
            final(self).inv(),
            final(self).first_player == old(self).first_player,
            is_err_text(r@) ==> unchanged(*old(self), *final(self)),
            cs@ == newgame_word() ==> !is_err_text(r@) && final(self).game is Some && fresh_game(
                final(self).game->0,
                old(self).first_player,
                GameType::Base,
            ) && game_response_text(*final(self), r@),
            forall|arg: Seq<char>|
                cs@ == newgame_prefix() + arg ==> #[trigger] newgame_arg_result(*old(self), *final(self), arg, r@),
            !(cs@ == newgame_word() || has_prefix(cs@, newgame_prefix())) ==> is_err_text(r@),
    {
        if chars_eq(cs, &vec!['n', 'e', 'w', 'g', 'a', 'm', 'e']) {
            proof {
                assert forall|arg: Seq<char>| cs@ == newgame_prefix() + arg implies false by {
                    assert(cs@.len() == 7);
                }
            }
            self.game = Some(GameState::new(self.first_player));
            self.history = Vec::new();
            return self.game_response();
        }
        let prefix = vec!['n', 'e', 'w', 'g', 'a', 'm', 'e', ' '];
        if !starts_with(cs, &prefix) {
            proof {
                assert forall|arg: Seq<char>| cs@ == newgame_prefix() + arg implies false by {
                    assert(cs@.subrange(0, 8) =~= newgame_prefix());
                }
            }
            return respond_err("unrecognized newgame arg");
        }
        let arg = tail_from(cs, prefix.len());
        proof {
            assert forall|a2: Seq<char>| cs@ == newgame_prefix() + a2 implies a2 == arg@ by {
                assert(a2 =~= cs@.subrange(8, cs@.len() as int));
            }
        }
        if let Ok(game_type) = parse_game_type_chars(&arg) {
            self.game = Some(GameState::new_with_type(self.first_player, game_type));
            self.history = Vec::new();
            return self.game_response();
        }
        let arg_text = string_of(&arg);
        match restore_game(arg_text.as_str()) {
            Ok((g, h)) => {
                if g.turns.len() > MAX_TURNS {
                    return respond_err("game too long");
                }
                self.game = Some(g);
                self.history = h;
                self.game_response()
            },
            Err(_) => respond_err("unrecognized newgame arg"),
        }
    }

    fn handle_play(&mut self, move_chars: &Vec<char>) -> (r: String)
        requires
            old(self).inv(),
        ensures
            final(self).inv(),
            play_result(*old(self), *final(self), move_chars@, r@),
    {
        let ghost e0 = *self;
        match &self.game {
            None => {
                return respond_err("game not created yet");
            },
            Some(game) => {
                if game.turns.len() >= MAX_TURNS {
                    return respond_err("game too long");
                }
            },
        }
        let mut game = match self.game.take() {
            Some(g) => g,
            None => {
                return respond_err("game not created yet");
            },
        };
        let turn = match parse_move_chars(move_chars, &game.board, &game.stacks) {
            Ok(t) => t,
            Err(e) => {
                self.game = Some(game);
                return respond_err(error_detail(&e));
            },
        };
        match game.play_copy(turn) {
            Ok(next) => {
                proof {
                    reveal(crate::game_string::replay_step);
                    crate::game_string::lemma_history_push(game, self.history@, next, turn);
                }
                self.history.push(game);
                self.game = Some(next);
                self.game_response()
            },
            Err(e) => {
                self.game = Some(game);
                respond_err(turn_error_detail(e))
            },
        }
    }

    fn handle_validmoves(&self) -> (r: String)
        requires
            self.inv(),
        ensures
            validmoves_result(*self, *self, r@),
    {
        match &self.game {
            None => respond_err("game not created yet"),
            Some(game) => {
                let moves = game.get_valid_moves();
                let mut out: Vec<char> = Vec::new();
                let mut i: usize = 0;
                while i < moves.len()
                    invariant
                        game.wf(),
                        valid_moves_result(*game, moves@),
                        i <= moves.len(),
                        out@ == joined_text(moves@.subrange(0, i as int), game.board@),
                    decreases moves.len() - i,
                {
                    let t = moves[i];
                    proof {
                        if exists|u: Turn| legal_turn(*game, u) {
                            assert(moves@.contains(t));
                            lemma_legal_printable(*game, t);
                        } else {
                            assert(moves@ == seq![Turn::Pass]);
                        }
                    }
                    let ghost prev = out@;
                    if i > 0 {
                        out.push(';');
                    }
                    let text = turn_chars(&t, &game.board);
                    push_all(&mut out, &text);
                    proof {
                        let sub = moves@.subrange(0, i + 1);
                        assert(sub.drop_last() =~= moves@.subrange(0, i as int));
                        assert(sub.last() == t);
                        if i == 0 {
                            assert(out@ =~= turn_text(t, game.board@));
                        } else {
                            assert(out@ =~= prev + seq![';'] + turn_text(t, game.board@));
                        }
                    }
                    i += 1;
                }
                proof {
                    assert(moves@.subrange(0, moves@.len() as int) =~= moves@);
                }
                respond(&out)
            },
        }
    }

    fn handle_undo(&mut self, count: &Vec<char>) -> (r: String)
        requires
            old(self).inv(),
        ensures
            final(self).inv(),
            undo_result(*old(self), *final(self), count@, r@),
    {
        let n = match parse_number(count) {
            Some(n) => n,
            None => {
                return respond_err("please specify a number");
            },
        };
        let len = match &self.game {
            None => {
                return respond_err("game not created yet");
            },
            Some(g) => g.turns.len(),
        };
        if n > len {
            return respond_err("cannot undo more turns than exist");
        }
        if n == 0 {
            proof {
                let g = self.game->0;
                assert(g.turns@.subrange(0, g.turns@.len() as int) =~= g.turns@);
            }
            return self.game_response();
        }
        let ghost e0 = *self;
        let k = len - n;
        proof {
            crate::game_string::lemma_history_back(e0.game->0, e0.history@, k as int);
        }
        let restored = self.history.remove(k);
        self.history.truncate(k);
        proof {
            assert(restored == e0.history@[k as int]);
            assert(self.history@ =~= e0.history@.subrange(0, k as int));
        }
        self.game = Some(restored);
        self.game_response()
    }

    /// Answers one UHP command: `newgame`, `play`, `pass`, `validmoves`,
    /// `undo`, `options` or `info`. Every response ends with `ok`; a refused
    /// command answers `err` and a detail first, and changes nothing.
    pub fn handle_command(&mut self, input: &str) -> (r: String)
        requires
            old(self).inv(),
        ensures
            final(self).inv(),
            final(self).first_player == old(self).first_player,
            is_err_text(r@) ==> unchanged(*old(self), *final(self)),
            !known_command(input@) ==> is_err_text(r@),
            input@ == newgame_word() ==> !is_err_text(r@) && final(self).game is Some && fresh_game(
                final(self).game->0,
                old(self).first_player,
                GameType::Base,
            ) && game_response_text(*final(self), r@),
            forall|arg: Seq<char>|
                input@ == newgame_prefix() + arg ==> #[trigger] newgame_arg_result(*old(self), *final(self), arg, r@),
            forall|m: Seq<char>|
                input@ == play_prefix() + m ==> #[trigger] play_result(*old(self), *final(self), m, r@),
            input@ == seq!['p', 'a', 's', 's'] ==> play_result(*old(self), *final(self), seq!['p', 'a', 's', 's'], r@),
            input@ == seq!['v', 'a', 'l', 'i', 'd', 'm', 'o', 'v', 'e', 's'] ==> validmoves_result(*old(self), *final(self), r@),
            input@ == seq!['u', 'n', 'd', 'o'] ==> undo_result(*old(self), *final(self), seq!['1'], r@),
            forall|k: Seq<char>|
                input@ == undo_prefix() + k ==> #[trigger] undo_result(*old(self), *final(self), k, r@),
            input@ == seq!['o', 'p', 't', 'i', 'o', 'n', 's'] ==> r@ == ok_text() && unchanged(*old(self), *final(self)),
            input@ == seq!['i', 'n', 'f', 'o'] ==> r@ == info_text() && unchanged(*old(self), *final(self)),
    {
        let cs = chars_of(input);
        if starts_with(&cs, &vec!['n', 'e', 'w', 'g', 'a', 'm', 'e']) {
            proof {
                assert forall|m: Seq<char>| input@ == play_prefix() + m implies false by {
                    assert(input@[0] == 'p');
                }
                assert forall|m: Seq<char>| input@ == undo_prefix() + m implies false by {
                    assert(input@[0] == 'u');
                }
                if input@ == newgame_word() {
                    assert(cs@ == newgame_word());
                }
            }
            return self.handle_newgame(&cs);
        }
        proof {
            assert forall|arg: Seq<char>| input@ == newgame_prefix() + arg implies false by {
                assert(cs@.subrange(0, 7) =~= newgame_word());
            }
            if input@ == newgame_word() {
                assert(cs@.subrange(0, 7) =~= newgame_word());
            }
        }
        let play = vec!['p', 'l', 'a', 'y', ' '];
        if starts_with(&cs, &play) {
            let m = tail_from(&cs, play.len());
            proof {
                assert forall|m2: Seq<char>| input@ == play_prefix() + m2 implies m2 == m@ by {
                    assert(m2 =~= input@.subrange(5, input@.len() as int));
                }
                assert forall|k: Seq<char>| input@ == undo_prefix() + k implies false by {
                    assert(input@[0] == 'u');
                }
            }
            return self.handle_play(&m);
        }
        proof {
            assert forall|m2: Seq<char>| input@ == play_prefix() + m2 implies false by {
                assert(cs@.subrange(0, 5) =~= play_prefix());
            }
        }
        let undo = vec!['u', 'n', 'd', 'o', ' '];
        if starts_with(&cs, &undo) {
            let n = tail_from(&cs, undo.len());
            proof {
                assert forall|k: Seq<char>| input@ == undo_prefix() + k implies k == n@ by {
                    assert(k =~= input@.subrange(5, input@.len() as int));
                }
            }
            return self.handle_undo(&n);
        }
        proof {
            assert forall|k: Seq<char>| input@ == undo_prefix() + k implies false by {
                assert(cs@.subrange(0, 5) =~= undo_prefix());
            }
        }
        if chars_eq(&cs, &vec!['p', 'a', 's', 's']) {
            let p = vec!['p', 'a', 's', 's'];
            proof {
                assert(p@ =~= seq!['p', 'a', 's', 's']);
            }
            return self.handle_play(&p);
        }
        if chars_eq(&cs, &vec!['v', 'a', 'l', 'i', 'd', 'm', 'o', 'v', 'e', 's']) {
            return self.handle_validmoves();
        }
        if chars_eq(&cs, &vec!['u', 'n', 'd', 'o']) {
            let one = vec!['1'];
            proof {
                assert(one@ =~= seq!['1']);
            }
            return self.handle_undo(&one);
        }
        let options = vec!['o', 'p', 't', 'i', 'o', 'n', 's'];
        if chars_eq(&cs, &options) {
            return Output::empty().to_text();
        }
        let info = vec!['i', 'n', 'f', 'o'];
        if chars_eq(&cs, &info) {
            let text = vec!['i', 'd', ' ', 'B', 'a', 'z', 'i', 'n', 'g', 'a', ' ', 'v', '1', '.', '0', '\n',
                'M', 'o', 's', 'q', 'u', 'i', 't', 'o', ';', 'L', 'a', 'd', 'y', 'b', 'u', 'g', ';',
                'P', 'i', 'l', 'l', 'b', 'u', 'g', '\n', 'o', 'k'];
            proof {
                assert(text@ =~= info_text());
            }
            return string_of(&text);
        }
        respond_err("unrecognized command")
    }
}

} // verus!
