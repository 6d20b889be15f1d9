use vstd::prelude::*;
use crate::piece::{Player, digit_char, digit_of};
use crate::game_state::{GameState, GameStatus, GameType, Turn, in_play};
use crate::notation::{Error, parser_error, parse_move_chars, turn_chars, turn_text};
use crate::text::{chars_of, push_all, string_of};

verus! {

/// The name of a side.
pub open spec fn player_text(p: Player) -> Seq<char> {
    match p {
        Player::White => seq!['W', 'h', 'i', 't', 'e'],
        Player::Black => seq!['B', 'l', 'a', 'c', 'k'],
    }
}

/// A game type: `Base`, or `Base+` followed by the expansions in the order
/// P, L, M.
pub open spec fn game_type_text(g: GameType) -> Seq<char> {
    match g {
        GameType::Base => seq!['B', 'a', 's', 'e'],
        GameType::PLM(p, l, m) => seq!['B', 'a', 's', 'e', '+'] + (if p {
            seq!['P']
        } else {
            Seq::empty()
        }) + (if l {
            seq!['L']
        } else {
            Seq::empty()
        }) + (if m {
            seq!['M']
        } else {
            Seq::empty()
        }),
    }
}

pub open spec fn status_text(s: GameStatus) -> Seq<char> {
    match s {
        GameStatus::NotStarted => seq!['N', 'o', 't', 'S', 't', 'a', 'r', 't', 'e', 'd'],
        GameStatus::InProgress => seq!['I', 'n', 'P', 'r', 'o', 'g', 'r', 'e', 's', 's'],
        GameStatus::Draw => seq!['D', 'r', 'a', 'w'],
        GameStatus::Win(p) => player_text(p) + seq!['W', 'i', 'n', 's'],
    }
}

/// `n` in decimal.
pub open spec fn decimal(n: nat) -> Seq<char>
    decreases n,
{
    if n < 10 {
        seq![digit_char(n as int)]
    } else {
        decimal(n / 10).push(digit_char((n % 10) as int))
    }
}

/// The value of a string of decimal digits.
pub open spec fn digits_value(cs: Seq<char>) -> nat
    decreases cs.len(),
{
    if cs.len() == 0 {
        0
    } else {
        digits_value(cs.drop_last()) * 10 + (cs.last() as nat - '0' as nat) as nat
    }
}

pub open spec fn all_digits(cs: Seq<char>) -> bool {
    forall|i: int| 0 <= i < cs.len() ==> '0' <= #[trigger] cs[i] <= '9'
}

/// Whose turn it is and the side's move number: `White[n]` or `Black[n]`.
pub open spec fn turn_string_text(s: GameState) -> Seq<char> {
    player_text(s.current_player) + seq!['['] + decimal((s.turns@.len() / 2 + 1) as nat) + seq![']']
}

/// The start of a game string: type, status and turn string.
pub open spec fn header_text(s: GameState) -> Seq<char> {
    game_type_text(s.game_type) + seq![';'] + status_text(s.status) + seq![';'] + turn_string_text(s)
}

pub fn player_chars(p: Player) -> (r: Vec<char>)
    ensures
        r@ == player_text(p),
{
    let r = match p {
        Player::White => vec!['W', 'h', 'i', 't', 'e'],
        Player::Black => vec!['B', 'l', 'a', 'c', 'k'],
    };
    proof {
        assert(r@ =~= player_text(p));
    }
    r
}

pub fn game_type_chars(g: GameType) -> (r: Vec<char>)
    ensures
        r@ == game_type_text(g),
{
    let mut r = vec!['B', 'a', 's', 'e'];
    match g {
        GameType::Base => {},
        GameType::PLM(p, l, m) => {
            r.push('+');
            let ghost a = r@;
            if p {
                r.push('P');
            }
            let ghost b = r@;
            if l {
                r.push('L');
            }
            let ghost c = r@;
            if m {
                r.push('M');
            }
            proof {
                assert(b =~= a + (if p { seq!['P'] } else { Seq::empty() }));
                assert(c =~= b + (if l { seq!['L'] } else { Seq::empty() }));
                assert(r@ =~= c + (if m { seq!['M'] } else { Seq::empty() }));
            }
        },
    }
    proof {
        assert(r@ =~= game_type_text(g));
    }
    r
}

pub fn status_chars(s: GameStatus) -> (r: Vec<char>)
    ensures
        r@ == status_text(s),
{
    let r = match s {
        GameStatus::NotStarted => vec!['N', 'o', 't', 'S', 't', 'a', 'r', 't', 'e', 'd'],
        GameStatus::InProgress => vec!['I', 'n', 'P', 'r', 'o', 'g', 'r', 'e', 's', 's'],
        GameStatus::Draw => vec!['D', 'r', 'a', 'w'],
        GameStatus::Win(p) => {
            let mut v = player_chars(p);
            v.push('W');
            v.push('i');
            v.push('n');
            v.push('s');
            v
        },
    };
    proof {
        assert(r@ =~= status_text(s));
    }
    r
}

/// `n` in decimal, as characters.
pub fn decimal_chars(n: usize) -> (r: Vec<char>)
    ensures
        r@ == decimal(n as nat),
    decreases n,
{
    if n < 10 {
        let r = vec![digit_of(n as u8)];
        proof {
            assert(r@ =~= decimal(n as nat));
        }
        r
    } else {
        let mut r = decimal_chars(n / 10);
        r.push(digit_of((n % 10) as u8));
        r
    }
}

/// Reads a string of decimal digits that fits in a `usize`.
pub fn parse_number(cs: &Vec<char>) -> (r: Option<usize>)
    ensures
        r is Some <==> (cs@.len() > 0 && all_digits(cs@) && digits_value(cs@) <= usize::MAX),
        r is Some ==> r->0 == digits_value(cs@),
{
    if cs.len() == 0 {
        return None;
    }
    let mut acc: usize = 0;
    let mut i: usize = 0;
    while i < cs.len()
        invariant
            i <= cs.len(),
            all_digits(cs@.subrange(0, i as int)),
            acc == digits_value(cs@.subrange(0, i as int)),
        decreases cs.len() - i,
    {
        let c = cs[i];
        let ghost pre = cs@.subrange(0, i as int);
        let ghost next = cs@.subrange(0, i + 1);
        proof {
            assert(next.drop_last() =~= pre);
            assert(next.last() == c);
        }
        if c < '0' || c > '9' {
            proof {
                assert(!all_digits(cs@)) by {
                    assert(!('0' <= cs@[i as int] <= '9'));
                }
            }
            return None;
        }
        let d = ((c as u32) - ('0' as u32)) as usize;
        if acc > (usize::MAX - d) / 10 {
            proof {
                assert(digits_value(next) == acc * 10 + d);
                assert(acc * 10 + d > usize::MAX) by (nonlinear_arith)
                    requires
                        acc > (usize::MAX - d) / 10,
                        d <= 9,
                ;
                lemma_prefix_value_le(cs@, i + 1);
            }
            return None;
        }
        proof {
            assert(acc * 10 + d <= usize::MAX) by (nonlinear_arith)
                requires
                    acc <= (usize::MAX - d) / 10,
                    d <= 9,
            ;
        }
        acc = acc * 10 + d;
        proof {
            assert(all_digits(next)) by {
                assert forall|k: int| 0 <= k < next.len() implies '0' <= #[trigger] next[k] <= '9' by {
                    if k < i {
                        assert(next[k] == pre[k]);
                    }
                }
            }
        }
        i += 1;
    }
    proof {
        assert(cs@.subrange(0, cs@.len() as int) =~= cs@);
    }
    Some(acc)
}

/// A string of digits is worth at least any of its prefixes.
proof fn lemma_prefix_value_le(cs: Seq<char>, k: int)
    requires
        0 <= k <= cs.len(),
    ensures
        all_digits(cs) ==> digits_value(cs.subrange(0, k)) <= digits_value(cs),
    decreases cs.len() - k,
{
    if k < cs.len() && all_digits(cs) {
        lemma_prefix_value_le(cs, k + 1);
        let a = cs.subrange(0, k + 1);
        assert(a.drop_last() =~= cs.subrange(0, k));
        assert('0' <= cs[k] <= '9');
        assert(digits_value(a) == digits_value(cs.subrange(0, k)) * 10 + (cs[k] as nat - '0' as nat) as nat);
    } else if k == cs.len() {
        assert(cs.subrange(0, k) =~= cs);
    }
}

/// The fields of `cs` separated by `sep`, from position `i` on, given the
/// field `cur` read so far and the finished fields `acc`.
pub open spec fn fields_from(cs: Seq<char>, sep: char, i: int, cur: Seq<char>, acc: Seq<Seq<char>>) -> Seq<Seq<char>>
    decreases cs.len() - i,
{
    if i >= cs.len() {
        acc.push(cur)
    } else if cs[i] == sep {
        fields_from(cs, sep, i + 1, Seq::empty(), acc.push(cur))
    } else {
        fields_from(cs, sep, i + 1, cur.push(cs[i]), acc)
    }
}

/// The fields of `cs` between separators; empty fields included.
pub open spec fn fields(cs: Seq<char>, sep: char) -> Seq<Seq<char>> {
    fields_from(cs, sep, 0, Seq::empty(), Seq::empty())
}

/// Splits characters at each separator.
pub fn split_fields(cs: &Vec<char>, sep: char) -> (r: Vec<Vec<char>>)
    ensures
        r@.len() == fields(cs@, sep).len(),
        forall|k: int| 0 <= k < r@.len() ==> (#[trigger] r@[k])@ == fields(cs@, sep)[k],
{
    let mut r: Vec<Vec<char>> = Vec::new();
    let mut cur: Vec<char> = Vec::new();
    let ghost mut acc: Seq<Seq<char>> = Seq::empty();
    let mut i: usize = 0;
    while i < cs.len()
        invariant
            i <= cs.len(),
            fields(cs@, sep) == fields_from(cs@, sep, i as int, cur@, acc),
            r@.len() == acc.len(),
            forall|k: int| 0 <= k < r@.len() ==> (#[trigger] r@[k])@ == acc[k],
        decreases cs.len() - i,
    {
        let c = cs[i];
        if c == sep {
            proof {
                acc = acc.push(cur@);
            }
            r.push(cur);
            cur = Vec::new();
        } else {
            cur.push(c);
        }
        i += 1;
    }
    proof {
        acc = acc.push(cur@);
    }
    r.push(cur);
    r
}

pub fn chars_eq(a: &Vec<char>, b: &Vec<char>) -> (r: bool)
    ensures
        r == (a@ == b@),
{
    if a.len() != b.len() {
        return false;
    }
    let mut i: usize = 0;
    while i < a.len()
        invariant
            a@.len() == b@.len(),
            i <= a.len(),
            forall|k: int| 0 <= k < i ==> a@[k] == b@[k],
        decreases a.len() - i,
    {
        if a[i] != b[i] {
            return false;
        }
        i += 1;
    }
    proof {
        assert(a@ =~= b@);
    }
    true
}

pub open spec fn only_expansions(cs: Seq<char>) -> bool {
    forall|i: int| 0 <= i < cs.len() ==> (#[trigger] cs[i] == 'P' || cs[i] == 'L' || cs[i] == 'M')
}

/// A game type: `Base`, or `Base+` followed by any of the letters P, L, M.
pub open spec fn parse_game_type_spec(cs: Seq<char>) -> Option<GameType> {
    if cs == seq!['B', 'a', 's', 'e'] {
        Some(GameType::Base)
    } else if cs.len() >= 5 && cs.subrange(0, 5) == seq!['B', 'a', 's', 'e', '+'] && only_expansions(
        cs.subrange(5, cs.len() as int),
    ) {
        let rest = cs.subrange(5, cs.len() as int);
        Some(GameType::PLM(rest.contains('P'), rest.contains('L'), rest.contains('M')))
    } else {
        None
    }
}

fn has_char(w: &Vec<char>, c: char) -> (r: bool)
    ensures
        r == w@.contains(c),
{
    let mut i: usize = 0;
    while i < w.len()
        invariant
            i <= w.len(),
            forall|k: int| 0 <= k < i ==> w@[k] != c,
        decreases w.len() - i,
    {
        if w[i] == c {
            return true;
        }
        i += 1;
    }
    false
}

pub fn parse_game_type_chars(cs: &Vec<char>) -> (r: Result<GameType, Error>)
    ensures
        r is Ok <==> parse_game_type_spec(cs@) is Some,
        r is Ok ==> r->Ok_0 == parse_game_type_spec(cs@)->0,
{
    let base = vec!['B', 'a', 's', 'e'];
    if chars_eq(cs, &base) {
        return Ok(GameType::Base);
    }
    if cs.len() < 5 || cs[0] != 'B' || cs[1] != 'a' || cs[2] != 's' || cs[3] != 'e' || cs[4] != '+' {
        proof {
            if cs@.len() >= 5 && cs@.subrange(0, 5) == seq!['B', 'a', 's', 'e', '+'] {
                assert(cs@[0] == cs@.subrange(0, 5)[0]);
                assert(cs@[1] == cs@.subrange(0, 5)[1]);
                assert(cs@[2] == cs@.subrange(0, 5)[2]);
                assert(cs@[3] == cs@.subrange(0, 5)[3]);
                assert(cs@[4] == cs@.subrange(0, 5)[4]);
            }
        }
        return Err(parser_error("unrecognized GameType"));
    }
    proof {
        assert(cs@.subrange(0, 5) =~= seq!['B', 'a', 's', 'e', '+']);
    }
    let ghost rest = cs@.subrange(5, cs@.len() as int);
    let mut i: usize = 5;
    while i < cs.len()
        invariant
            5 <= i <= cs.len(),
            rest == cs@.subrange(5, cs@.len() as int),
            forall|k: int| 5 <= k < i ==> (cs@[k] == 'P' || cs@[k] == 'L' || cs@[k] == 'M'),
        decreases cs.len() - i,
    {
        let c = cs[i];
        if c != 'P' && c != 'L' && c != 'M' {
            proof {
                assert(rest[i - 5] == c);
            }
            return Err(parser_error("unrecognized expansion"));
        }
        i += 1;
    }
    proof {
        assert forall|k: int| 0 <= k < rest.len() implies (#[trigger] rest[k] == 'P' || rest[k] == 'L' || rest[k] == 'M') by {
            assert(rest[k] == cs@[k + 5]);
        }
    }
    let tail = {
        let mut t: Vec<char> = Vec::new();
        let mut j: usize = 5;
        while j < cs.len()
            invariant
                5 <= j <= cs.len(),
                t@ == cs@.subrange(5, j as int),
            decreases cs.len() - j,
        {
            t.push(cs[j]);
            proof {
                assert(cs@.subrange(5, j + 1) =~= cs@.subrange(5, j as int).push(cs@[j as int]));
            }
            j += 1;
        }
        t
    };
    Ok(GameType::PLM(has_char(&tail, 'P'), has_char(&tail, 'L'), has_char(&tail, 'M')))
}

/// Reads a game type (`Base`, `Base+PLM`).
pub fn parse_game_type(input: &str) -> (r: Result<GameType, Error>)
    ensures
        r is Ok <==> parse_game_type_spec(input@) is Some,
        r is Ok ==> r->Ok_0 == parse_game_type_spec(input@)->0,
{
    let cs = chars_of(input);
    parse_game_type_chars(&cs)
}

pub open spec fn parse_status_spec(cs: Seq<char>) -> Option<GameStatus> {
    if cs == status_text(GameStatus::NotStarted) {
        Some(GameStatus::NotStarted)
    } else if cs == status_text(GameStatus::InProgress) {
        Some(GameStatus::InProgress)
    } else if cs == status_text(GameStatus::Draw) {
        Some(GameStatus::Draw)
    } else if cs == status_text(GameStatus::Win(Player::White)) {
        Some(GameStatus::Win(Player::White))
    } else if cs == status_text(GameStatus::Win(Player::Black)) {
        Some(GameStatus::Win(Player::Black))
    } else {
        None
    }
}

pub fn parse_game_status_chars(cs: &Vec<char>) -> (r: Result<GameStatus, Error>)
    ensures
        r is Ok <==> parse_status_spec(cs@) is Some,
        r is Ok ==> r->Ok_0 == parse_status_spec(cs@)->0,
{
    if chars_eq(cs, &status_chars(GameStatus::NotStarted)) {
        Ok(GameStatus::NotStarted)
    } else if chars_eq(cs, &status_chars(GameStatus::InProgress)) {
        Ok(GameStatus::InProgress)
    } else if chars_eq(cs, &status_chars(GameStatus::Draw)) {
        Ok(GameStatus::Draw)
    } else if chars_eq(cs, &status_chars(GameStatus::Win(Player::White))) {
        Ok(GameStatus::Win(Player::White))
    } else if chars_eq(cs, &status_chars(GameStatus::Win(Player::Black))) {
        Ok(GameStatus::Win(Player::Black))
    } else {
        Err(parser_error("unrecognized GameStatus"))
    }
}

/// Reads a game status (`NotStarted`, `InProgress`, `Draw`, `WhiteWins`, `BlackWins`).
pub fn parse_game_status(input: &str) -> (r: Result<GameStatus, Error>)
    ensures
        r is Ok <==> parse_status_spec(input@) is Some,
        r is Ok ==> r->Ok_0 == parse_status_spec(input@)->0,
{
    let cs = chars_of(input);
    parse_game_status_chars(&cs)
}

/// The characters before the first bracket.
pub open spec fn before_bracket(cs: Seq<char>) -> Seq<char>
    decreases cs.len(),
{
    if cs.len() == 0 || cs[0] == '[' || cs[0] == ']' {
        Seq::empty()
    } else {
        seq![cs[0]] + before_bracket(cs.drop_first())
    }
}

/// The side that moved first, read from a turn string that names the side to
/// move after `n_turns` turns.
pub open spec fn parse_first_player_spec(cs: Seq<char>, n_turns: nat) -> Option<Player> {
    let name = before_bracket(cs);
    let current = if name == player_text(Player::White) {
        Some(Player::White)
    } else if name == player_text(Player::Black) {
        Some(Player::Black)
    } else {
        None
    };
    match current {
        None => None,
        Some(p) => Some(if n_turns % 2 == 0 { p } else { p.spec_other() }),
    }
}

pub fn parse_first_player_chars(cs: &Vec<char>, n_turns: usize) -> (r: Result<Player, Error>)
    ensures
        r is Ok <==> parse_first_player_spec(cs@, n_turns as nat) is Some,
        r is Ok ==> r->Ok_0 == parse_first_player_spec(cs@, n_turns as nat)->0,
{
    let (name, _) = split_bracket(cs);
    let current = if chars_eq(&name, &player_chars(Player::White)) {
        Player::White
    } else if chars_eq(&name, &player_chars(Player::Black)) {
        Player::Black
    } else {
        return Err(parser_error("expected White or Black"));
    };
    if n_turns % 2 == 0 {
        Ok(current)
    } else {
        Ok(current.other())
    }
}

/// Reads which side moved first from a turn string (`White[3]`) and the
/// number of turns played.
pub fn parse_first_player(input: &str, n_turns: usize) -> (r: Result<Player, Error>)
    ensures
        r is Ok <==> parse_first_player_spec(input@, n_turns as nat) is Some,
        r is Ok ==> r->Ok_0 == parse_first_player_spec(input@, n_turns as nat)->0,
{
    let cs = chars_of(input);
    parse_first_player_chars(&cs, n_turns)
}

impl GameState {
    /// The turn string: the side to move and its move number (`White[3]`).
    pub fn turn_string(&self) -> (r: Vec<char>)
        ensures
            r@ == turn_string_text(*self),
    {
        let mut r = player_chars(self.current_player);
        r.push('[');
        let n = decimal_chars(self.turns.len() / 2 + 1);
        push_all(&mut r, &n);
        r.push(']');
        proof {
            assert(r@ =~= turn_string_text(*self));
        }
        r
    }

    /// The game string: type, status, turn string, then each turn in move
    /// notation against the board as it stood before that turn, found by
    /// replaying the game from its first placement. The list stops before a
    /// turn the replay refuses or cannot write.
    pub fn game_string(&self) -> (r: String)
        requires
            self.turns@.len() + 2 < usize::MAX,
        ensures
            r@.len() > 0 && r@[0] == 'B',
            game_string_text(*self, r@),
    {
        let mut out = game_type_chars(self.game_type);
        out.push(';');
        let st = status_chars(self.status);
        push_all(&mut out, &st);
        out.push(';');
        let ts = self.turn_string();
        push_all(&mut out, &ts);
        let ghost header = out@;
        proof {
            assert(header =~= header_text(*self));
            lemma_header_starts(*self);
        }
        if self.turns.len() > 0 {
            if let Turn::Place(first, _) = self.turns[0] {
                let mut replay = GameState::new_with_type(first.owner, self.game_type);
                let ghost mut states: Seq<GameState> = seq![replay];
                let mut i: usize = 0;
                proof {
                    assert(out@ =~= header + moves_text(self.turns@, states, 0));
                }
                loop
                    invariant_except_break
                        i <= self.turns.len(),
                    invariant
                        replay.wf(),
                        replay.turns@.len() <= i,
                        states.len() == i + 1,
                        states.last() == replay,
                        replays(*self, states),
                        self.turns@.len() + 2 < usize::MAX,
                        header == header_text(*self),
                        out@ == header + moves_text(self.turns@, states, i as nat),
                    ensures
                        i < self.turns.len() ==> cannot_replay(states.last(), self.turns@[i as int]),
                    decreases self.turns.len() - i,
                {
                    if i >= self.turns.len() {
                        break;
                    }
                    let turn = self.turns[i];
                    let printable = match turn {
                        Turn::Place(p, h) | Turn::Move(p, h) => 1 <= p.id && p.id <= 9
                            && -crate::game_state::PLAY_LIMIT <= h.x && h.x <= crate::game_state::PLAY_LIMIT
                            && -crate::game_state::PLAY_LIMIT <= h.y && h.y <= crate::game_state::PLAY_LIMIT
                            && -crate::game_state::PLAY_LIMIT <= h.z && h.z <= crate::game_state::PLAY_LIMIT,
                        Turn::Pass => true,
                    };
                    if !printable {
                        break;
                    }
                    let text = turn_chars(&turn, &replay.board);
                    if !replay_turn(&mut replay, turn) {
                        break;
                    }
                    let ghost old_out = out@;
                    out.push(';');
                    push_all(&mut out, &text);
                    proof {
                        let s2 = states.push(replay);
                        lemma_extend_replay(*self, states, replay, i as nat);
                        lemma_moves_text_prefix(self.turns@, states, s2, i as nat);
                        assert(out@ =~= old_out + seq![';'] + text@);
                        states = s2;
                    }
                    i += 1;
                }
                proof {
                    assert(out@.subrange(0, header.len() as int) =~= header);
                    assert(out@[0] == header[0]);
                    assert(replays(*self, states));
                }
                return string_of(&out);
            }
        }
        string_of(&out)
    }
}

/// `text` is the game string of `g`: the header, then, when the first turn
/// places a piece, each turn of the replay from a new game in move notation
/// against the board before it, up to a turn the replay refuses.
pub open spec fn game_string_text(g: GameState, text: Seq<char>) -> bool {
    &&& !starts_with_placement(g) ==> text == header_text(g)
    &&& starts_with_placement(g) ==> exists|states: Seq<GameState>|
        #[trigger] replays(g, states) && text == header_text(g) + moves_text(
            g.turns@,
            states,
            (states.len() - 1) as nat,
        ) && (states.len() - 1 < g.turns@.len() ==> cannot_replay(
            states.last(),
            g.turns@[states.len() - 1],
        ))
}

/// The game's first turn places a piece.
pub open spec fn starts_with_placement(g: GameState) -> bool {
    g.turns@.len() > 0 && g.turns@[0] is Place
}

/// The turn would not be written or not be accepted in `s`.
pub open spec fn cannot_replay(s: GameState, t: Turn) -> bool {
    let printable = match t {
        Turn::Place(p, h) => 1 <= p.id <= 9 && in_play(h),
        Turn::Move(p, h) => 1 <= p.id <= 9 && in_play(h),
        Turn::Pass => true,
    };
    !printable || crate::game_state::is_terminal(s.status) || (t != Turn::Pass
        && !crate::moves::legal_turn(s, t))
}

/// `t` is `s` after `turn` was accepted.
#[verifier::opaque]
pub open spec fn replay_step(s: GameState, t: GameState, turn: Turn) -> bool {
    &&& !crate::game_state::is_terminal(s.status)
    &&& (turn == Turn::Pass || crate::moves::legal_turn(s, turn))
    &&& crate::moves::turn_taken(s, t, turn)
}

/// `states` replays the first turns of `g` from a new game whose first
/// player owns the first piece placed.
pub open spec fn replays(g: GameState, states: Seq<GameState>) -> bool {
    let s0 = states[0];
    &&& starts_with_placement(g)
    &&& 1 <= states.len() <= g.turns@.len() + 1
    &&& s0.wf()
    &&& s0.turns@.len() == 0
    &&& s0.board@.len() == 0
    &&& s0.stacks@.len() == 0
    &&& s0.unplayed_pieces@ == crate::game_state::initial_pieces(g.game_type)
    &&& s0.current_player == g.turns@[0]->Place_0.owner
    &&& s0.status == GameStatus::NotStarted
    &&& s0.game_type == g.game_type
    &&& forall|j: int|
        0 <= j < states.len() - 1 ==> replay_step(#[trigger] states[j], states[j + 1], g.turns@[j])
}

/// The move list of a game string: for each of the first `k` turns, `;` and
/// the turn in notation against the board before it.
pub open spec fn moves_text(turns: Seq<Turn>, states: Seq<GameState>, k: nat) -> Seq<char>
    decreases k,
{
    if k == 0 {
        Seq::empty()
    } else {
        moves_text(turns, states, (k - 1) as nat) + seq![';'] + turn_text(turns[k - 1], states[k - 1].board@)
    }
}

/// Plays a turn of a replay: says whether it was accepted, and keeps the
/// game well formed either way.
fn replay_turn(game: &mut GameState, turn: Turn) -> (ok: bool)
    requires
        old(game).wf(),
        old(game).turns@.len() + 2 < usize::MAX,
    ensures
        final(game).wf(),
        final(game).turns@.len() <= old(game).turns@.len() + 1,
        final(game).game_type == old(game).game_type,
        ok ==> replay_step(*old(game), *final(game), turn),
        ok ==> final(game).turns@ == old(game).turns@.push(turn),
        !ok ==> *final(game) == *old(game) && (crate::game_state::is_terminal(old(game).status) || (
        turn != Turn::Pass && !crate::moves::legal_turn(*old(game), turn))),
{
    let ghost before = *game;
    let res = game.submit_turn(turn);
    proof {
        reveal(replay_step);
        if res is Ok {
            assert(crate::moves::turn_taken(before, *game, turn));
        }
    }
    res.is_ok()
}

/// One more accepted turn extends a replay.
proof fn lemma_extend_replay(g: GameState, states: Seq<GameState>, next: GameState, i: nat)
    requires
        replays(g, states),
        states.len() == i + 1,
        i < g.turns@.len(),
        replay_step(states.last(), next, g.turns@[i as int]),
    ensures
        replays(g, states.push(next)),
        moves_text(g.turns@, states.push(next), i + 1) == moves_text(g.turns@, states.push(next), i)
            + seq![';'] + turn_text(g.turns@[i as int], states.last().board@),
{
    let s2 = states.push(next);
    assert(s2[i as int] == states.last());
    assert(s2[0] == states[0]);
    assert forall|j: int| 0 <= j < s2.len() - 1 implies replay_step(
        #[trigger] s2[j],
        s2[j + 1],
        g.turns@[j],
    ) by {
        if j < i {
            assert(s2[j] == states[j] && s2[j + 1] == states[j + 1]);
        }
    }
}

proof fn lemma_moves_text_prefix(turns: Seq<Turn>, a: Seq<GameState>, b: Seq<GameState>, k: nat)
    requires
        k <= a.len(),
        k <= b.len(),
        forall|j: int| 0 <= j < k ==> a[j] == b[j],
    ensures
        moves_text(turns, a, k) == moves_text(turns, b, k),
    decreases k,
{
    if k > 0 {
        lemma_moves_text_prefix(turns, a, b, (k - 1) as nat);
    }
}

/// A game that has not started, of type `gt`, `first` to move.
pub open spec fn fresh_game(s: GameState, first: Player, gt: GameType) -> bool {
    &&& s.wf()
    &&& s.turns@.len() == 0
    &&& s.board@.len() == 0
    &&& s.stacks@.len() == 0
    &&& s.unplayed_pieces@ == crate::game_state::initial_pieces(gt)
    &&& s.current_player == first
    &&& s.status == GameStatus::NotStarted
    &&& s.game_type == gt
}

/// `t` follows `s` by the move in `field`: read against the board of `s`,
/// then accepted.
pub open spec fn plays_field(s: GameState, t: GameState, field: Seq<char>) -> bool {
    match crate::notation::parse_move(field, s.board@, s.stacks@) {
        Some(turn) => replay_step(s, t, turn),
        None => false,
    }
}

/// `states` plays the move fields one after another.
pub open spec fn plays_fields(fs: Seq<Seq<char>>, states: Seq<GameState>) -> bool {
    &&& states.len() == fs.len() + 1
    &&& forall|j: int| 0 <= j < fs.len() ==> #[trigger] plays_field(states[j], states[j + 1], fs[j])
}

/// The characters of the fields from position `from` on.
pub open spec fn field_views(moves: Seq<Vec<char>>, from: int) -> Seq<Seq<char>> {
    moves.subrange(from, moves.len() as int).map_values(|v: Vec<char>| v@)
}

/// The move in `field` cannot be played in `s`: it does not read, or the
/// game is over, or it is neither a pass nor legal.
pub open spec fn field_fails(s: GameState, field: Seq<char>) -> bool {
    match crate::notation::parse_move(field, s.board@, s.stacks@) {
        None => true,
        Some(t) => crate::game_state::is_terminal(s.status) || (t != Turn::Pass
            && !crate::moves::legal_turn(s, t)),
    }
}

/// `history` holds, for each turn of `g`, a game as it stood before that turn.
///
/// The first of them (or `g` itself, before any turn) is a new game, and each
/// turn was accepted on the game before it and led to the next.
pub open spec fn history_ok(g: GameState, history: Seq<GameState>) -> bool {
    &&& history.len() == g.turns@.len()
    &&& forall|j: int|
        0 <= j < history.len() ==> (#[trigger] history[j]).wf() && history[j].turns@
            == g.turns@.subrange(0, j) && history[j].game_type == g.game_type
    &&& forall|j: int|
        0 <= j < history.len() ==> #[trigger] replay_step(history[j], next_in_history(g, history, j), g.turns@[j])
    &&& blank(if history.len() > 0 { history[0] } else { g }, g.game_type)
}

/// The game after turn `j` of a history that ends with `g`.
pub open spec fn next_in_history(g: GameState, history: Seq<GameState>, j: int) -> GameState {
    if j + 1 < history.len() {
        history[j + 1]
    } else {
        g
    }
}

/// A game of type `gt` before its first turn.
pub open spec fn blank(s: GameState, gt: GameType) -> bool {
    &&& s.turns@.len() == 0
    &&& s.board@.len() == 0
    &&& s.stacks@.len() == 0
    &&& s.status == GameStatus::NotStarted
    &&& s.unplayed_pieces@ == crate::game_state::initial_pieces(gt)
    &&& s.game_type == gt
}

/// One more accepted turn, played on a copy, extends a history.
pub proof fn lemma_history_push(g: GameState, h: Seq<GameState>, next: GameState, turn: Turn)
    requires
        history_ok(g, h),
        g.wf(),
        replay_step(g, next, turn),
        next.turns@ == g.turns@.push(turn),
        next.game_type == g.game_type,
    ensures
        history_ok(next, h.push(g)),
{
    let h2 = h.push(g);
    assert forall|j: int| 0 <= j < h2.len() implies (#[trigger] h2[j]).wf() && h2[j].turns@
        == next.turns@.subrange(0, j) && h2[j].game_type == next.game_type by {
        if j < h.len() {
            assert(h2[j] == h[j]);
            assert(g.turns@.subrange(0, j) =~= next.turns@.subrange(0, j));
        } else {
            assert(next.turns@.subrange(0, j) =~= g.turns@);
        }
    }
    assert forall|j: int| 0 <= j < h2.len() implies #[trigger] replay_step(h2[j], next_in_history(next, h2, j), next.turns@[j]) by {
        if j < h.len() {
            assert(h2[j] == h[j]);
            assert(next.turns@[j] == g.turns@[j]);
            if j + 1 < h.len() {
                assert(h2[j + 1] == h[j + 1]);
            } else {
                assert(h2[j + 1] == g);
            }
            assert(next_in_history(next, h2, j) == next_in_history(g, h, j));
        } else {
            assert(next.turns@[j] == turn);
        }
    }
    if h.len() > 0 {
        assert(h2[0] == h[0]);
    }
}

/// Going back `n` turns in a history gives a history of the earlier game.
pub proof fn lemma_history_back(g: GameState, h: Seq<GameState>, k: int)
    requires
        history_ok(g, h),
        0 <= k < h.len(),
    ensures
        history_ok(h[k], h.subrange(0, k)),
        h[k].turns@ == g.turns@.subrange(0, k),
{
    let h2 = h.subrange(0, k);
    let r = h[k];
    assert forall|j: int| 0 <= j < h2.len() implies (#[trigger] h2[j]).wf() && h2[j].turns@
        == r.turns@.subrange(0, j) && h2[j].game_type == r.game_type by {
        assert(h2[j] == h[j]);
        assert(g.turns@.subrange(0, j) =~= g.turns@.subrange(0, k).subrange(0, j));
    }
    assert forall|j: int| 0 <= j < h2.len() implies #[trigger] replay_step(h2[j], next_in_history(r, h2, j), r.turns@[j]) by {
        assert(h2[j] == h[j]);
        assert(r.turns@[j] == g.turns@[j]);
        assert(replay_step(h[j], next_in_history(g, h, j), g.turns@[j]));
        if j + 1 < k {
            assert(h2[j + 1] == h[j + 1]);
        }
    }
    if k > 0 {
        assert(h2[0] == h[0]);
    }
}

/// Replays the move fields of a game string, from position `from` on,
/// keeping a copy of the game before each turn in `history`.
fn replay_moves(game: &mut GameState, moves: &Vec<Vec<char>>, from: usize, history: &mut Vec<GameState>) -> (r: Result<(), Error>)
    requires
        old(game).wf(),
        blank(*old(game), old(game).game_type),
        old(history)@.len() == 0,
        from <= moves@.len(),
    ensures
        final(game).wf(),
        final(game).game_type == old(game).game_type,
        history_ok(*final(game), final(history)@),
        r is Ok ==> exists|states: Seq<GameState>|
            #[trigger] plays_fields(field_views(moves@, from as int), states)
                && states[0] == *old(game) && states.last() == *final(game),
        r is Err ==> exists|states: Seq<GameState>, k: int|
            #![trigger plays_fields(field_views(moves@, from as int).subrange(0, k), states)]
            0 <= k < field_views(moves@, from as int).len() && plays_fields(
                field_views(moves@, from as int).subrange(0, k),
                states,
            ) && states[0] == *old(game) && (field_fails(states.last(), field_views(moves@, from as int)[k])
                || states.last().turns@.len() + 2 >= usize::MAX),
{
    let ghost start = *game;
    let ghost mut states: Seq<GameState> = seq![*game];
    let ghost fv = field_views(moves@, from as int);
    let mut k: usize = from;
    proof {
        assert(fv.subrange(0, 0) =~= Seq::<Seq<char>>::empty());
    }
    while k < moves.len()
        invariant
            from <= k <= moves@.len(),
            start == *old(game),
            fv == field_views(moves@, from as int),
            game.wf(),
            game.game_type == start.game_type,
            game.turns@.len() == k - from,
            history_ok(*game, history@),
            states.len() == k - from + 1,
            states[0] == start,
            states.last() == *game,
            forall|j: int| 0 <= j < k - from ==> #[trigger] plays_field(states[j], states[j + 1], moves@[from + j]@),
        decreases moves.len() - k,
    {
        let ghost pre = fv.subrange(0, k - from);
        proof {
            assert forall|j: int| 0 <= j < pre.len() implies #[trigger] plays_field(states[j], states[j + 1], pre[j]) by {
                assert(pre[j] == moves@[from + j]@);
            }
            assert(plays_fields(pre, states));
            assert(fv[k - from] == moves@[k as int]@);
        }
        if game.turns.len() >= usize::MAX - 2 {
            return Err(parser_error("too many turns"));
        }
        let ghost before = *game;
        let turn = match parse_move_chars(&moves[k], &game.board, &game.stacks) {
            Ok(t) => t,
            Err(e) => {
                return Err(e);
            },
        };
        let mut next = match game.play_copy(turn) {
            Ok(n) => n,
            Err(_) => {
                return Err(parser_error("invalid turn"));
            },
        };
        proof {
            reveal(replay_step);
            assert(replay_step(before, next, turn));
            lemma_history_push(before, history@, next, turn);
        }
        std::mem::swap(game, &mut next);
        history.push(next);
        proof {
            let s2 = states.push(*game);
            assert(plays_field(before, *game, moves@[k as int]@));
            assert forall|j: int| 0 <= j < k + 1 - from implies #[trigger] plays_field(s2[j], s2[j + 1], moves@[from + j]@) by {
                if j < k - from {
                    assert(s2[j] == states[j] && s2[j + 1] == states[j + 1]);
                } else {
                    assert(s2[j] == before);
                }
            }
            states = s2;
        }
        k += 1;
    }
    proof {
        assert forall|j: int| 0 <= j < fv.len() implies #[trigger] plays_field(states[j], states[j + 1], fv[j]) by {
            assert(fv[j] == moves@[from + j]@);
        }
        assert(plays_fields(fv, states));
    }
    Ok(())
}

/// The header fields of a game string read, and the type, status and side
/// that moved first that they give.
pub open spec fn header_reads(fs: Seq<Seq<char>>) -> bool {
    &&& fs.len() >= 3
    &&& parse_game_type_spec(fs[0]) is Some
    &&& parse_status_spec(fs[1]) is Some
    &&& parse_first_player_spec(fs[2], (fs.len() - 3) as nat) is Some
}

/// A new game as the header of a game string describes it.
pub open spec fn header_start(s: GameState, fs: Seq<Seq<char>>) -> bool {
    fresh_game(s, parse_first_player_spec(fs[2], (fs.len() - 3) as nat)->0, parse_game_type_spec(fs[0])->0)
}

/// Why reading a game string fails: a header field does not read; or, on the
/// replay from the new game it describes, a move field cannot be played (or
/// the game grows past what a `usize` counts); or the replayed status is not
/// the one the header gives.
pub open spec fn game_string_fails(input: Seq<char>) -> bool {
    let fs = fields(input, ';');
    let mv = fs.subrange(3, fs.len() as int);
    ||| !header_reads(fs)
    ||| exists|states: Seq<GameState>, k: int|
        #![trigger plays_fields(mv.subrange(0, k), states)]
        0 <= k < mv.len() && plays_fields(mv.subrange(0, k), states) && header_start(states[0], fs)
            && (field_fails(states.last(), mv[k]) || states.last().turns@.len() + 2 >= usize::MAX)
    ||| exists|states: Seq<GameState>|
        #[trigger] plays_fields(mv, states) && header_start(states[0], fs) && Some(states.last().status)
            != parse_status_spec(fs[1])
}

/// What a game string reads as: the game reached by replaying its move
/// fields from the new game its header describes, with the status it gives.
pub open spec fn game_string_reads_as(input: Seq<char>, g: GameState) -> bool {
    let fs = fields(input, ';');
    &&& g.wf()
    &&& header_reads(fs)
    &&& parse_game_type_spec(fs[0]) == Some(g.game_type)
    &&& parse_status_spec(fs[1]) == Some(g.status)
    &&& exists|states: Seq<GameState>|
        #[trigger] plays_fields(fs.subrange(3, fs.len() as int), states) && header_start(states[0], fs)
            && states.last() == g
}

/// Reads a game string and keeps, for each of its turns, the game as it
/// stood before it.
pub(crate) fn restore_game(input: &str) -> (r: Result<(GameState, Vec<GameState>), Error>)
    ensures
        match r {
            Ok((g, h)) => game_string_reads_as(input@, g) && history_ok(g, h@),
            Err(_) => game_string_fails(input@),
        },
{
    let cs = chars_of(input);
    let fs = split_fields(&cs, ';');
    let ghost spec_fs = fields(input@, ';');
    proof {
        assert(fs@.len() == spec_fs.len());
    }
    if fs.len() < 3 {
        return Err(parser_error("expected GameType;GameState;TurnString"));
    }
    proof {
        assert(fs@[0]@ == spec_fs[0] && fs@[1]@ == spec_fs[1] && fs@[2]@ == spec_fs[2]);
    }
    let game_type = match parse_game_type_chars(&fs[0]) {
        Ok(g) => g,
        Err(e) => {
            return Err(e);
        },
    };
    let status = match parse_game_status_chars(&fs[1]) {
        Ok(st) => st,
        Err(e) => {
            return Err(e);
        },
    };
    let first = match parse_first_player_chars(&fs[2], fs.len() - 3) {
        Ok(p) => p,
        Err(e) => {
            return Err(e);
        },
    };
    let mut game = GameState::new_with_type(first, game_type);
    let ghost start = game;
    let mut history: Vec<GameState> = Vec::new();
    proof {
        assert(field_views(fs@, 3) =~= spec_fs.subrange(3, spec_fs.len() as int));
        assert(header_start(start, spec_fs));
    }
    match replay_moves(&mut game, &fs, 3, &mut history) {
        Ok(()) => {},
        Err(e) => {
            return Err(e);
        },
    }
    if game.status != status {
        proof {
            let mv = spec_fs.subrange(3, spec_fs.len() as int);
            let states = choose|states: Seq<GameState>|
                #[trigger] plays_fields(field_views(fs@, 3), states) && states[0] == start && states.last() == game;
            assert(plays_fields(mv, states));
        }
        return Err(parser_error("game status incorrect"));
    }
    Ok((game, history))
}

/// Reads a game string: checks its type, status and turn string, replays its
/// moves on a new game, and checks the status that results.
pub fn parse_game_string(input: &str) -> (r: Result<GameState, Error>)
    ensures
        match r {
            Ok(g) => game_string_reads_as(input@, g),
            Err(_) => game_string_fails(input@),
        },
{
    match restore_game(input) {
        Ok((g, _)) => Ok(g),
        Err(e) => Err(e),
    }
}

/// What follows the first bracket of `cs`, if it has one.
pub open spec fn after_bracket(cs: Seq<char>) -> Option<Seq<char>>
    decreases cs.len(),
{
    if cs.len() == 0 {
        None
    } else if cs[0] == '[' || cs[0] == ']' {
        Some(cs.drop_first())
    } else {
        after_bracket(cs.drop_first())
    }
}

/// The number of the turn a turn string names, counting both sides' turns
/// from 1: `White[n]` is turn `2n - 1` and `Black[n]` turn `2n`.
pub open spec fn parse_game_turn_spec(cs: Seq<char>) -> Option<int> {
    let name = before_bracket(cs);
    match after_bracket(cs) {
        None => None,
        Some(rest) => {
            let num = before_bracket(rest);
            if num.len() == 0 || !all_digits(num) || digits_value(num) > usize::MAX / 2
                || digits_value(num) == 0 {
                None
            } else if name == player_text(Player::White) {
                Some(2 * digits_value(num) as int - 1)
            } else if name == player_text(Player::Black) {
                Some(2 * digits_value(num) as int)
            } else {
                None
            }
        },
    }
}

/// Splits `cs` at its first bracket: the characters before it, and what
/// follows it.
fn split_bracket(cs: &Vec<char>) -> (r: (Vec<char>, Option<Vec<char>>))
    ensures
        r.0@ == before_bracket(cs@),
        match r.1 {
            Some(v) => after_bracket(cs@) == Some(v@),
            None => after_bracket(cs@) is None,
        },
{
    let mut name: Vec<char> = Vec::new();
    let mut i: usize = 0;
    proof {
        assert(cs@.subrange(0, cs@.len() as int) =~= cs@);
        assert(name@ + before_bracket(cs@) =~= before_bracket(cs@));
    }
    while i < cs.len() && cs[i] != '[' && cs[i] != ']'
        invariant
            i <= cs.len(),
            before_bracket(cs@) == name@ + before_bracket(cs@.subrange(i as int, cs@.len() as int)),
            after_bracket(cs@) == after_bracket(cs@.subrange(i as int, cs@.len() as int)),
        decreases cs.len() - i,
    {
        proof {
            let t = cs@.subrange(i as int, cs@.len() as int);
            assert(t.drop_first() =~= cs@.subrange(i + 1, cs@.len() as int));
            assert(before_bracket(t) == seq![cs@[i as int]] + before_bracket(t.drop_first()));
            assert(name@.push(cs@[i as int]) + before_bracket(t.drop_first()) =~= name@ + before_bracket(t));
        }
        name.push(cs[i]);
        i += 1;
    }
    let ghost t = cs@.subrange(i as int, cs@.len() as int);
    proof {
        assert(before_bracket(t) =~= Seq::<char>::empty());
        assert(name@ + Seq::<char>::empty() =~= name@);
    }
    if i >= cs.len() {
        proof {
            assert(t.len() == 0);
        }
        return (name, None);
    }
    let mut rest: Vec<char> = Vec::new();
    let mut j: usize = i + 1;
    while j < cs.len()
        invariant
            i < j <= cs.len(),
            rest@ == cs@.subrange(i + 1, j as int),
        decreases cs.len() - j,
    {
        rest.push(cs[j]);
        proof {
            assert(cs@.subrange(i + 1, j + 1) =~= cs@.subrange(i + 1, j as int).push(cs@[j as int]));
        }
        j += 1;
    }
    proof {
        assert(t.drop_first() =~= rest@);
    }
    (name, Some(rest))
}

/// Reads a turn string (`White[3]`) as the number of the turn it names,
/// counting both sides' turns from 1.
pub fn parse_game_turn(input: &str) -> (r: Result<usize, Error>)
    ensures
        r is Ok <==> parse_game_turn_spec(input@) is Some,
        r is Ok ==> parse_game_turn_spec(input@) == Some(r->Ok_0 as int),
{
    let cs = chars_of(input);
    let (name, rest) = split_bracket(&cs);
    let rest = match rest {
        Some(v) => v,
        None => {
            return Err(parser_error("expected a turn number"));
        },
    };
    let (num, _) = split_bracket(&rest);
    let n = match parse_number(&num) {
        Some(n) => n,
        None => {
            return Err(parser_error("failed to parse turn number"));
        },
    };
    if n == 0 || n > usize::MAX / 2 {
        return Err(parser_error("failed to parse turn number"));
    }
    if chars_eq(&name, &player_chars(Player::White)) {
        Ok(n * 2 - 1)
    } else if chars_eq(&name, &player_chars(Player::Black)) {
        Ok(n * 2)
    } else {
        Err(parser_error("unexpected player string"))
    }
}

/// A game string starts with the letter of `Base`.
pub proof fn lemma_header_starts(g: GameState)
    ensures
        header_text(g).len() > 0,
        header_text(g)[0] == 'B',
{
    assert(game_type_text(g.game_type)[0] == 'B');
}

proof fn lemma_before_bracket_concat(a: Seq<char>, b: Seq<char>)
    requires
        forall|k: int| 0 <= k < a.len() ==> #[trigger] a[k] != '[' && a[k] != ']',
    ensures
        before_bracket(a + b) == a + before_bracket(b),
    decreases a.len(),
{
    if a.len() > 0 {
        lemma_before_bracket_concat(a.drop_first(), b);
        assert((a + b).drop_first() =~= a.drop_first() + b);
        assert(seq![a[0]] + (a.drop_first() + before_bracket(b)) =~= a + before_bracket(b));
    } else {
        assert(a + b =~= b);
        assert(a + before_bracket(b) =~= before_bracket(b));
    }
}

/// The fields of a game string's header read back as the game's type, its
/// status, and the side that moved first.
pub proof fn law_header_reads_back(g: GameState)
    ensures
        parse_game_type_spec(game_type_text(g.game_type)) == Some(g.game_type),
        parse_status_spec(status_text(g.status)) == Some(g.status),
        parse_first_player_spec(turn_string_text(g), g.turns@.len()) == Some(
            if g.turns@.len() % 2 == 0 {
                g.current_player
            } else {
                g.current_player.spec_other()
            },
        ),
{
    let t = game_type_text(g.game_type);
    match g.game_type {
        GameType::Base => {},
        GameType::PLM(p, l, m) => {
            assert(t.len() >= 5);
            assert(t != seq!['B', 'a', 's', 'e']);
            assert(t.subrange(0, 5) =~= seq!['B', 'a', 's', 'e', '+']);
            let rest = t.subrange(5, t.len() as int);
            let ep = if p { seq!['P'] } else { Seq::<char>::empty() };
            let el = if l { seq!['L'] } else { Seq::<char>::empty() };
            let em = if m { seq!['M'] } else { Seq::<char>::empty() };
            assert(rest =~= ep + el + em);
            assert(only_expansions(rest));
            assert(rest.contains('P') == p) by {
                if p {
                    assert(rest[0] == 'P');
                }
            }
            assert(rest.contains('L') == l) by {
                if l {
                    assert(rest[ep.len() as int] == 'L');
                }
            }
            assert(rest.contains('M') == m) by {
                if m {
                    assert(rest[(ep.len() + el.len()) as int] == 'M');
                }
            }
        },
    }
    let st = status_text(g.status);
    let ns = status_text(GameStatus::NotStarted);
    let ip = status_text(GameStatus::InProgress);
    let dr = status_text(GameStatus::Draw);
    let ww = status_text(GameStatus::Win(Player::White));
    let bw = status_text(GameStatus::Win(Player::Black));
    assert(ns[0] == 'N' && ip[0] == 'I' && ww[0] == 'W' && bw[0] == 'B');
    assert(ns.len() == 10 && ip.len() == 10 && dr.len() == 4 && ww.len() == 9 && bw.len() == 9);
    assert(ww =~= seq!['W', 'h', 'i', 't', 'e', 'W', 'i', 'n', 's']);
    assert(bw =~= seq!['B', 'l', 'a', 'c', 'k', 'W', 'i', 'n', 's']);
    assert(ip != ns);
    assert(bw != ww);
    let pt = player_text(g.current_player);
    let rest = seq!['['] + decimal((g.turns@.len() / 2 + 1) as nat) + seq![']'];
    assert(turn_string_text(g) =~= pt + rest);
    lemma_before_bracket_concat(pt, rest);
    assert(before_bracket(rest) =~= Seq::<char>::empty());
    assert(pt + Seq::<char>::empty() =~= pt);
    assert(player_text(Player::White) != player_text(Player::Black)) by {
        assert(player_text(Player::White)[0] != player_text(Player::Black)[0]);
    }
}

} // verus!
