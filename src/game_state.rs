use vstd::prelude::*;
use vstd::multiset::Multiset;
use crate::hex::{Hex, neighbors_of};
use crate::piece::{Bug, Piece, Player};

verus! {

broadcast use vstd::seq_lib::lemma_seq_contains_after_push, vstd::seq_lib::to_multiset_build,
    vstd::seq_lib::to_multiset_remove, vstd::seq_lib::to_multiset_contains;

/// Coordinates a piece on the board may take. Far inside `HEX_LIMIT`, so that
/// every hex a move can reach from the board is still `bounded`.
pub const PLAY_LIMIT: i64 = 0x3fff_ffff_0000;

/// The set of pieces in play: the base game, or the base game with any of the
/// Pillbug, Ladybug and Mosquito expansions.
#[derive(Copy, Clone, Debug, PartialEq, Eq, Hash, Structural)]
pub enum GameType {
    Base,
    PLM(bool, bool, bool),
}

/// Why a turn was refused.
#[derive(Copy, Clone, Debug, PartialEq, Eq, Hash, Structural)]
pub enum TurnError {
    WrongPlayer,
    InvalidMove,
    GameOver,
}

#[derive(Copy, Clone, Debug, PartialEq, Eq, Hash, Structural)]
pub enum GameStatus {
    NotStarted,
    InProgress,
    Draw,
    Win(Player),
}

/// One turn: a piece placed from the reserve, a piece moved, or a pass.
#[derive(Copy, Clone, Debug, PartialEq, Eq, Hash, Structural)]
pub enum Turn {
    Place(Piece, Hex),
    Move(Piece, Hex),
    Pass,
}

/// A game of Hive: the pieces not yet played, the top piece of each occupied
/// hex, the pieces under each stacked hex (bottom first), the turns so far,
/// whose turn it is, and the game's status and type.
#[derive(Clone, Debug)]
pub struct GameState {
    pub unplayed_pieces: Vec<Piece>,
    pub board: Vec<(Hex, Piece)>,
    pub stacks: Vec<(Hex, Vec<Piece>)>,
    pub turns: Vec<Turn>,
    pub current_player: Player,
    pub status: GameStatus,
    pub game_type: GameType,
}

/// The hexes of a board, in board order.
pub open spec fn keys(board: Seq<(Hex, Piece)>) -> Seq<Hex> {
    board.map_values(|e: (Hex, Piece)| e.0)
}

pub open spec fn occupied(board: Seq<(Hex, Piece)>, h: Hex) -> bool {
    exists|i: int| 0 <= i < board.len() && (#[trigger] board[i]).0 == h
}

/// The top piece at `h`, if any.
pub open spec fn piece_at(board: Seq<(Hex, Piece)>, h: Hex) -> Option<Piece> {
    if occupied(board, h) {
        Some(board[choose|i: int| 0 <= i < board.len() && (#[trigger] board[i]).0 == h].1)
    } else {
        None
    }
}

/// The pieces under the top piece at `h`, bottom first.
pub open spec fn stack_at(stacks: Seq<(Hex, Vec<Piece>)>, h: Hex) -> Seq<Piece> {
    if exists|i: int| 0 <= i < stacks.len() && (#[trigger] stacks[i]).0 == h {
        stacks[choose|i: int| 0 <= i < stacks.len() && (#[trigger] stacks[i]).0 == h].1@
    } else {
        Seq::empty()
    }
}

pub open spec fn in_play(h: Hex) -> bool {
    -PLAY_LIMIT <= h.x <= PLAY_LIMIT && -PLAY_LIMIT <= h.y <= PLAY_LIMIT && -PLAY_LIMIT <= h.z
        <= PLAY_LIMIT
}

pub open spec fn is_terminal(status: GameStatus) -> bool {
    status is Draw || status is Win
}

/// Every neighbor of `h` is occupied.
pub open spec fn surrounded(board: Seq<(Hex, Piece)>, h: Hex) -> bool {
    forall|i: int| 0 <= i < 6 ==> occupied(board, #[trigger] neighbors_of(h)[i])
}

/// `i` is the first board entry holding `p`.
pub open spec fn first_on_board(board: Seq<(Hex, Piece)>, p: Piece, i: int) -> bool {
    0 <= i < board.len() && board[i].1 == p && forall|k: int| 0 <= k < i ==> (#[trigger] board[k]).1 != p
}

/// `i` is the first stack holding `p`.
pub open spec fn first_in_stacks(stacks: Seq<(Hex, Vec<Piece>)>, p: Piece, i: int) -> bool {
    0 <= i < stacks.len() && stacks[i].1@.contains(p) && forall|k: int|
        0 <= k < i ==> !(#[trigger] stacks[k]).1@.contains(p)
}

/// The hex where `p` is found: on top of the board, else under a stack.
pub open spec fn spec_hex_of(
    board: Seq<(Hex, Piece)>,
    stacks: Seq<(Hex, Vec<Piece>)>,
    p: Piece,
) -> Option<Hex> {
    if exists|i: int| #[trigger] first_on_board(board, p, i) {
        Some(board[choose|i: int| #[trigger] first_on_board(board, p, i)].0)
    } else if exists|i: int| #[trigger] first_in_stacks(stacks, p, i) {
        Some(stacks[choose|i: int| #[trigger] first_in_stacks(stacks, p, i)].0)
    } else {
        None
    }
}

/// `p`'s queen is surrounded, wherever it stands.
pub open spec fn queen_surrounded(
    board: Seq<(Hex, Piece)>,
    stacks: Seq<(Hex, Vec<Piece>)>,
    color: Player,
) -> bool {
    match spec_hex_of(board, stacks, Piece { id: 1, bug: Bug::Queen, owner: color }) {
        Some(h) => surrounded(board, h),
        None => false,
    }
}

/// The status after a turn: a side whose queen is surrounded loses, both at
/// once is a draw, and otherwise a started game is in progress.
pub open spec fn status_after(
    board: Seq<(Hex, Piece)>,
    stacks: Seq<(Hex, Vec<Piece>)>,
    before: GameStatus,
) -> GameStatus {
    let w = queen_surrounded(board, stacks, Player::White);
    let b = queen_surrounded(board, stacks, Player::Black);
    if w && b {
        GameStatus::Draw
    } else if w {
        GameStatus::Win(Player::Black)
    } else if b {
        GameStatus::Win(Player::White)
    } else if before is NotStarted {
        GameStatus::InProgress
    } else {
        before
    }
}

pub open spec fn unique_keys(board: Seq<(Hex, Piece)>) -> bool {
    forall|i: int, j: int|
        0 <= i < board.len() && 0 <= j < board.len() && i != j ==> (#[trigger] board[i]).0 != (
        #[trigger] board[j]).0
}

pub open spec fn unique_stack_keys(stacks: Seq<(Hex, Vec<Piece>)>) -> bool {
    forall|i: int, j: int|
        0 <= i < stacks.len() && 0 <= j < stacks.len() && i != j ==> (#[trigger] stacks[i]).0 != (
        #[trigger] stacks[j]).0
}

impl GameState {
    /// The state's internal invariant: one top piece per hex, each stack under
    /// an occupied hex and not empty, every hex within the playing limit,
    /// every piece numbered `1..=9`, and an empty board before the game starts.
    pub open spec fn wf(&self) -> bool {
        &&& unique_keys(self.board@)
        &&& unique_stack_keys(self.stacks@)
        &&& forall|x: Hex| #[trigger] occupied(self.board@, x) ==> in_play(x)
        &&& forall|x: Hex| #![trigger has_stack(self.stacks@, x)]
            has_stack(self.stacks@, x) ==> occupied(self.board@, x) && stack_at(self.stacks@, x).len() > 0
        &&& forall|x: Hex| #![trigger piece_at(self.board@, x)]
            occupied(self.board@, x) ==> 1 <= piece_at(self.board@, x)->0.id <= 9
        &&& forall|x: Hex, j: int| 0 <= j < stack_at(self.stacks@, x).len() ==> 1 <= (
            #[trigger] stack_at(self.stacks@, x)[j]).id <= 9
        &&& forall|i: int|
            0 <= i < self.unplayed_pieces@.len() ==> 1 <= (
            #[trigger] self.unplayed_pieces@[i]).id <= 9
        &&& (self.status is NotStarted ==> self.board@.len() == 0)
    }

    pub open spec fn spec_turn_no(&self) -> int {
        self.turns@.len() + 1int
    }

    /// The number of the turn about to be played, counting from 1.
    pub fn turn_no(&self) -> (r: usize)
        requires
            self.turns@.len() < usize::MAX,
        ensures
            r == self.spec_turn_no(),
    {
        self.turns.len() + 1
    }
}

/// The index of the board entry at `h`, if any.
pub fn find_hex(board: &Vec<(Hex, Piece)>, h: Hex) -> (r: Option<usize>)
    ensures
        match r {
            Some(i) => i < board@.len() && board@[i as int].0 == h,
            None => !occupied(board@, h),
        },
{
    let mut i: usize = 0;
    while i < board.len()
        invariant
            i <= board.len(),
            forall|k: int| 0 <= k < i ==> (#[trigger] board@[k]).0 != h,
        decreases board.len() - i,
    {
        if board[i].0 == h {
            return Some(i);
        }
        i += 1;
    }
    None
}

/// The index of the stack at `h`, if any.
pub fn find_stack(stacks: &Vec<(Hex, Vec<Piece>)>, h: Hex) -> (r: Option<usize>)
    ensures
        match r {
            Some(i) => i < stacks@.len() && stacks@[i as int].0 == h,
            None => forall|k: int| 0 <= k < stacks@.len() ==> (#[trigger] stacks@[k]).0 != h,
        },
{
    let mut i: usize = 0;
    while i < stacks.len()
        invariant
            i <= stacks.len(),
            forall|k: int| 0 <= k < i ==> (#[trigger] stacks@[k]).0 != h,
        decreases stacks.len() - i,
    {
        if stacks[i].0 == h {
            return Some(i);
        }
        i += 1;
    }
    None
}

/// The hexes of a board, in board order.
pub fn board_keys(board: &Vec<(Hex, Piece)>) -> (r: Vec<Hex>)
    ensures
        r@ == keys(board@),
{
    let mut r: Vec<Hex> = Vec::new();
    let mut i: usize = 0;
    while i < board.len()
        invariant
            i <= board.len(),
            r@ == keys(board@.subrange(0, i as int)),
        decreases board.len() - i,
    {
        r.push(board[i].0);
        proof {
            assert(keys(board@.subrange(0, i + 1)) =~= keys(board@.subrange(0, i as int)).push(
                board@[i as int].0,
            ));
        }
        i += 1;
    }
    proof {
        assert(board@.subrange(0, board@.len() as int) =~= board@);
    }
    r
}

/// Whether a piece occurs in a list.
pub fn contains_piece(v: &Vec<Piece>, p: Piece) -> (r: bool)
    ensures
        r == v@.contains(p),
{
    let mut i: usize = 0;
    while i < v.len()
        invariant
            i <= v.len(),
            forall|k: int| 0 <= k < i ==> v@[k] != p,
        decreases v.len() - i,
    {
        if v[i] == p {
            return true;
        }
        i += 1;
    }
    false
}

pub proof fn lemma_keys_occupied(board: Seq<(Hex, Piece)>)
    ensures
        forall|h: Hex| #[trigger] keys(board).contains(h) <==> occupied(board, h),
{
    assert forall|h: Hex| #[trigger] keys(board).contains(h) <==> occupied(board, h) by {
        if keys(board).contains(h) {
            let i = choose|i: int| 0 <= i < keys(board).len() && keys(board)[i] == h;
            assert(board[i].0 == h);
        }
        if occupied(board, h) {
            let i = choose|i: int| 0 <= i < board.len() && (#[trigger] board[i]).0 == h;
            assert(keys(board)[i] == h);
        }
    }
}

/// Board lookups agree with any entry of a board with one entry per hex.
pub proof fn lemma_piece_at(board: Seq<(Hex, Piece)>, i: int)
    requires
        unique_keys(board),
        0 <= i < board.len(),
    ensures
        piece_at(board, board[i].0) == Some(board[i].1),
{
    assert(occupied(board, board[i].0));
    let k = choose|k: int| 0 <= k < board.len() && (#[trigger] board[k]).0 == board[i].0;
    assert(k == i);
}

/// Stack lookups agree with any entry of a stack list with one entry per hex.
pub proof fn lemma_stack_at(stacks: Seq<(Hex, Vec<Piece>)>, i: int)
    requires
        unique_stack_keys(stacks),
        0 <= i < stacks.len(),
    ensures
        stack_at(stacks, stacks[i].0) == stacks[i].1@,
{
    let k = choose|k: int| 0 <= k < stacks.len() && (#[trigger] stacks[k]).0 == stacks[i].0;
    assert(k == i);
}

pub proof fn lemma_no_stack(stacks: Seq<(Hex, Vec<Piece>)>, h: Hex)
    requires
        forall|k: int| 0 <= k < stacks.len() ==> (#[trigger] stacks[k]).0 != h,
    ensures
        stack_at(stacks, h) == Seq::<Piece>::empty(),
{
}

/// The pieces of a kind numbered `1..=n`.
pub open spec fn piece_set(bug: Bug, owner: Player, n: nat) -> Seq<Piece> {
    Seq::new(n, |i: int| Piece { id: (i + 1) as u8, bug, owner })
}

/// One side's pieces at the start of a game of the given type.
pub open spec fn side_pieces(owner: Player, game_type: GameType) -> Seq<Piece> {
    let base = piece_set(Bug::Ant, owner, 3) + piece_set(Bug::Grasshopper, owner, 3) + piece_set(
        Bug::Beetle,
        owner,
        2,
    ) + piece_set(Bug::Spider, owner, 2) + piece_set(Bug::Queen, owner, 1);
    match game_type {
        GameType::Base => base,
        GameType::PLM(p, l, m) => base + (if p {
            piece_set(Bug::Pillbug, owner, 1)
        } else {
            Seq::empty()
        }) + (if l {
            piece_set(Bug::Ladybug, owner, 1)
        } else {
            Seq::empty()
        }) + (if m {
            piece_set(Bug::Mosquito, owner, 1)
        } else {
            Seq::empty()
        }),
    }
}

/// Every piece of a game of the given type: White's, then Black's.
pub open spec fn initial_pieces(game_type: GameType) -> Seq<Piece> {
    side_pieces(Player::White, game_type) + side_pieces(Player::Black, game_type)
}

fn push_set(v: &mut Vec<Piece>, bug: Bug, owner: Player, n: u8)
    ensures
        final(v)@ == old(v)@ + piece_set(bug, owner, n as nat),
{
    let set = Piece::new_set(bug, owner, n);
    let mut i: usize = 0;
    while i < set.len()
        invariant
            set@.len() == n,
            forall|k: int| 0 <= k < n ==> #[trigger] set@[k] == (Piece { id: (k + 1) as u8, bug, owner }),
            i <= set.len(),
            v@ == old(v)@ + piece_set(bug, owner, i as nat),
        decreases set.len() - i,
    {
        v.push(set[i]);
        proof {
            assert(old(v)@ + piece_set(bug, owner, (i + 1) as nat) =~= old(v)@ + piece_set(bug, owner, i as nat) + seq![set@[i as int]]);
        }
        i += 1;
    }
}

fn push_side(v: &mut Vec<Piece>, owner: Player, game_type: GameType)
    ensures
        final(v)@ == old(v)@ + side_pieces(owner, game_type),
{
    push_set(v, Bug::Ant, owner, 3);
    push_set(v, Bug::Grasshopper, owner, 3);
    push_set(v, Bug::Beetle, owner, 2);
    push_set(v, Bug::Spider, owner, 2);
    push_set(v, Bug::Queen, owner, 1);
    let ghost base = v@;
    match game_type {
        GameType::Base => {},
        GameType::PLM(p, l, m) => {
            if p {
                push_set(v, Bug::Pillbug, owner, 1);
            }
            let ghost after_p = v@;
            if l {
                push_set(v, Bug::Ladybug, owner, 1);
            }
            let ghost after_l = v@;
            if m {
                push_set(v, Bug::Mosquito, owner, 1);
            }
            proof {
                assert(after_p =~= base + (if p {
                    piece_set(Bug::Pillbug, owner, 1)
                } else {
                    Seq::empty()
                }));
                assert(after_l =~= after_p + (if l {
                    piece_set(Bug::Ladybug, owner, 1)
                } else {
                    Seq::empty()
                }));
                assert(v@ =~= after_l + (if m {
                    piece_set(Bug::Mosquito, owner, 1)
                } else {
                    Seq::empty()
                }));
            }
        },
    }
    proof {
        assert(v@ =~= old(v)@ + side_pieces(owner, game_type));
    }
}

/// Every piece of a game of the given type.
pub fn get_initial_pieces(game_type: GameType) -> (r: Vec<Piece>)
    ensures
        r@ == initial_pieces(game_type),
{
    let mut r: Vec<Piece> = Vec::new();
    push_side(&mut r, Player::White, game_type);
    push_side(&mut r, Player::Black, game_type);
    proof {
        assert(r@ =~= initial_pieces(game_type));
    }
    r
}

proof fn lemma_side_ids(owner: Player, game_type: GameType)
    ensures
        forall|i: int|
            0 <= i < side_pieces(owner, game_type).len() ==> 1 <= (#[trigger] side_pieces(
                owner,
                game_type,
            )[i]).id <= 3,
{
}

proof fn lemma_initial_ids(game_type: GameType)
    ensures
        forall|i: int|
            0 <= i < initial_pieces(game_type).len() ==> 1 <= (#[trigger] initial_pieces(
                game_type,
            )[i]).id <= 9,
{
    lemma_side_ids(Player::White, game_type);
    lemma_side_ids(Player::Black, game_type);
    let w = side_pieces(Player::White, game_type);
    let b = side_pieces(Player::Black, game_type);
    assert forall|i: int| 0 <= i < initial_pieces(game_type).len() implies 1 <= (
    #[trigger] initial_pieces(game_type)[i]).id <= 9 by {
        if i < w.len() {
            assert(initial_pieces(game_type)[i] == w[i]);
        } else {
            assert(initial_pieces(game_type)[i] == b[i - w.len()]);
        }
    }
}

impl GameState {
    /// A game of the given type that has not started, `first_player` to move.
    pub fn new_with_type(first_player: Player, game_type: GameType) -> (r: GameState)
        ensures
            r.wf(),
            r.unplayed_pieces@ == initial_pieces(game_type),
            r.board@.len() == 0,
            r.stacks@.len() == 0,
            r.turns@.len() == 0,
            r.current_player == first_player,
            r.status == GameStatus::NotStarted,
            r.game_type == game_type,
    {
        let r = GameState {
            unplayed_pieces: get_initial_pieces(game_type),
            board: Vec::new(),
            stacks: Vec::new(),
            turns: Vec::new(),
            current_player: first_player,
            status: GameStatus::NotStarted,
            game_type,
        };
        proof {
            lemma_initial_ids(game_type);
        }
        r
    }

    /// A base game that has not started, `first_player` to move.
    pub fn new(first_player: Player) -> (r: GameState)
        ensures
            r.wf(),
            r.unplayed_pieces@ == initial_pieces(GameType::Base),
            r.board@.len() == 0,
            r.stacks@.len() == 0,
            r.turns@.len() == 0,
            r.current_player == first_player,
            r.status == GameStatus::NotStarted,
            r.game_type == GameType::Base,
    {
        GameState::new_with_type(first_player, GameType::Base)
    }
}

/// The index of the board entry holding `p`, if any.
pub fn find_piece(board: &Vec<(Hex, Piece)>, p: Piece) -> (r: Option<usize>)
    ensures
        match r {
            Some(i) => first_on_board(board@, p, i as int),
            None => forall|k: int| 0 <= k < board@.len() ==> (#[trigger] board@[k]).1 != p,
        },
{
    let mut i: usize = 0;
    while i < board.len()
        invariant
            i <= board.len(),
            forall|k: int| 0 <= k < i ==> (#[trigger] board@[k]).1 != p,
        decreases board.len() - i,
    {
        if board[i].1 == p {
            return Some(i);
        }
        i += 1;
    }
    None
}

/// The pieces other than `p`, in order.
pub open spec fn without(v: Seq<Piece>, p: Piece) -> Seq<Piece> {
    v.filter(differs(p))
}

pub open spec fn differs(p: Piece) -> spec_fn(Piece) -> bool {
    |q: Piece| q != p
}

fn remove_all(v: &Vec<Piece>, p: Piece) -> (r: Vec<Piece>)
    ensures
        r@ == without(v@, p),
{
    let mut r: Vec<Piece> = Vec::new();
    let mut i: usize = 0;
    while i < v.len()
        invariant
            i <= v.len(),
            r@ == without(v@.subrange(0, i as int), p),
        decreases v.len() - i,
    {
        proof {
            assert(v@.subrange(0, i + 1) =~= v@.subrange(0, i as int).push(v@[i as int]));
            v@.subrange(0, i as int).lemma_filter_push(v@[i as int], differs(p));
        }
        if v[i] != p {
            r.push(v[i]);
        }
        i += 1;
    }
    proof {
        assert(v@.subrange(0, v@.len() as int) =~= v@);
    }
    r
}

impl GameState {
    /// Where `piece` stands: on top of the board, else under a stack.
    pub fn get_hex_for_piece(&self, piece: &Piece) -> (r: Option<Hex>)
        ensures
            r == spec_hex_of(self.board@, self.stacks@, *piece),
    {
        let ghost b = self.board@;
        let ghost st = self.stacks@;
        let mut i: usize = 0;
        while i < self.board.len()
            invariant
                b == self.board@,
                i <= self.board.len(),
                forall|k: int| 0 <= k < i ==> (#[trigger] self.board@[k]).1 != *piece,
            decreases self.board.len() - i,
        {
            if self.board[i].1 == *piece {
                proof {
                    assert(first_on_board(b, *piece, i as int));
                    assert forall|j: int| #[trigger] first_on_board(b, *piece, j) implies j == i by {
                        if j < i {
                        } else if j > i {
                            assert(b[i as int].1 != *piece);
                        }
                    }
                }
                return Some(self.board[i].0);
            }
            i += 1;
        }
        proof {
            assert forall|j: int| !#[trigger] first_on_board(b, *piece, j) by {
                if 0 <= j < b.len() {
                    assert(b[j].1 != *piece);
                }
            }
        }
        let mut k: usize = 0;
        while k < self.stacks.len()
            invariant
                st == self.stacks@,
                b == self.board@,
                forall|j: int| !#[trigger] first_on_board(b, *piece, j),
                k <= self.stacks.len(),
                forall|j: int| 0 <= j < k ==> !(#[trigger] self.stacks@[j]).1@.contains(*piece),
            decreases self.stacks.len() - k,
        {
            if contains_piece(&self.stacks[k].1, *piece) {
                proof {
                    assert(first_in_stacks(st, *piece, k as int));
                    assert forall|j: int| #[trigger] first_in_stacks(st, *piece, j) implies j == k by {
                        if j > k {
                            assert(st[k as int].1@.contains(*piece));
                        }
                    }
                }
                return Some(self.stacks[k].0);
            }
            k += 1;
        }
        proof {
            assert forall|j: int| !#[trigger] first_in_stacks(st, *piece, j) by {
                if 0 <= j < st.len() {
                    assert(!st[j].1@.contains(*piece));
                }
            }
        }
        None
    }
}

pub proof fn lemma_board_remove(board: Seq<(Hex, Piece)>, i: int)
    requires
        unique_keys(board),
        0 <= i < board.len(),
    ensures
        unique_keys(board.remove(i)),
        forall|x: Hex|
            #[trigger] piece_at(board.remove(i), x) == if x == board[i].0 {
                None
            } else {
                piece_at(board, x)
            },
        forall|x: Hex| #[trigger] occupied(board.remove(i), x) <==> (x != board[i].0 && occupied(board, x)),
{
    let nb = board.remove(i);
    assert forall|a: int, b: int|
        0 <= a < nb.len() && 0 <= b < nb.len() && a != b implies (#[trigger] nb[a]).0 != (
        #[trigger] nb[b]).0 by {
        let a0 = if a < i { a } else { a + 1 };
        let b0 = if b < i { b } else { b + 1 };
        assert(nb[a] == board[a0] && nb[b] == board[b0]);
    }
    assert forall|x: Hex| #[trigger] occupied(nb, x) <==> (x != board[i].0 && occupied(board, x)) by {
        if occupied(nb, x) {
            let a = choose|a: int| 0 <= a < nb.len() && (#[trigger] nb[a]).0 == x;
            let a0 = if a < i { a } else { a + 1 };
            assert(nb[a] == board[a0]);
        }
        if x != board[i].0 && occupied(board, x) {
            let a = choose|a: int| 0 <= a < board.len() && (#[trigger] board[a]).0 == x;
            if a < i {
                assert(nb[a] == board[a]);
            } else {
                assert(nb[a - 1] == board[a]);
            }
        }
    }
    assert forall|x: Hex|
        #[trigger] piece_at(nb, x) == if x == board[i].0 {
            None
        } else {
            piece_at(board, x)
        } by {
        if occupied(nb, x) {
            let a = choose|a: int| 0 <= a < nb.len() && (#[trigger] nb[a]).0 == x;
            let a0 = if a < i { a } else { a + 1 };
            assert(nb[a] == board[a0]);
            lemma_piece_at(nb, a);
            lemma_piece_at(board, a0);
        }
    }
}

pub proof fn lemma_board_push(board: Seq<(Hex, Piece)>, h: Hex, p: Piece)
    requires
        unique_keys(board),
        !occupied(board, h),
    ensures
        unique_keys(board.push((h, p))),
        forall|x: Hex|
            #[trigger] piece_at(board.push((h, p)), x) == if x == h {
                Some(p)
            } else {
                piece_at(board, x)
            },
        forall|x: Hex| #[trigger] occupied(board.push((h, p)), x) <==> (x == h || occupied(board, x)),
{
    let nb = board.push((h, p));
    assert forall|a: int, b: int|
        0 <= a < nb.len() && 0 <= b < nb.len() && a != b implies (#[trigger] nb[a]).0 != (
        #[trigger] nb[b]).0 by {
        if a < board.len() {
            assert(nb[a] == board[a]);
        }
        if b < board.len() {
            assert(nb[b] == board[b]);
        }
    }
    assert forall|x: Hex| #[trigger] occupied(nb, x) <==> (x == h || occupied(board, x)) by {
        if occupied(nb, x) {
            let a = choose|a: int| 0 <= a < nb.len() && (#[trigger] nb[a]).0 == x;
            if a < board.len() {
                assert(nb[a] == board[a]);
            }
        }
        if x == h {
            assert(nb[board.len() as int].0 == h);
        }
        if occupied(board, x) {
            let a = choose|a: int| 0 <= a < board.len() && (#[trigger] board[a]).0 == x;
            assert(nb[a] == board[a]);
        }
    }
    assert forall|x: Hex|
        #[trigger] piece_at(nb, x) == if x == h {
            Some(p)
        } else {
            piece_at(board, x)
        } by {
        if occupied(nb, x) {
            let a = choose|a: int| 0 <= a < nb.len() && (#[trigger] nb[a]).0 == x;
            lemma_piece_at(nb, a);
            if a < board.len() {
                assert(nb[a] == board[a]);
                lemma_piece_at(board, a);
            }
        }
    }
}

pub open spec fn has_stack(stacks: Seq<(Hex, Vec<Piece>)>, h: Hex) -> bool {
    exists|i: int| 0 <= i < stacks.len() && (#[trigger] stacks[i]).0 == h
}

pub proof fn lemma_stacks_remove(stacks: Seq<(Hex, Vec<Piece>)>, i: int)
    requires
        unique_stack_keys(stacks),
        0 <= i < stacks.len(),
    ensures
        unique_stack_keys(stacks.remove(i)),
        forall|x: Hex|
            #[trigger] stack_at(stacks.remove(i), x) == if x == stacks[i].0 {
                Seq::<Piece>::empty()
            } else {
                stack_at(stacks, x)
            },
        forall|x: Hex| #[trigger] has_stack(stacks.remove(i), x) <==> (x != stacks[i].0 && has_stack(stacks, x)),
{
    let ns = stacks.remove(i);
    assert forall|a: int, b: int|
        0 <= a < ns.len() && 0 <= b < ns.len() && a != b implies (#[trigger] ns[a]).0 != (
        #[trigger] ns[b]).0 by {
        let a0 = if a < i { a } else { a + 1 };
        let b0 = if b < i { b } else { b + 1 };
        assert(ns[a] == stacks[a0] && ns[b] == stacks[b0]);
    }
    assert forall|x: Hex| #[trigger] has_stack(ns, x) <==> (x != stacks[i].0 && has_stack(stacks, x)) by {
        if has_stack(ns, x) {
            let a = choose|a: int| 0 <= a < ns.len() && (#[trigger] ns[a]).0 == x;
            let a0 = if a < i { a } else { a + 1 };
            assert(ns[a] == stacks[a0]);
        }
        if x != stacks[i].0 && has_stack(stacks, x) {
            let a = choose|a: int| 0 <= a < stacks.len() && (#[trigger] stacks[a]).0 == x;
            if a < i {
                assert(ns[a] == stacks[a]);
            } else {
                assert(ns[a - 1] == stacks[a]);
            }
        }
    }
    assert forall|x: Hex|
        #[trigger] stack_at(ns, x) == if x == stacks[i].0 {
            Seq::<Piece>::empty()
        } else {
            stack_at(stacks, x)
        } by {
        if has_stack(ns, x) {
            let a = choose|a: int| 0 <= a < ns.len() && (#[trigger] ns[a]).0 == x;
            let a0 = if a < i { a } else { a + 1 };
            assert(ns[a] == stacks[a0]);
            lemma_stack_at(ns, a);
            lemma_stack_at(stacks, a0);
        } else if x != stacks[i].0 {
            assert(!has_stack(stacks, x));
        }
    }
}

pub proof fn lemma_stacks_push(stacks: Seq<(Hex, Vec<Piece>)>, h: Hex, v: Vec<Piece>)
    requires
        unique_stack_keys(stacks),
        !has_stack(stacks, h),
    ensures
        unique_stack_keys(stacks.push((h, v))),
        forall|x: Hex|
            #[trigger] stack_at(stacks.push((h, v)), x) == if x == h {
                v@
            } else {
                stack_at(stacks, x)
            },
        forall|x: Hex| #[trigger] has_stack(stacks.push((h, v)), x) <==> (x == h || has_stack(stacks, x)),
{
    let ns = stacks.push((h, v));
    assert forall|x: Hex| #[trigger] has_stack(ns, x) <==> (x == h || has_stack(stacks, x)) by {
        if has_stack(ns, x) {
            let a = choose|a: int| 0 <= a < ns.len() && (#[trigger] ns[a]).0 == x;
            if a < stacks.len() {
                assert(ns[a] == stacks[a]);
            }
        }
        if x == h {
            assert(ns[stacks.len() as int].0 == h);
        }
        if has_stack(stacks, x) {
            let a = choose|a: int| 0 <= a < stacks.len() && (#[trigger] stacks[a]).0 == x;
            assert(ns[a] == stacks[a]);
        }
    }
    assert forall|a: int, b: int|
        0 <= a < ns.len() && 0 <= b < ns.len() && a != b implies (#[trigger] ns[a]).0 != (
        #[trigger] ns[b]).0 by {
        if a < stacks.len() {
            assert(ns[a] == stacks[a]);
        }
        if b < stacks.len() {
            assert(ns[b] == stacks[b]);
        }
    }
    assert forall|x: Hex|
        #[trigger] stack_at(ns, x) == if x == h {
            v@
        } else {
            stack_at(stacks, x)
        } by {
        if has_stack(ns, x) {
            let a = choose|a: int| 0 <= a < ns.len() && (#[trigger] ns[a]).0 == x;
            lemma_stack_at(ns, a);
            if a < stacks.len() {
                assert(ns[a] == stacks[a]);
                lemma_stack_at(stacks, a);
            }
        } else {
            assert(ns[stacks.len() as int].0 == h);
            if x != h && has_stack(stacks, x) {
                let a = choose|a: int| 0 <= a < stacks.len() && (#[trigger] stacks[a]).0 == x;
                assert(ns[a] == stacks[a]);
            }
        }
    }
}

/// `turn` can be applied to `s`: a placement of an unplayed piece on an empty
/// hex, a move of a piece on top of the board to another hex, or a pass.
pub open spec fn turn_applicable(s: GameState, turn: Turn) -> bool {
    match turn {
        Turn::Place(p, h) => s.unplayed_pieces@.contains(p) && !occupied(s.board@, h) && in_play(h),
        Turn::Move(p, h) => (exists|i: int| 0 <= i < s.board@.len() && (#[trigger] s.board@[i]).1
            == p) && in_play(h),
        Turn::Pass => true,
    }
}

/// The piece a lifted stack leaves on top.
pub open spec fn uncovered(stack: Seq<Piece>) -> Option<Piece> {
    if stack.len() > 0 {
        Some(stack.last())
    } else {
        None
    }
}

/// The top piece at `x` once the piece at `from` is lifted.
pub open spec fn lifted_piece(s: GameState, from: Hex, x: Hex) -> Option<Piece> {
    if x == from {
        uncovered(stack_at(s.stacks@, from))
    } else {
        piece_at(s.board@, x)
    }
}

/// The stack under `x` once the piece at `from` is lifted.
pub open spec fn lifted_stack(s: GameState, from: Hex, x: Hex) -> Seq<Piece> {
    if x == from {
        let under = stack_at(s.stacks@, from);
        if under.len() > 0 {
            under.drop_last()
        } else {
            under
        }
    } else {
        stack_at(s.stacks@, x)
    }
}

/// How the pieces stand after `turn`: a placement puts the piece on the
/// board and out of the reserve; a move lifts the piece (uncovering what was
/// under it) and sets it down at its destination, on top of any piece there.
pub open spec fn pieces_after(s: GameState, t: GameState, turn: Turn) -> bool {
    match turn {
        Turn::Place(p, h) => {
            &&& t.unplayed_pieces@ == without(s.unplayed_pieces@, p)
            &&& forall|x: Hex|
                #[trigger] piece_at(t.board@, x) == if x == h {
                    Some(p)
                } else {
                    piece_at(s.board@, x)
                }
            &&& forall|x: Hex| #[trigger] stack_at(t.stacks@, x) == stack_at(s.stacks@, x)
        },
        Turn::Move(p, h) => {
            let from = spec_hex_of(s.board@, s.stacks@, p)->0;
            &&& t.unplayed_pieces@ == s.unplayed_pieces@
            &&& forall|x: Hex|
                #[trigger] piece_at(t.board@, x) == if x == h {
                    Some(p)
                } else {
                    lifted_piece(s, from, x)
                }
            &&& forall|x: Hex|
                #[trigger] stack_at(t.stacks@, x) == if x == h {
                    match lifted_piece(s, from, h) {
                        Some(q) => lifted_stack(s, from, h).push(q),
                        None => lifted_stack(s, from, h),
                    }
                } else {
                    lifted_stack(s, from, x)
                }
        },
        Turn::Pass => {
            &&& t.unplayed_pieces@ == s.unplayed_pieces@
            &&& t.board@ == s.board@
            &&& forall|x: Hex| #[trigger] stack_at(t.stacks@, x) == stack_at(s.stacks@, x)
        },
    }
}

impl GameState {
    /// Whether every neighbor of the queen of `color` is occupied.
    fn queen_is_surrounded(&self, color: Player) -> (r: bool)
        requires
            self.wf(),
        ensures
            r == queen_surrounded(self.board@, self.stacks@, color),
    {
        let queen = Piece::new(Bug::Queen, color);
        match self.get_hex_for_piece(&queen) {
            Some(h) => {
                proof {
                    if exists|i: int| #[trigger] first_on_board(self.board@, queen, i) {
                        let i = choose|i: int| #[trigger] first_on_board(self.board@, queen, i);
                        assert(occupied(self.board@, self.board@[i].0));
                    } else {
                        let i = choose|i: int| #[trigger] first_in_stacks(self.stacks@, queen, i);
                        assert(has_stack(self.stacks@, self.stacks@[i].0));
                    }
                    assert(in_play(h));
                }
                let ns = h.neighbors();
                let mut k: usize = 0;
                while k < ns.len()
                    invariant
                        ns@ == neighbors_of(h),
                        queen == (Piece { id: 1, bug: Bug::Queen, owner: color }),
                        spec_hex_of(self.board@, self.stacks@, queen) == Some(h),
                        k <= ns.len(),
                        forall|j: int| 0 <= j < k ==> occupied(self.board@, #[trigger] neighbors_of(h)[j]),
                    decreases ns.len() - k,
                {
                    if find_hex(&self.board, ns[k]).is_none() {
                        proof {
                            assert(!occupied(self.board@, neighbors_of(h)[k as int]));
                        }
                        return false;
                    }
                    k += 1;
                }
                true
            },
            None => false,
        }
    }

    /// Applies `turn` without checking that it is legal: updates the pieces,
    /// records the turn, passes play to the other side and updates the status.
    pub fn submit_turn_unchecked(&mut self, turn: Turn)
        requires
            old(self).wf(),
            old(self).turns@.len() + 2 < usize::MAX,
            turn_applicable(*old(self), turn),
        ensures
            final(self).wf(),
            pieces_after(*old(self), *final(self), turn),
            pieces_kept(*old(self), *final(self), turn),
            final(self).turns@ == old(self).turns@.push(turn),
            final(self).current_player == old(self).current_player.spec_other(),
            final(self).game_type == old(self).game_type,
            final(self).status == status_after(final(self).board@, final(self).stacks@, old(self).status),
    {
        let ghost s0 = *self;
        if self.status == GameStatus::NotStarted {
            self.status = GameStatus::InProgress;
        }
        match turn {
            Turn::Place(piece, hex) => {
                proof {
                    lemma_board_push(self.board@, hex, piece);
                    let k = choose|k: int| 0 <= k < s0.unplayed_pieces@.len() && s0.unplayed_pieces@[k] == piece;
                    assert(1 <= s0.unplayed_pieces@[k].id <= 9);
                }
                proof {
                    lemma_board_pieces_push(self.board@, (hex, piece));
                    lemma_without_count(self.unplayed_pieces@, piece);
                }
                self.board.push((hex, piece));
                self.unplayed_pieces = remove_all(&self.unplayed_pieces, piece);
                proof {
                    let u = self.unplayed_pieces@;
                    assert forall|i: int| 0 <= i < u.len() implies 1 <= (#[trigger] u[i]).id <= 9 by {
                        assert(u.contains(u[i]));
                        s0.unplayed_pieces@.lemma_filter_contains_rev(differs(piece), u[i]);
                        let k = choose|k: int| 0 <= k < s0.unplayed_pieces@.len() && s0.unplayed_pieces@[k] == u[i];
                        assert(1 <= s0.unplayed_pieces@[k].id <= 9);
                    }
                }
            },
            Turn::Move(piece, dest) => {
                self.move_piece(piece, dest);
            },
            Turn::Pass => {},
        }
        self.current_player = self.current_player.other();
        let ghost b1 = self.board@;
        let ghost st1 = self.stacks@;
        let white_lost = self.queen_is_surrounded(Player::White);
        let black_lost = self.queen_is_surrounded(Player::Black);
        if white_lost && black_lost {
            self.status = GameStatus::Draw;
        } else if white_lost {
            self.status = GameStatus::Win(Player::Black);
        } else if black_lost {
            self.status = GameStatus::Win(Player::White);
        }
        self.turns.push(turn);
    }

    /// Lifts `piece` from the board and sets it down at `dest`.
    fn move_piece(&mut self, piece: Piece, dest: Hex)
        requires
            old(self).wf(),
            turn_applicable(*old(self), Turn::Move(piece, dest)),
        ensures
            final(self).wf(),
            pieces_after(*old(self), *final(self), Turn::Move(piece, dest)),
            all_pieces(*final(self)) == all_pieces(*old(self)),
            final(self).turns == old(self).turns,
            final(self).current_player == old(self).current_player,
            final(self).status == old(self).status,
            final(self).game_type == old(self).game_type,
    {
        let ghost s0 = *self;
        let i = match find_piece(&self.board, piece) {
            Some(i) => i,
            None => {
                proof {
                    let k = choose|k: int| 0 <= k < s0.board@.len() && (#[trigger] s0.board@[k]).1 == piece;
                }
                return;
            },
        };
        proof {
            assert forall|j: int| #[trigger] first_on_board(s0.board@, piece, j) implies j == i by {
                if j < i {
                    assert(s0.board@[j].1 != piece);
                } else if j > i {
                    assert(s0.board@[i as int].1 == piece);
                }
            }
            lemma_piece_at(s0.board@, i as int);
        }
        let from = self.board[i].0;
        self.lift(i);
        self.set_down(piece, dest);
        proof {
            assert(all_pieces(*self) =~= all_pieces(s0));
        }
    }

    /// Takes the top piece off the board at entry `i`, uncovering the piece
    /// under it, if any.
    fn lift(&mut self, i: usize)
        requires
            old(self).wf(),
            i < old(self).board@.len(),
        ensures
            final(self).wf(),
            final(self).unplayed_pieces == old(self).unplayed_pieces,
            final(self).turns == old(self).turns,
            final(self).current_player == old(self).current_player,
            final(self).status == old(self).status,
            final(self).game_type == old(self).game_type,
            all_pieces(*old(self)) == all_pieces(*final(self)).insert(old(self).board@[i as int].1),
            ({
                let from = old(self).board@[i as int].0;
                let under = stack_at(old(self).stacks@, from);
                &&& forall|x: Hex|
                    #[trigger] piece_at(final(self).board@, x) == if x == from {
                        uncovered(under)
                    } else {
                        piece_at(old(self).board@, x)
                    }
                &&& forall|x: Hex|
                    #[trigger] stack_at(final(self).stacks@, x) == if x == from {
                        if under.len() > 0 {
                            under.drop_last()
                        } else {
                            under
                        }
                    } else {
                        stack_at(old(self).stacks@, x)
                    }
            }),
    {
        let ghost s0 = *self;
        let from = self.board[i].0;
        let ghost under = stack_at(s0.stacks@, from);
        proof {
            lemma_board_remove(self.board@, i as int);
            lemma_board_pieces_remove(self.board@, i as int);
        }
        let ghost p = self.board@[i as int].1;
        self.board.remove(i);
        let ghost b1 = self.board@;
        match find_stack(&self.stacks, from) {
            Some(si) => {
                proof {
                    lemma_stack_at(self.stacks@, si as int);
                    lemma_stacks_remove(self.stacks@, si as int);
                    assert(has_stack(s0.stacks@, from));
                }
                proof {
                    lemma_stacked_remove(self.stacks@, si as int);
                }
                let ghost st0 = self.stacks@;
                let (sh, mut pieces) = self.stacks.remove(si);
                let ghost st1 = self.stacks@;
                let ghost all_under = pieces@;
                match pieces.pop() {
                    Some(top) => {
                        proof {
                            assert(top == under.last());
                            assert(1 <= under[under.len() - 1].id <= 9);
                            lemma_board_push(self.board@, from, top);
                            lemma_board_pieces_push(self.board@, (from, top));
                            assert(all_under =~= pieces@.push(top));
                            assert(all_under.to_multiset() =~= pieces@.to_multiset().insert(top));
                        }
                        self.board.push((from, top));
                    },
                    None => {
                        proof {
                            assert(all_under.to_multiset() =~= Multiset::empty());
                        }
                    },
                }
                let ghost st2 = self.stacks@;
                proof {
                    assert(pieces@ == under.drop_last());
                }
                let ghost rest = pieces@;
                if pieces.len() > 0 {
                    proof {
                        lemma_stacks_push(self.stacks@, sh, pieces);
                        lemma_stacked_push(self.stacks@, (sh, pieces));
                    }
                    self.stacks.push((sh, pieces));
                } else {
                    proof {
                        assert(rest.to_multiset() =~= Multiset::empty());
                    }
                }
                proof {
                    assert(stacked_pieces(self.stacks@) =~= stacked_pieces(st1).add(rest.to_multiset()));
                    assert(all_pieces(s0) =~= all_pieces(*self).insert(p));
                }
                proof {
                    assert forall|x: Hex, j: int| 0 <= j < stack_at(self.stacks@, x).len() implies 1 <= (
                        #[trigger] stack_at(self.stacks@, x)[j]).id <= 9 by {
                        if x == from {
                            assert(stack_at(self.stacks@, x)[j] == under[j]);
                        } else {
                            assert(stack_at(self.stacks@, x) == stack_at(s0.stacks@, x));
                        }
                    }
                }
            },
            None => {
                proof {
                    lemma_no_stack(self.stacks@, from);
                    assert(!has_stack(s0.stacks@, from));
                    assert(all_pieces(s0) =~= all_pieces(*self).insert(p));
                }
            },
        }
    }

    /// Sets `piece` down at `dest`, on top of any piece there.
    fn set_down(&mut self, piece: Piece, dest: Hex)
        requires
            old(self).wf(),
            !(old(self).status is NotStarted),
            in_play(dest),
            1 <= piece.id <= 9,
        ensures
            final(self).wf(),
            final(self).unplayed_pieces == old(self).unplayed_pieces,
            final(self).turns == old(self).turns,
            final(self).current_player == old(self).current_player,
            final(self).status == old(self).status,
            final(self).game_type == old(self).game_type,
            all_pieces(*final(self)) == all_pieces(*old(self)).insert(piece),
            forall|x: Hex|
                #[trigger] piece_at(final(self).board@, x) == if x == dest {
                    Some(piece)
                } else {
                    piece_at(old(self).board@, x)
                },
            forall|x: Hex|
                #[trigger] stack_at(final(self).stacks@, x) == if x == dest {
                    match piece_at(old(self).board@, dest) {
                        Some(q) => stack_at(old(self).stacks@, dest).push(q),
                        None => stack_at(old(self).stacks@, dest),
                    }
                } else {
                    stack_at(old(self).stacks@, x)
                },
    {
        let ghost s0 = *self;
        match find_hex(&self.board, dest) {
            Some(j) => {
                let existing = self.board[j].1;
                proof {
                    lemma_piece_at(self.board@, j as int);
                    lemma_board_remove(self.board@, j as int);
                    lemma_board_pieces_remove(self.board@, j as int);
                }
                self.board.remove(j);
                proof {
                    lemma_board_push(self.board@, dest, piece);
                    lemma_board_pieces_push(self.board@, (dest, piece));
                }
                self.board.push((dest, piece));
                let ghost st0 = self.stacks@;
                match find_stack(&self.stacks, dest) {
                    Some(k) => {
                        proof {
                            lemma_stack_at(self.stacks@, k as int);
                            lemma_stacks_remove(self.stacks@, k as int);
                            lemma_stacked_remove(self.stacks@, k as int);
                        }
                        let (kh, mut v) = self.stacks.remove(k);
                        let ghost v0 = v@;
                        v.push(existing);
                        proof {
                            lemma_stacks_push(self.stacks@, kh, v);
                            lemma_stacked_push(self.stacks@, (kh, v));
                            assert(v@.to_multiset() =~= v0.to_multiset().insert(existing));
                        }
                        self.stacks.push((kh, v));
                        proof {
                            assert(stacked_pieces(self.stacks@) =~= stacked_pieces(st0).insert(existing));
                        }
                    },
                    None => {
                        proof {
                            lemma_no_stack(self.stacks@, dest);
                        }
                        let v = vec![existing];
                        proof {
                            lemma_stacks_push(self.stacks@, dest, v);
                            lemma_stacked_push(self.stacks@, (dest, v));
                            assert(v@ =~= Seq::<Piece>::empty().push(existing));
                            assert(v@.to_multiset() =~= Multiset::<Piece>::empty().insert(existing));
                        }
                        self.stacks.push((dest, v));
                        proof {
                            assert(stacked_pieces(self.stacks@) =~= stacked_pieces(st0).insert(existing));
                        }
                    },
                }
                proof {
                    assert(all_pieces(*self) =~= all_pieces(s0).insert(piece));
                }
                proof {
                    assert forall|x: Hex, j: int| 0 <= j < stack_at(self.stacks@, x).len() implies 1 <= (
                        #[trigger] stack_at(self.stacks@, x)[j]).id <= 9 by {
                        if x == dest {
                            if j < stack_at(s0.stacks@, dest).len() {
                                assert(stack_at(self.stacks@, x)[j] == stack_at(s0.stacks@, dest)[j]);
                            }
                        }
                    }
                }
            },
            None => {
                proof {
                    lemma_board_push(self.board@, dest, piece);
                    lemma_board_pieces_push(self.board@, (dest, piece));
                    assert(!has_stack(s0.stacks@, dest));
                    assert(stack_at(s0.stacks@, dest).len() == 0);
                }
                self.board.push((dest, piece));
                proof {
                    assert(all_pieces(*self) =~= all_pieces(s0).insert(piece));
                }
            },
        }
    }
}

/// The top pieces of a board.
pub open spec fn board_pieces(board: Seq<(Hex, Piece)>) -> Multiset<Piece> {
    board.map_values(|e: (Hex, Piece)| e.1).to_multiset()
}

/// The pieces under the tops of the stacks.
pub open spec fn stacked_pieces(stacks: Seq<(Hex, Vec<Piece>)>) -> Multiset<Piece>
    decreases stacks.len(),
{
    if stacks.len() == 0 {
        Multiset::empty()
    } else {
        stacked_pieces(stacks.drop_last()).add(stacks.last().1@.to_multiset())
    }
}

/// Every piece of a game: in the reserve, on top of the board, or stacked.
pub open spec fn all_pieces(s: GameState) -> Multiset<Piece> {
    s.unplayed_pieces@.to_multiset().add(board_pieces(s.board@)).add(stacked_pieces(s.stacks@))
}

/// How a turn changes the pieces of the game: a placement drops every copy
/// of the piece from the reserve and sets one down; moves and passes keep
/// every piece.
pub open spec fn pieces_kept(s: GameState, t: GameState, turn: Turn) -> bool {
    match turn {
        Turn::Place(p, _) => forall|q: Piece|
            #[trigger] all_pieces(t).count(q) == if q == p {
                all_pieces(s).count(q) - s.unplayed_pieces@.to_multiset().count(p) + 1
            } else {
                all_pieces(s).count(q) as int
            },
        _ => all_pieces(t) == all_pieces(s),
    }
}

pub proof fn lemma_board_pieces_push(board: Seq<(Hex, Piece)>, e: (Hex, Piece))
    ensures
        board_pieces(board.push(e)) =~= board_pieces(board).insert(e.1),
{
    assert(board.push(e).map_values(|e: (Hex, Piece)| e.1) =~= board.map_values(|e: (Hex, Piece)| e.1).push(e.1));
}

pub proof fn lemma_board_pieces_remove(board: Seq<(Hex, Piece)>, i: int)
    requires
        0 <= i < board.len(),
    ensures
        board_pieces(board) =~= board_pieces(board.remove(i)).insert(board[i].1),
{
    let m = board.map_values(|e: (Hex, Piece)| e.1);
    assert(board.remove(i).map_values(|e: (Hex, Piece)| e.1) =~= m.remove(i));
    assert(m[i] == board[i].1);
    assert(m.contains(m[i]));
    assert(m.to_multiset().count(m[i]) > 0);
    assert(m.to_multiset() =~= m.to_multiset().remove(m[i]).insert(m[i]));
}

pub proof fn lemma_stacked_push(stacks: Seq<(Hex, Vec<Piece>)>, e: (Hex, Vec<Piece>))
    ensures
        stacked_pieces(stacks.push(e)) =~= stacked_pieces(stacks).add(e.1@.to_multiset()),
{
    assert(stacks.push(e).drop_last() =~= stacks);
}

pub proof fn lemma_stacked_remove(stacks: Seq<(Hex, Vec<Piece>)>, i: int)
    requires
        0 <= i < stacks.len(),
    ensures
        stacked_pieces(stacks) =~= stacked_pieces(stacks.remove(i)).add(stacks[i].1@.to_multiset()),
    decreases stacks.len(),
{
    if i == stacks.len() - 1 {
        assert(stacks.remove(i) =~= stacks.drop_last());
    } else {
        let d = stacks.drop_last();
        lemma_stacked_remove(d, i);
        assert(stacks.remove(i).drop_last() =~= d.remove(i));
        assert(stacks.remove(i).last() == stacks.last());
    }
}

pub proof fn lemma_without_count(v: Seq<Piece>, p: Piece)
    ensures
        forall|q: Piece|
            #[trigger] without(v, p).to_multiset().count(q) == if q == p {
                0
            } else {
                v.to_multiset().count(q)
            },
    decreases v.len(),
{
    if v.len() == 0 {
        assert(without(v, p) =~= Seq::<Piece>::empty());
    } else {
        let d = v.drop_last();
        let x = v.last();
        lemma_without_count(d, p);
        assert(d.push(x) =~= v);
        d.lemma_filter_push(x, differs(p));
        assert(v.to_multiset() =~= d.to_multiset().insert(x));
        if x != p {
            assert(without(v, p) == without(d, p).push(x));
            assert(without(v, p).to_multiset() =~= without(d, p).to_multiset().insert(x));
        } else {
            assert(without(v, p) == without(d, p));
        }
    }
}

/// The stacks with each one's pieces as a sequence.
pub open spec fn stacks_view(stacks: Seq<(Hex, Vec<Piece>)>) -> Seq<(Hex, Seq<Piece>)> {
    stacks.map_values(|e: (Hex, Vec<Piece>)| (e.0, e.1@))
}

/// `t` holds the same game as `s`, field by field.
pub open spec fn same_game(s: GameState, t: GameState) -> bool {
    &&& t.unplayed_pieces@ == s.unplayed_pieces@
    &&& t.board@ == s.board@
    &&& stacks_view(t.stacks@) == stacks_view(s.stacks@)
    &&& t.turns@ == s.turns@
    &&& t.current_player == s.current_player
    &&& t.status == s.status
    &&& t.game_type == s.game_type
}

fn copy_pieces(v: &Vec<Piece>) -> (r: Vec<Piece>)
    ensures
        r@ == v@,
{
    let mut r: Vec<Piece> = Vec::new();
    let mut i: usize = 0;
    while i < v.len()
        invariant
            i <= v.len(),
            r@ == v@.subrange(0, i as int),
        decreases v.len() - i,
    {
        r.push(v[i]);
        proof {
            assert(v@.subrange(0, i + 1) =~= v@.subrange(0, i as int).push(v@[i as int]));
        }
        i += 1;
    }
    proof {
        assert(v@.subrange(0, v@.len() as int) =~= v@);
    }
    r
}

impl GameState {
    /// A copy of the game that shares nothing with it.
    pub fn copy_state(&self) -> (r: GameState)
        requires
            self.wf(),
        ensures
            r.wf(),
            same_game(*self, r),
    {
        let mut board: Vec<(Hex, Piece)> = Vec::new();
        let mut i: usize = 0;
        while i < self.board.len()
            invariant
                i <= self.board.len(),
                board@ == self.board@.subrange(0, i as int),
            decreases self.board.len() - i,
        {
            board.push(self.board[i]);
            proof {
                assert(self.board@.subrange(0, i + 1) =~= self.board@.subrange(0, i as int).push(self.board@[i as int]));
            }
            i += 1;
        }
        let mut stacks: Vec<(Hex, Vec<Piece>)> = Vec::new();
        let mut k: usize = 0;
        while k < self.stacks.len()
            invariant
                k <= self.stacks.len(),
                stacks@.len() == k,
                forall|j: int| 0 <= j < k ==> (#[trigger] stacks@[j]).0 == self.stacks@[j].0 && stacks@[j].1@ == self.stacks@[j].1@,
            decreases self.stacks.len() - k,
        {
            let pieces = copy_pieces(&self.stacks[k].1);
            stacks.push((self.stacks[k].0, pieces));
            k += 1;
        }
        let r = GameState {
            unplayed_pieces: copy_pieces(&self.unplayed_pieces),
            board,
            stacks,
            turns: copy_turns(&self.turns),
            current_player: self.current_player,
            status: self.status,
            game_type: self.game_type,
        };
        proof {
            assert(r.board@ =~= self.board@.subrange(0, self.board@.len() as int));
            assert(self.board@.subrange(0, self.board@.len() as int) =~= self.board@);
            assert(stacks_view(r.stacks@) =~= stacks_view(self.stacks@));
            lemma_same_stacks(self.stacks@, r.stacks@);
        }
        r
    }
}

fn copy_turns(v: &Vec<Turn>) -> (r: Vec<Turn>)
    ensures
        r@ == v@,
{
    let mut r: Vec<Turn> = Vec::new();
    let mut i: usize = 0;
    while i < v.len()
        invariant
            i <= v.len(),
            r@ == v@.subrange(0, i as int),
        decreases v.len() - i,
    {
        r.push(v[i]);
        proof {
            assert(v@.subrange(0, i + 1) =~= v@.subrange(0, i as int).push(v@[i as int]));
        }
        i += 1;
    }
    proof {
        assert(v@.subrange(0, v@.len() as int) =~= v@);
    }
    r
}

/// Stack lists that agree entry by entry on hexes and pieces agree on every
/// lookup.
pub proof fn lemma_same_stacks(a: Seq<(Hex, Vec<Piece>)>, b: Seq<(Hex, Vec<Piece>)>)
    requires
        a.len() == b.len(),
        forall|j: int| 0 <= j < a.len() ==> (#[trigger] b[j]).0 == a[j].0 && b[j].1@ == a[j].1@,
    ensures
        unique_stack_keys(a) ==> unique_stack_keys(b),
        forall|x: Hex| #[trigger] has_stack(b, x) == has_stack(a, x),
        unique_stack_keys(a) ==> forall|x: Hex| #[trigger] stack_at(b, x) == stack_at(a, x),
{
    assert forall|x: Hex| #[trigger] has_stack(b, x) == has_stack(a, x) by {
        if has_stack(b, x) {
            let i = choose|i: int| 0 <= i < b.len() && (#[trigger] b[i]).0 == x;
            assert(a[i].0 == x);
        }
        if has_stack(a, x) {
            let i = choose|i: int| 0 <= i < a.len() && (#[trigger] a[i]).0 == x;
            assert(b[i].0 == x);
        }
    }
    if unique_stack_keys(a) {
        assert forall|i: int, j: int|
            0 <= i < b.len() && 0 <= j < b.len() && i != j implies (#[trigger] b[i]).0 != (#[trigger] b[j]).0 by {
            assert(a[i].0 != a[j].0);
        }
        assert forall|x: Hex| #[trigger] stack_at(b, x) == stack_at(a, x) by {
            if has_stack(a, x) {
                let i = choose|i: int| 0 <= i < a.len() && (#[trigger] a[i]).0 == x;
                lemma_stack_at(a, i);
                lemma_stack_at(b, i);
            }
        }
    }
}

} // verus!
