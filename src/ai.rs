use vstd::prelude::*;
use crate::hex::{Hex, adjacent, neighbors_of};
use crate::piece::{Bug, Piece, Player};
use crate::game_state::{GameState, Turn, find_hex, in_play, occupied, spec_hex_of, first_on_board, first_in_stacks, has_stack};
use crate::moves::queen_of;
use rand::seq::SliceRandom;

verus! {

/// How many of the first `k` neighbors of `h` are occupied.
pub open spec fn occupied_count(board: Seq<(Hex, Piece)>, h: Hex, k: nat) -> nat
    decreases k,
{
    if k == 0 {
        0
    } else {
        occupied_count(board, h, (k - 1) as nat) + if occupied(board, neighbors_of(h)[k - 1]) {
            1nat
        } else {
            0nat
        }
    }
}

/// The number of occupied neighbors of `h`.
pub open spec fn liberties(board: Seq<(Hex, Piece)>, h: Hex) -> nat {
    occupied_count(board, h, 6)
}

/// What a move from `from` to `to` is worth to Black against the queen of
/// `color`: a move onto or next to the queen presses it, a move away from
/// beside it relieves it, each by the number of the queen's occupied
/// neighbors.
pub open spec fn queen_term(s: GameState, color: Player, from: Option<Hex>, to: Hex) -> int {
    match spec_hex_of(s.board@, s.stacks@, queen_of(color)) {
        None => 0,
        Some(q) => {
            let l = liberties(s.board@, q) as int;
            let toward = if to == q || adjacent(q, to) { l } else { 0 };
            let away = match from {
                Some(f) => if adjacent(q, f) { l } else { 0 },
                None => 0,
            };
            if color == Player::Black {
                away - toward
            } else {
                toward - away
            }
        },
    }
}

/// The rollout score of a turn: positive favours Black, negative White;
/// placements and passes score nothing.
pub open spec fn score_spec(s: GameState, t: Turn) -> int {
    match t {
        Turn::Move(p, to) => {
            let from = spec_hex_of(s.board@, s.stacks@, p);
            queen_term(s, Player::Black, from, to) + queen_term(s, Player::White, from, to)
        },
        _ => 0,
    }
}

/// Every move in `actions` goes to a bounded hex.
pub open spec fn bounded_targets(actions: Seq<Turn>) -> bool {
    forall|i: int| 0 <= i < actions.len() ==> match #[trigger] actions[i] {
        Turn::Move(_, to) => to.bounded(),
        Turn::Place(_, to) => to.bounded(),
        Turn::Pass => true,
    }
}

/// `i` is the first of `actions` with the best score for the side to move:
/// the highest for Black, the lowest for White.
pub open spec fn first_best(s: GameState, actions: Seq<Turn>, i: int) -> bool {
    &&& 0 <= i < actions.len()
    &&& forall|j: int|
        0 <= j < actions.len() ==> if s.current_player == Player::Black {
            score_spec(s, #[trigger] actions[j]) <= score_spec(s, actions[i])
        } else {
            score_spec(s, actions[j]) >= score_spec(s, actions[i])
        }
    &&& forall|j: int|
        0 <= j < i ==> score_spec(s, #[trigger] actions[j]) != score_spec(s, actions[i])
}

/// Relies on rand's `SliceRandom::choose` on a thread-local generator: for a
/// slice that is not empty it returns one of its elements.
#[verifier::external_body]
fn choose_random(actions: &Vec<Turn>) -> (r: Turn)
    requires
        actions@.len() > 0,
    ensures
        actions@.contains(r),
{
    *actions.choose(&mut rand::thread_rng()).unwrap()
}

impl GameState {
    /// The number of occupied neighbors of `h`.
    fn count_liberties(&self, h: Hex) -> (r: i64)
        requires
            h.bounded(),
        ensures
            r == liberties(self.board@, h),
            0 <= r <= 6,
    {
        let ns = h.neighbors();
        let mut n: i64 = 0;
        let mut i: usize = 0;
        while i < ns.len()
            invariant
                ns@ == neighbors_of(h),
                i <= ns.len(),
                n == occupied_count(self.board@, h, i as nat),
                0 <= n <= i,
            decreases ns.len() - i,
        {
            if find_hex(&self.board, ns[i]).is_some() {
                n += 1;
            }
            i += 1;
        }
        n
    }

    /// A located hex of a well-formed state lies in play.
    proof fn lemma_located_in_play(&self, p: Piece, h: Hex)
        requires
            self.wf(),
            spec_hex_of(self.board@, self.stacks@, p) == Some(h),
        ensures
            in_play(h),
    {
        if exists|i: int| #[trigger] first_on_board(self.board@, p, i) {
            let i = choose|i: int| #[trigger] first_on_board(self.board@, p, i);
            assert(occupied(self.board@, self.board@[i].0));
        } else {
            let i = choose|i: int| #[trigger] first_in_stacks(self.stacks@, p, i);
            assert(has_stack(self.stacks@, self.stacks@[i].0));
        }
    }

    fn queen_score(&self, color: Player, from: Option<Hex>, to: Hex) -> (r: i64)
        requires
            self.wf(),
            to.bounded(),
            match from {
                Some(f) => f.bounded(),
                None => true,
            },
        ensures
            r == queen_term(*self, color, from, to),
            -12 <= r <= 12,
    {
        let queen = Piece::new(Bug::Queen, color);
        match self.get_hex_for_piece(&queen) {
            None => 0,
            Some(q) => {
                proof {
                    self.lemma_located_in_play(queen, q);
                }
                let l = self.count_liberties(q);
                let toward = if to == q || q.is_adj(to) { l } else { 0 };
                let away = match from {
                    Some(f) => if q.is_adj(f) { l } else { 0 },
                    None => 0,
                };
                if color == Player::Black {
                    away - toward
                } else {
                    toward - away
                }
            },
        }
    }

    /// The rollout score of a turn; see `score_spec`.
    pub fn score_turn(&self, turn: &Turn) -> (r: i64)
        requires
            self.wf(),
            match *turn {
                Turn::Move(_, to) => to.bounded(),
                _ => true,
            },
        ensures
            r == score_spec(*self, *turn),
            -24 <= r <= 24,
    {
        match *turn {
            Turn::Move(p, to) => {
                let from = self.get_hex_for_piece(&p);
                proof {
                    if from is Some {
                        self.lemma_located_in_play(p, from->0);
                    }
                }
                self.queen_score(Player::Black, from, to) + self.queen_score(Player::White, from, to)
            },
            _ => 0,
        }
    }

    /// Picks the rollout action: the first with the best score for the side
    /// to move, or, when every action scores zero, one chosen at random.
    pub fn select_action(&self, actions: &Vec<Turn>) -> (r: Turn)
        requires
            self.wf(),
            actions@.len() > 0,
            bounded_targets(actions@),
        ensures
            actions@.contains(r),
            forall|j: int|
                0 <= j < actions@.len() ==> if self.current_player == Player::Black {
                    score_spec(*self, #[trigger] actions@[j]) <= score_spec(*self, r)
                } else {
                    score_spec(*self, actions@[j]) >= score_spec(*self, r)
                },
            (exists|j: int| 0 <= j < actions@.len() && score_spec(*self, #[trigger] actions@[j]) != 0)
                ==> forall|i: int| #[trigger] first_best(*self, actions@, i) ==> r == actions@[i],
    {
        let black = self.current_player == Player::Black;
        let mut best: usize = 0;
        let mut best_score = self.score_turn(&actions[0]);
        let mut all_zero = best_score == 0;
        let mut i: usize = 1;
        while i < actions.len()
            invariant
                self.wf(),
                bounded_targets(actions@),
                black == (self.current_player == Player::Black),
                1 <= i <= actions.len(),
                best < i,
                best_score == score_spec(*self, actions@[best as int]),
                forall|j: int|
                    0 <= j < i ==> if black {
                        score_spec(*self, #[trigger] actions@[j]) <= best_score
                    } else {
                        score_spec(*self, actions@[j]) >= best_score
                    },
                forall|j: int| 0 <= j < best ==> score_spec(*self, #[trigger] actions@[j]) != best_score,
                all_zero == forall|j: int| 0 <= j < i ==> score_spec(*self, #[trigger] actions@[j]) == 0,
            decreases actions.len() - i,
        {
            let s = self.score_turn(&actions[i]);
            let better = if black { s > best_score } else { s < best_score };
            if better {
                best = i;
                best_score = s;
            }
            if s != 0 {
                all_zero = false;
            }
            i += 1;
        }
        proof {
            assert(first_best(*self, actions@, best as int));
            assert forall|k: int| #[trigger] first_best(*self, actions@, k) implies k == best by {
                if k < best {
                } else if k > best {
                    assert(score_spec(*self, actions@[best as int]) != score_spec(*self, actions@[k]));
                }
            }
            assert(actions@.contains(actions@[best as int]));
        }
        if all_zero {
            let r = choose_random(actions);
            proof {
                let k = choose|k: int| 0 <= k < actions@.len() && actions@[k] == r;
                assert(score_spec(*self, actions@[k]) == 0);
            }
            r
        } else {
            actions[best]
        }
    }
}

/// How many of the board's top pieces belong to `color`.
pub open spec fn count_owned(board: Seq<(Hex, Piece)>, color: Player) -> nat
    decreases board.len(),
{
    if board.len() == 0 {
        0
    } else {
        count_owned(board.drop_last(), color) + if board.last().1.owner == color {
            1nat
        } else {
            0nat
        }
    }
}

impl GameState {
    /// The search's leaf evaluation: Black's top pieces on the board less
    /// White's. Black maximizes it.
    pub fn piece_difference(&self) -> (r: i64)
        requires
            self.board@.len() <= i64::MAX,
        ensures
            r == count_owned(self.board@, Player::Black) as int - count_owned(self.board@, Player::White) as int,
    {
        let mut black: i64 = 0;
        let mut white: i64 = 0;
        let mut i: usize = 0;
        while i < self.board.len()
            invariant
                i <= self.board.len(),
                self.board@.len() <= i64::MAX,
                black == count_owned(self.board@.subrange(0, i as int), Player::Black),
                white == count_owned(self.board@.subrange(0, i as int), Player::White),
                black + white == i,
            decreases self.board.len() - i,
        {
            proof {
                let pre = self.board@.subrange(0, i as int);
                let next = self.board@.subrange(0, i + 1);
                assert(next.drop_last() =~= pre);
            }
            if self.board[i].1.owner == Player::Black {
                black += 1;
            } else {
                white += 1;
            }
            i += 1;
        }
        proof {
            assert(self.board@.subrange(0, self.board@.len() as int) =~= self.board@);
        }
        black - white
    }
}

impl GameState {
    /// For a game that is over, whether `player` won; a draw is no win.
    /// `None` while the game goes on.
    pub fn terminal_value(&self, player: Player) -> (r: Option<bool>)
        ensures
            r == match self.status {
                crate::game_state::GameStatus::Win(w) => Some(w == player),
                crate::game_state::GameStatus::Draw => Some(false),
                _ => None::<bool>,
            },
    {
        match self.status {
            crate::game_state::GameStatus::Win(winner) => Some(winner == player),
            crate::game_state::GameStatus::Draw => Some(false),
            _ => None,
        }
    }
}

} // verus!
