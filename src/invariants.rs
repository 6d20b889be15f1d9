use vstd::prelude::*;
use crate::hex::{Hex, adjacent, contiguous, neighbors_of, offset, pathfind_result, lemma_neighbors_adjacent};
use crate::piece::{Bug, Piece, Player};
use crate::game_state::{
    GameState, GameType, Turn, TurnError, in_play, keys, lemma_keys_occupied, occupied, piece_at,
    stack_at, spec_hex_of,
};
use crate::moves::{
    hive_holds_without, is_throw, just_moved_to, kind_dest, legal_turn,
    lemma_legal_applicable, lemma_path_end_walkable, lemma_unit_projection, movable, on_hive,
    open_set, other_than, own_dest, piece_turn, pickup_seq, pickup_set, proj, ray, submit_result,
};

verus! {

broadcast use vstd::seq_lib::lemma_seq_contains_after_push, vstd::seq_lib::group_to_multiset_ensures;

/// The pieces of the game are exactly those it was dealt.
pub open spec fn pieces_as_dealt(s: GameState) -> bool {
    crate::game_state::all_pieces(s) == crate::game_state::initial_pieces(s.game_type).to_multiset()
}

proof fn lemma_side_no_duplicates(owner: Player, g: GameType)
    ensures
        crate::game_state::side_pieces(owner, g).no_duplicates(),
        forall|i: int|
            0 <= i < crate::game_state::side_pieces(owner, g).len() ==> (
            #[trigger] crate::game_state::side_pieces(owner, g)[i]).owner == owner,
{
    let sp = crate::game_state::side_pieces(owner, g);
    assert forall|i: int, j: int| 0 <= i < sp.len() && 0 <= j < sp.len() && i != j implies sp[i] != sp[j] by {
        if i < 11 && j < 11 {
        } else if i < 11 || j < 11 {
        } else {
        }
    }
}

/// Each piece of a new game is dealt once.
pub proof fn lemma_initial_once(g: GameType)
    ensures
        forall|q: Piece| #[trigger] crate::game_state::initial_pieces(g).to_multiset().count(q) <= 1,
{
    let w = crate::game_state::side_pieces(Player::White, g);
    let b = crate::game_state::side_pieces(Player::Black, g);
    lemma_side_no_duplicates(Player::White, g);
    lemma_side_no_duplicates(Player::Black, g);
    let all = crate::game_state::initial_pieces(g);
    assert forall|i: int, j: int| 0 <= i < all.len() && 0 <= j < all.len() && i != j implies all[i] != all[j] by {
        if i < w.len() && j < w.len() {
            assert(all[i] == w[i] && all[j] == w[j]);
        } else if i >= w.len() && j >= w.len() {
            assert(all[i] == b[i - w.len()] && all[j] == b[j - w.len()]);
        } else if i < w.len() {
            assert(all[i] == w[i] && all[j] == b[j - w.len()]);
            assert(w[i].owner == Player::White && b[j - w.len()].owner == Player::Black);
        } else {
            assert(all[j] == w[j] && all[i] == b[i - w.len()]);
            assert(w[j].owner == Player::White && b[i - w.len()].owner == Player::Black);
        }
    }
    all.lemma_multiset_has_no_duplicates();
    assert forall|q: Piece| #[trigger] all.to_multiset().count(q) <= 1 by {
        if all.to_multiset().contains(q) {
        }
    }
}

/// A new game holds each of its pieces once, all in reserve, and its empty
/// board trivially keeps the One Hive rule.
pub proof fn law_new_game_deals_each_piece_once(g: GameState)
    requires
        g.unplayed_pieces@ == crate::game_state::initial_pieces(g.game_type),
        g.board@.len() == 0,
        g.stacks@.len() == 0,
    ensures
        pieces_as_dealt(g),
        hive_ok(g),
        forall|q: Piece| #[trigger] crate::game_state::all_pieces(g).count(q) <= 1,
{
    lemma_initial_once(g.game_type);
    assert(g.board@.map_values(|e: (Hex, Piece)| e.1) =~= Seq::<Piece>::empty());
    assert(crate::game_state::all_pieces(g) =~= crate::game_state::initial_pieces(g.game_type).to_multiset());
}

/// Every accepted turn keeps the pieces as they were dealt: each piece stays
/// exactly once across the reserve, the board and the stacks.
pub proof fn law_turns_keep_each_piece_once(s: GameState, t: GameState, turn: Turn, r: Result<(), TurnError>)
    requires
        s.wf(),
        pieces_as_dealt(s),
        submit_result(s, t, turn, r),
    ensures
        pieces_as_dealt(t),
        forall|q: Piece| #[trigger] crate::game_state::all_pieces(t).count(q) <= 1,
{
    lemma_initial_once(s.game_type);
    if r is Ok {
        match turn {
            Turn::Place(p, h) => {
                let all = crate::game_state::all_pieces(s);
                let u = s.unplayed_pieces@.to_multiset();
                assert(all.count(p) >= u.count(p));
                lemma_legal_applicable(s, turn);
                assert(s.unplayed_pieces@.contains(p));
                assert(u.count(p) > 0);
                assert(crate::game_state::all_pieces(t) =~= all);
            },
            _ => {},
        }
    }
}

/// The board is one group (or empty): the One Hive rule.
pub open spec fn hive_ok(s: GameState) -> bool {
    s.board@.len() == 0 || contiguous(keys(s.board@))
}

/// `d` lies next to, or on, a hex of `set`.
pub open spec fn near(set: Set<Hex>, d: Hex) -> bool {
    exists|x: Hex| set.contains(x) && (adjacent(x, d) || x == d)
}

proof fn lemma_open_near(p: Seq<Hex>, d: Hex)
    requires
        open_set(p).contains(d),
    ensures
        near(p.to_set(), d),
{
    let i = choose|i: int| 0 <= i < p.len() && #[trigger] adjacent(p[i], d);
    assert(p.contains(p[i]));
    assert(p.to_set().contains(p[i]));
}

/// The projection of `ray(start, d, j)` on a unit direction grows by two a
/// step while the ray stays in play.
proof fn lemma_ray_moves_away(s: GameState, start: Hex, dx: int, dy: int, dz: int, j: nat)
    requires
        s.wf(),
        in_play(start),
        crate::hex::is_unit_step(dx, dy, dz),
        forall|i: nat| 1 <= i <= j ==> occupied(s.board@, #[trigger] ray(start, dx, dy, dz, i)),
    ensures
        proj(ray(start, dx, dy, dz, j), dx, dy, dz) == proj(start, dx, dy, dz) + 2 * j,
    decreases j,
{
    if j > 0 {
        lemma_ray_moves_away(s, start, dx, dy, dz, (j - 1) as nat);
        let a = ray(start, dx, dy, dz, (j - 1) as nat);
        let b = ray(start, dx, dy, dz, j);
        assert(occupied(s.board@, b));
        assert(in_play(b));
        if j > 1 {
            assert(occupied(s.board@, a));
        }
        assert(in_play(a));
        assert(b == offset(a, dx, dy, dz));
        lemma_unit_projection(a, b, dx, dy, dz);
    }
}

/// A hex a piece of another kind than a mosquito may reach by its own
/// movement lies next to, or on, the hive it leaves behind.
proof fn lemma_kind_dest_near(s: GameState, start: Hex, bug: Bug, d: Hex)
    requires
        s.wf(),
        occupied(s.board@, start),
        kind_dest(s, start, bug, d),
    ensures
        near(pickup_set(s, start), d),
{
    let ps = pickup_seq(s, start);
    let p = pickup_set(s, start);
    let w = open_set(ps);
    assert(in_play(start));
    match bug {
        Bug::Ant => {
            let v = w.insert(start);
            assert forall|a: Hex, b: Hex| #[trigger] v.contains(a) && #[trigger] crate::hex::step_ok(a, b, w, p)
                implies v.contains(b) by {}
            assert(crate::hex::closed_under_steps(v, w, p));
            assert(v.contains(d));
            lemma_open_near(ps, d);
        },
        Bug::Queen | Bug::Pillbug => {
            lemma_path_end_walkable(start, d, 1, w, p);
            lemma_open_near(ps, d);
        },
        Bug::Spider => {
            lemma_path_end_walkable(start, d, 3, w, p);
            lemma_open_near(ps, d);
        },
        Bug::Beetle => {
            let b = if on_hive(s, start) { Set::<Hex>::empty() } else { p };
            if pathfind_result(start, d, w, b, Some(1)) {
                lemma_path_end_walkable(start, d, 1, w, b);
                lemma_open_near(ps, d);
            } else {
                lemma_path_end_walkable(start, d, 1, p, Set::empty());
            }
        },
        Bug::Grasshopper => {
            let (i, k) = choose|i: int, k: nat|
                #![trigger neighbors_of(start)[i], ray(start, neighbors_of(start)[i].x - start.x, neighbors_of(start)[i].y - start.y, neighbors_of(start)[i].z - start.z, k)]
                0 <= i < 6 && k >= 2 && ({
                    let n = neighbors_of(start)[i];
                    let (dx, dy, dz) = (n.x - start.x, n.y - start.y, n.z - start.z);
                    &&& d == ray(start, dx, dy, dz, k)
                    &&& !occupied(s.board@, d)
                    &&& forall|j: nat| 1 <= j < k ==> occupied(s.board@, #[trigger] ray(start, dx, dy, dz, j))
                });
            let n = neighbors_of(start)[i];
            let (dx, dy, dz) = (n.x - start.x, n.y - start.y, n.z - start.z);
            lemma_neighbors_adjacent(start);
            assert(adjacent(start, n));
            let last = ray(start, dx, dy, dz, (k - 1) as nat);
            lemma_ray_moves_away(s, start, dx, dy, dz, (k - 1) as nat);
            assert(last != start);
            assert(occupied(s.board@, last));
            assert(in_play(last));
            assert(d == offset(last, dx, dy, dz));
            assert(adjacent(last, d));
            lemma_keys_occupied(s.board@);
            assert(keys(s.board@).contains(last));
            let ks = keys(s.board@);
            let j = choose|j: int| 0 <= j < ks.len() && ks[j] == last;
            ks.lemma_filter_contains(other_than(start), j);
            let f = ks.filter(other_than(start));
            assert(f.contains(last));
            let k2 = choose|k2: int| 0 <= k2 < f.len() && f[k2] == last;
            assert(ps[k2] == f[k2]);
            assert(ps.contains(last));
            assert(p.contains(last));
        },
        Bug::Ladybug => {
            let m = choose|m: Hex|
                #[trigger] pathfind_result(start, m, p, Set::empty(), Some(2)) && adjacent(m, d)
                    && !occupied(s.board@, d);
            lemma_path_end_walkable(start, m, 2, p, Set::empty());
        },
        Bug::Mosquito => {},
    }
}

/// The occupied hexes once the piece at `from` is lifted, as a set.
pub open spec fn lifted_set(s: GameState, from: Hex) -> Set<Hex> {
    Set::new(|x: Hex| (x != from && occupied(s.board@, x)) || (x == from && on_hive(s, from)))
}

/// In a game whose pieces are as dealt, no piece is on top of two hexes.
proof fn lemma_board_unique(s: GameState)
    requires
        pieces_as_dealt(s),
    ensures
        forall|i: int, j: int|
            0 <= i < s.board@.len() && 0 <= j < s.board@.len() && (#[trigger] s.board@[i]).1 == (
            #[trigger] s.board@[j]).1 ==> i == j,
{
    lemma_initial_once(s.game_type);
    let m = s.board@.map_values(|e: (Hex, Piece)| e.1);
    assert forall|i: int, j: int|
        0 <= i < s.board@.len() && 0 <= j < s.board@.len() && (#[trigger] s.board@[i]).1 == (
        #[trigger] s.board@[j]).1 implies i == j by {
        if i != j {
            let x = m[i];
            assert(m[j] == x);
            let r = m.remove(i);
            let jj = if j < i { j } else { j - 1 };
            assert(r[jj] == x);
            assert(r.contains(x));
            assert(r.to_multiset().count(x) > 0);
            assert(m.to_multiset().count(x) >= 2);
            assert(crate::game_state::all_pieces(s).count(x) >= 2);
        }
    }
}

proof fn lemma_located(s: GameState, i: int)
    requires
        pieces_as_dealt(s),
        0 <= i < s.board@.len(),
    ensures
        spec_hex_of(s.board@, s.stacks@, s.board@[i].1) == Some(s.board@[i].0),
{
    lemma_board_unique(s);
    let p = s.board@[i].1;
    assert(crate::game_state::first_on_board(s.board@, p, i));
    assert forall|j: int| #[trigger] crate::game_state::first_on_board(s.board@, p, j) implies j == i by {}
}

proof fn lemma_pickup_is_lifted(s: GameState, start: Hex)
    ensures
        pickup_set(s, start) == lifted_set(s, start),
{
    let ks = keys(s.board@);
    let f = ks.filter(other_than(start));
    lemma_keys_occupied(s.board@);
    assert forall|x: Hex| pickup_set(s, start).contains(x) <==> lifted_set(s, start).contains(x) by {
        let ps = pickup_seq(s, start);
        if ps.contains(x) {
            let k = choose|k: int| 0 <= k < ps.len() && ps[k] == x;
            if k < f.len() {
                assert(f.contains(x));
                ks.lemma_filter_contains_rev(other_than(start), x);
                f.filter_lemma(other_than(start));
                assert(f[k] == x);
            }
        }
        if lifted_set(s, start).contains(x) {
            if x != start {
                assert(ks.contains(x));
                let j = choose|j: int| 0 <= j < ks.len() && ks[j] == x;
                ks.lemma_filter_contains(other_than(start), j);
                let k = choose|k: int| 0 <= k < f.len() && f[k] == x;
                assert(ps[k] == x);
            } else {
                assert(ps[f.len() as int] == x);
            }
        }
    }
    assert(pickup_set(s, start) =~= lifted_set(s, start));
}

/// The hexes occupied after a move: those left once the piece is lifted,
/// and its destination.
proof fn lemma_keys_after_move(s: GameState, t: GameState, p: Piece, d: Hex, from: Hex)
    requires
        crate::game_state::pieces_after(s, t, Turn::Move(p, d)),
        spec_hex_of(s.board@, s.stacks@, p) == Some(from),
    ensures
        keys(t.board@).to_set() == lifted_set(s, from).insert(d),
{
    lemma_keys_occupied(t.board@);
    lemma_keys_occupied(s.board@);
    assert forall|x: Hex| keys(t.board@).to_set().contains(x) <==> lifted_set(s, from).insert(d).contains(x) by {
        assert(occupied(t.board@, x) <==> piece_at(t.board@, x) is Some);
        assert(occupied(s.board@, x) <==> piece_at(s.board@, x) is Some);
    }
    assert(keys(t.board@).to_set() =~= lifted_set(s, from).insert(d));
}

/// What a legal move does to the hive: the piece is on the board, it is
/// lifted from where it is found, the hexes left stay one group, and its
/// destination lies next to, or on, one of them.
proof fn lemma_move_facts(s: GameState, turn: Turn)
    requires
        s.wf(),
        hive_ok(s),
        pieces_as_dealt(s),
        turn is Move,
        legal_turn(s, turn),
    ensures
        ({
            let p = turn->Move_0;
            let d = turn->Move_1;
            let from = spec_hex_of(s.board@, s.stacks@, p)->0;
            &&& crate::notation::on_board(s.board@, p)
            &&& spec_hex_of(s.board@, s.stacks@, p) is Some
            &&& occupied(s.board@, from)
            &&& crate::hex::connected(lifted_set(s, from))
            &&& near(lifted_set(s, from), d)
        }),
{
    lemma_keys_occupied(s.board@);
    let ks = keys(s.board@);
    let p = turn->Move_0;
    let d = turn->Move_1;
    let i = choose|i: int|
        0 <= i < s.board@.len() && movable(s, i) && #[trigger] piece_turn(s, s.board@[i].1, s.board@[i].0, turn);
    let start = s.board@[i].0;
    let piece = s.board@[i].1;
    assert(occupied(s.board@, start));
    assert(s.board@.len() > 0);
    if (!on_hive(s, start) && !contiguous(pickup_seq(s, start))) || !(exists|dd: Hex|
        turn == Turn::Move(piece, dd) && in_play(dd) && #[trigger] own_dest(s, piece, start, dd)) {
        assert(is_throw(s, start, turn));
        let (a, b) = choose|a: int, b: int|
            #![trigger neighbors_of(start)[a], neighbors_of(start)[b]]
            0 <= a < 6 && 0 <= b < 6 && ({
                let n = neighbors_of(start)[a];
                let d = neighbors_of(start)[b];
                &&& occupied(s.board@, n)
                &&& !just_moved_to(s, n)
                &&& stack_at(s.stacks@, n).len() == 0
                &&& hive_holds_without(s, n)
                &&& !occupied(s.board@, d)
                &&& in_play(d)
                &&& turn == Turn::Move(piece_at(s.board@, n)->0, d)
            });
        let n = neighbors_of(start)[a];
        lemma_neighbors_adjacent(start);
        assert(adjacent(start, n) && adjacent(start, d));
        let k = choose|k: int| 0 <= k < s.board@.len() && (#[trigger] s.board@[k]).0 == n;
        crate::game_state::lemma_piece_at(s.board@, k);
        lemma_located(s, k);
        lemma_pickup_is_lifted(s, n);
        let f = ks.filter(other_than(n));
        assert(hive_holds_without(s, n));
        crate::hex::lemma_contiguous_connected(f);
        assert(pickup_seq(s, n) =~= f);
        assert(f.to_set() == lifted_set(s, n));
        assert(start != n);
        assert(lifted_set(s, n).contains(start));
        assert(s.board@[k].1 == piece_at(s.board@, n)->0);
    } else {
        let dd = choose|dd: Hex|
            turn == Turn::Move(piece, dd) && in_play(dd) && #[trigger] own_dest(s, piece, start, dd);
        assert(dd == d && p == piece);
        lemma_located(s, i);
        lemma_pickup_is_lifted(s, start);
        if on_hive(s, start) {
            crate::hex::lemma_contiguous_connected(ks);
            assert(lifted_set(s, start) =~= ks.to_set());
        } else {
            crate::hex::lemma_contiguous_connected(pickup_seq(s, start));
        }
        if piece.bug == Bug::Mosquito {
            if on_hive(s, start) {
                lemma_kind_dest_near(s, start, Bug::Beetle, d);
            } else {
                let k = choose|k: int|
                    0 <= k < 6 && occupied(s.board@, #[trigger] neighbors_of(start)[k]) && piece_at(
                        s.board@,
                        neighbors_of(start)[k],
                    )->0.bug != Bug::Mosquito && kind_dest(
                        s,
                        start,
                        piece_at(s.board@, neighbors_of(start)[k])->0.bug,
                        d,
                    );
                lemma_kind_dest_near(s, start, piece_at(s.board@, neighbors_of(start)[k])->0.bug, d);
            }
        } else {
            lemma_kind_dest_near(s, start, piece.bug, d);
        }
        assert(s.board@[i].1 == piece);
    }
}

/// A single hex is connected.
proof fn lemma_single_connected(h: Hex)
    ensures
        crate::hex::connected(Set::empty().insert(h)),
{
    let s = Set::<Hex>::empty().insert(h);
    assert forall|y: Hex, v: Set<Hex>|
        #![trigger s.contains(y), crate::hex::closed_under_adjacency(v, s)]
        s.contains(y) && v.contains(y) && crate::hex::closed_under_adjacency(v, s) implies s.subset_of(v) by {
        assert(y == h);
    }
}

/// Every accepted turn keeps the board one group: the One Hive rule holds
/// in every state a game can reach.
pub proof fn law_hive_stays_connected(s: GameState, t: GameState, turn: Turn, r: Result<(), TurnError>)
    requires
        s.wf(),
        hive_ok(s),
        pieces_as_dealt(s),
        submit_result(s, t, turn, r),
    ensures
        hive_ok(t),
{
    if r is Err {
        return;
    }
    lemma_keys_occupied(s.board@);
    lemma_keys_occupied(t.board@);
    let ks = keys(s.board@);
    match turn {
        Turn::Pass => {},
        Turn::Place(p, h) => {
            assert(keys(t.board@).to_set() =~= ks.to_set().insert(h)) by {
                assert forall|x: Hex| keys(t.board@).to_set().contains(x) <==> ks.to_set().insert(h).contains(x) by {
                    assert(occupied(t.board@, x) <==> piece_at(t.board@, x) is Some);
                    assert(occupied(s.board@, x) <==> piece_at(s.board@, x) is Some);
                }
            }
            if s.status is NotStarted {
                assert(ks.to_set() =~= Set::<Hex>::empty());
                lemma_single_connected(h);
            } else {
                let i = choose|i: int| 0 <= i < ks.len() && #[trigger] adjacent(ks[i], h);
                assert(s.board@.len() > 0);
                crate::hex::lemma_contiguous_connected(ks);
                assert(ks.contains(ks[i]));
                crate::hex::lemma_connected_insert(ks.to_set(), h, ks[i]);
            }
            assert(keys(t.board@).to_set().contains(h));
            assert(keys(t.board@).contains(h));
            crate::hex::lemma_connected_contiguous(keys(t.board@));
        },
        Turn::Move(p, d) => {
            lemma_move_facts(s, turn);
            let from = spec_hex_of(s.board@, s.stacks@, p)->0;
            lemma_keys_after_move(s, t, p, d, from);
            let x = choose|x: Hex| lifted_set(s, from).contains(x) && (adjacent(x, d) || x == d);
            crate::hex::lemma_connected_insert(lifted_set(s, from), d, x);
            assert(keys(t.board@).to_set().contains(d));
            assert(keys(t.board@).contains(d));
            crate::hex::lemma_connected_contiguous(keys(t.board@));
        },
    }
}

proof fn lemma_side_shape(owner: Player, g: GameType)
    ensures
        forall|i: int|
            0 <= i < crate::game_state::side_pieces(owner, g).len() ==> crate::notation::dealt_shape(
                #[trigger] crate::game_state::side_pieces(owner, g)[i],
            ),
{
}

/// A piece present in a game whose pieces are as dealt has the dealt shape.
proof fn lemma_dealt_shape_of(s: GameState, q: Piece)
    requires
        pieces_as_dealt(s),
        crate::game_state::all_pieces(s).count(q) > 0,
    ensures
        crate::notation::dealt_shape(q),
{
    let all = crate::game_state::initial_pieces(s.game_type);
    assert(all.to_multiset().count(q) > 0);
    assert(all.contains(q));
    let i = choose|i: int| 0 <= i < all.len() && all[i] == q;
    let w = crate::game_state::side_pieces(Player::White, s.game_type);
    let b = crate::game_state::side_pieces(Player::Black, s.game_type);
    lemma_side_shape(Player::White, s.game_type);
    lemma_side_shape(Player::Black, s.game_type);
    if i < w.len() {
        assert(all[i] == w[i]);
    } else {
        assert(all[i] == b[i - w.len()]);
    }
}

proof fn lemma_on_board_count(s: GameState, k: int)
    requires
        0 <= k < s.board@.len(),
    ensures
        crate::game_state::board_pieces(s.board@).count(s.board@[k].1) > 0,
        crate::game_state::all_pieces(s).count(s.board@[k].1) > 0,
{
    let m = s.board@.map_values(|e: (Hex, Piece)| e.1);
    assert(m[k] == s.board@[k].1);
    assert(m.contains(m[k]));
}

proof fn lemma_board_readable(s: GameState)
    requires
        s.wf(),
        pieces_as_dealt(s),
    ensures
        crate::notation::board_readable(s.board@, s.stacks@),
{
    assert forall|i: int| 0 <= i < s.board@.len() implies spec_hex_of(s.board@, s.stacks@, (#[trigger] s.board@[i]).1)
        == Some(s.board@[i].0) && crate::notation::dealt_shape(s.board@[i].1) by {
        lemma_located(s, i);
        lemma_on_board_count(s, i);
        lemma_dealt_shape_of(s, s.board@[i].1);
    }
}

/// Some neighbor of `h` is occupied, so a first one is.
proof fn lemma_first_neighbor(board: Seq<(Hex, Piece)>, h: Hex, j: int)
    requires
        0 <= j < 6,
        occupied(board, neighbors_of(h)[j]),
    ensures
        exists|i: int| crate::notation::first_occupied_neighbor(board, h, i),
{
    let ns = neighbors_of(h);
    if occupied(board, ns[0]) {
        assert(crate::notation::first_occupied_neighbor(board, h, 0));
    } else if occupied(board, ns[1]) {
        assert(crate::notation::first_occupied_neighbor(board, h, 1));
    } else if occupied(board, ns[2]) {
        assert(crate::notation::first_occupied_neighbor(board, h, 2));
    } else if occupied(board, ns[3]) {
        assert(crate::notation::first_occupied_neighbor(board, h, 3));
    } else if occupied(board, ns[4]) {
        assert(crate::notation::first_occupied_neighbor(board, h, 4));
    } else {
        assert(crate::notation::first_occupied_neighbor(board, h, 5));
    }
}

/// A hex next to an occupied hex has an occupied neighbor.
proof fn lemma_next_to_occupied(board: Seq<(Hex, Piece)>, x: Hex, d: Hex)
    requires
        d.bounded(),
        occupied(board, x),
        adjacent(x, d),
    ensures
        exists|i: int| crate::notation::first_occupied_neighbor(board, d, i),
{
    crate::hex::lemma_adjacent_symmetric(x, d);
    lemma_neighbors_adjacent(d);
    assert(neighbors_of(d).contains(x));
    let j = choose|j: int| 0 <= j < 6 && neighbors_of(d)[j] == x;
    lemma_first_neighbor(board, d, j);
}

/// Every turn a game accepts, written in move notation against the board
/// it was played on, reads back as the same turn.
pub proof fn law_formatted_turns_parse_back(s: GameState, t: Turn)
    requires
        s.wf(),
        hive_ok(s),
        pieces_as_dealt(s),
        t == Turn::Pass || legal_turn(s, t),
    ensures
        crate::notation::parse_move(crate::notation::turn_text(t, s.board@), s.board@, s.stacks@) == Some(t),
{
    lemma_initial_once(s.game_type);
    lemma_board_readable(s);
    lemma_keys_occupied(s.board@);
    match t {
        Turn::Pass => {},
        Turn::Place(p, h) => {
            assert(s.unplayed_pieces@.contains(p));
            assert(s.unplayed_pieces@.to_multiset().count(p) > 0);
            lemma_dealt_shape_of(s, p);
            assert(spec_hex_of(s.board@, s.stacks@, p) is None) by {
                if exists|k: int| #[trigger] crate::game_state::first_on_board(s.board@, p, k) {
                    let k = choose|k: int| #[trigger] crate::game_state::first_on_board(s.board@, p, k);
                    lemma_on_board_count(s, k);
                    assert(crate::game_state::all_pieces(s).count(p) >= 2);
                } else if exists|k: int| #[trigger] crate::game_state::first_in_stacks(s.stacks@, p, k) {
                    let k = choose|k: int| #[trigger] crate::game_state::first_in_stacks(s.stacks@, p, k);
                    crate::game_state::lemma_stacked_remove(s.stacks@, k);
                    assert(s.stacks@[k].1@.to_multiset().count(p) > 0);
                    assert(crate::game_state::stacked_pieces(s.stacks@).count(p) > 0);
                    assert(crate::game_state::all_pieces(s).count(p) >= 2);
                }
            }
            if !(s.status is NotStarted) {
                let ks = keys(s.board@);
                let i = choose|i: int| 0 <= i < ks.len() && #[trigger] adjacent(ks[i], h);
                assert(ks.contains(ks[i]));
                lemma_next_to_occupied(s.board@, ks[i], h);
            }
            crate::notation::lemma_dest_text_parses(p, h, s.board@, s.stacks@);
        },
        Turn::Move(p, d) => {
            lemma_move_facts(s, t);
            let from = spec_hex_of(s.board@, s.stacks@, p)->0;
            let k = choose|k: int| 0 <= k < s.board@.len() && (#[trigger] s.board@[k]).1 == p;
            lemma_on_board_count(s, k);
            lemma_dealt_shape_of(s, p);
            let x = choose|x: Hex| lifted_set(s, from).contains(x) && (adjacent(x, d) || x == d);
            assert(lifted_set(s, from).contains(x));
            if x == from {
                assert(occupied(s.board@, from));
            }
            assert(occupied(s.board@, x));
            if x != d {
                assert(adjacent(x, d));
                lemma_next_to_occupied(s.board@, x, d);
            }
            crate::notation::lemma_dest_text_parses(p, d, s.board@, s.stacks@);
        },
    }
}

} // verus!
