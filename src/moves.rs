use vstd::prelude::*;
use crate::hex::{
    Hex, adjacent, all_bounded, contiguous, is_empty_neighbor, neighbors_of,
    offset, pathfind_result, lemma_neighbors_adjacent,
};
use crate::piece::{Bug, Piece, Player};
use crate::game_state::{
    GameState, GameStatus, Turn, TurnError, board_keys, find_hex, in_play, keys, lemma_keys_occupied,
    occupied, piece_at, stack_at, find_stack, lemma_piece_at, lemma_stack_at, lemma_no_stack, spec_hex_of,
};

verus! {

broadcast use vstd::seq_lib::lemma_seq_contains_after_push, vstd::seq_lib::group_to_multiset_ensures;

pub open spec fn other_than(h: Hex) -> spec_fn(Hex) -> bool {
    |x: Hex| x != h
}

/// The piece at `start` sits on top of a stack.
pub open spec fn on_hive(s: GameState, start: Hex) -> bool {
    stack_at(s.stacks@, start).len() > 0
}

/// The occupied hexes once the piece at `start` is picked up, in board order:
/// `start` stays occupied when the piece was on top of a stack.
pub open spec fn pickup_seq(s: GameState, start: Hex) -> Seq<Hex> {
    keys(s.board@).filter(other_than(start)) + if on_hive(s, start) {
        seq![start]
    } else {
        Seq::empty()
    }
}

pub open spec fn pickup_set(s: GameState, start: Hex) -> Set<Hex> {
    pickup_seq(s, start).to_set()
}

/// The empty hexes next to a group of occupied hexes.
pub open spec fn open_set(occupied_hexes: Seq<Hex>) -> Set<Hex> {
    Set::new(|n: Hex| is_empty_neighbor(occupied_hexes, n))
}

/// The last turn moved a piece onto `h`.
pub open spec fn just_moved_to(s: GameState, h: Hex) -> bool {
    s.turns@.len() > 0 && match s.turns@.last() {
        Turn::Move(_, to) => to == h,
        _ => false,
    }
}

/// The last turn moved `p`.
pub open spec fn just_moved(s: GameState, p: Piece) -> bool {
    s.turns@.len() > 0 && match s.turns@.last() {
        Turn::Move(q, _) => q == p,
        _ => false,
    }
}

/// The hex `k` steps from `start` in the direction `(dx, dy, dz)`.
pub open spec fn ray(start: Hex, dx: int, dy: int, dz: int, k: nat) -> Hex
    decreases k,
{
    if k == 0 {
        start
    } else {
        offset(ray(start, dx, dy, dz, (k - 1) as nat), dx, dy, dz)
    }
}

/// A grasshopper at `start` lands on `d`: it jumps in a straight line over
/// one or more pieces and lands on the first empty hex.
pub open spec fn hop_dest(s: GameState, start: Hex, d: Hex) -> bool {
    exists|i: int, k: nat|
        #![trigger neighbors_of(start)[i], ray(start, neighbors_of(start)[i].x - start.x, neighbors_of(start)[i].y - start.y, neighbors_of(start)[i].z - start.z, k)]
        0 <= i < 6 && k >= 2 && ({
            let n = neighbors_of(start)[i];
            let (dx, dy, dz) = (n.x - start.x, n.y - start.y, n.z - start.z);
            &&& d == ray(start, dx, dy, dz, k)
            &&& !occupied(s.board@, d)
            &&& forall|j: nat| 1 <= j < k ==> occupied(s.board@, #[trigger] ray(start, dx, dy, dz, j))
        })
}

/// Where a piece of kind `bug` standing at `start` may go by its own movement.
pub open spec fn kind_dest(s: GameState, start: Hex, bug: Bug, d: Hex) -> bool {
    let p = pickup_set(s, start);
    let w = open_set(pickup_seq(s, start));
    match bug {
        Bug::Queen => pathfind_result(start, d, w, p, Some(1)),
        Bug::Pillbug => pathfind_result(start, d, w, p, Some(1)),
        Bug::Spider => pathfind_result(start, d, w, p, Some(3)),
        Bug::Ant => pathfind_result(start, d, w, p, None),
        Bug::Beetle => pathfind_result(
            start,
            d,
            w,
            if on_hive(s, start) {
                Set::empty()
            } else {
                p
            },
            Some(1),
        ) || pathfind_result(start, d, p, Set::empty(), Some(1)),
        Bug::Grasshopper => hop_dest(s, start, d),
        Bug::Ladybug => exists|m: Hex|
            #[trigger] pathfind_result(start, m, p, Set::empty(), Some(2)) && adjacent(m, d)
                && !occupied(s.board@, d),
        Bug::Mosquito => false,
    }
}

/// Where a mosquito at `start` may go: as a beetle while on the hive, else as
/// any kind it touches other than a mosquito.
pub open spec fn mosquito_dest(s: GameState, start: Hex, d: Hex) -> bool {
    if on_hive(s, start) {
        kind_dest(s, start, Bug::Beetle, d)
    } else {
        exists|i: int|
            0 <= i < 6 && occupied(s.board@, #[trigger] neighbors_of(start)[i]) && piece_at(
                s.board@,
                neighbors_of(start)[i],
            )->0.bug != Bug::Mosquito && kind_dest(
                s,
                start,
                piece_at(s.board@, neighbors_of(start)[i])->0.bug,
                d,
            )
    }
}

/// A pillbug touches `start`.
pub open spec fn touches_pillbug(s: GameState, start: Hex) -> bool {
    exists|i: int|
        0 <= i < 6 && occupied(s.board@, #[trigger] neighbors_of(start)[i]) && piece_at(
            s.board@,
            neighbors_of(start)[i],
        )->0.bug == Bug::Pillbug
}

/// The board stays one group once the piece at `h` is taken away.
pub open spec fn hive_holds_without(s: GameState, h: Hex) -> bool {
    contiguous(keys(s.board@).filter(other_than(h)))
}

/// A pillbug's throw from `h`: a neighbor that did not just move, carries no
/// stack and can leave without splitting the hive is put down on an empty
/// neighbor of `h`.
pub open spec fn is_throw(s: GameState, h: Hex, t: Turn) -> bool {
    exists|a: int, b: int|
        #![trigger neighbors_of(h)[a], neighbors_of(h)[b]]
        0 <= a < 6 && 0 <= b < 6 && ({
            let n = neighbors_of(h)[a];
            let d = neighbors_of(h)[b];
            &&& occupied(s.board@, n)
            &&& !just_moved_to(s, n)
            &&& stack_at(s.stacks@, n).len() == 0
            &&& hive_holds_without(s, n)
            &&& !occupied(s.board@, d)
            &&& in_play(d)
            &&& t == Turn::Move(piece_at(s.board@, n)->0, d)
        })
}

/// The turns that move the piece `p` standing at `start`, or that it throws.
pub open spec fn piece_turn(s: GameState, p: Piece, start: Hex, t: Turn) -> bool {
    let throws = p.bug == Bug::Pillbug || (p.bug == Bug::Mosquito && !on_hive(s, start)
        && touches_pillbug(s, start));
    if !on_hive(s, start) && !contiguous(pickup_seq(s, start)) {
        throws && is_throw(s, start, t)
    } else {
        (exists|d: Hex|
            t == Turn::Move(p, d) && in_play(d) && #[trigger] own_dest(s, p, start, d)) || (throws
            && is_throw(s, start, t))
    }
}

pub open spec fn own_dest(s: GameState, p: Piece, start: Hex, d: Hex) -> bool {
    if p.bug == Bug::Mosquito {
        mosquito_dest(s, start, d)
    } else {
        kind_dest(s, start, p.bug, d)
    }
}

/// Appends a move of `piece` to each hex of `dests` that lies in play.
pub fn push_moves(out: &mut Vec<Turn>, piece: Piece, dests: &Vec<Hex>)
    ensures
        forall|t: Turn|
            #[trigger] final(out)@.contains(t) <==> (old(out)@.contains(t) || exists|d: Hex|
                dests@.contains(d) && in_play(d) && t == Turn::Move(piece, d)),
{
    let mut i: usize = 0;
    while i < dests.len()
        invariant
            i <= dests.len(),
            forall|t: Turn|
                #[trigger] out@.contains(t) <==> (old(out)@.contains(t) || exists|k: int|
                    0 <= k < i && in_play(dests@[k]) && t == Turn::Move(piece, dests@[k])),
        decreases dests.len() - i,
    {
        let d = dests[i];
        if -crate::game_state::PLAY_LIMIT <= d.x && d.x <= crate::game_state::PLAY_LIMIT && -crate::game_state::PLAY_LIMIT <= d.y
            && d.y <= crate::game_state::PLAY_LIMIT && -crate::game_state::PLAY_LIMIT <= d.z && d.z <= crate::game_state::PLAY_LIMIT {
            out.push(Turn::Move(piece, d));
        }
        proof {
            assert forall|t: Turn|
                #[trigger] out@.contains(t) <==> (old(out)@.contains(t) || exists|k: int|
                    0 <= k < i + 1 && in_play(dests@[k]) && t == Turn::Move(piece, dests@[k])) by {
                if exists|k: int| 0 <= k < i + 1 && in_play(dests@[k]) && t == Turn::Move(piece, dests@[k]) {
                    let k = choose|k: int| 0 <= k < i + 1 && in_play(dests@[k]) && t == Turn::Move(piece, dests@[k]);
                    if k < i {
                        assert(exists|k2: int| 0 <= k2 < i && in_play(dests@[k2]) && t == Turn::Move(piece, dests@[k2]));
                    }
                }
            }
        }
        i += 1;
    }
    proof {
        assert forall|t: Turn|
            #[trigger] out@.contains(t) <==> (old(out)@.contains(t) || exists|d: Hex|
                dests@.contains(d) && in_play(d) && t == Turn::Move(piece, d)) by {
            if exists|d: Hex| dests@.contains(d) && in_play(d) && t == Turn::Move(piece, d) {
                let d = choose|d: Hex| dests@.contains(d) && in_play(d) && t == Turn::Move(piece, d);
                let k = choose|k: int| 0 <= k < dests@.len() && dests@[k] == d;
                assert(exists|k2: int| 0 <= k2 < i && in_play(dests@[k2]) && t == Turn::Move(piece, dests@[k2]));
            }
        }
    }
}

impl GameState {
    /// The occupied hexes once the piece at `start` is picked up.
    fn pickup(&self, start: Hex) -> (r: Vec<Hex>)
        requires
            self.wf(),
        ensures
            r@ == pickup_seq(*self, start),
            all_bounded(r@),
            forall|x: Hex| #[trigger] r@.contains(x) ==> in_play(x),
    {
        let ks = board_keys(&self.board);
        let mut r: Vec<Hex> = Vec::new();
        let mut i: usize = 0;
        while i < ks.len()
            invariant
                ks@ == keys(self.board@),
                i <= ks.len(),
                r@ == ks@.subrange(0, i as int).filter(other_than(start)),
            decreases ks.len() - i,
        {
            proof {
                assert(ks@.subrange(0, i + 1) =~= ks@.subrange(0, i as int).push(ks@[i as int]));
                ks@.subrange(0, i as int).lemma_filter_push(ks@[i as int], other_than(start));
            }
            if ks[i] != start {
                r.push(ks[i]);
            }
            i += 1;
        }
        proof {
            assert(ks@.subrange(0, ks@.len() as int) =~= ks@);
        }
        let ghost filtered = r@;
        let on = match find_stack(&self.stacks, start) {
            Some(k) => {
                proof {
                    lemma_stack_at(self.stacks@, k as int);
                }
                self.stacks[k].1.len() > 0
            },
            None => {
                proof {
                    lemma_no_stack(self.stacks@, start);
                }
                false
            },
        };
        if on {
            r.push(start);
        }
        proof {
            assert(r@ =~= pickup_seq(*self, start));
            lemma_keys_occupied(self.board@);
            assert forall|x: Hex| #[trigger] r@.contains(x) implies in_play(x) by {
                if filtered.contains(x) {
                    keys(self.board@).lemma_filter_contains_rev(other_than(start), x);
                    assert(occupied(self.board@, x));
                } else {
                    assert(x == start && on_hive(*self, start));
                    assert(crate::game_state::has_stack(self.stacks@, start));
                }
            }
            assert forall|i: int| 0 <= i < r@.len() implies (#[trigger] r@[i]).bounded() by {
                assert(r@.contains(r@[i]));
            }
        }
        r
    }
}

/// Appends the hexes of `b` to `a`.
fn append_hexes(a: &mut Vec<Hex>, b: &Vec<Hex>)
    ensures
        forall|h: Hex| #[trigger] final(a)@.contains(h) <==> (old(a)@.contains(h) || b@.contains(h)),
{
    let mut i: usize = 0;
    while i < b.len()
        invariant
            i <= b.len(),
            forall|h: Hex| #[trigger] a@.contains(h) <==> (old(a)@.contains(h) || b@.subrange(0, i as int).contains(h)),
        decreases b.len() - i,
    {
        proof {
            assert(b@.subrange(0, i + 1) =~= b@.subrange(0, i as int).push(b@[i as int]));
        }
        a.push(b[i]);
        i += 1;
    }
    proof {
        assert(b@.subrange(0, b@.len() as int) =~= b@);
    }
}

/// The position of `h` along the direction `(dx, dy, dz)`, for unit steps.
pub open spec fn proj(h: Hex, dx: int, dy: int, dz: int) -> int {
    (if dx == 1 { h.x as int } else if dx == -1 { -h.x } else { 0 }) + (if dy == 1 {
        h.y as int
    } else if dy == -1 {
        -h.y
    } else {
        0
    }) + (if dz == 1 { h.z as int } else if dz == -1 { -h.z } else { 0 })
}

/// Moving one unit step along a direction raises the projection onto it by
/// two, and a hex in play projects to at most twice the playing limit.
pub(crate) proof fn lemma_unit_projection(a: Hex, b: Hex, dx: int, dy: int, dz: int)
    requires
        crate::hex::is_unit_step(dx, dy, dz),
        b.x == a.x + dx && b.y == a.y + dy && b.z == a.z + dz,
        in_play(b),
    ensures
        proj(b, dx, dy, dz) == proj(a, dx, dy, dz) + 2,
        proj(b, dx, dy, dz) <= 2 * crate::game_state::PLAY_LIMIT,
{
}

/// The end of a simple path lies in the walkable set.
pub(crate) proof fn lemma_path_end_walkable(start: Hex, m: Hex, k: nat, w: Set<Hex>, b: Set<Hex>)
    requires
        k >= 1,
        crate::hex::reachable_in(start, m, k, w, b),
    ensures
        w.contains(m),
{
    let q = choose|q: Seq<Hex>|
        #![trigger crate::hex::is_simple_path(q, w, b), q.last()]
        q.len() == k + 1 && q[0] == start && q.last() == m && crate::hex::is_simple_path(q, w, b);
    let i = k - 1;
    assert(crate::hex::step_ok(q[i], q[i + 1], w, b));
}

impl GameState {
    /// Where a grasshopper at `start` may jump.
    fn hop_dests(&self, start: Hex) -> (r: Vec<Hex>)
        requires
            self.wf(),
            in_play(start),
        ensures
            forall|d: Hex| #[trigger] r@.contains(d) <==> hop_dest(*self, start, d),
    {
        let mut r: Vec<Hex> = Vec::new();
        proof {
            lemma_neighbors_adjacent(start);
        }
        let ns = start.neighbors();
        let mut t: usize = 0;
        while t < ns.len()
            invariant
                self.wf(),
                in_play(start),
                ns@ == neighbors_of(start),
                t <= ns.len(),
                forall|d: Hex|
                    #[trigger] r@.contains(d) <==> exists|i: int, k: nat|
                        #![trigger neighbors_of(start)[i], ray(start, neighbors_of(start)[i].x - start.x, neighbors_of(start)[i].y - start.y, neighbors_of(start)[i].z - start.z, k)]
                        0 <= i < t && k >= 2 && ({
                            let n = neighbors_of(start)[i];
                            let (dx, dy, dz) = (n.x - start.x, n.y - start.y, n.z - start.z);
                            &&& d == ray(start, dx, dy, dz, k)
                            &&& !occupied(self.board@, d)
                            &&& forall|j: nat| 1 <= j < k ==> occupied(self.board@, #[trigger] ray(start, dx, dy, dz, j))
                        }),
            decreases ns.len() - t,
        {
            let n = ns[t];
            proof {
                assert(adjacent(start, n));
            }
            let dx = n.x - start.x;
            let dy = n.y - start.y;
            let dz = n.z - start.z;
            let ghost gdx = dx as int;
            let ghost gdy = dy as int;
            let ghost gdz = dz as int;
            let ghost r0 = r@;
            let ghost mut found: Option<Hex> = None;
            let ghost mut fk: nat = 0;
            let dir = Hex { x: dx, y: dy, z: dz };
            if find_hex(&self.board, n).is_some() {
                let mut cur = n;
                let ghost mut j: nat = 1;
                proof {
                    assert(ray(start, gdx, gdy, gdz, 0) == start);
                    assert(ray(start, gdx, gdy, gdz, 1) == n);
                    assert(occupied(self.board@, n));
                    assert(in_play(n));
                }
                while find_hex(&self.board, cur.add(dir)).is_some()
                    invariant
                        self.wf(),
                        in_play(start),
                        j >= 1,
                        crate::hex::is_unit_step(gdx, gdy, gdz),
                        dx == gdx && dy == gdy && dz == gdz,
                        dir == (Hex { x: dx, y: dy, z: dz }),
                        cur == ray(start, gdx, gdy, gdz, j),
                        occupied(self.board@, cur),
                        in_play(cur),
                        forall|i: nat| 1 <= i <= j ==> occupied(self.board@, #[trigger] ray(start, gdx, gdy, gdz, i)),
                    decreases 3 * crate::game_state::PLAY_LIMIT - proj(cur, gdx, gdy, gdz),
                {
                    let next = Hex { x: cur.x + dx, y: cur.y + dy, z: cur.z + dz };
                    proof {
                        assert(ray(start, gdx, gdy, gdz, j + 1) == next);
                        assert(occupied(self.board@, next));
                        assert(in_play(next));
                        lemma_unit_projection(cur, next, gdx, gdy, gdz);
                    }
                    cur = next;
                    proof {
                        j = j + 1;
                    }
                }
                let d = Hex { x: cur.x + dx, y: cur.y + dy, z: cur.z + dz };
                proof {
                    assert(ray(start, gdx, gdy, gdz, j + 1) == d);
                    assert(!occupied(self.board@, d));
                    found = Some(d);
                    fk = j + 1;
                }
                r.push(d);
            }
            proof {
                let nn = neighbors_of(start)[t as int];
                assert(nn == n);
                // every hop in this direction lands on `found`
                assert forall|d2: Hex, k: nat|
                    k >= 2 && d2 == ray(start, gdx, gdy, gdz, k) && !occupied(self.board@, d2)
                        && (forall|jj: nat| 1 <= jj < k ==> occupied(self.board@, #[trigger] ray(start, gdx, gdy, gdz, jj)))
                    implies found == Some(d2) by {
                    assert(ray(start, gdx, gdy, gdz, 1) == n);
                    assert(occupied(self.board@, ray(start, gdx, gdy, gdz, 1)));
                    if k < fk {
                        assert(occupied(self.board@, ray(start, gdx, gdy, gdz, k)));
                    } else if k > fk {
                        assert(occupied(self.board@, ray(start, gdx, gdy, gdz, fk)));
                    }
                }
                assert forall|d2: Hex|
                    #[trigger] r@.contains(d2) <==> exists|i: int, k: nat|
                        #![trigger neighbors_of(start)[i], ray(start, neighbors_of(start)[i].x - start.x, neighbors_of(start)[i].y - start.y, neighbors_of(start)[i].z - start.z, k)]
                        0 <= i < t + 1 && k >= 2 && ({
                            let n = neighbors_of(start)[i];
                            let (dx, dy, dz) = (n.x - start.x, n.y - start.y, n.z - start.z);
                            &&& d2 == ray(start, dx, dy, dz, k)
                            &&& !occupied(self.board@, d2)
                            &&& forall|j: nat| 1 <= j < k ==> occupied(self.board@, #[trigger] ray(start, dx, dy, dz, j))
                        }) by {
                    if r@.contains(d2) && !r0.contains(d2) {
                        assert(found == Some(d2));
                        assert(neighbors_of(start)[t as int] == n);
                        assert(ray(start, gdx, gdy, gdz, fk) == d2);
                    }
                    if exists|i: int, k: nat|
                        #![trigger neighbors_of(start)[i], ray(start, neighbors_of(start)[i].x - start.x, neighbors_of(start)[i].y - start.y, neighbors_of(start)[i].z - start.z, k)]
                        0 <= i < t + 1 && k >= 2 && ({
                            let n = neighbors_of(start)[i];
                            let (dx, dy, dz) = (n.x - start.x, n.y - start.y, n.z - start.z);
                            &&& d2 == ray(start, dx, dy, dz, k)
                            &&& !occupied(self.board@, d2)
                            &&& forall|j: nat| 1 <= j < k ==> occupied(self.board@, #[trigger] ray(start, dx, dy, dz, j))
                        }) {
                        let (i, k) = choose|i: int, k: nat|
                            #![trigger neighbors_of(start)[i], ray(start, neighbors_of(start)[i].x - start.x, neighbors_of(start)[i].y - start.y, neighbors_of(start)[i].z - start.z, k)]
                            0 <= i < t + 1 && k >= 2 && ({
                                let n = neighbors_of(start)[i];
                                let (dx, dy, dz) = (n.x - start.x, n.y - start.y, n.z - start.z);
                                &&& d2 == ray(start, dx, dy, dz, k)
                                &&& !occupied(self.board@, d2)
                                &&& forall|j: nat| 1 <= j < k ==> occupied(self.board@, #[trigger] ray(start, dx, dy, dz, j))
                            });
                        if i == t {
                            assert(found == Some(d2));
                            assert(r@.contains(d2));
                        } else {
                            assert(r0.contains(d2));
                        }
                    }
                }
            }
            t += 1;
        }
        r
    }
}

impl GameState {
    /// Where a ladybug at `start` may go: two steps over the hive, then one
    /// step down to an empty hex.
    fn ladybug_dests(&self, start: Hex, pk: &Vec<Hex>) -> (r: Vec<Hex>)
        requires
            self.wf(),
            in_play(start),
            all_bounded(pk@),
        ensures
            forall|d: Hex|
                #[trigger] r@.contains(d) <==> exists|m: Hex|
                    #[trigger] pathfind_result(start, m, pk@.to_set(), Set::empty(), Some(2))
                        && adjacent(m, d) && !occupied(self.board@, d),
    {
        let none: Vec<Hex> = Vec::new();
        proof {
            assert(none@.to_set() =~= Set::<Hex>::empty());
        }
        let mids = start.pathfind(pk, &none, Some(2));
        let mut r: Vec<Hex> = Vec::new();
        let mut i: usize = 0;
        while i < mids.len()
            invariant
                self.wf(),
                all_bounded(pk@),
                none@.to_set() == Set::<Hex>::empty(),
                forall|m: Hex| #[trigger] mids@.contains(m) <==> pathfind_result(start, m, pk@.to_set(), Set::empty(), Some(2)),
                i <= mids.len(),
                forall|d: Hex|
                    #[trigger] r@.contains(d) <==> exists|k: int|
                        0 <= k < i && adjacent(#[trigger] mids@[k], d) && !occupied(self.board@, d),
            decreases mids.len() - i,
        {
            let m = mids[i];
            proof {
                assert(mids@.contains(m));
                lemma_path_end_walkable(start, m, 2, pk@.to_set(), Set::empty());
                let k = choose|k: int| 0 <= k < pk@.len() && pk@[k] == m;
                assert(pk@[k].bounded());
                lemma_neighbors_adjacent(m);
            }
            let ns = m.neighbors();
            let ghost r_before = r@;
            let mut j: usize = 0;
            while j < ns.len()
                invariant
                    self.wf(),
                    ns@ == neighbors_of(m),
                    j <= ns.len(),
                    forall|d: Hex|
                        #[trigger] r@.contains(d) <==> (r_before.contains(d) || exists|t: int|
                            0 <= t < j && #[trigger] ns@[t] == d && !occupied(self.board@, d)),
                decreases ns.len() - j,
            {
                if find_hex(&self.board, ns[j]).is_none() {
                    r.push(ns[j]);
                }
                proof {
                    assert forall|d: Hex|
                        #[trigger] r@.contains(d) <==> (r_before.contains(d) || exists|t: int|
                            0 <= t < j + 1 && #[trigger] ns@[t] == d && !occupied(self.board@, d)) by {
                        if exists|t: int| 0 <= t < j + 1 && #[trigger] ns@[t] == d && !occupied(self.board@, d) {
                            let t = choose|t: int| 0 <= t < j + 1 && #[trigger] ns@[t] == d && !occupied(self.board@, d);
                            if t < j {
                                assert(exists|t2: int| 0 <= t2 < j && #[trigger] ns@[t2] == d && !occupied(self.board@, d));
                            }
                        }
                    }
                }
                j += 1;
            }
            proof {
                assert forall|d: Hex|
                    #[trigger] r@.contains(d) <==> exists|k: int|
                        0 <= k < i + 1 && adjacent(#[trigger] mids@[k], d) && !occupied(self.board@, d) by {
                    if exists|t: int| 0 <= t < 6 && #[trigger] ns@[t] == d && !occupied(self.board@, d) {
                        let t = choose|t: int| 0 <= t < 6 && #[trigger] ns@[t] == d && !occupied(self.board@, d);
                        assert(adjacent(m, ns@[t]));
                        assert(mids@[i as int] == m);
                    }
                    if exists|k: int| 0 <= k < i + 1 && adjacent(#[trigger] mids@[k], d) && !occupied(self.board@, d) {
                        let k = choose|k: int| 0 <= k < i + 1 && adjacent(#[trigger] mids@[k], d) && !occupied(self.board@, d);
                        if k == i {
                            assert(neighbors_of(m).contains(d));
                            let t = choose|t: int| 0 <= t < 6 && neighbors_of(m)[t] == d;
                            assert(ns@[t] == d);
                        } else {
                            assert(r_before.contains(d));
                        }
                    }
                }
            }
            i += 1;
        }
        proof {
            assert forall|d: Hex|
                #[trigger] r@.contains(d) <==> exists|m: Hex|
                    #[trigger] pathfind_result(start, m, pk@.to_set(), Set::empty(), Some(2))
                        && adjacent(m, d) && !occupied(self.board@, d) by {
                if r@.contains(d) {
                    let k = choose|k: int| 0 <= k < i && adjacent(#[trigger] mids@[k], d) && !occupied(self.board@, d);
                    assert(mids@.contains(mids@[k]));
                }
                if exists|m: Hex|
                    #[trigger] pathfind_result(start, m, pk@.to_set(), Set::empty(), Some(2))
                        && adjacent(m, d) && !occupied(self.board@, d) {
                    let m = choose|m: Hex|
                        #[trigger] pathfind_result(start, m, pk@.to_set(), Set::empty(), Some(2))
                            && adjacent(m, d) && !occupied(self.board@, d);
                    assert(mids@.contains(m));
                    let k = choose|k: int| 0 <= k < mids@.len() && mids@[k] == m;
                    assert(adjacent(mids@[k], d));
                }
            }
        }
        r
    }

    /// Where a piece of kind `bug` at `start` may go by its own movement.
    fn kind_dests(&self, start: Hex, bug: Bug, pk: &Vec<Hex>, walk: &Vec<Hex>) -> (r: Vec<Hex>)
        requires
            self.wf(),
            in_play(start),
            bug != Bug::Mosquito,
            pk@ == pickup_seq(*self, start),
            all_bounded(pk@),
            walk@.to_set() == open_set(pk@),
            all_bounded(walk@),
        ensures
            forall|d: Hex| #[trigger] r@.contains(d) <==> kind_dest(*self, start, bug, d),
    {
        let none: Vec<Hex> = Vec::new();
        proof {
            assert(none@.to_set() =~= Set::<Hex>::empty());
        }
        if bug == Bug::Queen || bug == Bug::Pillbug {
            return start.pathfind(walk, pk, Some(1));
        }
        if bug == Bug::Spider {
            return start.pathfind(walk, pk, Some(3));
        }
        if bug == Bug::Ant {
            return start.pathfind(walk, pk, None);
        }
        if bug == Bug::Grasshopper {
            return self.hop_dests(start);
        }
        if bug == Bug::Ladybug {
            let r = self.ladybug_dests(start, pk);
            proof {
                let ps = pickup_set(*self, start);
                assert(ps == pk@.to_set());
                assert forall|d: Hex| #[trigger] r@.contains(d) <==> kind_dest(*self, start, bug, d) by {
                    if r@.contains(d) {
                        let m = choose|m: Hex|
                            #[trigger] pathfind_result(start, m, pk@.to_set(), Set::empty(), Some(2))
                                && adjacent(m, d) && !occupied(self.board@, d);
                        assert(pathfind_result(start, m, ps, Set::empty(), Some(2)));
                    }
                    if kind_dest(*self, start, bug, d) {
                        let m = choose|m: Hex|
                            #[trigger] pathfind_result(start, m, ps, Set::empty(), Some(2))
                                && adjacent(m, d) && !occupied(self.board@, d);
                        assert(pathfind_result(start, m, pk@.to_set(), Set::empty(), Some(2)));
                    }
                }
            }
            return r;
        }
        let on = match find_stack(&self.stacks, start) {
            Some(k) => {
                proof {
                    lemma_stack_at(self.stacks@, k as int);
                }
                self.stacks[k].1.len() > 0
            },
            None => {
                proof {
                    lemma_no_stack(self.stacks@, start);
                }
                false
            },
        };
        let mut r = if on {
            start.pathfind(walk, &none, Some(1))
        } else {
            start.pathfind(walk, pk, Some(1))
        };
        let climbs = start.pathfind(pk, &none, Some(1));
        append_hexes(&mut r, &climbs);
        r
    }
}

impl GameState {
    /// Whether the last turn moved a piece onto `h`.
    fn moved_to_last(&self, h: Hex) -> (r: bool)
        ensures
            r == just_moved_to(*self, h),
    {
        if self.turns.len() == 0 {
            return false;
        }
        match self.turns[self.turns.len() - 1] {
            Turn::Move(_, to) => to == h,
            _ => false,
        }
    }

    /// Whether the last turn moved `p`.
    fn moved_last(&self, p: Piece) -> (r: bool)
        ensures
            r == just_moved(*self, p),
    {
        if self.turns.len() == 0 {
            return false;
        }
        match self.turns[self.turns.len() - 1] {
            Turn::Move(q, _) => q == p,
            _ => false,
        }
    }

    /// Whether a stack lies under the top piece at `h`.
    fn stacked(&self, h: Hex) -> (r: bool)
        requires
            self.wf(),
        ensures
            r == (stack_at(self.stacks@, h).len() > 0),
    {
        match find_stack(&self.stacks, h) {
            Some(k) => {
                proof {
                    lemma_stack_at(self.stacks@, k as int);
                }
                self.stacks[k].1.len() > 0
            },
            None => {
                proof {
                    lemma_no_stack(self.stacks@, h);
                }
                false
            },
        }
    }

    /// The occupied hexes other than `h`, in board order.
    fn keys_without(&self, h: Hex) -> (r: Vec<Hex>)
        requires
            self.wf(),
        ensures
            r@ == keys(self.board@).filter(other_than(h)),
            all_bounded(r@),
    {
        let ks = board_keys(&self.board);
        let mut r: Vec<Hex> = Vec::new();
        let mut i: usize = 0;
        while i < ks.len()
            invariant
                ks@ == keys(self.board@),
                i <= ks.len(),
                r@ == ks@.subrange(0, i as int).filter(other_than(h)),
            decreases ks.len() - i,
        {
            proof {
                assert(ks@.subrange(0, i + 1) =~= ks@.subrange(0, i as int).push(ks@[i as int]));
                ks@.subrange(0, i as int).lemma_filter_push(ks@[i as int], other_than(h));
            }
            if ks[i] != h {
                r.push(ks[i]);
            }
            i += 1;
        }
        proof {
            assert(ks@.subrange(0, ks@.len() as int) =~= ks@);
            lemma_keys_occupied(self.board@);
            assert forall|k: int| 0 <= k < r@.len() implies (#[trigger] r@[k]).bounded() by {
                assert(r@.contains(r@[k]));
                keys(self.board@).lemma_filter_contains_rev(other_than(h), r@[k]);
                assert(occupied(self.board@, r@[k]));
            }
        }
        r
    }

    /// The throws a pillbug (or a mosquito copying one) at `h` can make.
    fn pillbug_throws(&self, h: Hex) -> (r: Vec<Turn>)
        requires
            self.wf(),
            in_play(h),
        ensures
            forall|t: Turn| #[trigger] r@.contains(t) <==> is_throw(*self, h, t),
    {
        proof {
            lemma_neighbors_adjacent(h);
        }
        let ns = h.neighbors();
        let mut r: Vec<Turn> = Vec::new();
        let mut a: usize = 0;
        while a < ns.len()
            invariant
                self.wf(),
                ns@ == neighbors_of(h),
                a <= ns.len(),
                forall|t: Turn|
                    #[trigger] r@.contains(t) <==> exists|x: int, y: int|
                        #![trigger neighbors_of(h)[x], neighbors_of(h)[y]]
                        0 <= x < a && 0 <= y < 6 && ({
                            let n = neighbors_of(h)[x];
                            let d = neighbors_of(h)[y];
                            &&& occupied(self.board@, n)
                            &&& !just_moved_to(*self, n)
                            &&& stack_at(self.stacks@, n).len() == 0
                            &&& hive_holds_without(*self, n)
                            &&& !occupied(self.board@, d)
                            &&& in_play(d)
                            &&& t == Turn::Move(piece_at(self.board@, n)->0, d)
                        }),
            decreases ns.len() - a,
        {
            let n = ns[a];
            let ghost r0 = r@;
            let mut ok = false;
            let mut np = Piece { id: 1, bug: Bug::Queen, owner: Player::White };
            match find_hex(&self.board, n) {
                Some(i) => {
                    proof {
                        lemma_piece_at(self.board@, i as int);
                    }
                    np = self.board[i].1;
                    if !self.moved_to_last(n) && !self.stacked(n) {
                        let rest = self.keys_without(n);
                        ok = Hex::all_contiguous(&rest);
                    }
                },
                None => {},
            }
            let ghost okn = occupied(self.board@, n) && !just_moved_to(*self, n) && stack_at(self.stacks@, n).len() == 0 && hive_holds_without(*self, n);
            assert(ok == okn);
            if ok {
                let mut b: usize = 0;
                while b < ns.len()
                    invariant
                        self.wf(),
                        ns@ == neighbors_of(h),
                        a < ns.len(),
                        n == ns@[a as int],
                        okn,
                        np == piece_at(self.board@, n)->0,
                        b <= ns.len(),
                        forall|t: Turn|
                            #[trigger] r@.contains(t) <==> (r0.contains(t) || exists|y: int|
                                0 <= y < b && !occupied(self.board@, #[trigger] neighbors_of(h)[y]) && in_play(neighbors_of(h)[y])
                                    && t == Turn::Move(np, neighbors_of(h)[y])),
                    decreases ns.len() - b,
                {
                    let d = ns[b];
                    if find_hex(&self.board, d).is_none()
                        && -crate::game_state::PLAY_LIMIT <= d.x && d.x <= crate::game_state::PLAY_LIMIT
                        && -crate::game_state::PLAY_LIMIT <= d.y && d.y <= crate::game_state::PLAY_LIMIT
                        && -crate::game_state::PLAY_LIMIT <= d.z && d.z <= crate::game_state::PLAY_LIMIT {
                        r.push(Turn::Move(np, d));
                    }
                    proof {
                        assert forall|t: Turn|
                            #[trigger] r@.contains(t) <==> (r0.contains(t) || exists|y: int|
                                0 <= y < b + 1 && !occupied(self.board@, #[trigger] neighbors_of(h)[y]) && in_play(neighbors_of(h)[y])
                                    && t == Turn::Move(np, neighbors_of(h)[y])) by {
                            if exists|y: int|
                                0 <= y < b + 1 && !occupied(self.board@, #[trigger] neighbors_of(h)[y]) && in_play(neighbors_of(h)[y])
                                    && t == Turn::Move(np, neighbors_of(h)[y]) {
                                let y = choose|y: int|
                                    0 <= y < b + 1 && !occupied(self.board@, #[trigger] neighbors_of(h)[y]) && in_play(neighbors_of(h)[y])
                                        && t == Turn::Move(np, neighbors_of(h)[y]);
                                if y < b {
                                    assert(exists|y2: int|
                                        0 <= y2 < b && !occupied(self.board@, #[trigger] neighbors_of(h)[y2]) && in_play(neighbors_of(h)[y2])
                                            && t == Turn::Move(np, neighbors_of(h)[y2]));
                                }
                            }
                            if r@.contains(t) && !r0.contains(t) && !(exists|y: int|
                                0 <= y < b && !occupied(self.board@, #[trigger] neighbors_of(h)[y]) && in_play(neighbors_of(h)[y])
                                    && t == Turn::Move(np, neighbors_of(h)[y])) {
                                assert(neighbors_of(h)[b as int] == d);
                            }
                        }
                    }
                    b += 1;
                }
            }
            proof {
                assert(neighbors_of(h)[a as int] == n);
                assert forall|t: Turn|
                    #[trigger] r@.contains(t) <==> (r0.contains(t) || (okn && exists|y: int|
                        0 <= y < 6 && !occupied(self.board@, #[trigger] neighbors_of(h)[y]) && in_play(neighbors_of(h)[y])
                            && t == Turn::Move(piece_at(self.board@, n)->0, neighbors_of(h)[y]))) by {
                }
                assert forall|t: Turn|
                    #[trigger] r@.contains(t) <==> exists|x: int, y: int|
                        #![trigger neighbors_of(h)[x], neighbors_of(h)[y]]
                        0 <= x < a + 1 && 0 <= y < 6 && ({
                            let n = neighbors_of(h)[x];
                            let d = neighbors_of(h)[y];
                            &&& occupied(self.board@, n)
                            &&& !just_moved_to(*self, n)
                            &&& stack_at(self.stacks@, n).len() == 0
                            &&& hive_holds_without(*self, n)
                            &&& !occupied(self.board@, d)
                            &&& in_play(d)
                            &&& t == Turn::Move(piece_at(self.board@, n)->0, d)
                        }) by {
                    if r@.contains(t) {
                        if !r0.contains(t) {
                            let y = choose|y: int|
                                0 <= y < 6 && !occupied(self.board@, #[trigger] neighbors_of(h)[y]) && in_play(neighbors_of(h)[y])
                                    && t == Turn::Move(piece_at(self.board@, n)->0, neighbors_of(h)[y]);
                            assert(neighbors_of(h)[a as int] == n);
                        }
                    }
                    if exists|x: int, y: int|
                        #![trigger neighbors_of(h)[x], neighbors_of(h)[y]]
                        0 <= x < a + 1 && 0 <= y < 6 && ({
                            let n = neighbors_of(h)[x];
                            let d = neighbors_of(h)[y];
                            &&& occupied(self.board@, n)
                            &&& !just_moved_to(*self, n)
                            &&& stack_at(self.stacks@, n).len() == 0
                            &&& hive_holds_without(*self, n)
                            &&& !occupied(self.board@, d)
                            &&& in_play(d)
                            &&& t == Turn::Move(piece_at(self.board@, n)->0, d)
                        }) {
                        let (x, y) = choose|x: int, y: int|
                            #![trigger neighbors_of(h)[x], neighbors_of(h)[y]]
                            0 <= x < a + 1 && 0 <= y < 6 && ({
                                let n = neighbors_of(h)[x];
                                let d = neighbors_of(h)[y];
                                &&& occupied(self.board@, n)
                                &&& !just_moved_to(*self, n)
                                &&& stack_at(self.stacks@, n).len() == 0
                                &&& hive_holds_without(*self, n)
                                &&& !occupied(self.board@, d)
                                &&& in_play(d)
                                &&& t == Turn::Move(piece_at(self.board@, n)->0, d)
                            });
                        if x == a {
                            assert(okn);
                            assert(r@.contains(t));
                        } else {
                            assert(r0.contains(t));
                        }
                    }
                }
            }
            a += 1;
        }
        r
    }
}

/// Appends the turns of `b` to `a`.
fn append_turns(a: &mut Vec<Turn>, b: &Vec<Turn>)
    ensures
        forall|t: Turn| #[trigger] final(a)@.contains(t) <==> (old(a)@.contains(t) || b@.contains(t)),
{
    let mut i: usize = 0;
    while i < b.len()
        invariant
            i <= b.len(),
            forall|t: Turn| #[trigger] a@.contains(t) <==> (old(a)@.contains(t) || b@.subrange(0, i as int).contains(t)),
        decreases b.len() - i,
    {
        proof {
            assert(b@.subrange(0, i + 1) =~= b@.subrange(0, i as int).push(b@[i as int]));
        }
        a.push(b[i]);
        i += 1;
    }
    proof {
        assert(b@.subrange(0, b@.len() as int) =~= b@);
    }
}

impl GameState {
    /// Whether a pillbug stands next to `start`.
    fn next_to_pillbug(&self, start: Hex) -> (r: bool)
        requires
            self.wf(),
            in_play(start),
        ensures
            r == touches_pillbug(*self, start),
    {
        let ns = start.neighbors();
        let mut i: usize = 0;
        while i < ns.len()
            invariant
                self.wf(),
                ns@ == neighbors_of(start),
                i <= ns.len(),
                forall|k: int|
                    0 <= k < i ==> !(occupied(self.board@, #[trigger] neighbors_of(start)[k]) && piece_at(
                        self.board@,
                        neighbors_of(start)[k],
                    )->0.bug == Bug::Pillbug),
            decreases ns.len() - i,
        {
            match find_hex(&self.board, ns[i]) {
                Some(j) => {
                    proof {
                        lemma_piece_at(self.board@, j as int);
                    }
                    if self.board[j].1.bug == Bug::Pillbug {
                        return true;
                    }
                },
                None => {},
            }
            i += 1;
        }
        false
    }

    /// Where a mosquito at `start` may go by the movement it copies.
    fn mosquito_dests(&self, start: Hex, pk: &Vec<Hex>, walk: &Vec<Hex>, on: bool) -> (r: Vec<Hex>)
        requires
            self.wf(),
            in_play(start),
            on == on_hive(*self, start),
            pk@ == pickup_seq(*self, start),
            all_bounded(pk@),
            walk@.to_set() == open_set(pk@),
            all_bounded(walk@),
        ensures
            forall|d: Hex| #[trigger] r@.contains(d) <==> mosquito_dest(*self, start, d),
    {
        if on {
            return self.kind_dests(start, Bug::Beetle, pk, walk);
        }
        let ns = start.neighbors();
        let mut r: Vec<Hex> = Vec::new();
        let mut i: usize = 0;
        while i < ns.len()
            invariant
                self.wf(),
                in_play(start),
                !on_hive(*self, start),
                pk@ == pickup_seq(*self, start),
                all_bounded(pk@),
                walk@.to_set() == open_set(pk@),
                all_bounded(walk@),
                ns@ == neighbors_of(start),
                i <= ns.len(),
                forall|d: Hex|
                    #[trigger] r@.contains(d) <==> exists|k: int|
                        0 <= k < i && occupied(self.board@, #[trigger] neighbors_of(start)[k]) && piece_at(
                            self.board@,
                            neighbors_of(start)[k],
                        )->0.bug != Bug::Mosquito && kind_dest(
                            *self,
                            start,
                            piece_at(self.board@, neighbors_of(start)[k])->0.bug,
                            d,
                        ),
            decreases ns.len() - i,
        {
            let ghost r0 = r@;
            let ghost nb = neighbors_of(start)[i as int];
            match find_hex(&self.board, ns[i]) {
                Some(j) => {
                    proof {
                        lemma_piece_at(self.board@, j as int);
                    }
                    let q = self.board[j].1;
                    if q.bug != Bug::Mosquito {
                        let more = self.kind_dests(start, q.bug, pk, walk);
                        append_hexes(&mut r, &more);
                    }
                },
                None => {},
            }
            proof {
                assert forall|d: Hex|
                    #[trigger] r@.contains(d) <==> exists|k: int|
                        0 <= k < i + 1 && occupied(self.board@, #[trigger] neighbors_of(start)[k]) && piece_at(
                            self.board@,
                            neighbors_of(start)[k],
                        )->0.bug != Bug::Mosquito && kind_dest(
                            *self,
                            start,
                            piece_at(self.board@, neighbors_of(start)[k])->0.bug,
                            d,
                        ) by {
                    let here = occupied(self.board@, nb) && piece_at(self.board@, nb)->0.bug != Bug::Mosquito
                        && kind_dest(*self, start, piece_at(self.board@, nb)->0.bug, d);
                    assert(r@.contains(d) <==> (r0.contains(d) || here));
                    if exists|k: int|
                        0 <= k < i + 1 && occupied(self.board@, #[trigger] neighbors_of(start)[k]) && piece_at(
                            self.board@,
                            neighbors_of(start)[k],
                        )->0.bug != Bug::Mosquito && kind_dest(
                            *self,
                            start,
                            piece_at(self.board@, neighbors_of(start)[k])->0.bug,
                            d,
                        ) {
                        let k = choose|k: int|
                            0 <= k < i + 1 && occupied(self.board@, #[trigger] neighbors_of(start)[k]) && piece_at(
                                self.board@,
                                neighbors_of(start)[k],
                            )->0.bug != Bug::Mosquito && kind_dest(
                                *self,
                                start,
                                piece_at(self.board@, neighbors_of(start)[k])->0.bug,
                                d,
                            );
                        if k < i {
                            assert(r0.contains(d));
                        }
                    }
                }
            }
            i += 1;
        }
        r
    }

    /// Every turn that moves `piece`, standing on top at `start`, or that it
    /// throws as a pillbug.
    pub fn get_piece_moves(&self, piece: Piece, start: Hex) -> (r: Vec<Turn>)
        requires
            self.wf(),
            occupied(self.board@, start),
        ensures
            forall|t: Turn| #[trigger] r@.contains(t) <==> piece_turn(*self, piece, start, t),
    {
        assert(in_play(start));
        let on = self.stacked(start);
        let pk = self.pickup(start);
        let pill = piece.bug == Bug::Pillbug || (piece.bug == Bug::Mosquito && !on
            && self.next_to_pillbug(start));
        if !on && !Hex::all_contiguous(&pk) {
            if pill {
                return self.pillbug_throws(start);
            } else {
                return Vec::new();
            }
        }
        let walk = Hex::get_empty_neighbors(&pk);
        proof {
            assert(walk@.to_set() =~= open_set(pk@));
            assert forall|k: int| 0 <= k < walk@.len() implies (#[trigger] walk@[k]).bounded() by {
                assert(walk@.contains(walk@[k]));
                let i = choose|i: int| 0 <= i < pk@.len() && #[trigger] adjacent(pk@[i], walk@[k]);
                assert(pk@.contains(pk@[i]));
            }
        }
        let dests = if piece.bug == Bug::Mosquito {
            self.mosquito_dests(start, &pk, &walk, on)
        } else {
            self.kind_dests(start, piece.bug, &pk, &walk)
        };
        let mut r: Vec<Turn> = Vec::new();
        push_moves(&mut r, piece, &dests);
        let ghost r1 = r@;
        if pill {
            let th = self.pillbug_throws(start);
            append_turns(&mut r, &th);
        }
        proof {
            assert forall|t: Turn| #[trigger] r@.contains(t) <==> piece_turn(*self, piece, start, t) by {
                if r1.contains(t) {
                    let d = choose|d: Hex| dests@.contains(d) && in_play(d) && t == Turn::Move(piece, d);
                    assert(own_dest(*self, piece, start, d));
                }
                if exists|d: Hex| t == Turn::Move(piece, d) && in_play(d) && #[trigger] own_dest(*self, piece, start, d) {
                    let d = choose|d: Hex| t == Turn::Move(piece, d) && in_play(d) && #[trigger] own_dest(*self, piece, start, d);
                    assert(dests@.contains(d));
                    assert(r1.contains(t));
                }
            }
        }
        r
    }
}

pub open spec fn queen_of(c: Player) -> Piece {
    Piece { id: 1, bug: Bug::Queen, owner: c }
}

/// No unplayed piece of the same kind and owner has a lower number than `p`.
pub open spec fn lowest_of_kind(s: GameState, p: Piece) -> bool {
    forall|i: int|
        0 <= i < s.unplayed_pieces@.len() && (#[trigger] s.unplayed_pieces@[i]).owner == p.owner
            && s.unplayed_pieces@[i].bug == p.bug ==> p.id <= s.unplayed_pieces@[i].id
}

/// On a side's fourth turn its queen must be placed if it is not yet.
pub open spec fn must_place_queen(s: GameState) -> bool {
    (s.spec_turn_no() == 7 || s.spec_turn_no() == 8) && s.unplayed_pieces@.contains(
        queen_of(s.current_player),
    )
}

/// The pieces the side to move may place: its queen when forced, else each
/// unplayed piece of its own with the lowest number of its kind, the queen
/// only from the third turn of the game on.
pub open spec fn placeable(s: GameState, p: Piece) -> bool {
    if must_place_queen(s) {
        p == queen_of(s.current_player)
    } else {
        &&& s.unplayed_pieces@.contains(p)
        &&& p.owner == s.current_player
        &&& (s.spec_turn_no() > 2 || p.bug != Bug::Queen)
        &&& lowest_of_kind(s, p)
    }
}

/// The hexes where a piece may be placed, before the rule on enemy contact.
pub open spec fn open_hex(s: GameState, h: Hex) -> bool {
    if s.status is NotStarted {
        h == crate::hex::spec_origin()
    } else {
        is_empty_neighbor(keys(s.board@), h)
    }
}

/// A piece of the side not to move is next to `h`.
pub open spec fn touches_enemy(s: GameState, h: Hex) -> bool {
    exists|i: int|
        0 <= i < s.board@.len() && (#[trigger] s.board@[i]).1.owner != s.current_player && adjacent(
            s.board@[i].0,
            h,
        )
}

/// A legal placement: a placeable piece on an open hex in play, not next to
/// an enemy piece from the third turn of the game on.
pub open spec fn is_placement(s: GameState, t: Turn) -> bool {
    match t {
        Turn::Place(p, h) => placeable(s, p) && open_hex(s, h) && in_play(h) && (s.spec_turn_no()
            <= 2 || !touches_enemy(s, h)),
        _ => false,
    }
}

/// The board entry `i` holds a piece of the side to move that did not just
/// get thrown.
pub open spec fn movable(s: GameState, i: int) -> bool {
    s.board@[i].1.owner == s.current_player && !just_moved(s, s.board@[i].1)
}

/// What `get_valid_moves` returns: every legal turn, or a lone pass when
/// there is none.
pub open spec fn valid_moves_result(s: GameState, r: Seq<Turn>) -> bool {
    &&& (exists|t: Turn| legal_turn(s, t)) ==> forall|t: Turn|
        #[trigger] r.contains(t) <==> legal_turn(s, t)
    &&& !(exists|t: Turn| legal_turn(s, t)) ==> r == seq![Turn::Pass]
}

/// A legal turn other than a pass: a placement, or, once the side's queen is
/// down, a move of one of its pieces.
pub open spec fn legal_turn(s: GameState, t: Turn) -> bool {
    is_placement(s, t) || (!s.unplayed_pieces@.contains(queen_of(s.current_player)) && exists|i: int|
        0 <= i < s.board@.len() && movable(s, i) && #[trigger] piece_turn(s, s.board@[i].1, s.board@[i].0, t))
}

impl GameState {
    /// The pieces the side to move may place.
    fn get_placeable_pieces(&self) -> (r: Vec<Piece>)
        requires
            self.turns@.len() < usize::MAX,
        ensures
            forall|p: Piece| #[trigger] r@.contains(p) <==> placeable(*self, p),
    {
        let turn = self.turn_no();
        let queen = Piece::new(Bug::Queen, self.current_player);
        if (turn == 7 || turn == 8) && crate::game_state::contains_piece(&self.unplayed_pieces, queen) {
            let r = vec![queen];
            proof {
                assert forall|p: Piece| #[trigger] r@.contains(p) <==> placeable(*self, p) by {
                    if p == queen {
                        assert(r@[0] == p);
                    }
                }
            }
            return r;
        }
        let u = &self.unplayed_pieces;
        let mut r: Vec<Piece> = Vec::new();
        let mut i: usize = 0;
        while i < u.len()
            invariant
                u == &self.unplayed_pieces,
                !must_place_queen(*self),
                turn == self.spec_turn_no(),
                i <= u.len(),
                forall|p: Piece|
                    #[trigger] r@.contains(p) <==> (placeable(*self, p) && exists|k: int|
                        0 <= k < i && u@[k] == p),
            decreases u.len() - i,
        {
            let p = u[i];
            let mut lowest = true;
            let mut j: usize = 0;
            while j < u.len()
                invariant
                    i < u.len(),
                    p == u@[i as int],
                    j <= u.len(),
                    lowest == forall|k: int|
                        0 <= k < j && (#[trigger] u@[k]).owner == p.owner && u@[k].bug == p.bug
                            ==> p.id <= u@[k].id,
                decreases u.len() - j,
            {
                if u[j].owner == p.owner && u[j].bug == p.bug && u[j].id < p.id {
                    lowest = false;
                }
                j += 1;
            }
            if p.owner == self.current_player && (turn > 2 || p.bug != Bug::Queen) && lowest {
                r.push(p);
            }
            proof {
                assert(u@.contains(p));
                assert forall|q: Piece| #[trigger] r@.contains(q) <==> (placeable(*self, q) && exists|k: int|
                    0 <= k < i + 1 && u@[k] == q) by {
                    if placeable(*self, q) && exists|k: int| 0 <= k < i + 1 && u@[k] == q {
                        let k = choose|k: int| 0 <= k < i + 1 && u@[k] == q;
                        if k < i {
                            assert(exists|k2: int| 0 <= k2 < i && u@[k2] == q);
                        }
                    }
                }
            }
            i += 1;
        }
        proof {
            assert forall|p: Piece| #[trigger] r@.contains(p) <==> placeable(*self, p) by {
                if placeable(*self, p) {
                    let k = choose|k: int| 0 <= k < u@.len() && u@[k] == p;
                }
            }
        }
        r
    }
}

impl GameState {
    /// Whether a piece of the side not to move is next to `h`.
    fn next_to_enemy(&self, h: Hex) -> (r: bool)
        requires
            self.wf(),
            h.bounded(),
        ensures
            r == touches_enemy(*self, h),
    {
        let mut i: usize = 0;
        while i < self.board.len()
            invariant
                self.wf(),
                h.bounded(),
                i <= self.board.len(),
                forall|k: int|
                    0 <= k < i ==> !((#[trigger] self.board@[k]).1.owner != self.current_player
                        && adjacent(self.board@[k].0, h)),
            decreases self.board.len() - i,
        {
            let (bh, bp) = self.board[i];
            proof {
                assert(occupied(self.board@, self.board@[i as int].0));
            }
            if bp.owner != self.current_player && bh.is_adj(h) {
                return true;
            }
            i += 1;
        }
        false
    }

    /// Every legal placement.
    fn placements(&self) -> (r: Vec<Turn>)
        requires
            self.wf(),
            self.turns@.len() < usize::MAX,
        ensures
            forall|t: Turn| #[trigger] r@.contains(t) <==> is_placement(*self, t),
    {
        let turn = self.turn_no();
        let open = if self.status == GameStatus::NotStarted {
            let o = vec![crate::hex::origin()];
            proof {
                assert forall|h: Hex| o@.contains(h) <==> open_hex(*self, h) by {
                    if h == crate::hex::spec_origin() {
                        assert(o@[0] == h);
                    }
                }
            }
            o
        } else {
            let ks = board_keys(&self.board);
            proof {
                lemma_keys_occupied(self.board@);
                assert forall|k: int| 0 <= k < ks@.len() implies (#[trigger] ks@[k]).bounded() by {
                    assert(ks@.contains(ks@[k]));
                }
            }
            Hex::get_empty_neighbors(&ks)
        };
        let pieces = self.get_placeable_pieces();
        let mut r: Vec<Turn> = Vec::new();
        let mut i: usize = 0;
        while i < pieces.len()
            invariant
                self.wf(),
                turn == self.spec_turn_no(),
                forall|h: Hex| #[trigger] open@.contains(h) <==> open_hex(*self, h),
                forall|p: Piece| #[trigger] pieces@.contains(p) <==> placeable(*self, p),
                i <= pieces.len(),
                forall|t: Turn|
                    #[trigger] r@.contains(t) <==> (is_placement(*self, t) && exists|k: int|
                        0 <= k < i && t->Place_0 == pieces@[k]),
            decreases pieces.len() - i,
        {
            let p = pieces[i];
            let ghost r0 = r@;
            proof {
                assert(pieces@.contains(p));
            }
            let mut j: usize = 0;
            while j < open.len()
                invariant
                    self.wf(),
                    turn == self.spec_turn_no(),
                    forall|h: Hex| #[trigger] open@.contains(h) <==> open_hex(*self, h),
                    i < pieces.len(),
                    p == pieces@[i as int],
                    placeable(*self, p),
                    j <= open.len(),
                    forall|t: Turn|
                        #[trigger] r@.contains(t) <==> (r0.contains(t) || (is_placement(*self, t) && t->Place_0 == p && exists|k: int|
                            0 <= k < j && t->Place_1 == open@[k])),
                decreases open.len() - j,
            {
                let h = open[j];
                if -crate::game_state::PLAY_LIMIT <= h.x && h.x <= crate::game_state::PLAY_LIMIT
                    && -crate::game_state::PLAY_LIMIT <= h.y && h.y <= crate::game_state::PLAY_LIMIT
                    && -crate::game_state::PLAY_LIMIT <= h.z && h.z <= crate::game_state::PLAY_LIMIT {
                    if turn <= 2 || !self.next_to_enemy(h) {
                        r.push(Turn::Place(p, h));
                    }
                }
                proof {
                    assert(open@.contains(h));
                    assert forall|t: Turn|
                        #[trigger] r@.contains(t) <==> (r0.contains(t) || (is_placement(*self, t) && t->Place_0 == p && exists|k: int|
                            0 <= k < j + 1 && t->Place_1 == open@[k])) by {
                        if is_placement(*self, t) && t->Place_0 == p && exists|k: int| 0 <= k < j + 1 && t->Place_1 == open@[k] {
                            let k = choose|k: int| 0 <= k < j + 1 && t->Place_1 == open@[k];
                            if k < j {
                                assert(exists|k2: int| 0 <= k2 < j && t->Place_1 == open@[k2]);
                            }
                        }
                    }
                }
                j += 1;
            }
            proof {
                assert forall|t: Turn|
                    #[trigger] r@.contains(t) <==> (is_placement(*self, t) && exists|k: int|
                        0 <= k < i + 1 && t->Place_0 == pieces@[k]) by {
                    if is_placement(*self, t) && t->Place_0 == p {
                        assert(open@.contains(t->Place_1));
                        let k = choose|k: int| 0 <= k < open@.len() && open@[k] == t->Place_1;
                    }
                    if is_placement(*self, t) && exists|k: int| 0 <= k < i + 1 && t->Place_0 == pieces@[k] {
                        let k = choose|k: int| 0 <= k < i + 1 && t->Place_0 == pieces@[k];
                        if k < i {
                            assert(exists|k2: int| 0 <= k2 < i && t->Place_0 == pieces@[k2]);
                        }
                    }
                }
            }
            i += 1;
        }
        proof {
            assert forall|t: Turn| #[trigger] r@.contains(t) <==> is_placement(*self, t) by {
                if is_placement(*self, t) {
                    assert(pieces@.contains(t->Place_0));
                    let k = choose|k: int| 0 <= k < pieces@.len() && pieces@[k] == t->Place_0;
                }
            }
        }
        r
    }

    /// Every legal turn; a lone pass when there is none.
    pub fn get_valid_moves(&self) -> (r: Vec<Turn>)
        requires
            self.wf(),
            self.turns@.len() < usize::MAX,
        ensures
            valid_moves_result(*self, r@),
    {
        let mut moves = self.placements();
        let queen = Piece::new(Bug::Queen, self.current_player);
        let queen_down = !crate::game_state::contains_piece(&self.unplayed_pieces, queen);
        let ghost placed = moves@;
        if queen_down {
            let mut i: usize = 0;
            while i < self.board.len()
                invariant
                    self.wf(),
                    queen == queen_of(self.current_player),
                    !self.unplayed_pieces@.contains(queen),
                    forall|t: Turn| #[trigger] placed.contains(t) <==> is_placement(*self, t),
                    i <= self.board.len(),
                    forall|t: Turn|
                        #[trigger] moves@.contains(t) <==> (placed.contains(t) || exists|k: int|
                            0 <= k < i && movable(*self, k) && #[trigger] piece_turn(*self, self.board@[k].1, self.board@[k].0, t)),
                decreases self.board.len() - i,
            {
                let (h, p) = self.board[i];
                let ghost m0 = moves@;
                if p.owner == self.current_player && !self.moved_last(p) {
                    proof {
                        assert(occupied(self.board@, self.board@[i as int].0));
                    }
                    let more = self.get_piece_moves(p, h);
                    append_turns(&mut moves, &more);
                }
                proof {
                    assert forall|t: Turn|
                        #[trigger] moves@.contains(t) <==> (placed.contains(t) || exists|k: int|
                            0 <= k < i + 1 && movable(*self, k) && #[trigger] piece_turn(*self, self.board@[k].1, self.board@[k].0, t)) by {
                        if exists|k: int| 0 <= k < i + 1 && movable(*self, k) && #[trigger] piece_turn(*self, self.board@[k].1, self.board@[k].0, t) {
                            let k = choose|k: int| 0 <= k < i + 1 && movable(*self, k) && #[trigger] piece_turn(*self, self.board@[k].1, self.board@[k].0, t);
                            if k < i {
                                assert(m0.contains(t));
                            }
                        }
                        if moves@.contains(t) && !m0.contains(t) {
                            assert(movable(*self, i as int));
                        }
                    }
                }
                i += 1;
            }
        }
        proof {
            assert forall|t: Turn| #[trigger] moves@.contains(t) <==> legal_turn(*self, t) by {
                if queen_down && moves@.contains(t) && !placed.contains(t) {
                    let k = choose|k: int| 0 <= k < self.board@.len() && movable(*self, k) && #[trigger] piece_turn(*self, self.board@[k].1, self.board@[k].0, t);
                }
            }
        }
        if moves.len() == 0 {
            proof {
                assert forall|t: Turn| !legal_turn(*self, t) by {
                    if legal_turn(*self, t) {
                        assert(moves@.contains(t));
                    }
                }
            }
            let r = vec![Turn::Pass];
            proof {
                assert(r@ =~= seq![Turn::Pass]);
            }
            return r;
        }
        proof {
            assert(moves@.contains(moves@[0]));
            assert(legal_turn(*self, moves@[0]));
        }
        moves
    }
}

/// The effect of an accepted turn: the pieces stand as `pieces_after` says,
/// the turn is recorded, the other side is to move and the status follows
/// the queens.
pub open spec fn turn_taken(s: GameState, t: GameState, turn: Turn) -> bool {
    &&& t.wf()
    &&& crate::game_state::pieces_after(s, t, turn)
    &&& crate::game_state::pieces_kept(s, t, turn)
    &&& t.turns@ == s.turns@.push(turn)
    &&& t.current_player == s.current_player.spec_other()
    &&& t.game_type == s.game_type
    &&& t.status == crate::game_state::status_after(t.board@, t.stacks@, s.status)
}

/// What `submit_turn` does: a game that is over refuses every turn; a turn
/// that is neither a pass nor legal is refused; otherwise it is taken. A
/// refused turn changes nothing.
pub open spec fn submit_result(s: GameState, t: GameState, turn: Turn, r: Result<(), TurnError>) -> bool {
    &&& crate::game_state::is_terminal(s.status) ==> r == Err::<(), TurnError>(TurnError::GameOver) && t == s
    &&& !crate::game_state::is_terminal(s.status) && turn != Turn::Pass && !legal_turn(s, turn)
        ==> r == Err::<(), TurnError>(TurnError::InvalidMove) && t == s
    &&& !crate::game_state::is_terminal(s.status) && (turn == Turn::Pass || legal_turn(s, turn))
        ==> r is Ok && turn_taken(s, t, turn)
}

/// Every turn that `get_valid_moves` offers in a game that is not over is
/// accepted by `submit_turn`.
pub proof fn law_valid_moves_are_accepted(
    s: GameState,
    valid: Seq<Turn>,
    t: Turn,
    after: GameState,
    r: Result<(), TurnError>,
)
    requires
        s.wf(),
        !crate::game_state::is_terminal(s.status),
        valid_moves_result(s, valid),
        valid.contains(t),
        submit_result(s, after, t, r),
    ensures
        r is Ok,
        turn_taken(s, after, t),
{
    if !(exists|u: Turn| legal_turn(s, u)) {
        assert(valid == seq![Turn::Pass]);
        let k = choose|k: int| 0 <= k < valid.len() && valid[k] == t;
        assert(t == Turn::Pass);
    }
}

/// When the side to move still holds its queen and can place nothing, the
/// only turn offered is a pass.
pub proof fn law_stuck_side_must_pass(s: GameState, valid: Seq<Turn>)
    requires
        s.unplayed_pieces@.contains(queen_of(s.current_player)),
        forall|t: Turn| !is_placement(s, t),
        valid_moves_result(s, valid),
    ensures
        valid == seq![Turn::Pass],
{
    assert forall|t: Turn| !legal_turn(s, t) by {}
}

/// Once a game is over every further turn is refused with `GameOver` and
/// the game stays as it was; and a single turn moves the status at most
/// once, from a game not over to the status the queens give.
pub proof fn law_game_over_is_final(s: GameState, t: GameState, turn: Turn, r: Result<(), TurnError>)
    requires
        submit_result(s, t, turn, r),
    ensures
        crate::game_state::is_terminal(s.status) ==> r == Err::<(), TurnError>(TurnError::GameOver) && t == s,
        r is Ok ==> t.status == crate::game_state::status_after(t.board@, t.stacks@, s.status),
        r is Ok ==> !crate::game_state::is_terminal(s.status),
{
}

/// Whether `v` holds `t`.
pub fn contains_turn(v: &Vec<Turn>, t: Turn) -> (r: bool)
    ensures
        r == v@.contains(t),
{
    let mut i: usize = 0;
    while i < v.len()
        invariant
            i <= v.len(),
            forall|k: int| 0 <= k < i ==> v@[k] != t,
        decreases v.len() - i,
    {
        if v[i] == t {
            return true;
        }
        i += 1;
    }
    false
}

/// A legal turn can be applied.
pub proof fn lemma_legal_applicable(s: GameState, t: Turn)
    requires
        s.wf(),
        legal_turn(s, t),
    ensures
        crate::game_state::turn_applicable(s, t),
{
    lemma_keys_occupied(s.board@);
    match t {
        Turn::Place(p, h) => {
            if s.status is NotStarted {
                assert(!occupied(s.board@, h));
            } else {
                assert(!keys(s.board@).contains(h));
            }
        },
        Turn::Move(p, d) => {
            let i = choose|i: int|
                0 <= i < s.board@.len() && movable(s, i) && #[trigger] piece_turn(s, s.board@[i].1, s.board@[i].0, t);
            let start = s.board@[i].0;
            if is_throw(s, start, t) {
                let (a, b) = choose|a: int, b: int|
                    #![trigger neighbors_of(start)[a], neighbors_of(start)[b]]
                    0 <= a < 6 && 0 <= b < 6 && ({
                        let n = neighbors_of(start)[a];
                        let d = neighbors_of(start)[b];
                        &&& occupied(s.board@, n)
                        &&& !just_moved_to(s, n)
                        &&& stack_at(s.stacks@, n).len() == 0
                        &&& hive_holds_without(s, n)
                        &&& !occupied(s.board@, d)
                        &&& in_play(d)
                        &&& t == Turn::Move(piece_at(s.board@, n)->0, d)
                    });
                let n = neighbors_of(start)[a];
                let k = choose|k: int| 0 <= k < s.board@.len() && (#[trigger] s.board@[k]).0 == n;
                lemma_piece_at(s.board@, k);
            }
        },
        Turn::Pass => {},
    }
}

impl GameState {
    /// Plays `turn` if the game is not over and the turn is a pass or legal.
    pub fn submit_turn(&mut self, turn: Turn) -> (r: Result<(), TurnError>)
        requires
            old(self).wf(),
            old(self).turns@.len() + 2 < usize::MAX,
        ensures
            final(self).wf(),
            submit_result(*old(self), *final(self), turn, r),
    {
        match self.status {
            GameStatus::Win(_) | GameStatus::Draw => return Err(TurnError::GameOver),
            _ => {},
        }
        if turn != Turn::Pass {
            let valid = self.get_valid_moves();
            if !contains_turn(&valid, turn) {
                return Err(TurnError::InvalidMove);
            }
            proof {
                if !(exists|t: Turn| legal_turn(*self, t)) {
                    assert(valid@ == seq![Turn::Pass]);
                    assert(valid@[0] == Turn::Pass);
                }
                lemma_legal_applicable(*self, turn);
            }
        }
        self.submit_turn_unchecked(turn);
        Ok(())
    }
}

/// A turn whose piece is numbered `1..=9` and whose destination lies in play.
pub open spec fn printable_turn(t: Turn) -> bool {
    match t {
        Turn::Place(p, h) => 1 <= p.id <= 9 && in_play(h),
        Turn::Move(p, h) => 1 <= p.id <= 9 && in_play(h),
        Turn::Pass => true,
    }
}

/// Every legal turn can be written in move notation.
pub proof fn lemma_legal_printable(s: GameState, t: Turn)
    requires
        s.wf(),
        legal_turn(s, t),
    ensures
        printable_turn(t),
{
    match t {
        Turn::Place(p, h) => {
            if !must_place_queen(s) {
                let k = choose|k: int| 0 <= k < s.unplayed_pieces@.len() && s.unplayed_pieces@[k] == p;
                assert(1 <= s.unplayed_pieces@[k].id <= 9);
            }
        },
        Turn::Move(p, d) => {
            let i = choose|i: int|
                0 <= i < s.board@.len() && movable(s, i) && #[trigger] piece_turn(s, s.board@[i].1, s.board@[i].0, t);
            let start = s.board@[i].0;
            lemma_piece_at(s.board@, i);
            assert(occupied(s.board@, start));
            if is_throw(s, start, t) {
                let (a, b) = choose|a: int, b: int|
                    #![trigger neighbors_of(start)[a], neighbors_of(start)[b]]
                    0 <= a < 6 && 0 <= b < 6 && ({
                        let n = neighbors_of(start)[a];
                        let d = neighbors_of(start)[b];
                        &&& occupied(s.board@, n)
                        &&& !just_moved_to(s, n)
                        &&& stack_at(s.stacks@, n).len() == 0
                        &&& hive_holds_without(s, n)
                        &&& !occupied(s.board@, d)
                        &&& in_play(d)
                        &&& t == Turn::Move(piece_at(s.board@, n)->0, d)
                    });
                assert(occupied(s.board@, neighbors_of(start)[a]));
            }
        },
        Turn::Pass => {},
    }
}

proof fn lemma_stacked_same(a: Seq<(Hex, Vec<Piece>)>, b: Seq<(Hex, Vec<Piece>)>)
    requires
        crate::game_state::stacks_view(a) == crate::game_state::stacks_view(b),
    ensures
        crate::game_state::stacked_pieces(a) == crate::game_state::stacked_pieces(b),
    decreases a.len(),
{
    assert(a.len() == crate::game_state::stacks_view(a).len());
    assert(b.len() == crate::game_state::stacks_view(b).len());
    if a.len() > 0 {
        let va = crate::game_state::stacks_view(a);
        let vb = crate::game_state::stacks_view(b);
        assert forall|k: int| 0 <= k < a.len() - 1 implies #[trigger] crate::game_state::stacks_view(a.drop_last())[k]
            == crate::game_state::stacks_view(b.drop_last())[k] by {
            assert(va[k] == vb[k]);
        }
        assert(crate::game_state::stacks_view(a.drop_last()) =~= crate::game_state::stacks_view(b.drop_last()));
        lemma_stacked_same(a.drop_last(), b.drop_last());
        assert(crate::game_state::stacks_view(a)[a.len() - 1] == crate::game_state::stacks_view(b)[a.len() - 1]);
    }
}

/// A copy of a game makes the same turns: whatever a turn does to the copy,
/// it does to the original.
proof fn lemma_copy_turn(s: GameState, c: GameState, t: GameState, turn: Turn)
    requires
        s.wf(),
        crate::game_state::same_game(s, c),
        turn_taken(c, t, turn),
    ensures
        turn_taken(s, t, turn),
{
    let sv = crate::game_state::stacks_view(s.stacks@);
    let cv = crate::game_state::stacks_view(c.stacks@);
    assert(s.stacks@.len() == sv.len() && c.stacks@.len() == cv.len());
    assert forall|j: int| 0 <= j < s.stacks@.len() implies (#[trigger] c.stacks@[j]).0 == s.stacks@[j].0
        && c.stacks@[j].1@ == s.stacks@[j].1@ by {
        assert(cv[j] == sv[j]);
    }
    crate::game_state::lemma_same_stacks(s.stacks@, c.stacks@);
    lemma_stacked_same(s.stacks@, c.stacks@);
    assert forall|p: Piece| spec_hex_of(c.board@, c.stacks@, p) == spec_hex_of(s.board@, s.stacks@, p) by {
        assert forall|i: int| crate::game_state::first_in_stacks(c.stacks@, p, i)
            == crate::game_state::first_in_stacks(s.stacks@, p, i) by {
            if crate::game_state::first_in_stacks(c.stacks@, p, i) {
                assert(c.stacks@[i].1@ == s.stacks@[i].1@);
                assert forall|k: int| 0 <= k < i implies !(#[trigger] s.stacks@[k]).1@.contains(p) by {
                    assert(c.stacks@[k].1@ == s.stacks@[k].1@);
                    assert(!c.stacks@[k].1@.contains(p));
                }
            }
            if crate::game_state::first_in_stacks(s.stacks@, p, i) {
                assert(c.stacks@[i].1@ == s.stacks@[i].1@);
                assert forall|k: int| 0 <= k < i implies !(#[trigger] c.stacks@[k]).1@.contains(p) by {
                    assert(c.stacks@[k].1@ == s.stacks@[k].1@);
                    assert(!s.stacks@[k].1@.contains(p));
                }
            }
        }
        if exists|i: int| #[trigger] crate::game_state::first_in_stacks(s.stacks@, p, i) {
            let i = choose|i: int| #[trigger] crate::game_state::first_in_stacks(s.stacks@, p, i);
            assert(crate::game_state::first_in_stacks(c.stacks@, p, i));
            let j = choose|j: int| #[trigger] crate::game_state::first_in_stacks(c.stacks@, p, j);
            assert(crate::game_state::first_in_stacks(s.stacks@, p, j));
            assert(c.stacks@[j].0 == s.stacks@[j].0);
            assert forall|a: int, b: int| #[trigger] crate::game_state::first_in_stacks(s.stacks@, p, a)
                && #[trigger] crate::game_state::first_in_stacks(s.stacks@, p, b) implies a == b by {
                if a < b {
                    assert(s.stacks@[a].1@.contains(p));
                } else if b < a {
                    assert(s.stacks@[b].1@.contains(p));
                }
            }
        } else {
            assert forall|j: int| !#[trigger] crate::game_state::first_in_stacks(c.stacks@, p, j) by {
                assert(!crate::game_state::first_in_stacks(s.stacks@, p, j));
            }
        }
    }
    assert(crate::game_state::all_pieces(c) == crate::game_state::all_pieces(s));
    match turn {
        Turn::Move(p, d) => {
            let from = spec_hex_of(s.board@, s.stacks@, p)->0;
            assert(spec_hex_of(c.board@, c.stacks@, p) == spec_hex_of(s.board@, s.stacks@, p));
            assert forall|x: Hex| crate::game_state::lifted_piece(c, from, x) == crate::game_state::lifted_piece(s, from, x)
                && crate::game_state::lifted_stack(c, from, x) == crate::game_state::lifted_stack(s, from, x) by {
                assert(stack_at(c.stacks@, x) == stack_at(s.stacks@, x));
                assert(stack_at(c.stacks@, from) == stack_at(s.stacks@, from));
            }
            assert forall|x: Hex| #[trigger] piece_at(t.board@, x) == if x == d {
                Some(p)
            } else {
                crate::game_state::lifted_piece(s, from, x)
            } by {
                assert(piece_at(t.board@, x) == if x == d { Some(p) } else { crate::game_state::lifted_piece(c, from, x) });
            }
            assert forall|x: Hex| #[trigger] stack_at(t.stacks@, x) == if x == d {
                match crate::game_state::lifted_piece(s, from, d) {
                    Some(q) => crate::game_state::lifted_stack(s, from, d).push(q),
                    None => crate::game_state::lifted_stack(s, from, d),
                }
            } else {
                crate::game_state::lifted_stack(s, from, x)
            } by {
                assert(crate::game_state::lifted_piece(c, from, d) == crate::game_state::lifted_piece(s, from, d));
                assert(crate::game_state::lifted_stack(c, from, d) == crate::game_state::lifted_stack(s, from, d));
                assert(crate::game_state::lifted_stack(c, from, x) == crate::game_state::lifted_stack(s, from, x));
            }
            assert(crate::game_state::pieces_after(s, t, turn));
            assert(crate::game_state::pieces_kept(s, t, turn));
            assert(t.turns@ == s.turns@.push(turn));
            assert(t.status == crate::game_state::status_after(t.board@, t.stacks@, s.status));
            assert(t.wf());
        },
        Turn::Place(p, h) => {
            assert forall|x: Hex| #[trigger] stack_at(t.stacks@, x) == stack_at(s.stacks@, x) by {
                assert(stack_at(c.stacks@, x) == stack_at(s.stacks@, x));
            }
            assert(crate::game_state::pieces_after(s, t, turn));
            assert(crate::game_state::pieces_kept(s, t, turn));
        },
        Turn::Pass => {
            assert forall|x: Hex| #[trigger] stack_at(t.stacks@, x) == stack_at(s.stacks@, x) by {
                assert(stack_at(c.stacks@, x) == stack_at(s.stacks@, x));
            }
        },
    }
}

/// What `play_copy` does: like `submit_turn`, but the game itself is left as
/// it was and the game after the turn is returned.
pub open spec fn play_copy_result(s: GameState, turn: Turn, r: Result<GameState, TurnError>) -> bool {
    &&& crate::game_state::is_terminal(s.status) ==> r == Err::<GameState, TurnError>(TurnError::GameOver)
    &&& !crate::game_state::is_terminal(s.status) && turn != Turn::Pass && !legal_turn(s, turn)
        ==> r == Err::<GameState, TurnError>(TurnError::InvalidMove)
    &&& !crate::game_state::is_terminal(s.status) && (turn == Turn::Pass || legal_turn(s, turn))
        ==> r is Ok && turn_taken(s, r->Ok_0, turn)
}

impl GameState {
    /// Plays `turn` on a copy of the game when the game is not over and the
    /// turn is a pass or legal, and returns the copy.
    pub fn play_copy(&self, turn: Turn) -> (r: Result<GameState, TurnError>)
        requires
            self.wf(),
            self.turns@.len() + 2 < usize::MAX,
        ensures
            play_copy_result(*self, turn, r),
    {
        match self.status {
            GameStatus::Win(_) | GameStatus::Draw => return Err(TurnError::GameOver),
            _ => {},
        }
        if turn != Turn::Pass {
            let valid = self.get_valid_moves();
            if !contains_turn(&valid, turn) {
                return Err(TurnError::InvalidMove);
            }
            proof {
                if !(exists|t: Turn| legal_turn(*self, t)) {
                    assert(valid@ == seq![Turn::Pass]);
                    assert(valid@[0] == Turn::Pass);
                }
                lemma_legal_applicable(*self, turn);
            }
        }
        let mut next = self.copy_state();
        let ghost c = next;
        proof {
            assert(crate::game_state::turn_applicable(c, turn));
        }
        next.submit_turn_unchecked(turn);
        proof {
            assert(turn_taken(c, next, turn));
            lemma_copy_turn(*self, c, next, turn);
        }
        Ok(next)
    }
}

} // verus!
