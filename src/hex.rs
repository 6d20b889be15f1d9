use vstd::prelude::*;

verus! {

broadcast use vstd::seq_lib::lemma_seq_contains_after_push;

/// Largest absolute value a coordinate may take for hex arithmetic to stay exact.
pub const HEX_LIMIT: i64 = 0x4000_0000_0000;

/// A cell of the hexagonal grid in cube coordinates.
///
/// Hexes are oriented pointy side down:
/// ```text
/// nw  /\ ne
///  w |  | e
/// sw  \/ se
/// ```
#[derive(Copy, Clone, Debug, PartialEq, Eq, Hash, Structural)]
pub struct Hex {
    pub x: i64,
    pub y: i64,
    pub z: i64,
}

/// The center of the board, where the first piece is placed.
pub open spec fn spec_origin() -> Hex {
    Hex { x: 0, y: 0, z: 0 }
}

/// The center of the board, where the first piece is placed.
pub fn origin() -> (r: Hex)
    ensures
        r == spec_origin(),
{
    Hex { x: 0, y: 0, z: 0 }
}

/// The hex at offset `(dx, dy, dz)` from `h`.
pub open spec fn offset(h: Hex, dx: int, dy: int, dz: int) -> Hex {
    Hex { x: (h.x + dx) as i64, y: (h.y + dy) as i64, z: (h.z + dz) as i64 }
}

/// `(dx, dy, dz)` is one of the six unit steps of the grid.
pub open spec fn is_unit_step(dx: int, dy: int, dz: int) -> bool {
    ||| (dx, dy, dz) == (1int, 0int, -1int)
    ||| (dx, dy, dz) == (0int, 1int, -1int)
    ||| (dx, dy, dz) == (0int, -1int, 1int)
    ||| (dx, dy, dz) == (-1int, 0int, 1int)
    ||| (dx, dy, dz) == (1int, -1int, 0int)
    ||| (dx, dy, dz) == (-1int, 1int, 0int)
}

/// `b` is one of the six neighbors of `a`.
pub open spec fn adjacent(a: Hex, b: Hex) -> bool {
    is_unit_step(b.x - a.x, b.y - a.y, b.z - a.z)
}

/// The six neighbors of `h`, in the order ne, nw, se, sw, e, w.
pub open spec fn neighbors_of(h: Hex) -> Seq<Hex> {
    seq![
        offset(h, 1, 0, -1),
        offset(h, 0, 1, -1),
        offset(h, 0, -1, 1),
        offset(h, -1, 0, 1),
        offset(h, 1, -1, 0),
        offset(h, -1, 1, 0),
    ]
}

pub open spec fn abs(v: int) -> int {
    if v < 0 { -v } else { v }
}

/// Number of steps between two cells of the grid.
pub open spec fn hex_dist(a: Hex, b: Hex) -> int {
    (abs(a.x - b.x) + abs(a.y - b.y) + abs(a.z - b.z)) / 2
}

/// `n` is next to some hex of `hexes` and is not itself one of them.
pub open spec fn is_empty_neighbor(hexes: Seq<Hex>, n: Hex) -> bool {
    &&& !hexes.contains(n)
    &&& exists|i: int| 0 <= i < hexes.len() && #[trigger] adjacent(hexes[i], n)
}

/// `v` holds every hex of `s` that is next to a hex of `v`.
pub open spec fn closed_under_adjacency(v: Set<Hex>, s: Set<Hex>) -> bool {
    forall|a: Hex, b: Hex| #[trigger] v.contains(a) && #[trigger] s.contains(b) && adjacent(a, b)
        ==> v.contains(b)
}

/// The hexes form one group: the first is linked to every other by steps
/// between adjacent hexes of the group. An empty collection is not contiguous.
pub open spec fn contiguous(hexes: Seq<Hex>) -> bool {
    &&& hexes.len() > 0
    &&& forall|v: Set<Hex>|
        #![trigger closed_under_adjacency(v, hexes.to_set())]
        v.contains(hexes[0]) && closed_under_adjacency(v, hexes.to_set())
            ==> hexes.to_set().subset_of(v)
}

/// The two hexes beside the edge from `a` to the adjacent hex `b`.
pub open spec fn pincers_of(a: Hex, b: Hex) -> (Hex, Hex) {
    let (dx, dy, dz) = (b.x - a.x, b.y - a.y, b.z - a.z);
    (offset(a, -dz, -dx, -dy), offset(a, -dy, -dz, -dx))
}

/// Freedom to move: a slide from `a` to `b` is allowed where there are no
/// barriers, or where exactly one of the two hexes beside the edge is a barrier.
pub open spec fn gate_open(a: Hex, b: Hex, barriers: Set<Hex>) -> bool {
    barriers == Set::<Hex>::empty() || (barriers.contains(pincers_of(a, b).0) != barriers.contains(
        pincers_of(a, b).1,
    ))
}

/// One step of a path: to an adjacent walkable hex through an open gate.
pub open spec fn step_ok(a: Hex, b: Hex, walkable: Set<Hex>, barriers: Set<Hex>) -> bool {
    adjacent(a, b) && walkable.contains(b) && gate_open(a, b, barriers)
}

/// `p` is a path that never visits a hex twice and whose every step is allowed.
pub open spec fn is_simple_path(p: Seq<Hex>, walkable: Set<Hex>, barriers: Set<Hex>) -> bool {
    &&& p.no_duplicates()
    &&& forall|i: int| 0 <= i < p.len() - 1 ==> #[trigger] step_ok(p[i], p[i + 1], walkable, barriers)
}

/// `h` ends a simple path of exactly `k` steps from `start`.
pub open spec fn reachable_in(
    start: Hex,
    h: Hex,
    k: nat,
    walkable: Set<Hex>,
    barriers: Set<Hex>,
) -> bool {
    exists|p: Seq<Hex>|
        #![trigger is_simple_path(p, walkable, barriers), p.last()]
        p.len() == k + 1 && p[0] == start && p.last() == h && is_simple_path(p, walkable, barriers)
}

/// `v` holds every hex that one allowed step takes a hex of `v` to.
pub open spec fn closed_under_steps(v: Set<Hex>, walkable: Set<Hex>, barriers: Set<Hex>) -> bool {
    forall|a: Hex, b: Hex| #[trigger] v.contains(a) && #[trigger] step_ok(a, b, walkable, barriers)
        ==> v.contains(b)
}

/// `h` is reached from `start` by allowed steps: it lies in every set that
/// holds `start` and is closed under them.
pub open spec fn reachable(start: Hex, h: Hex, walkable: Set<Hex>, barriers: Set<Hex>) -> bool {
    forall|v: Set<Hex>|
        #![trigger closed_under_steps(v, walkable, barriers)]
        v.contains(start) && closed_under_steps(v, walkable, barriers) ==> v.contains(h)
}

/// What `pathfind` returns, as a set.
pub open spec fn pathfind_result(
    start: Hex,
    h: Hex,
    walkable: Set<Hex>,
    barriers: Set<Hex>,
    dist: Option<usize>,
) -> bool {
    match dist {
        Some(k) => if k == 0 {
            h == start
        } else {
            reachable_in(start, h, k as nat, walkable, barriers)
        },
        None => h != start && reachable(start, h, walkable, barriers),
    }
}

pub open spec fn all_bounded(hexes: Seq<Hex>) -> bool {
    forall|i: int| 0 <= i < hexes.len() ==> (#[trigger] hexes[i]).bounded()
}

/// The hexes adjacent to `h` are exactly the six listed by `neighbors_of`.
pub proof fn lemma_neighbors_adjacent(h: Hex)
    requires
        h.bounded(),
    ensures
        forall|n: Hex| #[trigger] adjacent(h, n) <==> neighbors_of(h).contains(n),
        forall|i: int| 0 <= i < 6 ==> #[trigger] adjacent(h, neighbors_of(h)[i]),
{
    let ns = neighbors_of(h);
    assert forall|n: Hex| #[trigger] adjacent(h, n) <==> ns.contains(n) by {
        if adjacent(h, n) {
            if n.x - h.x == 1 && n.y - h.y == 0 {
                assert(ns[0] == n);
            } else if n.x - h.x == 0 && n.y - h.y == 1 {
                assert(ns[1] == n);
            } else if n.x - h.x == 0 && n.y - h.y == -1 {
                assert(ns[2] == n);
            } else if n.x - h.x == -1 && n.y - h.y == 0 {
                assert(ns[3] == n);
            } else if n.x - h.x == 1 && n.y - h.y == -1 {
                assert(ns[4] == n);
            } else {
                assert(ns[5] == n);
            }
        }
        if ns.contains(n) {
            let i = choose|i: int| 0 <= i < ns.len() && ns[i] == n;
            assert(0 <= i < 6);
        }
    }
}

impl Hex {
    /// Coordinates small enough that a few steps from here never overflow.
    pub open spec fn bounded(self) -> bool {
        -HEX_LIMIT <= self.x <= HEX_LIMIT && -HEX_LIMIT <= self.y <= HEX_LIMIT && -HEX_LIMIT
            <= self.z <= HEX_LIMIT
    }

    pub fn new(x: i64, y: i64, z: i64) -> (r: Hex)
        requires
            x + y + z == 0,
        ensures
            r == (Hex { x, y, z }),
    {
        Hex { x, y, z }
    }

    pub fn add(&self, other: Hex) -> (r: Hex)
        requires
            self.bounded(),
            other.bounded(),
        ensures
            r == offset(*self, other.x as int, other.y as int, other.z as int),
    {
        Hex { x: self.x + other.x, y: self.y + other.y, z: self.z + other.z }
    }

    pub fn sub(&self, other: Hex) -> (r: Hex)
        requires
            self.bounded(),
            other.bounded(),
        ensures
            r == offset(*self, -other.x, -other.y, -other.z),
    {
        Hex { x: self.x - other.x, y: self.y - other.y, z: self.z - other.z }
    }

    pub fn dist(&self, other: Hex) -> (r: i64)
        requires
            self.bounded(),
            other.bounded(),
        ensures
            r == hex_dist(*self, other),
    {
        let dx = if self.x >= other.x { self.x - other.x } else { other.x - self.x };
        let dy = if self.y >= other.y { self.y - other.y } else { other.y - self.y };
        let dz = if self.z >= other.z { self.z - other.z } else { other.z - self.z };
        (dx + dy + dz) / 2
    }

    pub fn is_adj(&self, other: Hex) -> (r: bool)
        requires
            self.bounded(),
            other.bounded(),
        ensures
            r == adjacent(*self, other),
    {
        let dx = other.x - self.x;
        let dy = other.y - self.y;
        let dz = other.z - self.z;
        (dx == 1 && dy == 0 && dz == -1) || (dx == 0 && dy == 1 && dz == -1) || (dx == 0 && dy
            == -1 && dz == 1) || (dx == -1 && dy == 0 && dz == 1) || (dx == 1 && dy == -1 && dz
            == 0) || (dx == -1 && dy == 1 && dz == 0)
    }

    pub fn ne(&self) -> (r: Hex)
        requires
            self.bounded(),
        ensures
            r == offset(*self, 1, 0, -1),
    {
        Hex { x: self.x + 1, y: self.y, z: self.z - 1 }
    }

    pub fn nw(&self) -> (r: Hex)
        requires
            self.bounded(),
        ensures
            r == offset(*self, 0, 1, -1),
    {
        Hex { x: self.x, y: self.y + 1, z: self.z - 1 }
    }

    pub fn se(&self) -> (r: Hex)
        requires
            self.bounded(),
        ensures
            r == offset(*self, 0, -1, 1),
    {
        Hex { x: self.x, y: self.y - 1, z: self.z + 1 }
    }

    pub fn sw(&self) -> (r: Hex)
        requires
            self.bounded(),
        ensures
            r == offset(*self, -1, 0, 1),
    {
        Hex { x: self.x - 1, y: self.y, z: self.z + 1 }
    }

    pub fn e(&self) -> (r: Hex)
        requires
            self.bounded(),
        ensures
            r == offset(*self, 1, -1, 0),
    {
        Hex { x: self.x + 1, y: self.y - 1, z: self.z }
    }

    pub fn w(&self) -> (r: Hex)
        requires
            self.bounded(),
        ensures
            r == offset(*self, -1, 1, 0),
    {
        Hex { x: self.x - 1, y: self.y + 1, z: self.z }
    }

    pub fn neighbors(&self) -> (r: Vec<Hex>)
        requires
            self.bounded(),
        ensures
            r@ == neighbors_of(*self),
    {
        let r = vec![self.ne(), self.nw(), self.se(), self.sw(), self.e(), self.w()];
        assert(r@ =~= neighbors_of(*self));
        r
    }
}

/// The order of hexes: by `x`, then `y`, then `z`.
pub open spec fn hex_lt(a: Hex, b: Hex) -> bool {
    a.x < b.x || (a.x == b.x && (a.y < b.y || (a.y == b.y && a.z < b.z)))
}

pub open spec fn sorted_hexes(v: Seq<Hex>) -> bool {
    forall|i: int, j: int| 0 <= i < j < v.len() ==> hex_lt(#[trigger] v[i], #[trigger] v[j])
}

fn hex_less(a: Hex, b: Hex) -> (r: bool)
    ensures
        r == hex_lt(a, b),
{
    a.x < b.x || (a.x == b.x && (a.y < b.y || (a.y == b.y && a.z < b.z)))
}

/// Inserts `n` into a sorted list unless it is there already.
fn insert_sorted(v: &mut Vec<Hex>, n: Hex)
    requires
        sorted_hexes(old(v)@),
    ensures
        sorted_hexes(final(v)@),
        forall|m: Hex| #[trigger] final(v)@.contains(m) <==> (old(v)@.contains(m) || m == n),
{
    let mut i: usize = 0;
    while i < v.len() && hex_less(v[i], n)
        invariant
            i <= v.len(),
            sorted_hexes(v@),
            v@ == old(v)@,
            forall|k: int| 0 <= k < i ==> hex_lt(#[trigger] v@[k], n),
        decreases v.len() - i,
    {
        i += 1;
    }
    if i < v.len() && v[i] == n {
        return;
    }
    let ghost before = v@;
    v.insert(i, n);
    proof {
        assert(v@ == before.insert(i as int, n));
        assert forall|a: int, b: int| 0 <= a < b < v@.len() implies hex_lt(#[trigger] v@[a], #[trigger] v@[b]) by {
            if b < i {
                assert(v@[a] == before[a] && v@[b] == before[b]);
            } else if b == i {
                assert(v@[a] == before[a]);
            } else if a < i {
                assert(v@[a] == before[a] && v@[b] == before[b - 1]);
                assert(hex_lt(before[a], n));
                if b - 1 > i {
                    assert(hex_lt(before[i as int], before[b - 1]));
                }
                assert(!hex_lt(before[i as int], n) && before[i as int] != n);
            } else if a == i {
                assert(v@[b] == before[b - 1]);
                assert(!hex_lt(before[i as int], n) && before[i as int] != n);
                if b - 1 > i {
                    assert(hex_lt(before[i as int], before[b - 1]));
                }
            } else {
                assert(v@[a] == before[a - 1] && v@[b] == before[b - 1]);
            }
        }
        assert forall|m: Hex| #[trigger] v@.contains(m) <==> (before.contains(m) || m == n) by {
            if v@.contains(m) {
                let k = choose|k: int| 0 <= k < v@.len() && v@[k] == m;
                if k < i {
                    assert(before[k] == m);
                } else if k > i {
                    assert(before[k - 1] == m);
                }
            }
            if before.contains(m) {
                let k = choose|k: int| 0 <= k < before.len() && before[k] == m;
                if k < i {
                    assert(v@[k] == m);
                } else {
                    assert(v@[k + 1] == m);
                }
            }
            if m == n {
                assert(v@[i as int] == n);
            }
        }
    }
}

/// A sorted list has no repeats.
pub proof fn lemma_sorted_unique(v: Seq<Hex>)
    requires
        sorted_hexes(v),
    ensures
        v.no_duplicates(),
{
    assert forall|i: int, j: int| 0 <= i < v.len() && 0 <= j < v.len() && i != j implies v[i] != v[j] by {
        if i < j {
            assert(hex_lt(v[i], v[j]));
        } else {
            assert(hex_lt(v[j], v[i]));
        }
    }
}

impl Hex {
    /// The cells next to some hex of `hexes` that are not themselves in `hexes`,
    /// each listed once, in increasing order.
    pub fn get_empty_neighbors(hexes: &Vec<Hex>) -> (r: Vec<Hex>)
        requires
            all_bounded(hexes@),
        ensures
            r@.no_duplicates(),
            sorted_hexes(r@),
            forall|n: Hex| r@.contains(n) <==> is_empty_neighbor(hexes@, n),
    {
        let mut r: Vec<Hex> = Vec::new();
        let mut i: usize = 0;
        while i < hexes.len()
            invariant
                all_bounded(hexes@),
                i <= hexes.len(),
                sorted_hexes(r@),
                forall|n: Hex|
                    r@.contains(n) <==> (!hexes@.contains(n) && exists|k: int|
                        0 <= k < i && #[trigger] adjacent(hexes@[k], n)),
            decreases hexes.len() - i,
        {
            let h = hexes[i];
            proof {
                lemma_neighbors_adjacent(h);
            }
            let ns = h.neighbors();
            let mut j: usize = 0;
            while j < ns.len()
                invariant
                    all_bounded(hexes@),
                    i < hexes.len(),
                    h == hexes@[i as int],
                    ns@ == neighbors_of(h),
                    j <= ns.len(),
                    sorted_hexes(r@),
                    forall|n: Hex|
                        r@.contains(n) <==> (!hexes@.contains(n) && ((exists|k: int|
                            0 <= k < i && #[trigger] adjacent(hexes@[k], n)) || ns@.subrange(
                            0,
                            j as int,
                        ).contains(n))),
                decreases ns.len() - j,
            {
                let n = ns[j];
                let ghost r0 = r@;
                if !contains_hex(hexes, n) {
                    insert_sorted(&mut r, n);
                }
                proof {
                    let sub0 = ns@.subrange(0, j as int);
                    let sub1 = ns@.subrange(0, j + 1);
                    assert(sub1 == sub0.push(n));
                    assert forall|m: Hex| sub1.contains(m) <==> (sub0.contains(m) || m == n) by {
                        if sub1.contains(m) {
                            let t = choose|t: int| 0 <= t < sub1.len() && sub1[t] == m;
                            if t < j {
                                assert(sub0[t] == m);
                            }
                        }
                        if sub0.contains(m) {
                            let t = choose|t: int| 0 <= t < sub0.len() && sub0[t] == m;
                            assert(sub1[t] == m);
                        }
                        if m == n {
                            assert(sub1[j as int] == m);
                        }
                    }
                    assert forall|m: Hex| r@.contains(m) <==> (r0.contains(m) || (m == n
                        && !hexes@.contains(n))) by {}
                }
                j += 1;
            }
            proof {
                assert(ns@.subrange(0, 6) == ns@);
                assert forall|n: Hex|
                    r@.contains(n) <==> (!hexes@.contains(n) && exists|k: int|
                        0 <= k < i + 1 && #[trigger] adjacent(hexes@[k], n)) by {
                    if exists|k: int| 0 <= k < i + 1 && #[trigger] adjacent(hexes@[k], n) {
                        let k = choose|k: int| 0 <= k < i + 1 && #[trigger] adjacent(hexes@[k], n);
                        if k == i {
                            assert(ns@.contains(n));
                        }
                    }
                    if ns@.contains(n) {
                        assert(adjacent(hexes@[i as int], n));
                    }
                }
            }
            i += 1;
        }
        proof {
            lemma_sorted_unique(r@);
        }
        r
    }

    /// The two hexes beside the edge to `other`, when `other` is adjacent.
    pub fn get_pincers(&self, other: Hex) -> (r: Option<(Hex, Hex)>)
        requires
            self.bounded(),
            other.bounded(),
        ensures
            r == if adjacent(*self, other) {
                Some(pincers_of(*self, other))
            } else {
                None::<(Hex, Hex)>
            },
    {
        if self.is_adj(other) {
            let dx = other.x - self.x;
            let dy = other.y - self.y;
            let dz = other.z - self.z;
            let a = Hex { x: self.x - dz, y: self.y - dx, z: self.z - dy };
            let b = Hex { x: self.x - dy, y: self.y - dz, z: self.z - dx };
            Some((a, b))
        } else {
            None
        }
    }
}

/// A sequence without repeats whose items all occur in `s` is no longer than `s`.
pub proof fn lemma_unique_subseq_len(v: Seq<Hex>, s: Seq<Hex>)
    requires
        v.no_duplicates(),
        forall|k: int| 0 <= k < v.len() ==> s.contains(#[trigger] v[k]),
    ensures
        v.len() <= s.len(),
{
    v.unique_seq_to_set();
    s.lemma_cardinality_of_set();
    assert(v.to_set().subset_of(s.to_set())) by {
        assert forall|h: Hex| v.to_set().contains(h) implies s.to_set().contains(h) by {
            let k = choose|k: int| 0 <= k < v.len() && v[k] == h;
            assert(s.contains(v[k]));
        }
    }
    vstd::set_lib::lemma_len_subset(v.to_set(), s.to_set());
}

impl Hex {
    /// Whether the hexes form a single group of adjacent cells. An empty
    /// collection is not contiguous.
    pub fn all_contiguous(hexes: &Vec<Hex>) -> (r: bool)
        requires
            all_bounded(hexes@),
        ensures
            r == contiguous(hexes@),
    {
        if hexes.len() == 0 {
            return false;
        }
        let ghost all = hexes@.to_set();
        let start = hexes[0];
        let mut visited: Vec<Hex> = vec![start];
        let mut i: usize = 0;
        while i < visited.len()
            invariant
                all == hexes@.to_set(),
                all_bounded(hexes@),
                hexes.len() > 0,
                start == hexes@[0],
                visited@.len() >= 1,
                visited@[0] == start,
                i <= visited.len(),
                visited@.no_duplicates(),
                forall|k: int| 0 <= k < visited.len() ==> hexes@.contains(#[trigger] visited@[k]),
                forall|k: int, b: Hex|
                    0 <= k < i && hexes@.contains(b) && #[trigger] adjacent(visited@[k], b)
                        ==> visited@.contains(b),
                forall|v: Set<Hex>|
                    #![trigger closed_under_adjacency(v, all)]
                    v.contains(start) && closed_under_adjacency(v, all) ==> forall|k: int|
                        0 <= k < visited.len() ==> v.contains(#[trigger] visited@[k]),
            decreases hexes.len() - i,
        {
            proof {
                lemma_unique_subseq_len(visited@, hexes@);
            }
            let h = visited[i];
            proof {
                assert(hexes@.contains(h));
                let hk = choose|hk: int| 0 <= hk < hexes.len() && hexes@[hk] == h;
                assert((hexes@[hk]).bounded());
                lemma_neighbors_adjacent(h);
            }
            let ns = h.neighbors();
            let mut j: usize = 0;
            while j < ns.len()
                invariant
                    all == hexes@.to_set(),
                    all_bounded(hexes@),
                    hexes.len() > 0,
                    start == hexes@[0],
                    visited@.len() >= 1,
                    visited@[0] == start,
                    i < visited.len(),
                    h == visited@[i as int],
                    ns@ == neighbors_of(h),
                    j <= ns.len(),
                    visited@.no_duplicates(),
                    forall|k: int| 0 <= k < visited.len() ==> hexes@.contains(#[trigger] visited@[k]),
                    forall|k: int, b: Hex|
                        0 <= k < i && hexes@.contains(b) && #[trigger] adjacent(visited@[k], b)
                            ==> visited@.contains(b),
                    forall|t: int| 0 <= t < j && hexes@.contains(#[trigger] ns@[t]) ==> visited@.contains(ns@[t]),
                    forall|v: Set<Hex>|
                        #![trigger closed_under_adjacency(v, all)]
                        v.contains(start) && closed_under_adjacency(v, all) ==> forall|k: int|
                            0 <= k < visited.len() ==> v.contains(#[trigger] visited@[k]),
                decreases ns.len() - j,
            {
                let n = ns[j];
                if contains_hex(hexes, n) && !contains_hex(&visited, n) {
                    let ghost old_visited = visited@;
                    visited.push(n);
                    proof {
                        assert forall|k: int| 0 <= k < visited.len() implies hexes@.contains(#[trigger] visited@[k]) by {
                            if k < old_visited.len() {
                                assert(visited@[k] == old_visited[k]);
                            }
                        }
                        assert forall|v: Set<Hex>|
                            #![trigger closed_under_adjacency(v, all)]
                            v.contains(start) && closed_under_adjacency(v, all) implies forall|k: int|
                                0 <= k < visited.len() ==> v.contains(#[trigger] visited@[k]) by {
                            assert(v.contains(old_visited[i as int]));
                            assert(all.contains(n));
                            assert(adjacent(h, ns@[j as int]));
                            assert forall|k: int| 0 <= k < visited.len() implies v.contains(#[trigger] visited@[k]) by {
                                if k < old_visited.len() {
                                    assert(visited@[k] == old_visited[k]);
                                }
                            }
                        }
                        assert forall|k: int, b: Hex|
                            0 <= k < i && hexes@.contains(b) && #[trigger] adjacent(visited@[k], b)
                                implies visited@.contains(b) by {
                            assert(visited@[k] == old_visited[k]);
                            assert(old_visited.contains(b));
                        }
                    }
                }
                j += 1;
            }
            proof {
                assert forall|k: int, b: Hex|
                    0 <= k < i + 1 && hexes@.contains(b) && #[trigger] adjacent(visited@[k], b)
                        implies visited@.contains(b) by {
                    if k == i {
                        assert(neighbors_of(h).contains(b));
                        let t = choose|t: int| 0 <= t < 6 && ns@[t] == b;
                    }
                }
            }
            i += 1;
        }
        let ghost vs = visited@.to_set();
        proof {
            assert(vs.contains(start)) by {
                assert(visited@[0] == start);
            }
            assert forall|a: Hex, b: Hex| #[trigger] vs.contains(a) && #[trigger] all.contains(b)
                && adjacent(a, b) implies vs.contains(b) by {
                let k = choose|k: int| 0 <= k < visited.len() && visited@[k] == a;
                assert(adjacent(visited@[k], b));
            }
        }
        let mut m: usize = 0;
        while m < hexes.len()
            invariant
                all == hexes@.to_set(),
                vs == visited@.to_set(),
                vs.contains(start),
                start == hexes@[0],
                closed_under_adjacency(vs, all),
                forall|v: Set<Hex>|
                    #![trigger closed_under_adjacency(v, all)]
                    v.contains(start) && closed_under_adjacency(v, all) ==> forall|k: int|
                        0 <= k < visited.len() ==> v.contains(#[trigger] visited@[k]),
                m <= hexes.len(),
                forall|k: int| 0 <= k < m ==> visited@.contains(#[trigger] hexes@[k]),
            decreases hexes.len() - m,
        {
            if !contains_hex(&visited, hexes[m]) {
                proof {
                    assert(!vs.contains(hexes@[m as int]));
                    assert(hexes@.contains(hexes@[m as int]));
                    assert(all.contains(hexes@[m as int]));
                    assert(!all.subset_of(vs));
                    assert(closed_under_adjacency(vs, all));
                }
                return false;
            }
            m += 1;
        }
        proof {
            assert forall|v: Set<Hex>|
                #![trigger closed_under_adjacency(v, all)]
                v.contains(hexes@[0]) && closed_under_adjacency(v, all) implies all.subset_of(v) by {
                assert forall|h: Hex| all.contains(h) implies v.contains(h) by {
                    let k = choose|k: int| 0 <= k < hexes.len() && hexes@[k] == h;
                    assert(visited@.contains(hexes@[k]));
                    let t = choose|t: int| 0 <= t < visited.len() && visited@[t] == h;
                    assert(v.contains(visited@[t]));
                }
            }
        }
        true
    }
}

/// `h` ends a simple path of `p.len() + remaining` hexes that starts with `p`.
pub open spec fn extends_to(
    p: Seq<Hex>,
    remaining: nat,
    h: Hex,
    walkable: Set<Hex>,
    barriers: Set<Hex>,
) -> bool {
    exists|q: Seq<Hex>|
        #![trigger is_simple_path(q, walkable, barriers), q.last()]
        q.len() == p.len() + remaining && q.subrange(0, p.len() as int) == p && q.last() == h
            && is_simple_path(q, walkable, barriers)
}

/// Whether a piece at `a` may slide to its neighbor `n`.
fn can_step(a: Hex, n: Hex, walkable: &Vec<Hex>, barriers: &Vec<Hex>) -> (r: bool)
    requires
        a.bounded(),
        all_bounded(walkable@),
        adjacent(a, n),
    ensures
        r == step_ok(a, n, walkable@.to_set(), barriers@.to_set()),
{
    if !contains_hex(walkable, n) {
        return false;
    }
    proof {
        let k = choose|k: int| 0 <= k < walkable.len() && walkable@[k] == n;
        assert(walkable@[k].bounded());
    }
    if barriers.len() == 0 {
        proof {
            assert(barriers@.to_set() =~= Set::<Hex>::empty());
        }
        return true;
    }
    proof {
        assert(barriers@.to_set().contains(barriers@[0]));
    }
    match a.get_pincers(n) {
        Some((p1, p2)) => contains_hex(barriers, p1) != contains_hex(barriers, p2),
        None => false,
    }
}

/// Adds to `out` the last hex of every simple path that continues `path` by
/// exactly `remaining` steps.
fn extend_paths(
    path: &mut Vec<Hex>,
    remaining: usize,
    walkable: &Vec<Hex>,
    barriers: &Vec<Hex>,
    out: &mut Vec<Hex>,
)
    requires
        old(path)@.len() >= 1,
        all_bounded(old(path)@),
        all_bounded(walkable@),
        is_simple_path(old(path)@, walkable@.to_set(), barriers@.to_set()),
        old(out)@.no_duplicates(),
    ensures
        final(path)@ == old(path)@,
        final(out)@.no_duplicates(),
        forall|h: Hex|
            final(out)@.contains(h) <==> (old(out)@.contains(h) || extends_to(
                old(path)@,
                remaining as nat,
                h,
                walkable@.to_set(),
                barriers@.to_set(),
            )),
    decreases remaining,
{
    let ghost p = path@;
    let last = path[path.len() - 1];
    if remaining == 0 {
        if !contains_hex(out, last) {
            out.push(last);
        }
        proof {
            assert(p.subrange(0, p.len() as int) == p);
            assert(is_simple_path(p, walkable@.to_set(), barriers@.to_set()) && p.last() == last);
            assert(extends_to(p, 0, last, walkable@.to_set(), barriers@.to_set()));
            assert forall|h: Hex| extends_to(p, 0, h, walkable@.to_set(), barriers@.to_set()) implies h == last by {
                let q = choose|q: Seq<Hex>|
                    #![trigger is_simple_path(q, walkable@.to_set(), barriers@.to_set()), q.last()]
                    q.len() == p.len() && q.subrange(0, p.len() as int) == p && q.last() == h
                        && is_simple_path(q, walkable@.to_set(), barriers@.to_set());
                assert(q == p);
            }
        }
        return;
    }
    proof {
        lemma_neighbors_adjacent(last);
    }
    let ns = last.neighbors();
    let ghost out0 = out@;
    let mut j: usize = 0;
    while j < ns.len()
        invariant
            path@ == p,
            p.len() >= 1,
            last == p.last(),
            last.bounded(),
            all_bounded(p),
            all_bounded(walkable@),
            is_simple_path(p, walkable@.to_set(), barriers@.to_set()),
            remaining > 0,
            ns@ == neighbors_of(last),
            j <= ns.len(),
            out@.no_duplicates(),
            forall|h: Hex|
                #[trigger] out@.contains(h) <==> (out0.contains(h) || exists|t: int|
                    0 <= t < j && step_ok(last, #[trigger] ns@[t], walkable@.to_set(), barriers@.to_set())
                        && !p.contains(ns@[t]) && extends_to(
                        p.push(ns@[t]),
                        (remaining - 1) as nat,
                        h,
                        walkable@.to_set(),
                        barriers@.to_set(),
                    )),
        decreases ns.len() - j,
    {
        let n = ns[j];
        proof {
            assert(adjacent(last, ns@[j as int]));
        }
        let ghost out1 = out@;
        let ghost took = step_ok(last, n, walkable@.to_set(), barriers@.to_set()) && !p.contains(n);
        if can_step(last, n, walkable, barriers) && !contains_hex(path, n) {
            path.push(n);
            proof {
                let pn = p.push(n);
                assert(path@ == pn);
                assert forall|i: int| 0 <= i < pn.len() - 1 implies #[trigger] step_ok(
                    pn[i],
                    pn[i + 1],
                    walkable@.to_set(),
                    barriers@.to_set(),
                ) by {
                    if i < p.len() - 1 {
                        assert(pn[i] == p[i] && pn[i + 1] == p[i + 1]);
                        assert(step_ok(p[i], p[i + 1], walkable@.to_set(), barriers@.to_set()));
                    }
                }
                assert forall|i: int| 0 <= i < pn.len() implies (#[trigger] pn[i]).bounded() by {
                    if i < p.len() {
                        assert(pn[i] == p[i]);
                    } else {
                        let k = choose|k: int| 0 <= k < walkable.len() && walkable@[k] == n;
                        assert(walkable@[k].bounded());
                    }
                }
            }
            extend_paths(path, remaining - 1, walkable, barriers, out);
            path.pop();
            proof {
                assert(path@ =~= p);
                assert(took);
                assert forall|h: Hex| out@.contains(h) <==> (out1.contains(h) || extends_to(
                    p.push(n),
                    (remaining - 1) as nat,
                    h,
                    walkable@.to_set(),
                    barriers@.to_set(),
                )) by {}
            }
        } else {
            proof {
                assert(!took);
            }
        }
        proof {
            let r1 = (remaining - 1) as nat;
            assert forall|h: Hex| #[trigger] out@.contains(h) implies (out0.contains(h) || exists|t: int|
                    0 <= t < j + 1 && step_ok(last, #[trigger] ns@[t], walkable@.to_set(), barriers@.to_set())
                        && !p.contains(ns@[t]) && extends_to(p.push(ns@[t]), r1, h, walkable@.to_set(), barriers@.to_set())) by {
                if out1.contains(h) {
                    if !out0.contains(h) {
                        let t = choose|t: int|
                            0 <= t < j && step_ok(last, #[trigger] ns@[t], walkable@.to_set(), barriers@.to_set())
                                && !p.contains(ns@[t]) && extends_to(p.push(ns@[t]), r1, h, walkable@.to_set(), barriers@.to_set());
                        assert(t < j + 1);
                    }
                } else {
                    assert(took);
                    assert(extends_to(p.push(n), r1, h, walkable@.to_set(), barriers@.to_set()));
                    assert(ns@[j as int] == n);
                }
            }
            assert forall|h: Hex| (out0.contains(h) || exists|t: int|
                    0 <= t < j + 1 && step_ok(last, #[trigger] ns@[t], walkable@.to_set(), barriers@.to_set())
                        && !p.contains(ns@[t]) && extends_to(p.push(ns@[t]), r1, h, walkable@.to_set(), barriers@.to_set()))
                implies #[trigger] out@.contains(h) by {
                if !out0.contains(h) {
                    let t = choose|t: int|
                        0 <= t < j + 1 && step_ok(last, #[trigger] ns@[t], walkable@.to_set(), barriers@.to_set())
                            && !p.contains(ns@[t]) && extends_to(p.push(ns@[t]), r1, h, walkable@.to_set(), barriers@.to_set());
                    if t < j {
                        assert(out1.contains(h));
                    } else {
                        assert(ns@[t] == n);
                        assert(took);
                    }
                }
                if out1.contains(h) {
                    assert(out@.contains(h));
                }
            }
        }
        j += 1;
    }
    proof {
        let r1 = (remaining - 1) as nat;
        assert(j == 6);

        assert forall|h: Hex|
            extends_to(p, remaining as nat, h, walkable@.to_set(), barriers@.to_set()) <==> exists|t: int|
                0 <= t < 6 && step_ok(last, #[trigger] ns@[t], walkable@.to_set(), barriers@.to_set()) && !p.contains(
                    ns@[t],
                ) && extends_to(p.push(ns@[t]), r1, h, walkable@.to_set(), barriers@.to_set()) by {
            if extends_to(p, remaining as nat, h, walkable@.to_set(), barriers@.to_set()) {
                let q = choose|q: Seq<Hex>|
                    #![trigger is_simple_path(q, walkable@.to_set(), barriers@.to_set()), q.last()]
                    q.len() == p.len() + remaining && q.subrange(0, p.len() as int) == p
                        && q.last() == h && is_simple_path(q, walkable@.to_set(), barriers@.to_set());
                let n = q[p.len() as int];
                assert(q[p.len() - 1] == p[p.len() - 1]);
                let i = p.len() - 1;
                assert(step_ok(q[i], q[i + 1], walkable@.to_set(), barriers@.to_set()));
                assert(neighbors_of(last).contains(n));
                let t = choose|t: int| 0 <= t < 6 && ns@[t] == n;
                assert(q.subrange(0, p.len() + 1 as int) =~= p.push(n));
                assert(!p.contains(n)) by {
                    if p.contains(n) {
                        let i = choose|i: int| 0 <= i < p.len() && p[i] == n;
                        assert(q[i] == p[i]);
                    }
                }
                assert(extends_to(p.push(n), r1, h, walkable@.to_set(), barriers@.to_set()));
            }
            if exists|t: int|
                0 <= t < 6 && step_ok(last, #[trigger] ns@[t], walkable@.to_set(), barriers@.to_set()) && !p.contains(
                    ns@[t],
                ) && extends_to(p.push(ns@[t]), r1, h, walkable@.to_set(), barriers@.to_set()) {
                let t = choose|t: int|
                    0 <= t < 6 && step_ok(last, #[trigger] ns@[t], walkable@.to_set(), barriers@.to_set())
                        && !p.contains(ns@[t]) && extends_to(
                        p.push(ns@[t]),
                        r1,
                        h,
                        walkable@.to_set(),
                        barriers@.to_set(),
                    );
                let pn = p.push(ns@[t]);
                let q = choose|q: Seq<Hex>|
                    #![trigger is_simple_path(q, walkable@.to_set(), barriers@.to_set()), q.last()]
                    q.len() == pn.len() + r1 && q.subrange(0, pn.len() as int) == pn
                        && q.last() == h && is_simple_path(q, walkable@.to_set(), barriers@.to_set());
                assert(q.subrange(0, p.len() as int) =~= p) by {
                    assert forall|i: int| 0 <= i < p.len() implies q.subrange(0, p.len() as int)[i]
                        == p[i] by {
                        assert(q.subrange(0, pn.len() as int)[i] == pn[i]);
                    }
                }
            }
        }
        assert forall|h: Hex|
            out@.contains(h) <==> (out0.contains(h) || extends_to(
                p,
                remaining as nat,
                h,
                walkable@.to_set(),
                barriers@.to_set(),
            )) by {
            let ex = exists|t: int|
                0 <= t < 6 && step_ok(last, #[trigger] ns@[t], walkable@.to_set(), barriers@.to_set()) && !p.contains(
                    ns@[t],
                ) && extends_to(p.push(ns@[t]), r1, h, walkable@.to_set(), barriers@.to_set());
            assert(extends_to(p, remaining as nat, h, walkable@.to_set(), barriers@.to_set()) == ex);
            if out@.contains(h) && !out0.contains(h) {
                let t = choose|t: int|
                    0 <= t < j && step_ok(last, #[trigger] ns@[t], walkable@.to_set(), barriers@.to_set())
                        && !p.contains(ns@[t]) && extends_to(p.push(ns@[t]), r1, h, walkable@.to_set(), barriers@.to_set());
                assert(ex);
            }
            if ex {
                let t = choose|t: int|
                    0 <= t < 6 && step_ok(last, #[trigger] ns@[t], walkable@.to_set(), barriers@.to_set())
                        && !p.contains(ns@[t]) && extends_to(p.push(ns@[t]), r1, h, walkable@.to_set(), barriers@.to_set());
                assert(t < j);
                assert(step_ok(last, ns@[t], walkable@.to_set(), barriers@.to_set()) && !p.contains(ns@[t])
                    && extends_to(p.push(ns@[t]), r1, h, walkable@.to_set(), barriers@.to_set()));
                assert(exists|t2: int|
                    0 <= t2 < j && step_ok(last, #[trigger] ns@[t2], walkable@.to_set(), barriers@.to_set())
                        && !p.contains(ns@[t2]) && extends_to(p.push(ns@[t2]), r1, h, walkable@.to_set(), barriers@.to_set()));
                assert(out@.contains(h));
            }
        }
    }
}

/// Collects the hexes reachable from `start` by allowed steps, `start` included.
fn flood_fill(start: Hex, walkable: &Vec<Hex>, barriers: &Vec<Hex>) -> (r: Vec<Hex>)
    requires
        start.bounded(),
        all_bounded(walkable@),
    ensures
        r@.len() >= 1,
        r@[0] == start,
        r@.no_duplicates(),
        forall|h: Hex| r@.contains(h) <==> reachable(start, h, walkable@.to_set(), barriers@.to_set()),
{
    let mut visited: Vec<Hex> = vec![start];
    let mut i: usize = 0;
    while i < visited.len()
        invariant
            start.bounded(),
            all_bounded(walkable@),
            visited@.len() >= 1,
            visited@[0] == start,
            i <= visited.len(),
            visited@.no_duplicates(),
            forall|k: int|
                1 <= k < visited.len() ==> walkable@.contains(#[trigger] visited@[k]),
            forall|k: int, b: Hex|
                0 <= k < i && #[trigger] step_ok(visited@[k], b, walkable@.to_set(), barriers@.to_set())
                    ==> visited@.contains(b),
            forall|h: Hex| visited@.contains(h) ==> reachable(start, h, walkable@.to_set(), barriers@.to_set()),
        decreases walkable.len() + 1 - i,
    {
        proof {
            let rest = visited@.subrange(1, visited@.len() as int);
            assert forall|k: int| 0 <= k < rest.len() implies walkable@.contains(#[trigger] rest[k]) by {
                assert(rest[k] == visited@[k + 1]);
            }
            lemma_unique_subseq_len(rest, walkable@);
        }
        let h = visited[i];
        proof {
            if i > 0 {
                let k = choose|k: int| 0 <= k < walkable.len() && walkable@[k] == h;
                assert(walkable@[k].bounded());
            }
            lemma_neighbors_adjacent(h);
        }
        let ns = h.neighbors();
        let mut j: usize = 0;
        while j < ns.len()
            invariant
                start.bounded(),
                all_bounded(walkable@),
                h.bounded(),
                visited@.len() >= 1,
                visited@[0] == start,
                i < visited.len(),
                h == visited@[i as int],
                ns@ == neighbors_of(h),
                j <= ns.len(),
                visited@.no_duplicates(),
                forall|k: int|
                    1 <= k < visited.len() ==> walkable@.contains(#[trigger] visited@[k]),
                forall|k: int, b: Hex|
                    0 <= k < i && #[trigger] step_ok(visited@[k], b, walkable@.to_set(), barriers@.to_set())
                        ==> visited@.contains(b),
                forall|t: int|
                    0 <= t < j && #[trigger] step_ok(h, ns@[t], walkable@.to_set(), barriers@.to_set())
                        ==> visited@.contains(ns@[t]),
                forall|x: Hex| visited@.contains(x) ==> reachable(start, x, walkable@.to_set(), barriers@.to_set()),
            decreases ns.len() - j,
        {
            let n = ns[j];
            proof {
                assert(adjacent(h, ns@[j as int]));
            }
            if can_step(h, n, walkable, barriers) && !contains_hex(&visited, n) {
                let ghost old_visited = visited@;
                proof {
                    assert(old_visited[i as int] == h);
                    assert(old_visited.contains(h));
                }
                visited.push(n);
                proof {
                    assert forall|k: int| 1 <= k < visited.len() implies walkable@.contains(
                        #[trigger] visited@[k],
                    ) by {
                        if k < old_visited.len() {
                            assert(visited@[k] == old_visited[k]);
                        }
                    }
                    assert(reachable(start, n, walkable@.to_set(), barriers@.to_set())) by {
                        assert forall|v: Set<Hex>|
                            #![trigger closed_under_steps(v, walkable@.to_set(), barriers@.to_set())]
                            v.contains(start) && closed_under_steps(v, walkable@.to_set(), barriers@.to_set())
                                implies v.contains(n) by {
                            assert(reachable(start, h, walkable@.to_set(), barriers@.to_set()));
                            assert(v.contains(h));
                        }
                    }
                    assert forall|k: int, b: Hex|
                        0 <= k < i && #[trigger] step_ok(visited@[k], b, walkable@.to_set(), barriers@.to_set())
                            implies visited@.contains(b) by {
                        assert(visited@[k] == old_visited[k]);
                        assert(old_visited.contains(b));
                    }
                }
            }
            j += 1;
        }
        proof {
            assert forall|k: int, b: Hex|
                0 <= k < i + 1 && #[trigger] step_ok(visited@[k], b, walkable@.to_set(), barriers@.to_set())
                    implies visited@.contains(b) by {
                if k == i {
                    assert(neighbors_of(h).contains(b));
                    let t = choose|t: int| 0 <= t < 6 && ns@[t] == b;
                }
            }
        }
        i += 1;
    }
    proof {
        let vs = visited@.to_set();
        assert(vs.contains(start)) by {
            assert(visited@[0] == start);
        }
        assert forall|a: Hex, b: Hex| #[trigger] vs.contains(a) && #[trigger] step_ok(
            a,
            b,
            walkable@.to_set(),
            barriers@.to_set(),
        ) implies vs.contains(b) by {
            let k = choose|k: int| 0 <= k < visited.len() && visited@[k] == a;
            assert(step_ok(visited@[k], b, walkable@.to_set(), barriers@.to_set()));
        }
        assert(closed_under_steps(vs, walkable@.to_set(), barriers@.to_set()));
    }
    visited
}

impl Hex {
    /// The hexes a piece at `self` may end on, sliding over `hexes` and gated
    /// by `barriers`: with `Some(k)`, the ends of the simple paths of exactly
    /// `k` steps (`self` alone for `k == 0`); with `None`, every hex reachable
    /// in one or more steps, `self` excluded.
    pub fn pathfind(&self, hexes: &Vec<Hex>, barriers: &Vec<Hex>, dist: Option<usize>) -> (r: Vec<
        Hex,
    >)
        requires
            self.bounded(),
            all_bounded(hexes@),
        ensures
            r@.no_duplicates(),
            forall|h: Hex| r@.contains(h) <==> pathfind_result(*self, h, hexes@.to_set(), barriers@.to_set(), dist),
    {
        match dist {
            Some(k) => {
                if k == 0 {
                    let r = vec![*self];
                    proof {
                        assert forall|h: Hex| r@.contains(h) <==> h == *self by {
                            if r@.contains(h) {
                                let t = choose|t: int| 0 <= t < r@.len() && r@[t] == h;
                            }
                            if h == *self {
                                assert(r@[0] == h);
                            }
                        }
                    }
                    return r;
                }
                let mut path: Vec<Hex> = vec![*self];
                let mut out: Vec<Hex> = Vec::new();
                proof {
                    assert(all_bounded(path@));
                    assert(is_simple_path(path@, hexes@.to_set(), barriers@.to_set()));
                }
                extend_paths(&mut path, k, hexes, barriers, &mut out);
                proof {
                    let p = seq![*self];
                    assert(path@ == p);
                    assert forall|h: Hex|
                        extends_to(p, k as nat, h, hexes@.to_set(), barriers@.to_set()) <==> reachable_in(
                            *self,
                            h,
                            k as nat,
                            hexes@.to_set(),
                            barriers@.to_set(),
                        ) by {
                        if extends_to(p, k as nat, h, hexes@.to_set(), barriers@.to_set()) {
                            let q = choose|q: Seq<Hex>|
                                #![trigger is_simple_path(q, hexes@.to_set(), barriers@.to_set()), q.last()]
                                q.len() == p.len() + k && q.subrange(0, p.len() as int) == p
                                    && q.last() == h && is_simple_path(q, hexes@.to_set(), barriers@.to_set());
                            assert(q[0] == q.subrange(0, 1)[0]);
                        }
                        if reachable_in(*self, h, k as nat, hexes@.to_set(), barriers@.to_set()) {
                            let q = choose|q: Seq<Hex>|
                                #![trigger is_simple_path(q, hexes@.to_set(), barriers@.to_set()), q.last()]
                                q.len() == k + 1 && q[0] == *self && q.last() == h
                                    && is_simple_path(q, hexes@.to_set(), barriers@.to_set());
                            assert(q.subrange(0, 1) =~= p);
                        }
                    }
                }
                out
            },
            None => {
                let all = flood_fill(*self, hexes, barriers);
                let mut r: Vec<Hex> = Vec::new();
                let mut i: usize = 1;
                while i < all.len()
                    invariant
                        all@.len() >= 1,
                        all@[0] == *self,
                        all@.no_duplicates(),
                        1 <= i <= all.len(),
                        r@.no_duplicates(),
                        forall|h: Hex|
                            r@.contains(h) <==> exists|k: int| 1 <= k < i && all@[k] == h,
                    decreases all.len() - i,
                {
                    proof {
                        assert forall|t: int| 0 <= t < r@.len() implies r@[t] != all@[i as int] by {
                            assert(r@.contains(r@[t]));
                        }
                    }
                    r.push(all[i]);
                    i += 1;
                }
                proof {
                    assert forall|h: Hex|
                        r@.contains(h) <==> (h != *self && all@.contains(h)) by {
                        if h != *self && all@.contains(h) {
                            let k = choose|k: int| 0 <= k < all@.len() && all@[k] == h;
                            assert(k != 0);
                        }
                        if r@.contains(h) {
                            let k = choose|k: int| 1 <= k < i && all@[k] == h;
                            assert(all@[k] != all@[0]);
                        }
                    }
                }
                r
            },
        }
    }
}

/// Every hex of `s` reaches all of `s` by steps between adjacent hexes of `s`.
pub open spec fn connected(s: Set<Hex>) -> bool {
    forall|x: Hex, v: Set<Hex>|
        #![trigger s.contains(x), closed_under_adjacency(v, s)]
        s.contains(x) && v.contains(x) && closed_under_adjacency(v, s) ==> s.subset_of(v)
}

pub proof fn lemma_adjacent_symmetric(a: Hex, b: Hex)
    ensures
        adjacent(a, b) == adjacent(b, a),
{
}

/// A contiguous sequence is connected from every one of its hexes.
pub proof fn lemma_contiguous_connected(a: Seq<Hex>)
    requires
        contiguous(a),
    ensures
        connected(a.to_set()),
{
    let s = a.to_set();
    assert forall|y: Hex, v: Set<Hex>|
        #![trigger s.contains(y), closed_under_adjacency(v, s)]
        s.contains(y) && v.contains(y) && closed_under_adjacency(v, s) implies s.subset_of(v) by {
        if !v.contains(a[0]) {
            let w = s.difference(v);
            assert forall|p: Hex, q: Hex| #[trigger] w.contains(p) && #[trigger] s.contains(q) && adjacent(p, q)
                implies w.contains(q) by {
                lemma_adjacent_symmetric(p, q);
                if v.contains(q) {
                    assert(v.contains(p));
                }
            }
            assert(a.contains(a[0]));
            assert(closed_under_adjacency(w, s));
            assert(s.subset_of(w));
            assert(w.contains(y));
        }
    }
}

/// A connected set that is not empty is contiguous in any order.
pub proof fn lemma_connected_contiguous(a: Seq<Hex>)
    requires
        a.len() > 0,
        connected(a.to_set()),
    ensures
        contiguous(a),
{
    assert(a.to_set().contains(a[0])) by {
        assert(a.contains(a[0]));
    }
}

/// Adding a hex next to a connected set, or already in it, keeps it connected.
pub proof fn lemma_connected_insert(s: Set<Hex>, h: Hex, x: Hex)
    requires
        connected(s),
        s.contains(x),
        adjacent(x, h) || x == h,
    ensures
        connected(s.insert(h)),
{
    let t = s.insert(h);
    assert forall|y: Hex, v: Set<Hex>|
        #![trigger t.contains(y), closed_under_adjacency(v, t)]
        t.contains(y) && v.contains(y) && closed_under_adjacency(v, t) implies t.subset_of(v) by {
        assert(closed_under_adjacency(v, s)) by {
            assert forall|p: Hex, q: Hex| #[trigger] v.contains(p) && #[trigger] s.contains(q) && adjacent(p, q)
                implies v.contains(q) by {
                assert(t.contains(q));
            }
        }
        if s.contains(y) {
            assert(s.subset_of(v));
        } else {
            assert(y == h);
            lemma_adjacent_symmetric(x, h);
            if x != h {
                assert(t.contains(x));
                assert(v.contains(x));
            }
            assert(s.subset_of(v));
        }
        assert(v.contains(x));
        if x != h {
            assert(t.contains(h));
        }
    }
}

/// Whether `h` occurs in `hexes`.
pub fn contains_hex(hexes: &Vec<Hex>, h: Hex) -> (r: bool)
    ensures
        r == hexes@.contains(h),
{
    let mut i: usize = 0;
    while i < hexes.len()
        invariant
            i <= hexes.len(),
            forall|j: int| 0 <= j < i ==> hexes@[j] != h,
        decreases hexes.len() - i,
    {
        if hexes[i] == h {
            return true;
        }
        i += 1;
    }
    false
}

} // verus!
