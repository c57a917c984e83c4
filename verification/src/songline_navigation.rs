//! Songline pathfinding for tile routing: route tiles through the system along a
//! navigable graph of rooms, preferring well-traveled paths (high traversal count).
//!
//! Latencies are whole microseconds. The cost of crossing an edge is its latency
//! divided by its traversal count (at least 1), counted in units of `1 / cost_scale`
//! microseconds, where `cost_scale` is as large as a graph of that many rooms allows
//! (`(2^64 - 1) / rooms`), and rounded down to a whole unit.
use vstd::prelude::*;

verus! {

/// A room identifier in the PLATO system.
pub type RoomId = String;

/// An edge of the songline graph, leading to `target`.
#[derive(Debug)]
pub struct SonglineEdge {
    pub target: RoomId,
    pub traversal_count: u64,
    pub latency_us: u64,
}

impl View for SonglineEdge {
    /// Target room name, traversal count, latency.
    type V = (Seq<char>, u64, u64);

    open spec fn view(&self) -> (Seq<char>, u64, u64) {
        (self.target@, self.traversal_count, self.latency_us)
    }
}

impl Clone for SonglineEdge {
    fn clone(&self) -> (c: Self)
        ensures
            c@ == self@,
    {
        SonglineEdge {
            target: self.target.clone(),
            traversal_count: self.traversal_count,
            latency_us: self.latency_us,
        }
    }
}

/// The songline graph: a navigable knowledge graph of rooms.
#[derive(Debug, Clone)]
pub struct SonglineGraph {
    /// `adjacency[i]` holds the edges leaving `rooms[i]`.
    adjacency: Vec<Vec<SonglineEdge>>,
    /// All known rooms, in the order they were added.
    rooms: Vec<RoomId>,
}

/// `names` after registering room `r`: unchanged when `r` is known, else `r` comes last.
pub open spec fn with_room(names: Seq<Seq<char>>, r: Seq<char>) -> Seq<Seq<char>> {
    if names.contains(r) { names } else { names.push(r) }
}

/// `names` after registering each room of `rs` in turn.
pub open spec fn with_rooms(names: Seq<Seq<char>>, rs: Seq<Seq<char>>) -> Seq<Seq<char>>
    decreases rs.len(),
{
    if rs.len() == 0 { names } else { with_room(with_rooms(names, rs.drop_last()), rs.last()) }
}

/// Edge lists grown to `n` rooms: rooms beyond the old ones have no edges.
pub open spec fn padded(lists: Seq<Seq<(Seq<char>, u64, u64)>>, n: int) -> Seq<Seq<(Seq<char>, u64, u64)>> {
    Seq::new(n as nat, |i: int| if i < lists.len() { lists[i] } else { Seq::empty() })
}

/// Edge lists `base` of rooms `names` after adding an edge of latency `latency` from room
/// `from` to room `to` and one back: the room `from` gains an edge to `to` at the end of
/// its list, then the room `to` gains one to `from`.
pub open spec fn edges_added(
    names: Seq<Seq<char>>,
    base: Seq<Seq<(Seq<char>, u64, u64)>>,
    from: Seq<char>,
    to: Seq<char>,
    latency: u64,
) -> Seq<Seq<(Seq<char>, u64, u64)>> {
    Seq::new(
        names.len(),
        |i: int|
            {
                let fwd: Seq<(Seq<char>, u64, u64)> = if names[i] == from {
                    seq![(to, 1u64, latency)]
                } else {
                    Seq::empty()
                };
                let rev: Seq<(Seq<char>, u64, u64)> = if names[i] == to {
                    seq![(from, 1u64, latency)]
                } else {
                    Seq::empty()
                };
                base[i] + fwd + rev
            },
    )
}

/// Number of cost units in a microsecond on a graph of `rooms` rooms: as many as keep the
/// cost of any route through every room within 128 bits.
pub open spec fn cost_scale(rooms: nat) -> nat {
    if rooms == 0 { 1 } else { (0xffff_ffff_ffff_ffff as nat) / rooms }
}

/// Weight of an edge: its latency, or 1 when routes are weighed by popularity alone.
pub open spec fn edge_weight(e: (Seq<char>, u64, u64), popular: bool) -> nat {
    if popular { 1 } else { e.2 as nat }
}

/// Cost of crossing an edge, in units of `1/scale`: its weight divided by its traversal
/// count (at least 1), rounded down to a whole unit.
#[verifier::opaque]
pub open spec fn edge_cost(e: (Seq<char>, u64, u64), scale: nat, popular: bool) -> nat {
    let count: nat = if e.1 == 0 { 1 } else { e.1 as nat };
    (edge_weight(e, popular) * scale / count) as nat
}

/// Crossing an edge costs its weight (its latency, or 1 for popularity) times `scale`,
/// divided by its traversal count (at least 1), rounded down: `cost · count <= weight · scale
/// < (cost + 1) · count`. Of two edges with the same weight, the one traversed more often
/// never costs more.
pub proof fn lemma_edge_cost_divides_by_traversals(
    e: (Seq<char>, u64, u64),
    f: (Seq<char>, u64, u64),
    scale: nat,
    popular: bool,
)
    ensures
        ({
            let count: nat = if e.1 == 0 { 1 } else { e.1 as nat };
            let w = edge_weight(e, popular) * scale;
            &&& edge_cost(e, scale, popular) * count <= w < (edge_cost(e, scale, popular) + 1) * count
        }),
        edge_weight(e, false) == e.2,
        edge_weight(e, true) == 1,
        edge_weight(e, popular) == edge_weight(f, popular) && e.1 <= f.1 ==> edge_cost(f, scale, popular)
            <= edge_cost(e, scale, popular),
{
    reveal(edge_cost);
    let count: nat = if e.1 == 0 { 1 } else { e.1 as nat };
    let w = edge_weight(e, popular) * scale;
    vstd::arithmetic::div_mod::lemma_fundamental_div_mod(w as int, count as int);
    assert(edge_cost(e, scale, popular) == w / count);
    assert(w / count * count <= w < (w / count + 1) * count) by (nonlinear_arith)
        requires w == count * (w / count) + w % count, 0 <= w % count < count;
    if edge_weight(e, popular) == edge_weight(f, popular) && e.1 <= f.1 {
        let fc: nat = if f.1 == 0 { 1 } else { f.1 as nat };
        assert(count <= fc);
        vstd::arithmetic::div_mod::lemma_div_is_ordered_by_denominator(w as int, count as int, fc as int);
    }
}

/// Position of the first edge of `edges` that leads to `to`; `edges.len()` when none does.
pub open spec fn first_edge_to(edges: Seq<(Seq<char>, u64, u64)>, to: Seq<char>) -> int
    decreases edges.len(),
{
    if edges.len() == 0 {
        0
    } else if edges[0].0 == to {
        0
    } else {
        1 + first_edge_to(edges.drop_first(), to)
    }
}

/// The edges leaving a room after recording one traversal to `to`: the first edge that
/// leads there has its count raised by one; without such an edge nothing changes.
pub open spec fn after_traversal(edges: Seq<(Seq<char>, u64, u64)>, to: Seq<char>) -> Seq<(Seq<char>, u64, u64)> {
    let f = first_edge_to(edges, to);
    if f < edges.len() {
        edges.update(f, (edges[f].0, (edges[f].1 + 1) as u64, edges[f].2))
    } else {
        edges
    }
}

proof fn lemma_first_edge_to(edges: Seq<(Seq<char>, u64, u64)>, to: Seq<char>, j: int)
    requires
        0 <= j <= edges.len(),
        forall|k: int| 0 <= k < j ==> edges[k].0 != to,
        j == edges.len() || edges[j].0 == to,
    ensures
        first_edge_to(edges, to) == j,
    decreases j,
{
    if j > 0 {
        lemma_first_edge_to(edges.drop_first(), to, j - 1);
    }
}

proof fn lemma_with_room_contains(names: Seq<Seq<char>>, r: Seq<char>, x: Seq<char>)
    requires
        names.contains(x) || x == r,
    ensures
        with_room(names, r).contains(x),
{
    if !names.contains(r) {
        if x == r {
            assert(names.push(r)[names.len() as int] == r);
        } else {
            let k = choose|k: int| 0 <= k < names.len() && names[k] == x;
            assert(names.push(r)[k] == x);
        }
    }
}

impl SonglineGraph {
    /// Names of the rooms, in the order they were added.
    pub closed spec fn room_names(&self) -> Seq<Seq<char>> {
        self.rooms@.map_values(|r: String| r@)
    }

    /// `edge_lists()[i]` holds the edges leaving room `room_names()[i]`, in the order added.
    pub closed spec fn edge_lists(&self) -> Seq<Seq<(Seq<char>, u64, u64)>> {
        self.adjacency@.map_values(|v: Vec<SonglineEdge>| v@.map_values(|e: SonglineEdge| e@))
    }

    /// Room names are distinct, every room has an edge list, and every edge leads to a room.
    pub open spec fn well_formed(&self) -> bool {
        &&& self.edge_lists().len() == self.room_names().len()
        &&& forall|i: int, j: int|
            0 <= i < j < self.room_names().len() ==> self.room_names()[i] != self.room_names()[j]
        &&& forall|i: int, j: int|
            #![trigger self.edge_lists()[i][j]]
            0 <= i < self.edge_lists().len() && 0 <= j < self.edge_lists()[i].len()
                ==> self.room_names().contains(self.edge_lists()[i][j].0)
    }

    /// There is an edge from room `from` to room `to`.
    pub open spec fn has_edge(&self, from: Seq<char>, to: Seq<char>) -> bool {
        exists|i: int, j: int|
            0 <= i < self.room_names().len() && self.room_names()[i] == from && 0 <= j
                < self.edge_lists()[i].len() && #[trigger] self.edge_lists()[i][j].0 == to
    }

    /// `path` is a route through the graph: known rooms, each joined to the next by an edge.
    pub open spec fn is_route(&self, path: Seq<Seq<char>>) -> bool {
        &&& path.len() >= 1
        &&& forall|k: int| 0 <= k < path.len() ==> self.room_names().contains(#[trigger] path[k])
        &&& forall|k: int| 0 <= k < path.len() - 1 ==> self.has_edge(#[trigger] path[k], path[k + 1])
    }

    /// Some route leads from room `from` to room `to`.
    pub open spec fn reachable(&self, from: Seq<char>, to: Seq<char>) -> bool {
        exists|path: Seq<Seq<char>>| #[trigger] self.is_route(path) && path[0] == from && path.last() == to
    }

    /// An empty graph.
    pub fn new() -> (g: Self)
        ensures
            g.well_formed(),
            g.room_names() == Seq::<Seq<char>>::empty(),
            g.edge_lists() == Seq::<Seq<(Seq<char>, u64, u64)>>::empty(),
            g.is_bidirectional(),
    {
        let g = SonglineGraph { adjacency: Vec::new(), rooms: Vec::new() };
        assert(g.room_names() =~= Seq::<Seq<char>>::empty());
        assert(g.edge_lists() =~= Seq::<Seq<(Seq<char>, u64, u64)>>::empty());
        g
    }

    /// Index of the room named `name`, if there is one.
    fn room_index(&self, name: &String) -> (r: Option<usize>)
        requires
            self.well_formed(),
        ensures
            match r {
                Some(i) => i < self.room_names().len() && self.room_names()[i as int] == name@,
                None => !self.room_names().contains(name@),
            },
    {
        let mut i: usize = 0;
        while i < self.rooms.len()
            invariant
                0 <= i <= self.rooms@.len(),
                forall|k: int| 0 <= k < i ==> self.room_names()[k] != name@,
                self.room_names().len() == self.rooms@.len(),
            decreases self.rooms@.len() - i,
        {
            if self.rooms[i] == *name {
                return Some(i);
            }
            i += 1;
        }
        None
    }

    /// Register a room (nothing changes when a room of that name is known).
    pub fn add_room(&mut self, room: RoomId)
        requires
            old(self).well_formed(),
        ensures
            final(self).well_formed(),
            final(self).room_names() == with_room(old(self).room_names(), room@),
            final(self).edge_lists() == padded(old(self).edge_lists(), final(self).room_names().len() as int),
    {
        let ghost old_names = self.room_names();
        let ghost old_lists = self.edge_lists();
        match self.room_index(&room) {
            Some(_) => {
                assert(old_names.contains(room@));
                assert(self.edge_lists() =~= padded(old_lists, old_names.len() as int));
            }
            None => {
                self.rooms.push(room);
                self.adjacency.push(Vec::new());
                assert(self.room_names() =~= old_names.push(room@));
                assert(self.edge_lists() =~~= padded(old_lists, self.room_names().len() as int));
                assert forall|i: int, j: int|
                    0 <= i < self.edge_lists().len() && 0 <= j < self.edge_lists()[i].len()
                    implies self.room_names().contains(#[trigger] self.edge_lists()[i][j].0) by {
                    assert(i < old_lists.len());
                    assert(old_lists[i][j] == self.edge_lists()[i][j]);
                    let k = choose|k: int| 0 <= k < old_names.len() && old_names[k] == old_lists[i][j].0;
                    assert(self.room_names()[k] == old_names[k]);
                }
            }
        }
    }

    /// Record a traversal from room `from` to room `to`: the first edge of `from` that
    /// leads to `to` has its traversal count raised by one.
    pub fn record_traversal(&mut self, from: &str, to: &str)
        requires
            old(self).well_formed(),
            forall|i: int|
                0 <= i < old(self).room_names().len() && old(self).room_names()[i] == from@ && first_edge_to(
                    old(self).edge_lists()[i],
                    to@,
                ) < old(self).edge_lists()[i].len() ==> #[trigger] old(self).edge_lists()[i][first_edge_to(
                    old(self).edge_lists()[i],
                    to@,
                )].1 < u64::MAX,
        ensures
            final(self).well_formed(),
            final(self).room_names() == old(self).room_names(),
            final(self).edge_lists().len() == old(self).edge_lists().len(),
            forall|i: int|
                0 <= i < old(self).edge_lists().len() ==> #[trigger] final(self).edge_lists()[i] == if old(
                    self,
                ).room_names()[i] == from@ {
                    after_traversal(old(self).edge_lists()[i], to@)
                } else {
                    old(self).edge_lists()[i]
                },
    {
        let ghost names = self.room_names();
        let ghost lists = self.edge_lists();
        let from_s = from.to_owned();
        let to_s = to.to_owned();
        let i = match self.room_index(&from_s) {
            Some(i) => i,
            None => {
                assert forall|k: int| 0 <= k < lists.len() implies #[trigger] self.edge_lists()[k] == if names[k]
                    == from@ {
                    after_traversal(lists[k], to@)
                } else {
                    lists[k]
                } by {
                    assert(names[k] != from@);
                }
                return;
            }
        };
        let m = self.adjacency[i].len();
        let mut j: usize = 0;
        while j < m
            invariant
                self.well_formed(),
                self.room_names() == names,
                self.edge_lists() == lists,
                names == old(self).room_names(),
                lists == old(self).edge_lists(),
                i < names.len(),
                m == lists[i as int].len(),
                0 <= j <= m,
                to_s@ == to@,
                names[i as int] == from@,
                first_edge_to(lists[i as int], to@) < lists[i as int].len() ==> lists[i as int][first_edge_to(
                    lists[i as int],
                    to@,
                )].1 < u64::MAX,
                forall|k: int| 0 <= k < j ==> lists[i as int][k].0 != to_s@,
            decreases m - j,
        {
            assert(self.adjacency@[i as int]@[j as int]@ == lists[i as int][j as int]);
            if self.adjacency[i][j].target == to_s {
                proof {
                    lemma_first_edge_to(lists[i as int], to@, j as int);
                }
                let e = self.adjacency[i][j].clone();
                assert(e@ == lists[i as int][j as int]);
                let bumped = SonglineEdge {
                    target: e.target,
                    traversal_count: e.traversal_count + 1,
                    latency_us: e.latency_us,
                };
                let mut edges: Vec<SonglineEdge> = Vec::new();
                self.adjacency.set_and_swap(i, &mut edges);
                edges.set(j, bumped);
                self.adjacency.set_and_swap(i, &mut edges);
                proof {
                    let new_lists = self.edge_lists();
                    assert(self.room_names() =~= names);
                    assert(new_lists.len() == lists.len());
                    assert(new_lists[i as int] =~= after_traversal(lists[i as int], to@));
                    assert forall|k: int| 0 <= k < lists.len() implies #[trigger] new_lists[k] == if names[k]
                        == from@ {
                        after_traversal(lists[k], to@)
                    } else {
                        lists[k]
                    } by {
                        if k != i {
                            assert(new_lists[k] =~= lists[k]);
                            assert(names[k] != from@);
                        }
                    }
                    assert forall|a: int, b: int|
                        0 <= a < new_lists.len() && 0 <= b < new_lists[a].len()
                        implies self.room_names().contains(#[trigger] new_lists[a][b].0) by {
                        assert(new_lists[a][b].0 == lists[a][b].0);
                    }
                }
                return;
            }
            j += 1;
        }
        proof {
            lemma_first_edge_to(lists[i as int], to@, m as int);
            assert forall|k: int| 0 <= k < lists.len() implies #[trigger] self.edge_lists()[k] == if names[k]
                == from@ {
                after_traversal(lists[k], to@)
            } else {
                lists[k]
            } by {}
        }
    }

    /// All rooms, in the order they were added.
    pub fn rooms(&self) -> (r: &[RoomId])
        ensures
            r@.map_values(|x: String| x@) == self.room_names(),
    {
        self.rooms.as_slice()
    }

    /// The edges leaving `room`, when it is a known room.
    pub fn edges_from(&self, room: &str) -> (r: Option<&[SonglineEdge]>)
        requires
            self.well_formed(),
        ensures
            match r {
                Some(es) => exists|i: int|
                    0 <= i < self.room_names().len() && self.room_names()[i] == room@
                        && es@.map_values(|e: SonglineEdge| e@) == #[trigger] self.edge_lists()[i],
                None => !self.room_names().contains(room@),
            },
    {
        let name = room.to_owned();
        match self.room_index(&name) {
            Some(i) => {
                let es = self.adjacency[i].as_slice();
                assert(es@.map_values(|e: SonglineEdge| e@) =~= self.edge_lists()[i as int]);
                Some(es)
            }
            None => None,
        }
    }

    /// Append `edge` to the edges of room `i`.
    fn push_edge(&mut self, i: usize, edge: SonglineEdge)
        requires
            old(self).well_formed(),
            i < old(self).room_names().len(),
            old(self).room_names().contains(edge.target@),
        ensures
            final(self).well_formed(),
            final(self).room_names() == old(self).room_names(),
            final(self).edge_lists() == old(self).edge_lists().update(
                i as int,
                old(self).edge_lists()[i as int].push(edge@),
            ),
    {
        let ghost old_names = self.room_names();
        let ghost old_lists = self.edge_lists();
        let ghost e = edge@;
        let mut edges: Vec<SonglineEdge> = Vec::new();
        self.adjacency.set_and_swap(i, &mut edges);
        edges.push(edge);
        self.adjacency.set_and_swap(i, &mut edges);
        assert(self.room_names() == old_names);
        assert(self.edge_lists() =~~= old_lists.update(i as int, old_lists[i as int].push(e)));
        assert forall|a: int, b: int|
            0 <= a < self.edge_lists().len() && 0 <= b < self.edge_lists()[a].len()
            implies self.room_names().contains(#[trigger] self.edge_lists()[a][b].0) by {
            if a == i && b == old_lists[i as int].len() {
                assert(self.edge_lists()[a][b] == e);
            } else {
                assert(self.edge_lists()[a][b] == old_lists[a][b]);
            }
        }
    }

    /// Add an edge between two rooms, in both directions; the rooms are registered first.
    /// Each new edge starts with a traversal count of 1.
    pub fn add_edge(&mut self, from: RoomId, to: RoomId, latency_us: u64)
        requires
            old(self).well_formed(),
        ensures
            final(self).well_formed(),
            final(self).room_names() == with_room(with_room(old(self).room_names(), from@), to@),
            final(self).edge_lists() == edges_added(
                final(self).room_names(),
                padded(old(self).edge_lists(), final(self).room_names().len() as int),
                from@,
                to@,
                latency_us,
            ),
    {
        let ghost old_lists = self.edge_lists();
        self.add_room(from.clone());
        self.add_room(to.clone());
        let ghost names = self.room_names();
        let ghost base = self.edge_lists();
        proof {
            let old_names = old(self).room_names();
            lemma_with_room_contains(old_names, from@, from@);
            lemma_with_room_contains(with_room(old_names, from@), to@, from@);
            lemma_with_room_contains(with_room(old_names, from@), to@, to@);
        }
        let fi = match self.room_index(&from) {
            Some(i) => i,
            None => {
                assert(false);
                return;
            }
        };
        let ti = match self.room_index(&to) {
            Some(i) => i,
            None => {
                assert(false);
                return;
            }
        };
        let to_name = to.clone();
        let from_name = from.clone();
        self.push_edge(fi, SonglineEdge { target: to_name, traversal_count: 1, latency_us });
        self.push_edge(ti, SonglineEdge { target: from_name, traversal_count: 1, latency_us });
        let ghost expect = edges_added(names, base, from@, to@, latency_us);
        assert forall|i: int| 0 <= i < names.len() implies #[trigger] self.edge_lists()[i] =~= expect[i] by {
            if names[i] == from@ {
                assert(i == fi);
            }
            if names[i] == to@ {
                assert(i == ti);
            }
        }
        assert(self.edge_lists() =~= expect);
    }
}

impl Default for SonglineGraph {
    fn default() -> (g: Self)
        ensures
            g.well_formed(),
            g.room_names() == Seq::<Seq<char>>::empty(),
            g.edge_lists() == Seq::<Seq<(Seq<char>, u64, u64)>>::empty(),
            g.is_bidirectional(),
    {
        Self::new()
    }
}

impl SonglineGraph {
    /// Every edge has a partner leading back: the graph can be walked both ways.
    pub open spec fn is_bidirectional(&self) -> bool {
        forall|a: Seq<char>, b: Seq<char>| #[trigger] self.has_edge(a, b) ==> self.has_edge(b, a)
    }
}

proof fn lemma_with_room_prefix(names: Seq<Seq<char>>, r: Seq<char>)
    ensures
        with_room(names, r).len() >= names.len(),
        forall|k: int| 0 <= k < names.len() ==> #[trigger] with_room(names, r)[k] == names[k],
{
}

/// Adding an edge adds it in both directions: afterwards each of the two rooms has an
/// edge to the other, and a graph whose every edge leads back keeps that property.
pub proof fn lemma_add_edge_goes_both_ways(
    before: SonglineGraph,
    after: SonglineGraph,
    from: Seq<char>,
    to: Seq<char>,
    latency: u64,
)
    requires
        before.well_formed(),
        after.room_names() == with_room(with_room(before.room_names(), from), to),
        after.edge_lists() == edges_added(
            after.room_names(),
            padded(before.edge_lists(), after.room_names().len() as int),
            from,
            to,
            latency,
        ),
    ensures
        after.has_edge(from, to),
        after.has_edge(to, from),
        before.is_bidirectional() ==> after.is_bidirectional(),
{
    let old_names = before.room_names();
    let old_lists = before.edge_lists();
    let names = after.room_names();
    let lists = after.edge_lists();
    let base = padded(old_lists, names.len() as int);
    lemma_with_room_contains(old_names, from, from);
    lemma_with_room_contains(with_room(old_names, from), to, from);
    lemma_with_room_contains(with_room(old_names, from), to, to);
    lemma_with_room_prefix(old_names, from);
    lemma_with_room_prefix(with_room(old_names, from), to);
    let fi = choose|k: int| 0 <= k < names.len() && names[k] == from;
    let ti = choose|k: int| 0 <= k < names.len() && names[k] == to;
    let jf = base[fi].len() as int;
    assert(lists[fi][jf].0 == to);
    assert(after.has_edge(from, to));
    let jt = lists[ti].len() - 1;
    assert(lists[ti][jt].0 == from);
    assert(after.has_edge(to, from));
    if before.is_bidirectional() {
        assert forall|a: Seq<char>, b: Seq<char>| #[trigger] after.has_edge(a, b) implies after.has_edge(b, a) by {
            let (i, j) = choose|i: int, j: int|
                0 <= i < names.len() && names[i] == a && 0 <= j < lists[i].len() && #[trigger] lists[i][j].0 == b;
            if j < base[i].len() {
                assert(i < old_names.len());
                assert(names[i] == old_names[i]);
                assert(lists[i][j] == old_lists[i][j]);
                assert(before.has_edge(a, b));
                let (i2, j2) = choose|i2: int, j2: int|
                    0 <= i2 < old_names.len() && old_names[i2] == b && 0 <= j2 < old_lists[i2].len()
                        && #[trigger] old_lists[i2][j2].0 == a;
                assert(names[i2] == b);
                assert(lists[i2][j2] == old_lists[i2][j2]);
            } else if names[i] == from && j == base[i].len() {
                assert(a == from && b == to);
            } else {
                assert(a == to && b == from);
            }
        }
    }
}

/// Registering a room adds no edge and removes none.
pub proof fn lemma_add_room_keeps_edges(before: SonglineGraph, after: SonglineGraph, room: Seq<char>)
    requires
        before.well_formed(),
        after.room_names() == with_room(before.room_names(), room),
        after.edge_lists() == padded(before.edge_lists(), after.room_names().len() as int),
    ensures
        forall|a: Seq<char>, b: Seq<char>| #[trigger] after.has_edge(a, b) == before.has_edge(a, b),
        before.is_bidirectional() ==> after.is_bidirectional(),
{
    lemma_with_room_prefix(before.room_names(), room);
    assert forall|a: Seq<char>, b: Seq<char>| #[trigger] after.has_edge(a, b) == before.has_edge(a, b) by {
        if after.has_edge(a, b) {
            let (i, j) = choose|i: int, j: int|
                0 <= i < after.room_names().len() && after.room_names()[i] == a && 0 <= j
                    < after.edge_lists()[i].len() && #[trigger] after.edge_lists()[i][j].0 == b;
            assert(before.edge_lists()[i][j] == after.edge_lists()[i][j]);
        }
        if before.has_edge(a, b) {
            let (i, j) = choose|i: int, j: int|
                0 <= i < before.room_names().len() && before.room_names()[i] == a && 0 <= j
                    < before.edge_lists()[i].len() && #[trigger] before.edge_lists()[i][j].0 == b;
            assert(after.edge_lists()[i][j] == before.edge_lists()[i][j]);
        }
    }
}

proof fn lemma_first_edge_to_bounds(edges: Seq<(Seq<char>, u64, u64)>, to: Seq<char>)
    ensures
        0 <= first_edge_to(edges, to) <= edges.len(),
        first_edge_to(edges, to) < edges.len() ==> edges[first_edge_to(edges, to)].0 == to,
    decreases edges.len(),
{
    if edges.len() > 0 && edges[0].0 != to {
        lemma_first_edge_to_bounds(edges.drop_first(), to);
    }
}

proof fn lemma_after_traversal_targets(edges: Seq<(Seq<char>, u64, u64)>, to: Seq<char>)
    ensures
        after_traversal(edges, to).len() == edges.len(),
        forall|j: int| 0 <= j < edges.len() ==> #[trigger] after_traversal(edges, to)[j].0 == edges[j].0,
{
    lemma_first_edge_to_bounds(edges, to);
    let f = first_edge_to(edges, to);
    if f < edges.len() {
        assert forall|j: int| 0 <= j < edges.len() implies #[trigger] after_traversal(edges, to)[j].0 == edges[j].0 by {
            if j == f {
                assert(after_traversal(edges, to)[j] == (edges[f].0, (edges[f].1 + 1) as u64, edges[f].2));
            }
        }
    }
}

/// Recording a traversal changes a count only: it adds no edge and removes none.
pub proof fn lemma_traversal_keeps_edges(before: SonglineGraph, after: SonglineGraph, from: Seq<char>, to: Seq<char>)
    requires
        before.well_formed(),
        after.room_names() == before.room_names(),
        after.edge_lists().len() == before.edge_lists().len(),
        forall|i: int|
            0 <= i < before.edge_lists().len() ==> #[trigger] after.edge_lists()[i] == if before.room_names()[i]
                == from {
                after_traversal(before.edge_lists()[i], to)
            } else {
                before.edge_lists()[i]
            },
    ensures
        forall|a: Seq<char>, b: Seq<char>| #[trigger] after.has_edge(a, b) == before.has_edge(a, b),
        before.is_bidirectional() ==> after.is_bidirectional(),
{
    assert forall|i: int, j: int|
        0 <= i < before.edge_lists().len() && 0 <= j < before.edge_lists()[i].len() implies after.edge_lists()[i].len()
        == before.edge_lists()[i].len() && (#[trigger] after.edge_lists()[i][j]).0 == before.edge_lists()[i][j].0 by {
        assert(after.edge_lists()[i] == if before.room_names()[i] == from {
            after_traversal(before.edge_lists()[i], to)
        } else {
            before.edge_lists()[i]
        });
        lemma_after_traversal_targets(before.edge_lists()[i], to);
    }
    assert forall|a: Seq<char>, b: Seq<char>| #[trigger] after.has_edge(a, b) == before.has_edge(a, b) by {
        if after.has_edge(a, b) {
            let (i, j) = choose|i: int, j: int|
                0 <= i < after.room_names().len() && after.room_names()[i] == a && 0 <= j
                    < after.edge_lists()[i].len() && #[trigger] after.edge_lists()[i][j].0 == b;
            assert(after.edge_lists()[i] == if before.room_names()[i] == from {
                after_traversal(before.edge_lists()[i], to)
            } else {
                before.edge_lists()[i]
            });
            lemma_after_traversal_targets(before.edge_lists()[i], to);
            assert(before.edge_lists()[i][j].0 == b);
        }
        if before.has_edge(a, b) {
            let (i, j) = choose|i: int, j: int|
                0 <= i < before.room_names().len() && before.room_names()[i] == a && 0 <= j
                    < before.edge_lists()[i].len() && #[trigger] before.edge_lists()[i][j].0 == b;
            assert(after.edge_lists()[i][j].0 == b);
        }
    }
}

/// In a graph whose every edge leads back, every route can be walked back: when a path
/// leads from `a` to `b`, one leads from `b` to `a`.
pub proof fn lemma_routes_walk_back(graph: SonglineGraph, a: Seq<char>, b: Seq<char>)
    requires
        graph.is_bidirectional(),
        graph.reachable(a, b),
    ensures
        graph.reachable(b, a),
{
    let path = choose|path: Seq<Seq<char>>| #[trigger] graph.is_route(path) && path[0] == a && path.last() == b;
    let n = path.len() as int;
    let back = path.reverse();
    assert forall|k: int| 0 <= k < back.len() implies graph.room_names().contains(#[trigger] back[k]) by {
        assert(back[k] == path[n - 1 - k]);
    }
    assert forall|k: int| 0 <= k < back.len() - 1 implies graph.has_edge(#[trigger] back[k], back[k + 1]) by {
        assert(back[k] == path[n - 1 - k]);
        assert(back[k + 1] == path[n - 2 - k]);
        assert(graph.has_edge(path[n - 2 - k], path[(n - 2 - k) + 1]));
    }
    assert(graph.is_route(back) && back[0] == b && back.last() == a);
}

/// `a` is a shorter distance than `b`, where `None` stands for infinity.
pub open spec fn dist_less(a: Option<u128>, b: Option<u128>) -> bool {
    match (a, b) {
        (Some(x), Some(y)) => x < y,
        (Some(_), None) => true,
        _ => false,
    }
}

/// Number of `true` entries.
pub open spec fn count_true(s: Seq<bool>) -> nat
    decreases s.len(),
{
    if s.len() == 0 {
        0
    } else {
        count_true(s.drop_last()) + if s.last() { 1nat } else { 0nat }
    }
}

proof fn lemma_count_true_bounds(s: Seq<bool>)
    ensures
        count_true(s) <= s.len(),
        count_true(s) == s.len() ==> forall|i: int| 0 <= i < s.len() ==> s[i],
    decreases s.len(),
{
    if s.len() > 0 {
        lemma_count_true_bounds(s.drop_last());
        assert forall|i: int| 0 <= i < s.len() && count_true(s) == s.len() implies s[i] by {
            if i < s.len() - 1 {
                assert(s.drop_last()[i] == s[i]);
            }
        }
    }
}

proof fn lemma_count_true_set(s: Seq<bool>, i: int)
    requires
        0 <= i < s.len(),
        !s[i],
    ensures
        count_true(s.update(i, true)) == count_true(s) + 1,
    decreases s.len(),
{
    let t = s.update(i, true);
    if i < s.len() - 1 {
        assert(t.drop_last() =~= s.drop_last().update(i, true));
        lemma_count_true_set(s.drop_last(), i);
    } else {
        assert(t.drop_last() =~= s.drop_last());
    }
}

proof fn lemma_count_true_zero(s: Seq<bool>)
    requires
        forall|i: int| 0 <= i < s.len() ==> !s[i],
    ensures
        count_true(s) == 0,
    decreases s.len(),
{
    if s.len() > 0 {
        lemma_count_true_zero(s.drop_last());
    }
}

fn dist_lt(a: Option<u128>, b: Option<u128>) -> (r: bool)
    ensures
        r == dist_less(a, b),
{
    match (a, b) {
        (Some(x), Some(y)) => x < y,
        (Some(_), None) => true,
        _ => false,
    }
}

/// The unvisited room of least distance, the earliest one among equals;
/// `None` when every room is visited.
fn select_next(visited: &Vec<bool>, dist: &Vec<Option<u128>>) -> (r: Option<usize>)
    requires
        visited@.len() == dist@.len(),
    ensures
        r is None <==> forall|i: int| 0 <= i < visited@.len() ==> visited@[i],
        r matches Some(c) ==> {
            &&& c < visited@.len()
            &&& !visited@[c as int]
            &&& forall|j: int| 0 <= j < visited@.len() && !visited@[j] ==> !dist_less(dist@[j], dist@[c as int])
            &&& forall|j: int| 0 <= j < c && !visited@[j] ==> dist_less(dist@[c as int], dist@[j])
        },
{
    let n = visited.len();
    let mut best: Option<usize> = None;
    let mut i: usize = 0;
    while i < n
        invariant
            n == visited@.len(),
            n == dist@.len(),
            0 <= i <= n,
            best is None ==> forall|k: int| 0 <= k < i ==> visited@[k],
            best matches Some(c) ==> {
                &&& c < i
                &&& !visited@[c as int]
                &&& forall|j: int| 0 <= j < i && !visited@[j] ==> !dist_less(dist@[j], dist@[c as int])
                &&& forall|j: int| 0 <= j < c && !visited@[j] ==> dist_less(dist@[c as int], dist@[j])
            },
        decreases n - i,
    {
        if !visited[i] {
            match best {
                None => {
                    best = Some(i);
                }
                Some(c) => {
                    if dist_lt(dist[i], dist[c]) {
                        best = Some(i);
                    }
                }
            }
        }
        i += 1;
    }
    best
}

impl SonglineGraph {
    /// There is an edge from room number `u` to room number `v`.
    pub open spec fn has_edge_at(&self, u: int, v: int) -> bool {
        exists|j: int|
            0 <= j < self.edge_lists()[u].len() && #[trigger] self.edge_lists()[u][j].0 == self.room_names()[v]
    }
}

/// Cheapest cost of the edges of `edges` that lead to `to`; `None` when none does.
pub open spec fn min_cost_to(edges: Seq<(Seq<char>, u64, u64)>, to: Seq<char>, scale: nat, popular: bool) -> Option<nat>
    decreases edges.len(),
{
    if edges.len() == 0 {
        None
    } else {
        let rest = min_cost_to(edges.drop_last(), to, scale, popular);
        let c = edge_cost(edges.last(), scale, popular);
        if edges.last().0 == to {
            match rest {
                Some(r) => if r < c { Some(r) } else { Some(c) },
                None => Some(c),
            }
        } else {
            rest
        }
    }
}

proof fn lemma_min_cost_to(edges: Seq<(Seq<char>, u64, u64)>, to: Seq<char>, scale: nat, popular: bool)
    ensures
        min_cost_to(edges, to, scale, popular) is Some <==> exists|j: int| 0 <= j < edges.len() && #[trigger] edges[j].0 == to,
        min_cost_to(edges, to, scale, popular) matches Some(m) ==> exists|j: int|
            0 <= j < edges.len() && #[trigger] edges[j].0 == to && edge_cost(edges[j], scale, popular) == m,
        min_cost_to(edges, to, scale, popular) matches Some(m) ==> forall|j: int|
            0 <= j < edges.len() && #[trigger] edges[j].0 == to ==> m <= edge_cost(edges[j], scale, popular),
    decreases edges.len(),
{
    if edges.len() > 0 {
        let pre = edges.drop_last();
        lemma_min_cost_to(pre, to, scale, popular);
        assert forall|j: int| 0 <= j < pre.len() implies #[trigger] pre[j] == edges[j] by {}
        let last = edges.len() - 1;
        if min_cost_to(edges, to, scale, popular) is Some {
            if edges.last().0 != to {
                let j = choose|j: int| 0 <= j < pre.len() && #[trigger] pre[j].0 == to;
                assert(edges[j].0 == to);
            } else {
                assert(edges[last].0 == to);
            }
        }
        if exists|j: int| 0 <= j < edges.len() && #[trigger] edges[j].0 == to {
            let j = choose|j: int| 0 <= j < edges.len() && #[trigger] edges[j].0 == to;
            if j < last {
                assert(pre[j].0 == to);
            }
        }
        if let Some(m) = min_cost_to(edges, to, scale, popular) {
            if edges.last().0 == to {
                match min_cost_to(pre, to, scale, popular) {
                    Some(r) => {
                        if r < edge_cost(edges.last(), scale, popular) {
                            let j = choose|j: int| 0 <= j < pre.len() && #[trigger] pre[j].0 == to && edge_cost(pre[j], scale, popular) == r;
                            assert(edges[j].0 == to);
                        } else {
                            assert(edges[last].0 == to);
                        }
                    },
                    None => {
                        assert(edges[last].0 == to);
                    },
                }
            } else {
                let j = choose|j: int| 0 <= j < pre.len() && #[trigger] pre[j].0 == to && edge_cost(pre[j], scale, popular) == m;
                assert(edges[j].0 == to);
            }
            assert forall|j: int| 0 <= j < edges.len() && #[trigger] edges[j].0 == to implies m <= edge_cost(edges[j], scale, popular) by {
                if j < last {
                    assert(pre[j].0 == to);
                }
            }
        }
    }
}

impl SonglineGraph {
    /// Position of the room named `name`.
    pub open spec fn room_pos(&self, name: Seq<char>) -> int {
        choose|i: int| 0 <= i < self.room_names().len() && self.room_names()[i] == name
    }

    /// Cost units per microsecond on this graph.
    pub open spec fn cost_scale(&self) -> nat {
        cost_scale(self.room_names().len())
    }

    /// Cost of the cheapest edge from room `from` to room `to`, weighed by latency or,
    /// when `popular`, by popularity alone.
    pub open spec fn hop_cost(&self, from: Seq<char>, to: Seq<char>, popular: bool) -> nat {
        match min_cost_to(self.edge_lists()[self.room_pos(from)], to, self.cost_scale(), popular) {
            Some(c) => c,
            None => 0,
        }
    }

    /// Cost of a route: the sum of the cheapest edge costs between consecutive rooms.
    pub open spec fn route_cost(&self, path: Seq<Seq<char>>, popular: bool) -> nat
        decreases path.len(),
    {
        if path.len() <= 1 {
            0
        } else {
            self.route_cost(path.drop_last(), popular) + self.hop_cost(path[path.len() - 2], path[path.len() - 1], popular)
        }
    }
}

impl SonglineGraph {
    /// `path` is a cheapest route from `from` to `to` that passes no room twice.
    pub open spec fn is_cheapest_route(&self, path: Seq<Seq<char>>, from: Seq<char>, to: Seq<char>, popular: bool) -> bool {
        &&& self.is_route(path)
        &&& path[0] == from
        &&& path.last() == to
        &&& forall|i: int, j: int| 0 <= i < j < path.len() ==> path[i] != path[j]
        &&& forall|q: Seq<Seq<char>>|
            #[trigger] self.is_route(q) && q[0] == from && q.last() == to ==> self.route_cost(path, popular)
                <= self.route_cost(q, popular)
    }
}

proof fn lemma_cost_scale(n: nat)
    requires
        n <= 0xffff_ffff_ffff_ffff,
    ensures
        1 <= cost_scale(n) <= 0xffff_ffff_ffff_ffff,
        n * cost_scale(n) <= 0xffff_ffff_ffff_ffff,
{
    if n > 0 {
        let m: int = 0xffff_ffff_ffff_ffff;
        vstd::arithmetic::div_mod::lemma_fundamental_div_mod(m, n as int);
        vstd::arithmetic::div_mod::lemma_mod_bound(m, n as int);
        let q = m / (n as int);
        assert(q >= 1 && q <= m) by (nonlinear_arith)
            requires
                m == (n as int) * q + m % (n as int),
                0 <= m % (n as int) < n,
                1 <= n <= m;
    }
}

proof fn lemma_room_pos(g: &SonglineGraph, i: int)
    requires
        g.well_formed(),
        0 <= i < g.room_names().len(),
    ensures
        g.room_pos(g.room_names()[i]) == i,
{
    let names = g.room_names();
    let j = g.room_pos(names[i]);
    assert(0 <= j < names.len() && names[j] == names[i]);
}

proof fn lemma_route_prefix(g: &SonglineGraph, path: Seq<Seq<char>>, m: int, popular: bool)
    requires
        g.is_route(path),
        1 <= m <= path.len(),
    ensures
        g.is_route(path.subrange(0, m)),
        g.route_cost(path.subrange(0, m), popular) <= g.route_cost(path, popular),
    decreases path.len(),
{
    let pre = path.subrange(0, m);
    assert forall|k: int| 0 <= k < pre.len() implies g.room_names().contains(#[trigger] pre[k]) by {
        assert(pre[k] == path[k]);
    }
    assert forall|k: int| 0 <= k < pre.len() - 1 implies g.has_edge(#[trigger] pre[k], pre[k + 1]) by {
        assert(pre[k] == path[k]);
        assert(pre[k + 1] == path[k + 1]);
    }
    if m < path.len() {
        let shorter = path.drop_last();
        assert forall|k: int| 0 <= k < shorter.len() implies g.room_names().contains(#[trigger] shorter[k]) by {
            assert(shorter[k] == path[k]);
        }
        assert forall|k: int| 0 <= k < shorter.len() - 1 implies g.has_edge(#[trigger] shorter[k], shorter[k + 1]) by {
            assert(shorter[k] == path[k]);
            assert(shorter[k + 1] == path[k + 1]);
        }
        lemma_route_prefix(g, shorter, m, popular);
        assert(shorter.subrange(0, m) =~= pre);
    } else {
        assert(pre =~= path);
    }
}

proof fn lemma_route_cost_prepend(g: &SonglineGraph, a: Seq<char>, path: Seq<Seq<char>>, popular: bool)
    requires
        path.len() >= 1,
    ensures
        g.route_cost(seq![a] + path, popular) == g.hop_cost(a, path[0], popular) + g.route_cost(path, popular),
    decreases path.len(),
{
    let full = seq![a] + path;
    if path.len() > 1 {
        lemma_route_cost_prepend(g, a, path.drop_last(), popular);
        assert(full.drop_last() =~= seq![a] + path.drop_last());
        assert(full[full.len() - 2] == path[path.len() - 2]);
        assert(full[full.len() - 1] == path[path.len() - 1]);
        assert(path.drop_last()[0] == path[0]);
    } else {
        assert(full.drop_last() =~= seq![a]);
        assert(full[0] == a);
        assert(full[1] == path[0]);
        assert(g.route_cost(seq![a], popular) == 0);
    }
}

proof fn first_unvisited(g: &SonglineGraph, visited: Seq<bool>, q: Seq<Seq<char>>, i: int) -> (j: int)
    requires
        g.well_formed(),
        visited.len() == g.room_names().len(),
        g.is_route(q),
        0 <= i < q.len(),
        forall|l: int| 0 <= l < i ==> visited[g.room_pos(#[trigger] q[l])],
        !visited[g.room_pos(q.last())],
    ensures
        i <= j < q.len(),
        !visited[g.room_pos(q[j])],
        forall|l: int| 0 <= l < j ==> visited[g.room_pos(#[trigger] q[l])],
    decreases q.len() - i,
{
    if !visited[g.room_pos(q[i])] {
        i
    } else {
        assert(i != q.len() - 1);
        first_unvisited(g, visited, q, i + 1)
    }
}

/// Dijkstra's step: the unvisited room of least known distance is at least as close as
/// any route makes it, when visited rooms have their shortest distances and every edge
/// from a visited to an unvisited room has been relaxed.
proof fn lemma_selected_is_shortest(
    g: &SonglineGraph,
    dist: Seq<Option<u128>>,
    visited: Seq<bool>,
    s: int,
    c: int,
    q: Seq<Seq<char>>,
    popular: bool,
)
    requires
        g.well_formed(),
        dist.len() == g.room_names().len(),
        visited.len() == g.room_names().len(),
        0 <= s < g.room_names().len(),
        0 <= c < g.room_names().len(),
        dist[s] == Some(0u128),
        dist[c] is Some,
        visited[s] || c == s,
        !visited[c],
        forall|j: int| 0 <= j < visited.len() && !visited[j] ==> !dist_less(#[trigger] dist[j], dist[c]),
        forall|u: int, r: Seq<Seq<char>>|
            0 <= u < visited.len() && visited[u] && #[trigger] g.is_route(r) && r[0] == g.room_names()[s]
                && r.last() == g.room_names()[u] ==> #[trigger] dist[u] is Some && dist[u]->0 <= g.route_cost(r, popular),
        forall|u: int, v: int|
            0 <= u < visited.len() && 0 <= v < visited.len() && visited[u] && !visited[v]
                && #[trigger] g.has_edge_at(u, v) ==> dist[v] is Some && dist[v]->0 <= dist[u]->0 + g.hop_cost(
                g.room_names()[u],
                g.room_names()[v],
            popular,
            ),
        g.is_route(q),
        q[0] == g.room_names()[s],
        q.last() == g.room_names()[c],
    ensures
        dist[c]->0 <= g.route_cost(q, popular),
{
    let names = g.room_names();
    if c != s {
        lemma_room_pos(g, s);
        lemma_room_pos(g, c);
        assert(g.room_pos(q[0]) == s);
        let j = first_unvisited(g, visited, q, 0);
        assert(j >= 1);
        let u = g.room_pos(q[j - 1]);
        let v = g.room_pos(q[j]);
        assert(names.contains(q[j - 1]));
        assert(names.contains(q[j]));
        assert(names[u] == q[j - 1]);
        assert(names[v] == q[j]);
        assert(visited[u]);
        assert(g.has_edge(q[j - 1], q[j]));
        let (i, jj) = choose|i: int, jj: int|
            0 <= i < names.len() && names[i] == q[j - 1] && 0 <= jj < g.edge_lists()[i].len()
                && #[trigger] g.edge_lists()[i][jj].0 == q[j];
        assert(i == u);
        assert(g.has_edge_at(u, v));
        lemma_route_prefix(g, q, j, popular);
        lemma_route_prefix(g, q, j + 1, popular);
        let r = q.subrange(0, j);
        let r1 = q.subrange(0, j + 1);
        assert(r1.drop_last() =~= r);
        assert(r[0] == names[s]);
        assert(r.last() == names[u]);
        assert(dist[u] is Some && dist[u]->0 <= g.route_cost(r, popular));
        assert(g.route_cost(r1, popular) == g.route_cost(r, popular) + g.hop_cost(q[j - 1], q[j], popular));
        assert(!dist_less(dist[v], dist[c]));
    }
}

/// Along a route that starts at a room of known distance, when every visited room's
/// neighbours have known distances and every unvisited room has none, every room of
/// the route has a known distance.
proof fn lemma_route_has_distances(
    g: &SonglineGraph,
    dist: Seq<Option<u128>>,
    visited: Seq<bool>,
    path: Seq<Seq<char>>,
    s: int,
    k: int,
    popular: bool,
)
    requires
        g.well_formed(),
        dist.len() == g.room_names().len(),
        visited.len() == g.room_names().len(),
        0 <= s < g.room_names().len(),
        dist[s] is Some,
        g.is_route(path),
        path[0] == g.room_names()[s],
        0 <= k < path.len(),
        forall|u: int, v: int|
            0 <= u < visited.len() && 0 <= v < visited.len() && visited[u] && #[trigger] g.has_edge_at(u, v)
                ==> dist[v] is Some,
        forall|v: int| 0 <= v < visited.len() && !visited[v] ==> dist[v] is None,
    ensures
        exists|i: int| 0 <= i < dist.len() && g.room_names()[i] == path[k] && #[trigger] dist[i] is Some,
    decreases k,
{
    let names = g.room_names();
    if k == 0 {
        assert(dist[s] is Some);
    } else {
        lemma_route_has_distances(g, dist, visited, path, s, k - 1, popular);
        let u = choose|i: int| 0 <= i < dist.len() && names[i] == path[k - 1] && #[trigger] dist[i] is Some;
        assert(g.has_edge(path[k - 1], path[k]));
        let (a, j) = choose|a: int, j: int|
            0 <= a < names.len() && names[a] == path[k - 1] && 0 <= j < g.edge_lists()[a].len()
                && #[trigger] g.edge_lists()[a][j].0 == path[k];
        assert(a == u);
        assert(names.contains(path[k]));
        let v = choose|v: int| 0 <= v < names.len() && names[v] == path[k];
        assert(g.has_edge_at(u, v));
        assert(visited[u]);
        assert(dist[v] is Some);
    }
}

/// A weight of at most 64 bits times a scale of at most 64 bits, divided by a count, is at
/// most the largest weight times the scale.
proof fn lemma_cost_bound(weight: nat, scale: nat, count: nat)
    requires
        weight <= 0xffff_ffff_ffff_ffff,
        scale <= 0xffff_ffff_ffff_ffff,
        count >= 1,
    ensures
        weight * scale <= 0xffff_ffff_ffff_ffff * scale,
        0xffff_ffff_ffff_ffff * scale <= 0xffff_ffff_ffff_ffff * 0xffff_ffff_ffff_ffff,
        weight * scale / count <= weight * scale,
{
    assert(weight * scale <= 0xffff_ffff_ffff_ffff * scale) by (nonlinear_arith)
        requires weight <= 0xffff_ffff_ffff_ffff;
    assert(0xffff_ffff_ffff_ffff * scale <= 0xffff_ffff_ffff_ffff * 0xffff_ffff_ffff_ffff) by (nonlinear_arith)
        requires scale <= 0xffff_ffff_ffff_ffff;
    assert(weight * scale / count <= weight * scale) by (nonlinear_arith)
        requires count >= 1;
}

/// Relax the edges leaving room `c`, reached at distance `dc`: each unvisited room that an
/// edge of `c` leads to takes distance `dc` plus the edge's cost, and `c` as predecessor,
/// when that is shorter than its distance so far.
fn relax_edges(
    graph: &SonglineGraph,
    c: usize,
    dc: u128,
    scale: u128,
    popular: bool,
    visited: &Vec<bool>,
    dist: &mut Vec<Option<u128>>,
    prev: &mut Vec<Option<usize>>,
)
    requires
        graph.well_formed(),
        old(dist)@.len() == graph.room_names().len(),
        old(prev)@.len() == graph.room_names().len(),
        visited@.len() == graph.room_names().len(),
        c < graph.room_names().len(),
        visited@[c as int],
        old(dist)@[c as int] == Some(dc),
        dc + 0xffff_ffff_ffff_ffffu64 * scale <= u128::MAX,
            scale == graph.cost_scale(),
    ensures
        final(dist)@.len() == old(dist)@.len(),
        final(prev)@.len() == old(prev)@.len(),
        forall|v: int|
            #![trigger final(dist)@[v]]
            #![trigger final(prev)@[v]]
            0 <= v < visited@.len() && visited@[v] ==> final(dist)@[v] == old(dist)@[v] && final(prev)@[v]
                == old(prev)@[v],
        forall|v: int|
            #![trigger final(dist)@[v]]
            0 <= v < visited@.len() && old(dist)@[v] is Some ==> final(dist)@[v] is Some && final(dist)@[v]->0
                <= old(dist)@[v]->0,
        forall|v: int|
            #![trigger final(dist)@[v]]
            #![trigger final(prev)@[v]]
            0 <= v < visited@.len() ==> (final(dist)@[v] == old(dist)@[v] && final(prev)@[v] == old(prev)@[v]) || ({
                &&& !visited@[v]
                &&& final(prev)@[v] == Some(c)
                &&& final(dist)@[v] is Some
                &&& graph.has_edge_at(c as int, v)
                &&& dc + graph.hop_cost(graph.room_names()[c as int], graph.room_names()[v], popular) <= final(dist)@[v]->0
                &&& final(dist)@[v]->0 <= dc + 0xffff_ffff_ffff_ffffu64 * scale
            }),
        forall|v: int|
            0 <= v < visited@.len() && !visited@[v] && #[trigger] graph.has_edge_at(c as int, v) ==> final(dist)@[v] is Some
                && final(dist)@[v]->0 <= dc + graph.hop_cost(graph.room_names()[c as int], graph.room_names()[v], popular),
{
    let ghost names = graph.room_names();
    let ghost lists = graph.edge_lists();
    let ghost n = names.len();
    let ghost dist0 = dist@;
    let ghost prev0 = prev@;
    let edges = &graph.adjacency[c];
    let m = edges.len();
    assert(edges@.map_values(|e: SonglineEdge| e@) == lists[c as int]);
    proof {
        lemma_room_pos(graph, c as int);
    }
    let mut j: usize = 0;
    while j < m
        invariant
            graph.well_formed(),
            names == graph.room_names(),
            lists == graph.edge_lists(),
            n == names.len(),
            edges@.map_values(|e: SonglineEdge| e@) == lists[c as int],
            m == edges@.len(),
            0 <= j <= m,
            dist@.len() == n,
            prev@.len() == n,
            visited@.len() == n,
            c < n,
            visited@[c as int],
            dist@[c as int] == Some(dc),
            dc + 0xffff_ffff_ffff_ffffu64 * scale <= u128::MAX,
            scale == graph.cost_scale(),
            graph.room_pos(names[c as int]) == c,
            forall|v: int| 0 <= v < n && visited@[v] ==> dist@[v] == dist0[v] && prev@[v] == prev0[v],
            forall|v: int| 0 <= v < n && dist0[v] is Some ==> dist@[v] is Some && dist@[v]->0 <= dist0[v]->0,
            forall|v: int|
                0 <= v < n ==> (dist@[v] == dist0[v] && prev@[v] == prev0[v]) || ({
                    &&& !visited@[v]
                    &&& prev@[v] == Some(c)
                    &&& dist@[v] is Some
                    &&& graph.has_edge_at(c as int, v)
                    &&& dc + graph.hop_cost(names[c as int], names[v], popular) <= dist@[v]->0
                    &&& dist@[v]->0 <= dc + 0xffff_ffff_ffff_ffffu64 * scale
                }),
            forall|v: int, jj: int|
                #![trigger lists[c as int][jj], names[v]]
                0 <= v < n && 0 <= jj < j && !visited@[v] && lists[c as int][jj].0 == names[v] ==> dist@[v] is Some
                    && dist@[v]->0 <= dc + edge_cost(lists[c as int][jj], graph.cost_scale(), popular),
        decreases m - j,
    {
        let e = &edges[j];
        assert(e@ == lists[c as int][j as int]);
        let w = match graph.room_index(&e.target) {
            Some(w) => w,
            None => {
                assert(names.contains(lists[c as int][j as int].0));
                j += 1;
                continue;
            }
        };
        if !visited[w] {
            let count: u128 = if e.traversal_count == 0 { 1 } else { e.traversal_count as u128 };
            let weight: u128 = if popular { 1 } else { e.latency_us as u128 };
            proof {
                lemma_cost_bound(weight as nat, scale as nat, count as nat);
            }
            let cost: u128 = weight * scale / count;
            assert(cost == edge_cost(lists[c as int][j as int], graph.cost_scale(), popular)) by {
                reveal(edge_cost);
            }
            let nd: u128 = dc + cost;
            if dist_lt(Some(nd), dist[w]) {
                dist.set(w, Some(nd));
                prev.set(w, Some(c));
                proof {
                    assert(graph.has_edge_at(c as int, w as int));
                    lemma_min_cost_to(lists[c as int], names[w as int], graph.cost_scale(), popular);
                    assert(graph.hop_cost(names[c as int], names[w as int], popular) <= cost);
                }
            }
        }
        j += 1;
    }
    proof {
        assert forall|v: int|
            0 <= v < n && !visited@[v] && #[trigger] graph.has_edge_at(c as int, v) implies dist@[v] is Some
            && dist@[v]->0 <= dc + graph.hop_cost(names[c as int], names[v], popular) by {
            lemma_min_cost_to(lists[c as int], names[v], graph.cost_scale(), popular);
            let m2 = min_cost_to(lists[c as int], names[v], graph.cost_scale(), popular)->0;
            let jm = choose|jm: int|
                0 <= jm < lists[c as int].len() && #[trigger] lists[c as int][jm].0 == names[v] && edge_cost(
                    lists[c as int][jm],
                graph.cost_scale(),
                popular,
                ) == m2;
            assert(dist@[v]->0 <= dc + edge_cost(lists[c as int][jm], graph.cost_scale(), popular));
        }
    }
}

/// The rooms `ix` are indices below `n`; all but the last are visited, in increasing order
/// of their visits.
#[verifier::opaque]
pub open spec fn is_visit_chain(ix: Seq<int>, visited: Seq<bool>, order: Seq<int>, n: int) -> bool {
    &&& forall|q: int| 0 <= q < ix.len() ==> 0 <= #[trigger] ix[q] < n
    &&& forall|q: int| 0 <= q < ix.len() - 1 ==> visited[#[trigger] ix[q]]
    &&& forall|q: int, r: int| 0 <= q < r < ix.len() - 1 ==> order[#[trigger] ix[q]] < order[#[trigger] ix[r]]
}

/// A single room is a chain.
proof fn lemma_chain_single(t: int, visited: Seq<bool>, order: Seq<int>, n: int)
    requires
        0 <= t < n,
    ensures
        is_visit_chain(seq![t], visited, order, n),
{
    reveal(is_visit_chain);
}

/// Prepending a visited room `u`, visited before the first room of the chain `ix0`, gives
/// a chain.
proof fn lemma_chain_prepend(ix0: Seq<int>, u: int, visited: Seq<bool>, order: Seq<int>, n: int)
    requires
        ix0.len() >= 1,
        0 <= u < n,
        visited[u],
        visited[ix0[0]] ==> order[u] < order[ix0[0]],
        is_visit_chain(ix0, visited, order, n),
    ensures
        is_visit_chain(seq![u] + ix0, visited, order, n),
{
    reveal(is_visit_chain);
    let ix = seq![u] + ix0;
    assert forall|q: int| 0 <= q < ix.len() implies 0 <= #[trigger] ix[q] < n by {
        if q > 0 {
            assert(ix[q] == ix0[q - 1]);
        }
    }
    assert forall|q: int| 0 <= q < ix.len() - 1 implies visited[#[trigger] ix[q]] by {
        if q > 0 {
            assert(ix[q] == ix0[q - 1]);
        }
    }
    assert forall|q: int, r: int| 0 <= q < r < ix.len() - 1 implies order[#[trigger] ix[q]] < order[#[trigger] ix[r]] by {
        assert(ix[r] == ix0[r - 1]);
        if q > 0 {
            assert(ix[q] == ix0[q - 1]);
        } else {
            assert(visited[ix0[0]]);
            if r - 1 > 0 {
                assert(order[ix0[0]] < order[ix0[r - 1]]);
            }
        }
    }
}

/// A chain that ends in an unvisited room passes no room twice.
proof fn lemma_chain_distinct(ix: Seq<int>, visited: Seq<bool>, order: Seq<int>, n: int)
    requires
        ix.len() >= 1,
        is_visit_chain(ix, visited, order, n),
        !visited[ix.last()],
    ensures
        forall|i: int, j: int| 0 <= i < j < ix.len() ==> ix[i] != ix[j],
        forall|q: int| 0 <= q < ix.len() ==> 0 <= #[trigger] ix[q] < n,
{
    reveal(is_visit_chain);
    assert forall|i: int, j: int| 0 <= i < j < ix.len() implies ix[i] != ix[j] by {
        if j == ix.len() - 1 {
            assert(visited[ix[i]]);
        } else {
            assert(order[ix[i]] < order[ix[j]]);
        }
    }
}

/// The predecessors and distances found by the search are consistent: every recorded
/// predecessor is a visited room with an edge to its successor, visited earlier, and no
/// farther than the successor less that edge; every room reached but `s` has one.
#[verifier::opaque]
pub open spec fn traced(
    graph: SonglineGraph,
    prev: Seq<Option<usize>>,
    dist: Seq<Option<u128>>,
    visited: Seq<bool>,
    order: Seq<int>,
    popular: bool,
    s: int,
) -> bool {
    let names = graph.room_names();
    let n = names.len();
    &&& forall|v: int| 0 <= v < n && visited[v] ==> dist[v] is Some && 0 <= order[v] < n
    &&& forall|v: int|
        0 <= v < n && #[trigger] prev[v] is Some ==> {
            let u = prev[v]->0 as int;
            &&& 0 <= u < n
            &&& visited[u]
            &&& graph.has_edge_at(u, v)
            &&& visited[v] ==> order[u] < order[v]
            &&& dist[v] is Some
            &&& dist[u] is Some
            &&& dist[v]->0 >= dist[u]->0 + graph.hop_cost(names[u], names[v], popular)
        }
    &&& forall|v: int| 0 <= v < n && v != s && #[trigger] dist[v] is Some ==> prev[v] is Some
}

proof fn lemma_trace_step(
    graph: SonglineGraph,
    prev: Seq<Option<usize>>,
    dist: Seq<Option<u128>>,
    visited: Seq<bool>,
    order: Seq<int>,
    popular: bool,
    s: int,
    cur: int,
)
    requires
        traced(graph, prev, dist, visited, order, popular, s),
        prev.len() == graph.room_names().len(),
        0 <= cur < graph.room_names().len(),
        cur != s,
        dist[cur] is Some,
    ensures
        prev[cur] is Some,
        ({
            let u = prev[cur]->0 as int;
            let names = graph.room_names();
            &&& 0 <= u < names.len()
            &&& visited[u]
            &&& graph.has_edge_at(u, cur)
            &&& visited[cur] ==> order[u] < order[cur]
            &&& dist[u] is Some
            &&& dist[cur]->0 >= dist[u]->0 + graph.hop_cost(names[u], names[cur], popular)
            &&& visited[u] ==> 0 <= order[u] < names.len()
        }),
{
    reveal(traced);
}

/// The route that the predecessors `prev` record from room `s` to room `t`, walked back
/// from `t`: a route through the graph that passes no room twice, and costs at most the
/// distance found for `t`.
fn trace_route(
    graph: &SonglineGraph,
    prev: &Vec<Option<usize>>,
    s: usize,
    t: usize,
    Ghost(dist): Ghost<Seq<Option<u128>>>,
    Ghost(visited): Ghost<Seq<bool>>,
    Ghost(order): Ghost<Seq<int>>,
    Ghost(popular): Ghost<bool>,
) -> (path: Vec<RoomId>)
    requires
        graph.well_formed(),
        dist.len() == graph.room_names().len(),
        visited.len() == graph.room_names().len(),
        prev@.len() == graph.room_names().len(),
        order.len() == graph.room_names().len(),
        s < graph.room_names().len(),
        t < graph.room_names().len(),
        dist[s as int] == Some(0u128),
        dist[t as int] is Some,
        !visited[t as int],
        forall|v: int|
            0 <= v < graph.room_names().len() && visited[v] ==> dist[v] is Some && 0 <= order[v] < graph.room_names().len(),
        forall|v: int|
            0 <= v < graph.room_names().len() && #[trigger] prev@[v] is Some ==> {
                let u = prev@[v]->0 as int;
                &&& 0 <= u < graph.room_names().len()
                &&& visited[u]
                &&& graph.has_edge_at(u, v)
                &&& visited[v] ==> order[u] < order[v]
                &&& dist[v] is Some
                &&& dist[u] is Some
                &&& dist[v]->0 >= dist[u]->0 + graph.hop_cost(graph.room_names()[u], graph.room_names()[v], popular)
            },
        forall|v: int| 0 <= v < graph.room_names().len() && v != s && #[trigger] dist[v] is Some ==> prev@[v] is Some,
    ensures
        ({
            let views = path@.map_values(|r: String| r@);
            &&& graph.is_route(views)
            &&& views[0] == graph.room_names()[s as int]
            &&& views.last() == graph.room_names()[t as int]
            &&& graph.route_cost(views, popular) <= dist[t as int]->0
            &&& forall|i: int, j: int| 0 <= i < j < views.len() ==> views[i] != views[j]
        }),
{
    let ghost names = graph.room_names();
    let ghost n = names.len();
    let ghost dt = dist[t as int]->0;
    let mut cur: usize = t;
    let mut path: Vec<RoomId> = Vec::new();
    path.push(graph.rooms[t].clone());
    assert(path@.map_values(|r: String| r@) =~= seq![names[t as int]]);
    let ghost mut ix: Seq<int> = seq![t as int];
    proof {
        lemma_chain_single(t as int, visited, order, n as int);
        reveal(traced);
    }
    assert(ix.map_values(|i: int| names[i]) =~= seq![names[t as int]]);
    while cur != s
        invariant
            graph.well_formed(),
            names == graph.room_names(),
            n == names.len(),
            dist.len() == n,
            visited.len() == n,
            prev@.len() == n,
            order.len() == n,
            s < n,
            cur < n,
            t < n,
            dist[s as int] == Some(0u128),
            dist[cur as int] is Some,
            dist[t as int] == Some(dt),
            traced(*graph, prev@, dist, visited, order, popular, s as int),
            visited[cur as int] ==> 0 <= order[cur as int] < n,
            graph.is_route(path@.map_values(|r: String| r@)),
            path@.map_values(|r: String| r@)[0] == names[cur as int],
            path@.map_values(|r: String| r@).last() == names[t as int],
            graph.route_cost(path@.map_values(|r: String| r@), popular) + dist[cur as int]->0 <= dt,
            !visited[t as int],
            ix.len() == path@.len(),
            ix[0] == cur,
            ix.last() == t,
            path@.map_values(|r: String| r@) == ix.map_values(|i: int| names[i]),
            is_visit_chain(ix, visited, order, n as int),
        decreases if visited[cur as int] { order[cur as int] } else { n as int },
    {
        proof {
            lemma_trace_step(*graph, prev@, dist, visited, order, popular, s as int, cur as int);
        }
        let u = match prev[cur] {
            Some(u) => u,
            None => {
                return path;
            }
        };
        let ghost old_views = path@.map_values(|r: String| r@);
        path.insert(0, graph.rooms[u].clone());
        let ghost views = path@.map_values(|r: String| r@);
        proof {
            assert(views =~= seq![names[u as int]] + old_views);
            assert(graph.has_edge(names[u as int], names[cur as int])) by {
                let jj = choose|jj: int|
                    0 <= jj < graph.edge_lists()[u as int].len() && #[trigger] graph.edge_lists()[u as int][jj].0
                        == names[cur as int];
            }
            assert forall|q: int| 0 <= q < views.len() implies names.contains(#[trigger] views[q]) by {
                if q > 0 {
                    assert(views[q] == old_views[q - 1]);
                }
            }
            assert forall|q: int| 0 <= q < views.len() - 1 implies graph.has_edge(#[trigger] views[q], views[q + 1]) by {
                if q > 0 {
                    assert(views[q] == old_views[q - 1]);
                    assert(views[q + 1] == old_views[q]);
                }
            }
            lemma_route_cost_prepend(graph, names[u as int], old_views, popular);
            let ix0 = ix;
            ix = seq![u as int] + ix0;
            lemma_chain_prepend(ix0, u as int, visited, order, n as int);
            assert(ix.map_values(|i: int| names[i]) =~= seq![names[u as int]] + ix0.map_values(|i: int| names[i]));
        }
        cur = u;
    }
    proof {
        let views = path@.map_values(|r: String| r@);
        lemma_chain_distinct(ix, visited, order, n as int);
        assert forall|i: int, j: int| 0 <= i < j < views.len() implies views[i] != views[j] by {
            assert(views[i] == ix.map_values(|k: int| names[k])[i]);
            assert(views[j] == ix.map_values(|k: int| names[k])[j]);
            assert(ix[i] != ix[j]);
        }
    }
    path
}

/// Songline navigator: finds paths preferring well-traveled routes.
#[derive(Debug, Clone)]
pub struct SonglineNavigation;

impl SonglineNavigation {
    /// Build a graph holding the given rooms (each name once) and no edges.
    pub fn build_tile_graph(rooms: &[RoomId]) -> (g: SonglineGraph)
        ensures
            g.well_formed(),
            g.room_names() == with_rooms(Seq::empty(), rooms@.map_values(|r: String| r@)),
            g.edge_lists() == padded(Seq::empty(), g.room_names().len() as int),
            g.is_bidirectional(),
    {
        let mut graph = SonglineGraph::new();
        let ghost views = rooms@.map_values(|r: String| r@);
        let mut i: usize = 0;
        assert(views.subrange(0, 0) =~= Seq::<Seq<char>>::empty());
        assert(graph.edge_lists() =~= padded(Seq::empty(), 0));
        while i < rooms.len()
            invariant
                0 <= i <= rooms@.len(),
                views == rooms@.map_values(|r: String| r@),
                graph.well_formed(),
                graph.room_names() == with_rooms(Seq::empty(), views.subrange(0, i as int)),
                graph.edge_lists() == padded(Seq::empty(), graph.room_names().len() as int),
            decreases rooms@.len() - i,
        {
            graph.add_room(rooms[i].clone());
            assert(views.subrange(0, i + 1).drop_last() =~= views.subrange(0, i as int));
            assert(graph.edge_lists() =~= padded(Seq::empty(), graph.room_names().len() as int));
            i += 1;
        }
        assert(views.subrange(0, rooms@.len() as int) =~= views);
        assert forall|a: Seq<char>, b: Seq<char>| #[trigger] graph.has_edge(a, b) implies graph.has_edge(b, a) by {
            let (i, j) = choose|i: int, j: int|
                0 <= i < graph.room_names().len() && graph.room_names()[i] == a && 0 <= j
                    < graph.edge_lists()[i].len() && #[trigger] graph.edge_lists()[i][j].0 == b;
            assert(graph.edge_lists()[i].len() == 0);
        }
        graph
    }

    /// Find a path from `source` to `target` through the graph, preferring well-traveled
    /// routes: Dijkstra's search, where crossing an edge costs its latency divided by its
    /// traversal count (in units of `1 / cost_scale` microseconds). The path found is a
    /// cheapest route and passes no room twice.
    pub fn find_tile_path(graph: &SonglineGraph, source: &str, target: &str) -> (path: Option<Vec<RoomId>>)
        requires
            graph.well_formed(),
        ensures
            source@ == target@ ==> (path matches Some(p) && p@.map_values(|r: String| r@) == seq![source@]),
            source@ != target@ ==> (path is Some <==> graph.reachable(source@, target@)),
            source@ != target@ ==> (path matches Some(p) ==> graph.is_cheapest_route(
                p@.map_values(|r: String| r@),
                source@,
                target@,
                false,
            )),
    {
        Self::cheapest_route(graph, source, target, false)
    }

    /// Find the most popular (most traversed) path between two rooms: the route whose hops
    /// are the most traveled, where crossing an edge costs one over its traversal count,
    /// whatever its latency. The path found is such a cheapest route and passes no room twice.
    pub fn most_popular_path(graph: &SonglineGraph, source: &str, target: &str) -> (path: Option<Vec<RoomId>>)
        requires
            graph.well_formed(),
        ensures
            source@ == target@ ==> (path matches Some(p) && p@.map_values(|r: String| r@) == seq![source@]),
            source@ != target@ ==> (path is Some <==> graph.reachable(source@, target@)),
            source@ != target@ ==> (path matches Some(p) ==> graph.is_cheapest_route(
                p@.map_values(|r: String| r@),
                source@,
                target@,
                true,
            )),
    {
        Self::cheapest_route(graph, source, target, true)
    }

    /// Dijkstra's search for a cheapest route, edges weighed by latency or by popularity.
    #[verifier::rlimit(40)]
    fn cheapest_route(graph: &SonglineGraph, source: &str, target: &str, popular: bool) -> (path: Option<Vec<RoomId>>)
        requires
            graph.well_formed(),
        ensures
            source@ == target@ ==> (path matches Some(p) && p@.map_values(|r: String| r@) == seq![source@]),
            source@ != target@ ==> (path is Some <==> graph.reachable(source@, target@)),
            source@ != target@ ==> (path matches Some(p) ==> graph.is_cheapest_route(
                p@.map_values(|r: String| r@),
                source@,
                target@,
                popular,
            )),
    {
        let src_name = source.to_owned();
        let tgt_name = target.to_owned();
        if src_name == tgt_name {
            let mut p: Vec<RoomId> = Vec::new();
            p.push(src_name);
            assert(p@.map_values(|r: String| r@) =~= seq![source@]);
            return Some(p);
        }
        let ghost names = graph.room_names();
        let ghost lists = graph.edge_lists();
        let s = match graph.room_index(&src_name) {
            Some(i) => i,
            None => {
                assert(!graph.reachable(source@, target@)) by {
                    if graph.reachable(source@, target@) {
                        let p = choose|p: Seq<Seq<char>>|
                            #[trigger] graph.is_route(p) && p[0] == source@ && p.last() == target@;
                        assert(names.contains(p[0]));
                    }
                }
                return None;
            }
        };
        let t = match graph.room_index(&tgt_name) {
            Some(i) => i,
            None => {
                assert(!graph.reachable(source@, target@)) by {
                    if graph.reachable(source@, target@) {
                        let p = choose|p: Seq<Seq<char>>|
                            #[trigger] graph.is_route(p) && p[0] == source@ && p.last() == target@;
                        assert(names.contains(p[p.len() - 1]));
                    }
                }
                return None;
            }
        };
        let n = graph.rooms.len();
        proof {
            lemma_cost_scale(n as nat);
        }
        let scale: u128 = 0xffff_ffff_ffff_ffffu128 / (n as u128);
        assert(scale == graph.cost_scale());
        let ghost unit: int = 0xffff_ffff_ffff_ffff * scale;
        let mut dist: Vec<Option<u128>> = Vec::new();
        let mut visited: Vec<bool> = Vec::new();
        let mut prev: Vec<Option<usize>> = Vec::new();
        let mut i: usize = 0;
        while i < n
            invariant
                0 <= i <= n,
                dist@.len() == i,
                visited@.len() == i,
                prev@.len() == i,
                forall|k: int| 0 <= k < i ==> #[trigger] dist@[k] == None::<u128>,
                forall|k: int| 0 <= k < i ==> !#[trigger] visited@[k],
                forall|k: int| 0 <= k < i ==> #[trigger] prev@[k] == None::<usize>,
            decreases n - i,
        {
            dist.push(None);
            visited.push(false);
            prev.push(None);
            i += 1;
        }
        assert(forall|k: int| 0 <= k < n ==> #[trigger] prev@[k] == None::<usize>);
        dist.set(s, Some(0));
        let ghost mut order: Seq<int> = Seq::new(n as nat, |k: int| 0);
        proof {
            lemma_count_true_zero(visited@);
        }
        let mut k: usize = 0;
        loop
            invariant
                graph.well_formed(),
                names == graph.room_names(),
                lists == graph.edge_lists(),
                n == names.len(),
                dist@.len() == n,
                visited@.len() == n,
                prev@.len() == n,
                order.len() == n,
                s < n,
                t < n,
                s != t,
                names[s as int] == source@,
                names[t as int] == target@,
                k <= n,
                count_true(visited@) == k,
                dist@[s as int] == Some(0u128),
                !visited@[t as int],
                k == 0 ==> forall|v: int| 0 <= v < n && v != s ==> dist@[v] is None,
                k > 0 ==> visited@[s as int],
                forall|v: int| 0 <= v < n && visited@[v] ==> dist@[v] is Some && 0 <= order[v] < k,
                forall|v: int|
                    0 <= v < n && #[trigger] dist@[v] is Some ==> dist@[v]->0 <= k * unit,
                scale == graph.cost_scale(),
                unit == 0xffff_ffff_ffff_ffff * scale,
                n * scale <= 0xffff_ffff_ffff_ffff,
                forall|u: int, v: int|
                    0 <= u < n && 0 <= v < n && visited@[u] && #[trigger] graph.has_edge_at(u, v)
                        ==> dist@[v] is Some,
                forall|v: int|
                    0 <= v < n && #[trigger] prev@[v] is Some ==> {
                        let u = prev@[v]->0 as int;
                        &&& 0 <= u < n
                        &&& visited@[u]
                        &&& graph.has_edge_at(u, v)
                        &&& visited@[v] ==> order[u] < order[v]
                        &&& dist@[v] is Some
                        &&& dist@[u] is Some
                        &&& dist@[v]->0 >= dist@[u]->0 + graph.hop_cost(names[u], names[v], popular)
                    },
                forall|v: int| 0 <= v < n && v != s && #[trigger] dist@[v] is Some ==> prev@[v] is Some,
                forall|u: int, r: Seq<Seq<char>>|
                    0 <= u < n && visited@[u] && #[trigger] graph.is_route(r) && r[0] == names[s as int]
                        && r.last() == names[u] ==> #[trigger] dist@[u] is Some && dist@[u]->0 <= graph.route_cost(r, popular),
                forall|u: int, v: int|
                    0 <= u < n && 0 <= v < n && visited@[u] && !visited@[v] && #[trigger] graph.has_edge_at(u, v)
                        ==> dist@[v] is Some && dist@[v]->0 <= dist@[u]->0 + graph.hop_cost(names[u], names[v], popular),
            ensures
                graph.well_formed(),
                names == graph.room_names(),
                n == names.len(),
                dist@.len() == n,
                visited@.len() == n,
                prev@.len() == n,
                order.len() == n,
                s < n,
                t < n,
                s != t,
                names[s as int] == source@,
                names[t as int] == target@,
                dist@[s as int] == Some(0u128),
                !visited@[t as int],
                forall|v: int| 0 <= v < n && visited@[v] ==> dist@[v] is Some && 0 <= order[v] < n,
                forall|u: int, v: int|
                    0 <= u < n && 0 <= v < n && visited@[u] && #[trigger] graph.has_edge_at(u, v)
                        ==> dist@[v] is Some,
                forall|v: int|
                    0 <= v < n && #[trigger] prev@[v] is Some ==> {
                        let u = prev@[v]->0 as int;
                        &&& 0 <= u < n
                        &&& visited@[u]
                        &&& graph.has_edge_at(u, v)
                        &&& visited@[v] ==> order[u] < order[v]
                        &&& dist@[v] is Some
                        &&& dist@[u] is Some
                        &&& dist@[v]->0 >= dist@[u]->0 + graph.hop_cost(names[u], names[v], popular)
                    },
                forall|v: int| 0 <= v < n && v != s && #[trigger] dist@[v] is Some ==> prev@[v] is Some,
                (forall|v: int| 0 <= v < n && !visited@[v] ==> dist@[v] is None) || (dist@[t as int] is Some
                    && forall|q: Seq<Seq<char>>|
                    #[trigger] graph.is_route(q) && q[0] == source@ && q.last() == target@
                        ==> dist@[t as int]->0 <= graph.route_cost(q, popular)),
            decreases n - k,
        {
            if k >= n {
                proof {
                    lemma_count_true_bounds(visited@);
                }
                break;
            }
            let c = match select_next(&visited, &dist) {
                Some(c) => c,
                None => {
                    break;
                }
            };
            let dc = match dist[c] {
                Some(d) => d,
                None => {
                    break;
                }
            };
            proof {
                if k == 0 && c != s {
                    assert(dist_less(dist@[s as int], dist@[c as int]));
                }
                assert forall|r: Seq<Seq<char>>|
                    #[trigger] graph.is_route(r) && r[0] == names[s as int] && r.last() == names[c as int]
                    implies dc <= graph.route_cost(r, popular) by {
                    lemma_selected_is_shortest(graph, dist@, visited@, s as int, c as int, r, popular);
                }
            }
            if c == t {
                break;
            }
            proof {
                lemma_count_true_set(visited@, c as int);
                assert(dist@[c as int] is Some);
                assert(dc <= k * unit);
            }
            let ghost visited0 = visited@;
            visited.set(c, true);
            proof {
                order = order.update(c as int, k as int);
            }
            proof {
                assert((k + 1) * unit <= 0xffff_ffff_ffff_ffffu64 * 0xffff_ffff_ffff_ffffu64) by (nonlinear_arith)
                    requires
                        k + 1 <= n,
                        unit == 0xffff_ffff_ffff_ffff * scale,
                        n * scale <= 0xffff_ffff_ffff_ffff;
                assert(dc + 0xffff_ffff_ffff_ffffu64 * scale <= u128::MAX) by (nonlinear_arith)
                    requires
                        dc <= k * unit,
                        (k + 1) * unit <= 0xffff_ffff_ffff_ffffu64 * 0xffff_ffff_ffff_ffffu64,
                        unit == 0xffff_ffff_ffff_ffff * scale;
            }
            let ghost dist0 = dist@;
            let ghost prev0 = prev@;
            relax_edges(graph, c, dc, scale, popular, &visited, &mut dist, &mut prev);
            proof {
                lemma_room_pos(graph, c as int);
                assert((k + 1) * unit == k * unit + unit) by (nonlinear_arith);
                assert forall|v: int|
                    0 <= v < n && #[trigger] dist@[v] is Some implies dist@[v]->0 <= (k + 1) * unit by {
                    if dist@[v] == dist0[v] {
                        assert(dist0[v]->0 <= k * unit);
                    }
                }
                assert forall|u: int, v: int|
                    0 <= u < n && 0 <= v < n && visited@[u] && #[trigger] graph.has_edge_at(u, v)
                    implies dist@[v] is Some by {
                    if visited@[v] {
                        assert(dist@[v] == dist0[v]);
                    } else if u != c {
                        assert(dist0[v] is Some);
                    }
                }
                assert forall|v: int| 0 <= v < n && #[trigger] prev@[v] is Some implies {
                    let u = prev@[v]->0 as int;
                    &&& 0 <= u < n
                    &&& visited@[u]
                    &&& graph.has_edge_at(u, v)
                    &&& visited@[v] ==> order[u] < order[v]
                    &&& dist@[v] is Some
                    &&& dist@[u] is Some
                    &&& dist@[v]->0 >= dist@[u]->0 + graph.hop_cost(names[u], names[v], popular)
                } by {
                    let u = prev@[v]->0 as int;
                    if dist@[v] == dist0[v] && prev@[v] == prev0[v] {
                        assert(prev0[v] is Some);
                        assert(visited0[u]);
                        assert(visited@[u]);
                        assert(dist@[u] == dist0[u]);
                        assert(0 <= u < n);
                        assert(graph.has_edge_at(u, v));
                        assert(dist@[v] is Some);
                        assert(dist@[u] is Some);
                        assert(dist@[v]->0 >= dist@[u]->0 + graph.hop_cost(names[u], names[v], popular));
                        if visited@[v] {
                            assert(order[u] < order[v]);
                        }
                    } else {
                        assert(u == c);
                        assert(dist@[u] == Some(dc));
                        assert(!visited@[v]);
                    }
                }
                assert forall|v: int| 0 <= v < n && v != s && #[trigger] dist@[v] is Some implies prev@[v] is Some by {
                    if dist@[v] == dist0[v] && prev@[v] == prev0[v] {
                        assert(dist0[v] is Some);
                    }
                }
                assert forall|u: int, r: Seq<Seq<char>>|
                    0 <= u < n && visited@[u] && #[trigger] graph.is_route(r) && r[0] == names[s as int]
                        && r.last() == names[u] implies #[trigger] dist@[u] is Some && dist@[u]->0 <= graph.route_cost(r, popular) by {
                    assert(dist@[u] == dist0[u]);
                }
                assert forall|u: int, v: int|
                    0 <= u < n && 0 <= v < n && visited@[u] && !visited@[v] && #[trigger] graph.has_edge_at(u, v)
                    implies dist@[v] is Some && dist@[v]->0 <= dist@[u]->0 + graph.hop_cost(names[u], names[v], popular) by {
                    if u != c {
                        assert(dist@[u] == dist0[u]);
                        assert(dist0[v] is Some);
                    }
                }
            }
            k += 1;
        }
        if dist[t].is_none() {
            proof {
                if graph.reachable(source@, target@) {
                    let p = choose|p: Seq<Seq<char>>|
                        #[trigger] graph.is_route(p) && p[0] == source@ && p.last() == target@;
                    lemma_route_has_distances(graph, dist@, visited@, p, s as int, p.len() - 1, popular);
                }
            }
            return None;
        }
        let ghost dt = dist@[t as int]->0;
        let path = trace_route(graph, &prev, s, t, Ghost(dist@), Ghost(visited@), Ghost(order), Ghost(popular));
        proof {
            let views = path@.map_values(|r: String| r@);
            assert(graph.reachable(source@, target@)) by {
                assert(graph.is_route(views) && views[0] == source@ && views.last() == target@);
            }
        }
        Some(path)
    }

}

} // verus!
