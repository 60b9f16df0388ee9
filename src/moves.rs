//! The legal-move calculator: the structures and roads of a player, and the
//! places where the player may build a road or a village next.
use vstd::prelude::*;

use itertools::Itertools;

use crate::board::{refs_at, Board, Edge, Node, Player};
use crate::keys::same_key;
use crate::seqs::{
    ascending, ints, lemma_ascending_is_positions, lemma_filter_member, lemma_flat_map_contains,
    lemma_flat_map_member, lemma_ints_contains, lemma_ints_push, lemma_positions_members, positions,
};

verus! {

/// Relies on itertools' `sorted`: the same items, in ascending order.
#[verifier::external_body]
fn sorted_positions(v: Vec<usize>) -> (r: Vec<usize>)
    ensures
        r@.to_multiset() == v@.to_multiset(),
        forall|i: int, j: int| 0 <= i < j < r@.len() ==> r@[i] <= r@[j],
{
    v.into_iter().sorted().collect()
}

/// Relies on itertools' `dedup`: of each run of equal neighbours one item is
/// kept, so that on sorted input every item remains exactly once.
#[verifier::external_body]
fn dedup_positions(v: Vec<usize>) -> (r: Vec<usize>)
    requires
        forall|i: int, j: int| 0 <= i < j < v@.len() ==> v@[i] <= v@[j],
    ensures
        forall|i: int, j: int| 0 <= i < j < r@.len() ==> r@[i] < r@[j],
        forall|x: usize| r@.contains(x) <==> v@.contains(x),
{
    v.into_iter().dedup().collect()
}

/// The distinct items of `v`, in ascending order.
fn distinct_ascending(v: Vec<usize>) -> (r: Vec<usize>)
    ensures
        ascending(ints(r@)),
        forall|x: int| ints(r@).contains(x) <==> ints(v@).contains(x),
{
    let ghost v0 = v@;
    let s = sorted_positions(v);
    proof {
        v0.to_multiset_ensures();
        s@.to_multiset_ensures();
        assert forall|x: usize| s@.contains(x) <==> v0.contains(x) by {
            assert(s@.to_multiset().count(x) == v0.to_multiset().count(x));
        }
    }
    let d = dedup_positions(s);
    proof {
        lemma_ints_contains(d@);
        lemma_ints_contains(v0);
    }
    d
}

/// Appends the positions `more` to `r`.
fn append_positions(r: &mut Vec<usize>, more: &Vec<usize>)
    ensures
        final(r)@ == old(r)@ + more@,
        ints(final(r)@) == ints(old(r)@) + ints(more@),
{
    let ghost start = r@;
    let mut k: usize = 0;
    while k < more.len()
        invariant
            k <= more@.len(),
            r@ == start + more@.take(k as int),
        decreases more@.len() - k,
    {
        r.push(more[k]);
        assert(more@.take(k + 1) =~= more@.take(k as int).push(more@[k as int]));
        k = k + 1;
    }
    assert(more@.take(more@.len() as int) =~= more@);
    assert(ints(r@) =~= ints(start) + ints(more@));
}

impl Board {
    /// `p` has built on the node at position `j`.
    pub open spec fn built_by(self, p: Player, j: int) -> bool {
        self.nodes@[j].player == Some(p.id) && self.nodes@[j].structure@.len() > 0
    }

    /// Nodes that `p` has built on, with the structure `kind` where one is given.
    pub open spec fn built_fn(self, p: Player, kind: Option<Seq<char>>) -> spec_fn(int) -> bool {
        |j: int|
            self.built_by(p, j) && (kind matches Some(k) ==> self.nodes@[j].structure@ == k)
    }

    /// Positions of the nodes that `p` has built on, with the structure
    /// `kind` where one is given.
    pub open spec fn player_structures(self, p: Player, kind: Option<Seq<char>>) -> Seq<int> {
        positions(self.nodes@.len() as int, self.built_fn(p, kind))
    }

    /// The edge at position `i` holds a road of `p`.
    pub open spec fn road_of(self, p: Player, i: int) -> bool {
        &&& self.edges@[i].road
        &&& self.edges@[i].player matches Some(q) && q as int == p.id as int
    }

    /// `road_of` as a predicate on edge positions.
    pub open spec fn road_of_fn(self, p: Player) -> spec_fn(int) -> bool {
        |i: int| self.road_of(p, i)
    }

    /// Positions of the roads of `p`.
    pub open spec fn player_roads(self, p: Player) -> Seq<int> {
        positions(self.edges@.len() as int, self.road_of_fn(p))
    }

    /// For an edge position, the positions of the nodes around that edge.
    pub open spec fn ends_fn(self) -> spec_fn(int) -> Seq<int> {
        |e: int| self.nodes_around(self.edges@[e].key@)
    }

    /// Positions of the nodes around the roads of `p`, road by road.
    pub open spec fn road_nodes(self, p: Player) -> Seq<int> {
        self.player_roads(p).flat_map(self.ends_fn())
    }

    /// For a node position, the positions of the edges around that node.
    pub open spec fn around_node_fn(self) -> spec_fn(int) -> Seq<int> {
        |m: int| self.edges_around(self.nodes@[m])
    }

    /// Positions of the edges around the nodes around the roads of `p`.
    pub open spec fn street_candidates(self, p: Player) -> Seq<int> {
        self.road_nodes(p).flat_map(self.around_node_fn())
    }

    /// The edge at a position has no owner.
    pub open spec fn unowned_fn(self) -> spec_fn(int) -> bool {
        |i: int| self.edges@[i].player is None
    }

    /// An edge without owner around a node at the end of a road of `p`.
    pub open spec fn open_street_fn(self, p: Player) -> spec_fn(int) -> bool {
        |i: int| self.street_candidates(p).contains(i) && self.unowned_fn()(i)
    }

    /// Positions, ascending and each once, of the edges without an owner
    /// that lie around a node at the end of a road of `p`.
    pub open spec fn potential_streets(self, p: Player) -> Seq<int> {
        positions(self.edges@.len() as int, self.open_street_fn(p))
    }

    /// Someone holds the node at a position.
    pub open spec fn occupied_fn(self) -> spec_fn(int) -> bool {
        |j: int| self.nodes@[j].player is Some
    }

    /// Positions of the nodes that someone holds.
    pub open spec fn occupied(self) -> Seq<int> {
        positions(self.nodes@.len() as int, self.occupied_fn())
    }

    /// For a node position, the positions of the nodes one road away.
    pub open spec fn adjacent_fn(self) -> spec_fn(int) -> Seq<int> {
        |o: int| self.nodes_adjacent(self.nodes@[o])
    }

    /// Positions of the nodes where the distance rule forbids a village:
    /// the held nodes, then the nodes one road away from each of them.
    pub open spec fn blocked_nodes(self) -> Seq<int> {
        self.occupied() + self.occupied().flat_map(self.adjacent_fn())
    }

    /// Some node that the distance rule forbids has the key `k`.
    pub open spec fn blocked(self, k: Seq<char>) -> bool {
        exists|q: int| self.blocked_nodes().contains(q) && #[trigger] self.nodes@[q].key@ == k
    }

    /// The distance rule allows a village on the node at a position.
    pub open spec fn legal_fn(self) -> spec_fn(int) -> bool {
        |j: int| !self.blocked(self.nodes@[j].key@)
    }

    /// A node around a road of `p` where the distance rule allows a village.
    pub open spec fn open_village_fn(self, p: Player) -> spec_fn(int) -> bool {
        |j: int| self.road_nodes(p).contains(j) && self.legal_fn()(j)
    }

    /// Positions, ascending and each once, of the nodes around the roads of
    /// `p` whose key no node forbidden by the distance rule has.
    pub open spec fn potential_villages(self, p: Player) -> Seq<int> {
        positions(self.nodes@.len() as int, self.open_village_fn(p))
    }

    fn structure_positions(&self, player: &Player, kind: Option<&str>) -> (r: Vec<usize>)
        ensures
            ints(r@) == self.player_structures(
                *player,
                match kind {
                    Some(k) => Some(k@),
                    None => None,
                },
            ),
            forall|k: int| 0 <= k < r@.len() ==> r@[k] < self.nodes@.len(),
    {
        let ghost kv = match kind {
            Some(k) => Some(k@),
            None => None,
        };
        let mut r: Vec<usize> = Vec::new();
        let mut i: usize = 0;
        while i < self.nodes.len()
            invariant
                i <= self.nodes@.len(),
                kv == match kind {
                    Some(k) => Some(k@),
                    None => None::<Seq<char>>,
                },
                ints(r@) == positions(i as int, self.built_fn(*player, kv)),
                forall|k: int| 0 <= k < r@.len() ==> r@[k] < i,
            decreases self.nodes@.len() - i,
        {
            let node = &self.nodes[i];
            let mine = match node.player {
                Some(id) => id == player.id,
                None => false,
            };
            let built = mine && !node.structure.as_str().is_empty();
            let wanted = match kind {
                Some(k) => same_key(node.structure.as_str(), k),
                None => true,
            };
            if built && wanted {
                proof {
                    lemma_ints_push(r@, i);
                }
                r.push(i);
            }
            i = i + 1;
        }
        r
    }

    /// The nodes on which `player` has built a village or a city.
    pub fn get_nodes_from_player(&self, player: &Player) -> (r: Vec<&Node>)
        ensures
            r@.unref() == self.player_structures(*player, None).map_values(
                |j: int| self.nodes@[j],
            ),
    {
        let ps = self.structure_positions(player, None);
        refs_at(&self.nodes, &ps)
    }

    /// The nodes on which `player` has built a city.
    pub fn get_cities_from_player(&self, player: &Player) -> (r: Vec<&Node>)
        ensures
            r@.unref() == self.player_structures(*player, Some("city"@)).map_values(
                |j: int| self.nodes@[j],
            ),
    {
        let ps = self.structure_positions(player, Some("city"));
        refs_at(&self.nodes, &ps)
    }

    /// The nodes on which `player` has built a village.
    pub fn get_villages_from_player(&self, player: &Player) -> (r: Vec<&Node>)
        ensures
            r@.unref() == self.player_structures(*player, Some("village"@)).map_values(
                |j: int| self.nodes@[j],
            ),
    {
        let ps = self.structure_positions(player, Some("village"));
        refs_at(&self.nodes, &ps)
    }

    fn road_positions(&self, player: &Player) -> (r: Vec<usize>)
        ensures
            ints(r@) == self.player_roads(*player),
            forall|k: int| 0 <= k < r@.len() ==> r@[k] < self.edges@.len(),
    {
        let mut r: Vec<usize> = Vec::new();
        let mut i: usize = 0;
        while i < self.edges.len()
            invariant
                i <= self.edges@.len(),
                ints(r@) == positions(i as int, self.road_of_fn(*player)),
                forall|k: int| 0 <= k < r@.len() ==> r@[k] < i,
            decreases self.edges@.len() - i,
        {
            let edge = &self.edges[i];
            let mine = match edge.player {
                Some(q) => q as usize == player.id,
                None => false,
            };
            if edge.road && mine {
                proof {
                    lemma_ints_push(r@, i);
                }
                r.push(i);
            }
            i = i + 1;
        }
        r
    }

    /// The edges that hold a road of `player`.
    pub fn get_edges_from_player(&self, player: &Player) -> (r: Vec<&Edge>)
        ensures
            r@.unref() == self.player_roads(*player).map_values(|i: int| self.edges@[i]),
    {
        let ps = self.road_positions(player);
        refs_at(&self.edges, &ps)
    }

    fn road_node_positions(&self, player: &Player) -> (r: Vec<usize>)
        ensures
            ints(r@) == self.road_nodes(*player),
            forall|k: int| 0 <= k < r@.len() ==> r@[k] < self.nodes@.len(),
    {
        let roads = self.road_positions(player);
        let ghost ri = ints(roads@);
        let ghost f = self.ends_fn();
        let mut r: Vec<usize> = Vec::new();
        let mut k: usize = 0;
        while k < roads.len()
            invariant
                k <= roads@.len(),
                ri == ints(roads@),
                ri == self.player_roads(*player),
                f == self.ends_fn(),
                forall|m: int| 0 <= m < roads@.len() ==> roads@[m] < self.edges@.len(),
                ints(r@) == ri.take(k as int).flat_map(f),
                forall|m: int| 0 <= m < r@.len() ==> r@[m] < self.nodes@.len(),
            decreases roads@.len() - k,
        {
            let ends = self.node_positions_around(self.edges[roads[k]].key.as_str());
            append_positions(&mut r, &ends);
            proof {
                ri.lemma_flat_map_take_append(f, k as int);
            }
            k = k + 1;
        }
        assert(ri.take(roads@.len() as int) =~= ri);
        r
    }

    /// For a node position, the edges without owner around that node.
    pub open spec fn open_around_fn(self) -> spec_fn(int) -> Seq<int> {
        |m: int| self.around_node_fn()(m).filter(self.unowned_fn())
    }

    pub(crate) fn street_positions(&self, player: &Player) -> (r: Vec<usize>)
        ensures
            ints(r@) == self.potential_streets(*player),
            forall|k: int| 0 <= k < r@.len() ==> r@[k] < self.edges@.len(),
    {
        let rn = self.road_node_positions(player);
        let ghost rni = ints(rn@);
        let ghost g = self.around_node_fn();
        let ghost h = self.open_around_fn();
        let ghost free = self.unowned_fn();
        let mut c: Vec<usize> = Vec::new();
        let mut k: usize = 0;
        while k < rn.len()
            invariant
                k <= rn@.len(),
                rni == ints(rn@),
                rni == self.road_nodes(*player),
                h == self.open_around_fn(),
                free == self.unowned_fn(),
                forall|m: int| 0 <= m < rn@.len() ==> rn@[m] < self.nodes@.len(),
                ints(c@) == rni.take(k as int).flat_map(h),
                forall|m: int| 0 <= m < c@.len() ==> c@[m] < self.edges@.len(),
            decreases rn@.len() - k,
        {
            let es = self.edge_positions_around(&self.nodes[rn[k]]);
            let ghost before = ints(c@);
            let ghost ei = ints(es@);
            let mut m: usize = 0;
            while m < es.len()
                invariant
                    m <= es@.len(),
                    ei == ints(es@),
                    free == self.unowned_fn(),
                    forall|x: int| 0 <= x < es@.len() ==> es@[x] < self.edges@.len(),
                    forall|x: int| 0 <= x < c@.len() ==> c@[x] < self.edges@.len(),
                    ints(c@) == before + ei.take(m as int).filter(free),
                decreases es@.len() - m,
            {
                let e = es[m];
                assert(ei.take(m + 1) =~= ei.take(m as int).push(e as int));
                proof {
                    ei.take(m as int).lemma_filter_push(e as int, free);
                }
                if self.edges[e].player.is_none() {
                    proof {
                        lemma_ints_push(c@, e);
                    }
                    c.push(e);
                    assert(ints(c@) =~= before + ei.take(m + 1).filter(free));
                }
                m = m + 1;
            }
            assert(ei.take(es@.len() as int) =~= ei);
            proof {
                rni.lemma_flat_map_take_append(h, k as int);
            }
            k = k + 1;
        }
        assert(rni.take(rn@.len() as int) =~= rni);
        let ghost ci = ints(c@);
        let d = distinct_ascending(c);
        proof {
            lemma_ints_contains(c@);
            let n = self.edges@.len() as int;
            let p = self.open_street_fn(*player);
            assert forall|x: int| ints(d@).contains(x) <==> 0 <= x < n && p(x) by {
                if ci.contains(x) {
                    let t = lemma_flat_map_member(rni, h, x);
                    lemma_filter_member(g(rni[t]), free, x);
                    lemma_flat_map_contains(rni, g, t, x);
                }
                if 0 <= x < n && p(x) {
                    let t = lemma_flat_map_member(rni, g, x);
                    lemma_filter_member(g(rni[t]), free, x);
                    lemma_flat_map_contains(rni, h, t, x);
                }
            }
            lemma_ascending_is_positions(ints(d@), n, p);
            lemma_ints_contains(d@);
            assert forall|m: int| 0 <= m < d@.len() implies d@[m] < self.edges@.len() by {
                assert(ints(d@)[m] == d@[m] as int);
                assert(ints(d@).contains(ints(d@)[m]));
            }
        }
        d
    }

    /// The edges without an owner around the nodes at the ends of the
    /// roads of `player`: each once, in board order.
    pub fn get_potential_street_edges(&self, player: &Player) -> (r: Vec<&Edge>)
        ensures
            r@.unref() == self.potential_streets(*player).map_values(|i: int| self.edges@[i]),
    {
        let ps = self.street_positions(player);
        refs_at(&self.edges, &ps)
    }

    fn occupied_positions(&self) -> (r: Vec<usize>)
        ensures
            ints(r@) == self.occupied(),
            forall|k: int| 0 <= k < r@.len() ==> r@[k] < self.nodes@.len(),
    {
        let mut r: Vec<usize> = Vec::new();
        let mut i: usize = 0;
        while i < self.nodes.len()
            invariant
                i <= self.nodes@.len(),
                ints(r@) == positions(i as int, self.occupied_fn()),
                forall|k: int| 0 <= k < r@.len() ==> r@[k] < i,
            decreases self.nodes@.len() - i,
        {
            if self.nodes[i].player.is_some() {
                proof {
                    lemma_ints_push(r@, i);
                }
                r.push(i);
            }
            i = i + 1;
        }
        r
    }

    fn blocked_positions(&self) -> (r: Vec<usize>)
        ensures
            ints(r@) == self.blocked_nodes(),
            forall|k: int| 0 <= k < r@.len() ==> r@[k] < self.nodes@.len(),
    {
        let occ = self.occupied_positions();
        let ghost oi = ints(occ@);
        let ghost f = self.adjacent_fn();
        let mut r: Vec<usize> = Vec::new();
        append_positions(&mut r, &occ);
        assert(ints(r@) =~= oi + oi.take(0).flat_map(f));
        let mut t: usize = 0;
        while t < occ.len()
            invariant
                t <= occ@.len(),
                oi == ints(occ@),
                oi == self.occupied(),
                f == self.adjacent_fn(),
                forall|m: int| 0 <= m < occ@.len() ==> occ@[m] < self.nodes@.len(),
                ints(r@) == oi + oi.take(t as int).flat_map(f),
                forall|m: int| 0 <= m < r@.len() ==> r@[m] < self.nodes@.len(),
            decreases occ@.len() - t,
        {
            let adj = self.adjacent_node_positions(&self.nodes[occ[t]]);
            append_positions(&mut r, &adj);
            proof {
                oi.lemma_flat_map_take_append(f, t as int);
            }
            assert(ints(r@) =~= oi + oi.take(t + 1).flat_map(f));
            t = t + 1;
        }
        assert(oi.take(occ@.len() as int) =~= oi);
        r
    }

    fn is_blocked(&self, blocked: &Vec<usize>, key: &str) -> (r: bool)
        requires
            ints(blocked@) == self.blocked_nodes(),
            forall|m: int| 0 <= m < blocked@.len() ==> blocked@[m] < self.nodes@.len(),
        ensures
            r == self.blocked(key@),
    {
        let ghost bi = ints(blocked@);
        let mut t: usize = 0;
        while t < blocked.len()
            invariant
                t <= blocked@.len(),
                bi == ints(blocked@),
                bi == self.blocked_nodes(),
                forall|m: int| 0 <= m < blocked@.len() ==> blocked@[m] < self.nodes@.len(),
                forall|m: int| 0 <= m < t ==> self.nodes@[bi[m]].key@ != key@,
            decreases blocked@.len() - t,
        {
            assert(bi[t as int] == blocked@[t as int] as int);
            if same_key(self.nodes[blocked[t]].key.as_str(), key) {
                let ghost q = bi[t as int];
                assert(bi.contains(q));
                assert(self.blocked_nodes().contains(q) && self.nodes@[q].key@ == key@);
                return true;
            }
            t = t + 1;
        }
        proof {
            if self.blocked(key@) {
                let q = choose|q: int| bi.contains(q) && #[trigger] self.nodes@[q].key@ == key@;
                let m = choose|m: int| 0 <= m < bi.len() && bi[m] == q;
                assert(self.nodes@[bi[m]].key@ != key@);
            }
        }
        false
    }

    pub(crate) fn village_positions(&self, player: &Player) -> (r: Vec<usize>)
        ensures
            ints(r@) == self.potential_villages(*player),
            forall|k: int| 0 <= k < r@.len() ==> r@[k] < self.nodes@.len(),
    {
        let blocked = self.blocked_positions();
        let rn = self.road_node_positions(player);
        let ghost rni = ints(rn@);
        let ghost legal = self.legal_fn();
        let mut c: Vec<usize> = Vec::new();
        let mut k: usize = 0;
        while k < rn.len()
            invariant
                k <= rn@.len(),
                rni == ints(rn@),
                rni == self.road_nodes(*player),
                legal == self.legal_fn(),
                ints(blocked@) == self.blocked_nodes(),
                forall|m: int| 0 <= m < blocked@.len() ==> blocked@[m] < self.nodes@.len(),
                forall|m: int| 0 <= m < rn@.len() ==> rn@[m] < self.nodes@.len(),
                ints(c@) == rni.take(k as int).filter(legal),
                forall|m: int| 0 <= m < c@.len() ==> c@[m] < self.nodes@.len(),
            decreases rn@.len() - k,
        {
            let j = rn[k];
            assert(rni.take(k + 1) =~= rni.take(k as int).push(j as int));
            proof {
                rni.take(k as int).lemma_filter_push(j as int, legal);
            }
            if !self.is_blocked(&blocked, self.nodes[j].key.as_str()) {
                proof {
                    lemma_ints_push(c@, j);
                }
                c.push(j);
            }
            k = k + 1;
        }
        assert(rni.take(rn@.len() as int) =~= rni);
        let ghost ci = ints(c@);
        let d = distinct_ascending(c);
        proof {
            lemma_ints_contains(c@);
            let n = self.nodes@.len() as int;
            let p = self.open_village_fn(*player);
            assert forall|x: int| ints(d@).contains(x) <==> 0 <= x < n && p(x) by {
                lemma_filter_member(rni, legal, x);
            }
            lemma_ascending_is_positions(ints(d@), n, p);
            lemma_ints_contains(d@);
            assert forall|m: int| 0 <= m < d@.len() implies d@[m] < self.nodes@.len() by {
                assert(ints(d@)[m] == d@[m] as int);
                assert(ints(d@).contains(ints(d@)[m]));
            }
        }
        d
    }

    /// The nodes around the roads of `player` where the distance rule allows
    /// a village: each once, in board order.
    pub fn get_potential_village_nodes(&self, player: &Player) -> (r: Vec<&Node>)
        ensures
            r@.unref() == self.potential_villages(*player).map_values(|j: int| self.nodes@[j]),
    {
        let ps = self.village_positions(player);
        refs_at(&self.nodes, &ps)
    }
}

/// The distance rule: no node that someone holds, and no node one road away
/// from one, shares its key with a place where any player may build a
/// village.
pub proof fn lemma_distance_rule(board: Board, p: Player, o: int, m: int)
    requires
        0 <= o < board.nodes@.len(),
        board.nodes@[o].player is Some,
        m == o || board.nodes_adjacent(board.nodes@[o]).contains(m),
    ensures
        forall|r: int|
            #[trigger] board.potential_villages(p).contains(r) ==> board.nodes@[r].key@
                != board.nodes@[m].key@,
{
    let n = board.nodes@.len() as int;
    let occ = board.occupied();
    let rest = occ.flat_map(board.adjacent_fn());
    lemma_positions_members(n, board.occupied_fn());
    assert(occ.contains(o));
    let t = choose|t: int| 0 <= t < occ.len() && occ[t] == o;
    if m == o {
        assert((occ + rest)[t] == m);
    } else {
        lemma_flat_map_contains(occ, board.adjacent_fn(), t, m);
        let k = choose|k: int| 0 <= k < rest.len() && rest[k] == m;
        assert((occ + rest)[occ.len() + k] == m);
    }
    assert(board.blocked_nodes().contains(m));
    assert(board.blocked(board.nodes@[m].key@));
    lemma_positions_members(n, board.open_village_fn(p));
}

/// The resolver and the legal-move calculator depend on the board and their
/// arguments alone: asking twice of one unchanged board gives the same
/// results, item for item.
pub proof fn lemma_repeatable(first: Board, second: Board, n: Node, e: Edge, p: Player)
    requires
        first == second,
    ensures
        first.tiles_around(n) == second.tiles_around(n),
        first.edges_around(n) == second.edges_around(n),
        first.nodes_around(e.key@) == second.nodes_around(e.key@),
        first.nodes_adjacent(n) == second.nodes_adjacent(n),
        first.player_structures(p, None) == second.player_structures(p, None),
        first.player_roads(p) == second.player_roads(p),
        first.potential_streets(p) == second.potential_streets(p),
        first.potential_villages(p) == second.potential_villages(p),
{
}

/// Places to build come as sets: ascending positions, none of them twice.
pub proof fn lemma_potential_sets(board: Board, p: Player)
    ensures
        board.potential_streets(p).no_duplicates(),
        board.potential_villages(p).no_duplicates(),
        ascending(board.potential_streets(p)),
        ascending(board.potential_villages(p)),
{
    lemma_positions_members(board.edges@.len() as int, board.open_street_fn(p));
    lemma_positions_members(board.nodes@.len() as int, board.open_village_fn(p));
}

} // verus!
