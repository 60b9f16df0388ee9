//! The topology resolver: neighbour relations derived from the keys that a
//! board holds, recomputed on every call.
use vstd::prelude::*;

use itertools::Itertools;

use crate::board::{
    find_by_key, first_with_key, lemma_key_index, refs_at, Board, Edge, Node, Tile,
};
use crate::keys::{
    comma_free, edge_key, edge_key_of, lemma_edge_key_injective, lemma_edge_key_symmetric, same_key,
};
use crate::seqs::{
    first_occurrences, ints, lemma_first_occurrences, lemma_first_occurrences_distinct,
    lemma_first_occurrences_len, lemma_flat_map_contains, lemma_flat_map_member, lemma_ints_push,
    lemma_positions_members, opt_seq, positions,
};

verus! {

/// Every pair `(i, j)` with `start <= i < j < n`, in lexicographic order.
pub open spec fn pairs_from(start: int, n: int) -> Seq<(int, int)>
    decreases n - start,
{
    if start >= n {
        Seq::empty()
    } else {
        Seq::new((n - start - 1) as nat, |d: int| (start, start + 1 + d)) + pairs_from(start + 1, n)
    }
}

/// Pairs of `usize` positions seen as pairs of integers.
pub open spec fn int_pairs(v: Seq<(usize, usize)>) -> Seq<(int, int)> {
    v.map_values(|p: (usize, usize)| (p.0 as int, p.1 as int))
}

/// Each pair of `pairs_from(start, n)` is ordered and lies in `start..n`.
pub proof fn lemma_pairs_in_range(start: int, n: int)
    requires
        0 <= start,
    ensures
        forall|k: int|
            0 <= k < pairs_from(start, n).len() ==> start <= (#[trigger] pairs_from(start, n)[k]).0
                < pairs_from(start, n)[k].1 < n,
    decreases n - start,
{
    if start < n {
        lemma_pairs_in_range(start + 1, n);
        let head = Seq::new((n - start - 1) as nat, |d: int| (start, start + 1 + d));
        let tail = pairs_from(start + 1, n);
        assert forall|k: int| 0 <= k < pairs_from(start, n).len() implies start <= (
        #[trigger] pairs_from(start, n)[k]).0 < pairs_from(start, n)[k].1 < n by {
            if k >= head.len() {
                assert(pairs_from(start, n)[k] == tail[k - head.len()]);
            }
        }
    }
}

/// Relies on itertools' `combinations(2)` over `0..n`: each pair of distinct
/// positions below `n` once, in lexicographic order.
#[verifier::external_body]
fn position_pairs(n: usize) -> (r: Vec<(usize, usize)>)
    ensures
        int_pairs(r@) == pairs_from(0, n as int),
{
    (0..n).combinations(2).map(|p| (p[0], p[1])).collect()
}

/// Whether the positions `v` hold `x`.
fn holds_position(v: &Vec<usize>, x: usize) -> (r: bool)
    ensures
        r == ints(v@).contains(x as int),
{
    let mut k: usize = 0;
    while k < v.len()
        invariant
            k <= v@.len(),
            forall|m: int| 0 <= m < k ==> v@[m] != x,
        decreases v@.len() - k,
    {
        if v[k] == x {
            assert(ints(v@)[k as int] == x as int);
            return true;
        }
        k = k + 1;
    }
    proof {
        if ints(v@).contains(x as int) {
            let m = choose|m: int| 0 <= m < ints(v@).len() && ints(v@)[m] == x as int;
            assert(v@[m] == x);
        }
    }
    false
}

impl Board {
    /// Positions of the tiles that a node references, through `t_key`,
    /// `l_key` and `r_key` in that order; unresolved references are skipped.
    pub open spec fn tiles_around(self, n: Node) -> Seq<int> {
        opt_seq(self.tile_at(n.t_key@)) + opt_seq(self.tile_at(n.l_key@)) + opt_seq(
            self.tile_at(n.r_key@),
        )
    }

    /// The edge of the board, if there is one, between the tiles at
    /// positions `ts[p.0]` and `ts[p.1]`.
    pub open spec fn pair_edge(self, ts: Seq<int>, p: (int, int)) -> Seq<int> {
        opt_seq(self.edge_at(edge_key_of(self.tiles@[ts[p.0]].key@, self.tiles@[ts[p.1]].key@)))
    }

    /// `pair_edge` for the tiles `ts`, as a function of the pair.
    pub open spec fn pair_edge_fn(self, ts: Seq<int>) -> spec_fn((int, int)) -> Seq<int> {
        |p: (int, int)| self.pair_edge(ts, p)
    }

    /// The lookups behind the edges around a node: one for each unordered
    /// pair of the tiles around it, in the order of the pairs.
    pub open spec fn edge_lookups(self, n: Node) -> Seq<int> {
        let ts = self.tiles_around(n);
        pairs_from(0, ts.len() as int).flat_map(self.pair_edge_fn(ts))
    }

    /// Positions of the edges around a node: the edges that the lookups for
    /// the pairs of its tiles find, each once, at its first finding.
    pub open spec fn edges_around(self, n: Node) -> Seq<int> {
        first_occurrences(self.edge_lookups(n))
    }

    /// One of the edges around `n` has the key `k`.
    pub open spec fn touches(self, n: Node, k: Seq<char>) -> bool {
        exists|t: int|
            0 <= t < self.edges_around(n).len() && self.edges@[#[trigger] self.edges_around(n)[t]].key@
                == k
    }

    /// The node at a position has the edge keyed `k` around it.
    pub open spec fn touches_fn(self, k: Seq<char>) -> spec_fn(int) -> bool {
        |j: int| self.touches(self.nodes@[j], k)
    }

    /// Positions of the nodes that have the edge keyed `k` around them.
    pub open spec fn nodes_around(self, k: Seq<char>) -> Seq<int> {
        positions(self.nodes@.len() as int, self.touches_fn(k))
    }

    /// The node at a position does not have the key of `n`.
    pub open spec fn other_than(self, n: Node) -> spec_fn(int) -> bool {
        |j: int| self.nodes@[j].key@ != n.key@
    }

    /// For an edge position, the nodes around that edge other than `n`.
    pub open spec fn neighbours_via_fn(self, n: Node) -> spec_fn(int) -> Seq<int> {
        |e: int| self.nodes_around(self.edges@[e].key@).filter(self.other_than(n))
    }

    /// Positions of the nodes one road away from `n`: for each edge around
    /// it, the nodes around that edge that do not have the key of `n`.
    pub open spec fn nodes_adjacent(self, n: Node) -> Seq<int> {
        self.edges_around(n).flat_map(self.neighbours_via_fn(n))
    }

    fn tile_positions_around(&self, node: &Node) -> (r: Vec<usize>)
        ensures
            ints(r@) == self.tiles_around(*node),
            forall|k: int| 0 <= k < r@.len() ==> r@[k] < self.tiles@.len(),
    {
        let mut r: Vec<usize> = Vec::new();
        let t = find_by_key(&self.tiles, node.t_key.as_str());
        let l = find_by_key(&self.tiles, node.l_key.as_str());
        let rk = find_by_key(&self.tiles, node.r_key.as_str());
        proof {
            lemma_key_index(self.tiles@, node.t_key@);
            lemma_key_index(self.tiles@, node.l_key@);
            lemma_key_index(self.tiles@, node.r_key@);
        }
        let ghost a = opt_seq(self.tile_at(node.t_key@));
        let ghost b = opt_seq(self.tile_at(node.l_key@));
        let ghost c = opt_seq(self.tile_at(node.r_key@));
        if let Some(i) = t {
            proof {
                lemma_ints_push(r@, i);
            }
            r.push(i);
        }
        assert(ints(r@) =~= a);
        if let Some(i) = l {
            proof {
                lemma_ints_push(r@, i);
            }
            r.push(i);
        }
        assert(ints(r@) =~= a + b);
        if let Some(i) = rk {
            proof {
                lemma_ints_push(r@, i);
            }
            r.push(i);
        }
        assert(ints(r@) =~= a + b + c);
        r
    }

    /// The tiles around `node`, found by its three tile references.
    pub fn get_tiles_surrounding_node(&self, node: &Node) -> (r: Vec<&Tile>)
        ensures
            r@.unref() == self.tiles_around(*node).map_values(|i: int| self.tiles@[i]),
    {
        let ps = self.tile_positions_around(node);
        refs_at(&self.tiles, &ps)
    }

    pub(crate) fn edge_positions_around(&self, node: &Node) -> (r: Vec<usize>)
        ensures
            ints(r@) == self.edges_around(*node),
            forall|k: int| 0 <= k < r@.len() ==> r@[k] < self.edges@.len(),
    {
        let ts = self.tile_positions_around(node);
        let pairs = position_pairs(ts.len());
        let ghost tsi = ints(ts@);
        let ghost ps = pairs_from(0, ts@.len() as int);
        proof {
            lemma_pairs_in_range(0, ts@.len() as int);
        }
        let mut r: Vec<usize> = Vec::new();
        let mut k: usize = 0;
        while k < pairs.len()
            invariant
                k <= pairs@.len(),
                int_pairs(pairs@) == ps,
                ps == pairs_from(0, ts@.len() as int),
                tsi == ints(ts@),
                tsi == self.tiles_around(*node),
                forall|m: int| 0 <= m < ts@.len() ==> ts@[m] < self.tiles@.len(),
                forall|m: int|
                    0 <= m < ps.len() ==> 0 <= (#[trigger] ps[m]).0 < ps[m].1 < ts@.len(),
                ints(r@) == first_occurrences(ps.take(k as int).flat_map(self.pair_edge_fn(tsi))),
                forall|m: int| 0 <= m < r@.len() ==> r@[m] < self.edges@.len(),
            decreases pairs@.len() - k,
        {
            let (a, b) = pairs[k];
            assert(ps[k as int] == (a as int, b as int));
            let key = edge_key(self.tiles[ts[a]].key.as_str(), self.tiles[ts[b]].key.as_str());
            let found = find_by_key(&self.edges, key.as_str());
            proof {
                lemma_key_index(self.edges@, key@);
                ps.lemma_flat_map_take_append(self.pair_edge_fn(tsi), k as int);
            }
            let ghost before = ps.take(k as int).flat_map(self.pair_edge_fn(tsi));
            let ghost next = ps.take(k + 1).flat_map(self.pair_edge_fn(tsi));
            if let Some(e) = found {
                assert(before + seq![e as int] =~= before.push(e as int));
                assert(next == before.push(e as int));
                assert(next.drop_last() =~= before);
                if !holds_position(&r, e) {
                    proof {
                        lemma_ints_push(r@, e);
                    }
                    r.push(e);
                }
            } else {
                assert(before + Seq::<int>::empty() =~= before);
                assert(next == before);
            }
            k = k + 1;
        }
        assert(ps.take(pairs@.len() as int) =~= ps);
        r
    }

    /// The edges around `node`: for each unordered pair of the tiles around
    /// it, the edge of the board with the pair's canonical key, if any; no
    /// edge comes twice, and no two of them share a key.
    pub fn get_edges_surrounding_node(&self, node: &Node) -> (r: Vec<&Edge>)
        ensures
            r@.unref() == self.edges_around(*node).map_values(|i: int| self.edges@[i]),
            forall|i: int, j: int| 0 <= i < j < r@.len() ==> r@[i].key@ != r@[j].key@,
    {
        let ps = self.edge_positions_around(node);
        proof {
            lemma_edges_around_distinct(*self, *node);
        }
        let r = refs_at(&self.edges, &ps);
        let ghost ea = self.edges_around(*node);
        let ghost es = ea.map_values(|i: int| self.edges@[i]);
        assert(r@.unref() == es);
        assert(r@.unref().len() == r@.len());
        assert(es.len() == ea.len());
        assert forall|i: int, j: int| 0 <= i < j < r@.len() implies r@[i].key@ != r@[j].key@ by {
            assert(*r@[i] == r@.unref()[i]);
            assert(*r@[j] == r@.unref()[j]);
            assert(es[i] == self.edges@[ea[i]]);
            assert(es[j] == self.edges@[ea[j]]);
        }
        r
    }

    fn touches_key(&self, node: &Node, key: &str) -> (r: bool)
        ensures
            r == self.touches(*node, key@),
    {
        let es = self.edge_positions_around(node);
        let ghost around = self.edges_around(*node);
        let mut k: usize = 0;
        while k < es.len()
            invariant
                k <= es@.len(),
                ints(es@) == around,
                around == self.edges_around(*node),
                forall|m: int| 0 <= m < es@.len() ==> es@[m] < self.edges@.len(),
                forall|m: int| 0 <= m < k ==> self.edges@[around[m]].key@ != key@,
            decreases es@.len() - k,
        {
            assert(around[k as int] == es@[k as int] as int);
            if same_key(self.edges[es[k]].key.as_str(), key) {
                return true;
            }
            k = k + 1;
        }
        false
    }

    pub(crate) fn node_positions_around(&self, key: &str) -> (r: Vec<usize>)
        ensures
            ints(r@) == self.nodes_around(key@),
            forall|k: int| 0 <= k < r@.len() ==> r@[k] < self.nodes@.len(),
    {
        let mut r: Vec<usize> = Vec::new();
        let mut i: usize = 0;
        while i < self.nodes.len()
            invariant
                i <= self.nodes@.len(),
                ints(r@) == positions(i as int, self.touches_fn(key@)),
                forall|k: int| 0 <= k < r@.len() ==> r@[k] < i,
            decreases self.nodes@.len() - i,
        {
            if self.touches_key(&self.nodes[i], key) {
                proof {
                    lemma_ints_push(r@, i);
                }
                r.push(i);
            }
            i = i + 1;
        }
        r
    }

    /// The nodes that have `edge` among the edges around them, compared by key.
    pub fn get_nodes_surrounding_edge(&self, edge: &Edge) -> (r: Vec<&Node>)
        ensures
            r@.unref() == self.nodes_around(edge.key@).map_values(|j: int| self.nodes@[j]),
    {
        let ps = self.node_positions_around(edge.key.as_str());
        refs_at(&self.nodes, &ps)
    }

    pub(crate) fn adjacent_node_positions(&self, node: &Node) -> (r: Vec<usize>)
        ensures
            ints(r@) == self.nodes_adjacent(*node),
            forall|k: int| 0 <= k < r@.len() ==> r@[k] < self.nodes@.len(),
    {
        let es = self.edge_positions_around(node);
        let ghost esi = ints(es@);
        let ghost f = self.neighbours_via_fn(*node);
        let ghost keep = self.other_than(*node);
        let mut r: Vec<usize> = Vec::new();
        let mut k: usize = 0;
        while k < es.len()
            invariant
                k <= es@.len(),
                esi == ints(es@),
                esi == self.edges_around(*node),
                f == self.neighbours_via_fn(*node),
                keep == self.other_than(*node),
                forall|m: int| 0 <= m < es@.len() ==> es@[m] < self.edges@.len(),
                ints(r@) == esi.take(k as int).flat_map(f),
                forall|m: int| 0 <= m < r@.len() ==> r@[m] < self.nodes@.len(),
            decreases es@.len() - k,
        {
            let around = self.node_positions_around(self.edges[es[k]].key.as_str());
            let ghost before = ints(r@);
            let ghost ai = ints(around@);
            let mut m: usize = 0;
            while m < around.len()
                invariant
                    m <= around@.len(),
                    ai == ints(around@),
                    keep == self.other_than(*node),
                    forall|x: int| 0 <= x < around@.len() ==> around@[x] < self.nodes@.len(),
                    forall|x: int| 0 <= x < r@.len() ==> r@[x] < self.nodes@.len(),
                    ints(r@) == before + ai.take(m as int).filter(keep),
                decreases around@.len() - m,
            {
                let j = around[m];
                assert(ai.take(m + 1) =~= ai.take(m as int).push(j as int));
                proof {
                    ai.take(m as int).lemma_filter_push(j as int, keep);
                }
                if !same_key(self.nodes[j].key.as_str(), node.key.as_str()) {
                    proof {
                        lemma_ints_push(r@, j);
                    }
                    r.push(j);
                    assert(ints(r@) =~= before + ai.take(m + 1).filter(keep));
                }
                m = m + 1;
            }
            assert(ai.take(around@.len() as int) =~= ai);
            proof {
                esi.lemma_flat_map_take_append(f, k as int);
            }
            k = k + 1;
        }
        assert(esi.take(es@.len() as int) =~= esi);
        r
    }

    /// The nodes one road away from `node`.
    pub fn get_nodes_surrounding_node(&self, node: &Node) -> (r: Vec<&Node>)
        ensures
            r@.unref() == self.nodes_adjacent(*node).map_values(|j: int| self.nodes@[j]),
    {
        let ps = self.adjacent_node_positions(node);
        refs_at(&self.nodes, &ps)
    }
}

impl Board {
    /// The key of the `i`-th tile around `n`.
    pub open spec fn key_around(self, n: Node, i: int) -> Seq<char> {
        self.tiles@[self.tiles_around(n)[i]].key@
    }

    /// The edge of the board keyed by the canonical key of the `i`-th and
    /// `j`-th tiles around `n`, if there is one.
    pub open spec fn edge_between(self, n: Node, i: int, j: int) -> Seq<int> {
        opt_seq(self.edge_at(edge_key_of(self.key_around(n, i), self.key_around(n, j))))
    }
}

proof fn lemma_tiles_around_valid(board: Board, n: Node)
    ensures
        forall|i: int|
            0 <= i < board.tiles_around(n).len() ==> 0 <= #[trigger] board.tiles_around(n)[i]
                < board.tiles@.len(),
{
    lemma_key_index(board.tiles@, n.t_key@);
    lemma_key_index(board.tiles@, n.l_key@);
    lemma_key_index(board.tiles@, n.r_key@);
}

proof fn lemma_found_edge_key(board: Board, k: Seq<char>, i: int)
    requires
        opt_seq(board.edge_at(k)).contains(i),
    ensures
        0 <= i < board.edges@.len(),
        board.edges@[i].key@ == k,
        first_with_key(board.edges@, k, i),
{
    lemma_key_index(board.edges@, k);
}

/// Each edge around a node is the first edge of the board with its key.
proof fn lemma_edge_around_is_first(board: Board, n: Node, x: int)
    requires
        board.edges_around(n).contains(x),
    ensures
        first_with_key(board.edges@, board.edges@[x].key@, x),
{
    let ts = board.tiles_around(n);
    let ps = pairs_from(0, ts.len() as int);
    lemma_first_occurrences(board.edge_lookups(n));
    let t = lemma_flat_map_member(ps, board.pair_edge_fn(ts), x);
    let p = ps[t];
    lemma_found_edge_key(
        board,
        edge_key_of(board.tiles@[ts[p.0]].key@, board.tiles@[ts[p.1]].key@),
        x,
    );
}

/// The edges around a node are edges of the board, none of them twice,
/// and no two of them share a key.
pub proof fn lemma_edges_around_distinct(board: Board, n: Node)
    ensures
        board.edges_around(n).no_duplicates(),
        forall|i: int|
            0 <= i < board.edges_around(n).len() ==> 0 <= #[trigger] board.edges_around(n)[i]
                < board.edges@.len(),
        forall|i: int, j: int|
            0 <= i < j < board.edges_around(n).len() ==> board.edges@[board.edges_around(
                n,
            )[i]].key@ != board.edges@[board.edges_around(n)[j]].key@,
{
    let ea = board.edges_around(n);
    lemma_first_occurrences(board.edge_lookups(n));
    assert forall|i: int| 0 <= i < ea.len() implies 0 <= #[trigger] ea[i] < board.edges@.len() by {
        assert(ea.contains(ea[i]));
        lemma_edge_around_is_first(board, n, ea[i]);
    }
    assert forall|i: int, j: int| 0 <= i < j < ea.len() implies board.edges@[ea[i]].key@
        != board.edges@[ea[j]].key@ by {
        assert(ea.contains(ea[i]));
        assert(ea.contains(ea[j]));
        lemma_edge_around_is_first(board, n, ea[i]);
        lemma_edge_around_is_first(board, n, ea[j]);
    }
}

/// A node with three tiles around it, keyed A, B and C, has around it the
/// edges of the board keyed by the pairs {A,B}, {A,C} and {B,C}, in that
/// order, none of them twice; where the three keys differ and hold no
/// comma, the three pair keys differ too, and nothing is dropped as a repeat.
pub proof fn lemma_edges_around_three_tiles(board: Board, n: Node)
    requires
        board.tiles_around(n).len() == 3,
    ensures
        board.edge_lookups(n) == board.edge_between(n, 0, 1) + board.edge_between(n, 0, 2)
            + board.edge_between(n, 1, 2),
        board.edges_around(n) == first_occurrences(board.edge_lookups(n)),
        board.edges_around(n).len() <= 3,
        board.edges_around(n).no_duplicates(),
        ({
            &&& comma_free(board.key_around(n, 0))
            &&& comma_free(board.key_around(n, 1))
            &&& comma_free(board.key_around(n, 2))
            &&& board.key_around(n, 0) != board.key_around(n, 1)
            &&& board.key_around(n, 0) != board.key_around(n, 2)
            &&& board.key_around(n, 1) != board.key_around(n, 2)
        }) ==> board.edges_around(n) == board.edge_lookups(n),
{
    let ts = board.tiles_around(n);
    let f = board.pair_edge_fn(ts);
    let ps = pairs_from(0, 3);
    assert(pairs_from(3, 3) =~= Seq::<(int, int)>::empty());
    assert(pairs_from(2, 3) =~= Seq::<(int, int)>::empty());
    assert(pairs_from(1, 3) =~= seq![(1int, 2int)]);
    assert(ps =~= seq![(0int, 1int), (0int, 2int), (1int, 2int)]);
    let one_pair = seq![(0int, 1int)];
    let two_pairs = one_pair.push((0int, 2int));
    assert(ps =~= two_pairs.push((1int, 2int)));
    assert(Seq::<(int, int)>::empty().push((0int, 1int)) =~= one_pair);
    Seq::<(int, int)>::empty().lemma_flat_map_push(f, (0int, 1int));
    assert(Seq::<(int, int)>::empty().flat_map(f) =~= Seq::<int>::empty());
    one_pair.lemma_flat_map_push(f, (0int, 2int));
    two_pairs.lemma_flat_map_push(f, (1int, 2int));
    let a = board.edge_between(n, 0, 1);
    let b = board.edge_between(n, 0, 2);
    let c = board.edge_between(n, 1, 2);
    assert(board.edge_lookups(n) =~= a + b + c);
    let all = a + b + c;
    lemma_first_occurrences(all);
    lemma_first_occurrences_len(all);
    let ka = board.key_around(n, 0);
    let kb = board.key_around(n, 1);
    let kc = board.key_around(n, 2);
    if comma_free(ka) && comma_free(kb) && comma_free(kc) && ka != kb && ka != kc && kb != kc {
        assert forall|i: int, j: int| 0 <= i < all.len() && 0 <= j < all.len() && i != j implies all[i]
            != all[j] by {
            let x = all[i];
            let y = all[j];
            let ki = if i < a.len() {
                edge_key_of(ka, kb)
            } else if i < a.len() + b.len() {
                edge_key_of(ka, kc)
            } else {
                edge_key_of(kb, kc)
            };
            let kj = if j < a.len() {
                edge_key_of(ka, kb)
            } else if j < a.len() + b.len() {
                edge_key_of(ka, kc)
            } else {
                edge_key_of(kb, kc)
            };
            if i < a.len() {
                assert(a.contains(x));
            } else if i < a.len() + b.len() {
                assert(b[i - a.len()] == x);
                assert(b.contains(x));
            } else {
                assert(c[i - a.len() - b.len()] == x);
                assert(c.contains(x));
            }
            if j < a.len() {
                assert(a.contains(y));
            } else if j < a.len() + b.len() {
                assert(b[j - a.len()] == y);
                assert(b.contains(y));
            } else {
                assert(c[j - a.len() - b.len()] == y);
                assert(c.contains(y));
            }
            lemma_found_edge_key(board, ki, x);
            lemma_found_edge_key(board, kj, y);
            let bi = if i < a.len() {
                0int
            } else if i < a.len() + b.len() {
                1int
            } else {
                2int
            };
            let bj = if j < a.len() {
                0int
            } else if j < a.len() + b.len() {
                1int
            } else {
                2int
            };
            if x == y {
                if bi == 0 && bj == 1 || bi == 1 && bj == 0 {
                    lemma_edge_key_injective(ka, kb, ka, kc);
                } else if bi == 0 && bj == 2 || bi == 2 && bj == 0 {
                    lemma_edge_key_injective(ka, kb, kb, kc);
                } else if bi == 1 && bj == 2 || bi == 2 && bj == 1 {
                    lemma_edge_key_injective(ka, kc, kb, kc);
                }
            }
        }
        assert(all.no_duplicates());
        lemma_first_occurrences_distinct(all);
    }
}

/// A node with exactly two tiles around it has around it the one edge of
/// the board between those two tiles, if the board has it, and no other.
pub proof fn lemma_edges_around_two_tiles(board: Board, n: Node)
    requires
        board.tiles_around(n).len() == 2,
    ensures
        board.edge_lookups(n) == board.edge_between(n, 0, 1),
        board.edges_around(n) == board.edge_between(n, 0, 1),
        board.edge_at(edge_key_of(board.key_around(n, 0), board.key_around(n, 1))) is Some
            ==> board.edges_around(n).len() == 1,
{
    let ts = board.tiles_around(n);
    let f = board.pair_edge_fn(ts);
    assert(pairs_from(2, 2) =~= Seq::<(int, int)>::empty());
    assert(pairs_from(1, 2) =~= Seq::<(int, int)>::empty());
    assert(pairs_from(0, 2) =~= Seq::<(int, int)>::empty().push((0int, 1int)));
    Seq::<(int, int)>::empty().lemma_flat_map_push(f, (0int, 1int));
    assert(Seq::<(int, int)>::empty().flat_map(f) =~= Seq::<int>::empty());
    assert(board.edge_lookups(n) =~= board.edge_between(n, 0, 1));
    lemma_first_occurrences_distinct(board.edge_between(n, 0, 1));
}

/// Every edge around a node of the board has that node among the nodes
/// around it.
pub proof fn lemma_node_around_own_edge(board: Board, j: int, t: int)
    requires
        0 <= j < board.nodes@.len(),
        0 <= t < board.edges_around(board.nodes@[j]).len(),
    ensures
        board.nodes_around(board.edges@[board.edges_around(board.nodes@[j])[t]].key@).contains(j),
{
    let k = board.edges@[board.edges_around(board.nodes@[j])[t]].key@;
    assert(board.touches(board.nodes@[j], k));
    lemma_positions_members(board.nodes@.len() as int, board.touches_fn(k));
}

proof fn lemma_pairs_complete(start: int, n: int, i: int, j: int)
    requires
        0 <= start <= i < j < n,
    ensures
        pairs_from(start, n).contains((i, j)),
    decreases n - start,
{
    let head = Seq::new((n - start - 1) as nat, |d: int| (start, start + 1 + d));
    let tail = pairs_from(start + 1, n);
    if i == start {
        assert(pairs_from(start, n)[j - start - 1] == (i, j));
    } else {
        lemma_pairs_complete(start + 1, n, i, j);
        let k = choose|k: int| 0 <= k < tail.len() && tail[k] == (i, j);
        assert(pairs_from(start, n)[head.len() + k] == (i, j));
    }
}

/// What the lookups around a node find: an edge found for some pair of
/// the tiles around it.
proof fn lemma_edge_lookups_members(board: Board, n: Node, x: int)
    ensures
        board.edge_lookups(n).contains(x) <==> exists|i: int, j: int|
            0 <= i < j < board.tiles_around(n).len() && #[trigger] board.pair_edge(
                board.tiles_around(n),
                (i, j),
            ).contains(x),
{
    let ts = board.tiles_around(n);
    let ps = pairs_from(0, ts.len() as int);
    let f = board.pair_edge_fn(ts);
    lemma_pairs_in_range(0, ts.len() as int);
    if board.edge_lookups(n).contains(x) {
        let t = lemma_flat_map_member(ps, f, x);
        let p = ps[t];
        assert(board.pair_edge(ts, (p.0, p.1)).contains(x));
    }
    if exists|i: int, j: int|
        0 <= i < j < ts.len() && #[trigger] board.pair_edge(ts, (i, j)).contains(x) {
        let (i, j) = choose|i: int, j: int|
            0 <= i < j < ts.len() && #[trigger] board.pair_edge(ts, (i, j)).contains(x);
        lemma_pairs_complete(0, ts.len() as int, i, j);
        let t = choose|t: int| 0 <= t < ps.len() && ps[t] == (i, j);
        lemma_flat_map_contains(ps, f, t, x);
    }
}

/// Swapping the `t_key` and `r_key` references of a node changes nothing
/// of which edges lie around it: canonical edge keys do not depend on the
/// order of the two tiles.
pub proof fn lemma_edges_around_swapped_references(board: Board, n1: Node, n2: Node)
    requires
        n2.t_key@ == n1.r_key@,
        n2.r_key@ == n1.t_key@,
        n2.l_key@ == n1.l_key@,
    ensures
        forall|x: int| board.edges_around(n1).contains(x) <==> board.edges_around(n2).contains(x),
{
    let ts1 = board.tiles_around(n1);
    let ts2 = board.tiles_around(n2);
    let m = ts1.len() as int;
    assert(ts2 =~= ts1.reverse());
    lemma_first_occurrences(board.edge_lookups(n1));
    lemma_first_occurrences(board.edge_lookups(n2));
    assert forall|x: int| board.edges_around(n1).contains(x) <==> board.edges_around(n2).contains(x) by {
        lemma_edge_lookups_members(board, n1, x);
        lemma_edge_lookups_members(board, n2, x);
        if board.edge_lookups(n1).contains(x) {
            let (i, j) = choose|i: int, j: int|
                0 <= i < j < m && #[trigger] board.pair_edge(ts1, (i, j)).contains(x);
            lemma_edge_key_symmetric(board.tiles@[ts1[i]].key@, board.tiles@[ts1[j]].key@);
            assert(ts2[m - 1 - j] == ts1[j]);
            assert(ts2[m - 1 - i] == ts1[i]);
            assert(board.pair_edge(ts2, (m - 1 - j, m - 1 - i)).contains(x));
        }
        if board.edge_lookups(n2).contains(x) {
            let (i, j) = choose|i: int, j: int|
                0 <= i < j < m && #[trigger] board.pair_edge(ts2, (i, j)).contains(x);
            lemma_edge_key_symmetric(board.tiles@[ts2[i]].key@, board.tiles@[ts2[j]].key@);
            assert(ts1[m - 1 - j] == ts2[j]);
            assert(ts1[m - 1 - i] == ts2[i]);
            assert(board.pair_edge(ts1, (m - 1 - j, m - 1 - i)).contains(x));
        }
    }
}

} // verus!
