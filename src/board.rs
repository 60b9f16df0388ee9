//! The board snapshot: tiles, nodes, edges and players, with lookup by key.
use vstd::prelude::*;

use crate::keys::same_key;
use crate::seqs::ints;

verus! {

/// A resource-producing cell of the board.
#[derive(Debug, PartialEq, Eq)]
pub struct Tile {
    pub key: String,
    pub resource_type: String,
    pub number: u32,
    pub x: u8,
    pub y: u8,
}

/// A corner where up to three tiles meet; the site of a village or a city.
/// `t_key`, `r_key` and `l_key` reference the tiles touching it; a key that
/// matches no tile of the board is a missing reference.
#[derive(Debug, PartialEq, Eq)]
pub struct Node {
    pub key: String,
    pub structure: String,
    pub player: Option<usize>,
    pub t_key: String,
    pub r_key: String,
    pub l_key: String,
}

/// The boundary between two tiles; the site of a road. Its key is the
/// canonical key of the two tiles it separates.
#[derive(Debug, PartialEq, Eq)]
pub struct Edge {
    pub key: String,
    pub player: Option<u8>,
    pub road: bool,
}

/// An amount of one resource held by a player.
#[derive(Debug, PartialEq, Eq)]
pub struct Resource {
    pub kind: String,
    pub value: usize,
}

/// A participant of the game.
#[derive(Debug, PartialEq, Eq)]
pub struct Player {
    pub id: usize,
    pub color: String,
    pub name: String,
    pub resources: Vec<Resource>,
}

/// The position of the bandit, as a tile key.
#[derive(Debug, PartialEq, Eq)]
pub struct Bandit {
    pub tile_key: String,
}

/// One snapshot of the board, as the server sends it.
#[derive(Debug, PartialEq, Eq)]
pub struct Board {
    pub bandits: Vec<Bandit>,
    pub tiles: Vec<Tile>,
    pub nodes: Vec<Node>,
    pub edges: Vec<Edge>,
}

/// An entity identified by a string key.
pub trait Keyed {
    spec fn key_view(&self) -> Seq<char>;

    fn key_str(&self) -> (r: &str)
        ensures
            r@ == self.key_view(),
    ;
}

impl Keyed for Tile {
    open spec fn key_view(&self) -> Seq<char> {
        self.key@
    }

    fn key_str(&self) -> (r: &str) {
        self.key.as_str()
    }
}

impl Keyed for Node {
    open spec fn key_view(&self) -> Seq<char> {
        self.key@
    }

    fn key_str(&self) -> (r: &str) {
        self.key.as_str()
    }
}

impl Keyed for Edge {
    open spec fn key_view(&self) -> Seq<char> {
        self.key@
    }

    fn key_str(&self) -> (r: &str) {
        self.key.as_str()
    }
}

/// `i` is the first position of `s` that holds key `k`.
pub open spec fn first_with_key<T: Keyed>(s: Seq<T>, k: Seq<char>, i: int) -> bool {
    &&& 0 <= i < s.len()
    &&& s[i].key_view() == k
    &&& forall|j: int| 0 <= j < i ==> s[j].key_view() != k
}

/// The first position of `s` that holds key `k`, if any.
pub open spec fn key_index<T: Keyed>(s: Seq<T>, k: Seq<char>) -> Option<int> {
    if exists|i: int| first_with_key(s, k, i) {
        Some(choose|i: int| first_with_key(s, k, i))
    } else {
        None
    }
}

proof fn lemma_first_with_key_unique<T: Keyed>(s: Seq<T>, k: Seq<char>, i: int, j: int)
    requires
        first_with_key(s, k, i),
        first_with_key(s, k, j),
    ensures
        i == j,
{
}

/// What `key_index` gives, spelled out.
pub proof fn lemma_key_index<T: Keyed>(s: Seq<T>, k: Seq<char>)
    ensures
        key_index(s, k) matches Some(i) ==> first_with_key(s, k, i),
        key_index(s, k) is None ==> forall|j: int| 0 <= j < s.len() ==> s[j].key_view() != k,
{
    if key_index(s, k) is None {
        assert forall|j: int| 0 <= j < s.len() implies s[j].key_view() != k by {
            if s[j].key_view() == k {
                lemma_first_exists(s, k, j);
            }
        }
    }
}

proof fn lemma_first_exists<T: Keyed>(s: Seq<T>, k: Seq<char>, j: int)
    requires
        0 <= j < s.len(),
        s[j].key_view() == k,
    ensures
        exists|i: int| first_with_key(s, k, i),
    decreases j,
{
    if !first_with_key(s, k, j) {
        let i = choose|i: int| 0 <= i < j && s[i].key_view() == k;
        lemma_first_exists(s, k, i);
    }
}

/// The position of the first item of `items` whose key is `key`.
pub fn find_by_key<T: Keyed>(items: &Vec<T>, key: &str) -> (r: Option<usize>)
    ensures
        match r {
            Some(i) => key_index(items@, key@) == Some(i as int),
            None => key_index(items@, key@) is None,
        },
{
    let mut i: usize = 0;
    while i < items.len()
        invariant
            i <= items@.len(),
            forall|j: int| 0 <= j < i ==> items@[j].key_view() != key@,
        decreases items@.len() - i,
    {
        if same_key(items[i].key_str(), key) {
            proof {
                assert(first_with_key(items@, key@, i as int));
                let c = choose|c: int| first_with_key(items@, key@, c);
                lemma_first_with_key_unique(items@, key@, c, i as int);
            }
            return Some(i);
        }
        i = i + 1;
    }
    proof {
        if exists|c: int| first_with_key(items@, key@, c) {
            let c = choose|c: int| first_with_key(items@, key@, c);
            assert(items@[c].key_view() == key@);
        }
    }
    None
}

/// References to every item of `items`, in order.
pub fn refs_all<T>(items: &Vec<T>) -> (r: Vec<&T>)
    ensures
        r@.unref() == items@,
{
    let mut r: Vec<&T> = Vec::new();
    let mut i: usize = 0;
    while i < items.len()
        invariant
            i <= items@.len(),
            r@.len() == i,
            forall|j: int| 0 <= j < i ==> *r@[j] == items@[j],
        decreases items@.len() - i,
    {
        r.push(&items[i]);
        i = i + 1;
    }
    assert(r@.unref() =~= items@);
    r
}

/// References to the items of `items` at the positions `ps`, in the order of `ps`.
pub fn refs_at<'a, T>(items: &'a Vec<T>, ps: &Vec<usize>) -> (r: Vec<&'a T>)
    requires
        forall|k: int| 0 <= k < ps@.len() ==> ps@[k] < items@.len(),
    ensures
        r@.unref() == ints(ps@).map_values(|i: int| items@[i]),
{
    let mut r: Vec<&T> = Vec::new();
    let mut k: usize = 0;
    while k < ps.len()
        invariant
            k <= ps@.len(),
            r@.len() == k,
            forall|m: int| 0 <= m < ps@.len() ==> ps@[m] < items@.len(),
            forall|m: int| 0 <= m < k ==> *r@[m] == items@[ps@[m] as int],
        decreases ps@.len() - k,
    {
        r.push(&items[ps[k]]);
        k = k + 1;
    }
    assert(r@.unref() =~= ints(ps@).map_values(|i: int| items@[i]));
    r
}

/// The item at the position `found`, if any.
fn ref_found<T>(items: &Vec<T>, found: Option<usize>) -> (r: Option<&T>)
    requires
        found matches Some(i) ==> i < items@.len(),
    ensures
        match found {
            Some(i) => r matches Some(t) && *t == items@[i as int],
            None => r is None,
        },
{
    match found {
        Some(i) => Some(&items[i]),
        None => None,
    }
}

impl Board {
    /// The tiles of the board, in board order.
    pub fn get_tiles(&self) -> (r: Vec<&Tile>)
        ensures
            r@.unref() == self.tiles@,
    {
        refs_all(&self.tiles)
    }

    /// The nodes of the board, in board order.
    pub fn get_nodes(&self) -> (r: Vec<&Node>)
        ensures
            r@.unref() == self.nodes@,
    {
        refs_all(&self.nodes)
    }

    /// The edges of the board, in board order.
    pub fn get_edges(&self) -> (r: Vec<&Edge>)
        ensures
            r@.unref() == self.edges@,
    {
        refs_all(&self.edges)
    }

    /// The position of the tile keyed `k`: the first one, should several share it.
    pub open spec fn tile_at(self, k: Seq<char>) -> Option<int> {
        key_index(self.tiles@, k)
    }

    /// The position of the node keyed `k`: the first one, should several share it.
    pub open spec fn node_at(self, k: Seq<char>) -> Option<int> {
        key_index(self.nodes@, k)
    }

    /// The position of the edge keyed `k`: the first one, should several share it.
    pub open spec fn edge_at(self, k: Seq<char>) -> Option<int> {
        key_index(self.edges@, k)
    }

    /// The tile keyed `key`, or `None` where no tile has that key.
    pub fn get_tile_by_key(&self, key: &str) -> (r: Option<&Tile>)
        ensures
            match self.tile_at(key@) {
                Some(i) => r matches Some(t) && *t == self.tiles@[i],
                None => r is None,
            },
    {
        let found = find_by_key(&self.tiles, key);
        proof {
            lemma_key_index(self.tiles@, key@);
        }
        ref_found(&self.tiles, found)
    }

    /// The node keyed `key`, or `None` where no node has that key.
    pub fn get_node_by_key(&self, key: &str) -> (r: Option<&Node>)
        ensures
            match self.node_at(key@) {
                Some(i) => r matches Some(n) && *n == self.nodes@[i],
                None => r is None,
            },
    {
        let found = find_by_key(&self.nodes, key);
        proof {
            lemma_key_index(self.nodes@, key@);
        }
        ref_found(&self.nodes, found)
    }

    /// The edge keyed `key`, or `None` where no edge has that key.
    pub fn get_edge_by_key(&self, key: &str) -> (r: Option<&Edge>)
        ensures
            match self.edge_at(key@) {
                Some(i) => r matches Some(e) && *e == self.edges@[i],
                None => r is None,
            },
    {
        let found = find_by_key(&self.edges, key);
        proof {
            lemma_key_index(self.edges@, key@);
        }
        ref_found(&self.edges, found)
    }
}

} // verus!
