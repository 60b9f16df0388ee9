use settlers_client::keys::{edge_key, key_le_exec, same_key};
use settlers_client::{Bandit, Board, Edge, Node, Player, Resource, Tile};

fn tile(key: &str) -> Tile {
    Tile { key: String::from(key), resource_type: String::from("wood"), number: 6, x: 0, y: 0 }
}

fn node(key: &str, t: &str, r: &str, l: &str, player: Option<usize>, structure: &str) -> Node {
    Node {
        key: String::from(key),
        structure: String::from(structure),
        player,
        t_key: String::from(t),
        r_key: String::from(r),
        l_key: String::from(l),
    }
}

fn edge(key: &str, player: Option<u8>, road: bool) -> Edge {
    Edge { key: String::from(key), player, road }
}

fn player(id: usize) -> Player {
    Player {
        id,
        color: String::from("red"),
        name: String::from("p"),
        resources: vec![Resource { kind: String::from("wood"), value: 2 }],
    }
}

/// Three tiles T1, T2, T3 meeting at N1, with all three edges present.
fn triangle(owner_of_t1_t2: Option<u8>) -> Board {
    Board {
        bandits: vec![Bandit { tile_key: String::from("T1") }],
        tiles: vec![tile("T1"), tile("T2"), tile("T3")],
        nodes: vec![node("N1", "T1", "T2", "T3", None, "")],
        edges: vec![
            edge("(T1,T2)", owner_of_t1_t2, owner_of_t1_t2.is_some()),
            edge("(T1,T3)", None, false),
            edge("(T2,T3)", None, false),
        ],
    }
}

/// Four tiles A, B, C, D; N1 touches A, B, C; N2 touches B, C, D; N3 is a
/// boundary node touching A and B.
fn diamond(occupant_of_n1: Option<usize>, roads: &[&str]) -> Board {
    let keys = ["(A,B)", "(A,C)", "(B,C)", "(B,D)", "(C,D)"];
    let edges = keys
        .iter()
        .map(|k| {
            let mine = roads.contains(k);
            edge(k, if mine { Some(1) } else { None }, mine)
        })
        .collect();
    Board {
        bandits: vec![],
        tiles: vec![tile("A"), tile("B"), tile("C"), tile("D")],
        nodes: vec![
            node("N1", "A", "B", "C", occupant_of_n1, if occupant_of_n1.is_some() { "village" } else { "" }),
            node("N2", "B", "C", "D", None, ""),
            node("N3", "A", "B", "", None, ""),
        ],
        edges,
    }
}

fn edge_keys(es: &[&Edge]) -> Vec<String> {
    es.iter().map(|e| e.key.clone()).collect()
}

fn node_keys(ns: &[&Node]) -> Vec<String> {
    ns.iter().map(|n| n.key.clone()).collect()
}

fn sorted(mut v: Vec<String>) -> Vec<String> {
    v.sort();
    v
}

#[test]
fn edge_key_is_symmetric() {
    assert_eq!(edge_key("T1", "T2"), "(T1,T2)");
    assert_eq!(edge_key("T2", "T1"), "(T1,T2)");
    assert_eq!(edge_key("b", "ab"), "(ab,b)");
    assert_eq!(edge_key("x", "x"), "(x,x)");
}

#[test]
fn key_order_and_equality() {
    assert!(key_le_exec("A", "B"));
    assert!(!key_le_exec("B", "A"));
    assert!(key_le_exec("A", "AB"));
    assert!(!key_le_exec("AB", "A"));
    assert!(key_le_exec("", ""));
    assert!(same_key("N1", "N1"));
    assert!(!same_key("N1", "N10"));
    assert!(!same_key("N1", "N2"));
}

#[test]
fn lookups_by_key() {
    let mut board = triangle(None);
    board.tiles.push(Tile { key: String::from("T2"), resource_type: String::from("ore"), number: 3, x: 1, y: 1 });
    assert_eq!(board.get_tile_by_key("T2").unwrap().resource_type, "wood");
    assert!(board.get_tile_by_key("T9").is_none());
    assert_eq!(board.get_node_by_key("N1").unwrap().t_key, "T1");
    assert!(board.get_node_by_key("N2").is_none());
    assert_eq!(board.get_edge_by_key("(T2,T3)").unwrap().key, "(T2,T3)");
    assert!(board.get_edge_by_key("(T3,T2)").is_none());
    assert_eq!(board.get_tiles().len(), 4);
    assert_eq!(board.get_nodes().len(), 1);
    assert_eq!(board.get_edges().len(), 3);
}

#[test]
fn tiles_around_skip_missing_references() {
    let board = diamond(None, &[]);
    let n3 = board.get_node_by_key("N3").unwrap();
    let keys: Vec<String> = board.get_tiles_surrounding_node(n3).iter().map(|t| t.key.clone()).collect();
    assert_eq!(keys, vec!["A", "B"]);
    let n1 = board.get_node_by_key("N1").unwrap();
    let keys: Vec<String> = board.get_tiles_surrounding_node(n1).iter().map(|t| t.key.clone()).collect();
    assert_eq!(keys, vec!["A", "C", "B"]);
}

#[test]
fn three_tiles_give_three_edges() {
    let board = triangle(None);
    let n1 = board.get_node_by_key("N1").unwrap();
    let edges = board.get_edges_surrounding_node(n1);
    assert_eq!(edges.len(), 3);
    assert_eq!(edge_keys(&edges), vec!["(T1,T3)", "(T1,T2)", "(T2,T3)"]);
}

#[test]
fn three_tiles_only_existing_edges() {
    let mut board = triangle(None);
    board.edges.remove(1);
    let n1 = board.get_node_by_key("N1").unwrap();
    assert_eq!(edge_keys(&board.get_edges_surrounding_node(n1)), vec!["(T1,T2)", "(T2,T3)"]);
}

#[test]
fn boundary_node_has_one_edge() {
    let board = diamond(None, &[]);
    let n3 = board.get_node_by_key("N3").unwrap();
    assert_eq!(edge_keys(&board.get_edges_surrounding_node(n3)), vec!["(A,B)"]);
}

#[test]
fn node_with_one_tile_has_no_edge() {
    let board = Board {
        bandits: vec![],
        tiles: vec![tile("A")],
        nodes: vec![node("N", "A", "", "", None, "")],
        edges: vec![edge("(A,A)", None, false)],
    };
    assert!(board.get_edges_surrounding_node(&board.nodes[0]).is_empty());
}

#[test]
fn node_is_around_its_own_edges() {
    let board = diamond(None, &[]);
    for n in board.get_nodes() {
        for e in board.get_edges_surrounding_node(n) {
            let around = node_keys(&board.get_nodes_surrounding_edge(e));
            assert!(around.contains(&n.key));
        }
    }
    let bc = board.get_edge_by_key("(B,C)").unwrap();
    assert_eq!(node_keys(&board.get_nodes_surrounding_edge(bc)), vec!["N1", "N2"]);
    let ac = board.get_edge_by_key("(A,C)").unwrap();
    assert_eq!(node_keys(&board.get_nodes_surrounding_edge(ac)), vec!["N1"]);
}

#[test]
fn nodes_one_road_away() {
    let board = diamond(None, &[]);
    let n1 = board.get_node_by_key("N1").unwrap();
    assert_eq!(node_keys(&board.get_nodes_surrounding_node(n1)), vec!["N3", "N2"]);
    let n3 = board.get_node_by_key("N3").unwrap();
    assert_eq!(node_keys(&board.get_nodes_surrounding_node(n3)), vec!["N1"]);
}

#[test]
fn road_frontier_excludes_owned_edge() {
    let board = triangle(Some(4));
    let p = player(4);
    let streets = edge_keys(&board.get_potential_street_edges(&p));
    assert_eq!(streets, vec!["(T1,T3)", "(T2,T3)"]);
    assert!(!streets.contains(&String::from("(T1,T2)")));
}

#[test]
fn roads_of_player_by_owner() {
    let board = triangle(Some(4));
    assert_eq!(edge_keys(&board.get_edges_from_player(&player(4))), vec!["(T1,T2)"]);
    assert!(board.get_edges_from_player(&player(5)).is_empty());
    assert!(board.get_potential_street_edges(&player(5)).is_empty());
}

#[test]
fn street_candidates_each_once() {
    let board = diamond(None, &["(B,C)", "(B,D)"]);
    let p = player(1);
    assert_eq!(edge_keys(&board.get_potential_street_edges(&p)), vec!["(A,B)", "(A,C)", "(C,D)"]);
}

#[test]
fn village_candidates_each_once() {
    let board = diamond(None, &["(B,C)", "(B,D)"]);
    let p = player(1);
    assert_eq!(node_keys(&board.get_potential_village_nodes(&p)), vec!["N1", "N2"]);
}

#[test]
fn distance_rule_blocks_neighbours() {
    let board = diamond(Some(2), &["(B,D)"]);
    let p = player(1);
    assert!(board.get_potential_village_nodes(&p).is_empty());
    let board = diamond(Some(2), &["(A,B)"]);
    let villages = node_keys(&board.get_potential_village_nodes(&p));
    assert!(villages.is_empty());
    let n1 = board.get_node_by_key("N1").unwrap();
    for n in board.get_nodes_surrounding_node(n1) {
        assert!(!villages.contains(&n.key));
    }
}

#[test]
fn distance_rule_applies_to_owner_too() {
    let board = diamond(Some(1), &["(A,B)", "(B,D)"]);
    assert!(board.get_potential_village_nodes(&player(1)).is_empty());
}

#[test]
fn free_nodes_at_road_ends() {
    let board = diamond(None, &["(A,B)"]);
    assert_eq!(node_keys(&board.get_potential_village_nodes(&player(1))), vec!["N1", "N3"]);
}

#[test]
fn repeated_calls_agree() {
    let board = diamond(Some(2), &["(B,C)", "(B,D)"]);
    let p = player(1);
    let n1 = board.get_node_by_key("N1").unwrap();
    assert_eq!(board.get_edges_surrounding_node(n1), board.get_edges_surrounding_node(n1));
    assert_eq!(board.get_nodes_surrounding_node(n1), board.get_nodes_surrounding_node(n1));
    assert_eq!(board.get_potential_street_edges(&p), board.get_potential_street_edges(&p));
    assert_eq!(board.get_potential_village_nodes(&p), board.get_potential_village_nodes(&p));
    assert_eq!(
        sorted(edge_keys(&board.get_potential_street_edges(&p))),
        vec!["(A,B)", "(A,C)", "(C,D)"]
    );
}

#[test]
fn structures_of_player() {
    let mut board = diamond(Some(3), &[]);
    board.nodes[1].player = Some(3);
    board.nodes[1].structure = String::from("city");
    board.nodes[2].player = Some(3);
    let p = player(3);
    assert_eq!(node_keys(&board.get_nodes_from_player(&p)), vec!["N1", "N2"]);
    assert_eq!(node_keys(&board.get_cities_from_player(&p)), vec!["N2"]);
    assert_eq!(node_keys(&board.get_villages_from_player(&p)), vec!["N1"]);
    assert!(board.get_nodes_from_player(&player(4)).is_empty());
}

#[test]
fn comma_keys_sharing_an_edge_key_give_it_once() {
    assert_eq!(edge_key(",b", ",b,,b,"), edge_key(",b,,b,", "b,"));
    let board = Board {
        bandits: vec![],
        tiles: vec![tile(",b"), tile(",b,,b,"), tile("b,")],
        nodes: vec![node("N", ",b", ",b,,b,", "b,", None, "")],
        edges: vec![edge("(,b,,b,,b,)", None, false)],
    };
    let keys = edge_keys(&board.get_edges_surrounding_node(&board.nodes[0]));
    assert_eq!(keys, vec!["(,b,,b,,b,)"]);
}

#[test]
fn edges_around_never_repeat() {
    assert_eq!(edge_key("x,y", "x,y,x"), edge_key("x,y,x", "y,x"));
    let board = Board {
        bandits: vec![],
        tiles: vec![tile("x,y"), tile("x,y,x"), tile("y,x")],
        nodes: vec![node("N", "x,y", "x,y,x", "y,x", None, "")],
        edges: vec![edge("(x,y,x,y,x)", None, false), edge("(x,y,y,x)", None, false)],
    };
    let keys = edge_keys(&board.get_edges_surrounding_node(&board.nodes[0]));
    assert_eq!(keys.len(), 2);
    assert_ne!(keys[0], keys[1]);
    assert_eq!(sorted(keys), vec!["(x,y,x,y,x)", "(x,y,y,x)"]);
}

#[test]
fn swapped_references_keep_edges() {
    let board = diamond(None, &[]);
    let n1 = node("N1", "A", "B", "C", None, "");
    let swapped = node("N1", "B", "A", "C", None, "");
    let around = sorted(edge_keys(&board.get_edges_surrounding_node(&n1)));
    let around_swapped = sorted(edge_keys(&board.get_edges_surrounding_node(&swapped)));
    assert_eq!(around, around_swapped);
    assert_eq!(around, vec!["(A,B)", "(A,C)", "(B,C)"]);
}
