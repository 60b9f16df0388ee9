use settlers_client::commands::copy_resources;
use settlers_client::protocol::{id_from_text, parse_i16};
use settlers_client::replies::trade_commands;
use settlers_client::{
    Board, DispatchError, Edge, Game, Node, Outcome, Player, Reply, Resource, ResponseCode,
    ServerResponse, Session, Tile,
};

fn tile(key: &str) -> Tile {
    Tile { key: String::from(key), resource_type: String::from("ore"), number: 8, x: 1, y: 2 }
}

fn node(key: &str, t: &str, r: &str, l: &str) -> Node {
    Node {
        key: String::from(key),
        structure: String::new(),
        player: None,
        t_key: String::from(t),
        r_key: String::from(r),
        l_key: String::from(l),
    }
}

fn edge(key: &str, player: Option<u8>, road: bool) -> Edge {
    Edge { key: String::from(key), player, road }
}

fn player(id: usize, resources: Vec<Resource>) -> Player {
    Player { id, color: String::from("blue"), name: String::from("bot"), resources }
}

fn triangle() -> Board {
    Board {
        bandits: vec![],
        tiles: vec![tile("T1"), tile("T2"), tile("T3")],
        nodes: vec![node("N1", "T1", "T2", "T3")],
        edges: vec![edge("(T1,T2)", None, false), edge("(T1,T3)", None, false), edge("(T2,T3)", None, false)],
    }
}

fn game(players: Vec<Player>, board: Option<Board>) -> Game {
    Game {
        move_count: Some(0),
        players,
        status: String::from("running"),
        board,
        last_dice_throw: None,
        phase: Some(String::from("building")),
        current_player: Some(0),
    }
}

fn response(code: i16, info: &str) -> ServerResponse {
    ServerResponse {
        code,
        title: String::from("t"),
        description: String::from("d"),
        additional_info: String::from(info),
        is_error: false,
    }
}

fn build_pairs(outcome: &Outcome) -> Vec<(String, String)> {
    match outcome {
        Outcome::Send(Reply::Builds(cs)) => cs.iter().map(|c| (c.structure.clone(), c.location.clone())).collect(),
        other => panic!("not a build reply: {:?}", other),
    }
}

#[test]
fn response_codes() {
    assert_eq!(ResponseCode::from_code(0), Some(ResponseCode::Success));
    assert_eq!(ResponseCode::from_code(1), Some(ResponseCode::IdAcknowledgment));
    assert_eq!(ResponseCode::from_code(100), Some(ResponseCode::TradeRequest));
    assert_eq!(ResponseCode::from_code(101), Some(ResponseCode::BuildRequest));
    assert_eq!(ResponseCode::from_code(102), Some(ResponseCode::InitialBuildRequest));
    assert_eq!(ResponseCode::from_code(103), Some(ResponseCode::MoveBanditRequest));
    assert_eq!(ResponseCode::from_code(104), Some(ResponseCode::ForceDiscardRequest));
    assert_eq!(ResponseCode::from_code(2), None);
    assert_eq!(ResponseCode::from_code(-1), None);
}

#[test]
fn parsing_numerals() {
    assert_eq!(parse_i16("7"), Some(7));
    assert_eq!(parse_i16("-12"), Some(-12));
    assert_eq!(parse_i16("+5"), Some(5));
    assert_eq!(parse_i16("007"), Some(7));
    assert_eq!(parse_i16("32767"), Some(32767));
    assert_eq!(parse_i16("-32768"), Some(-32768));
    assert_eq!(parse_i16("32768"), None);
    assert_eq!(parse_i16("123456789"), None);
    assert_eq!(parse_i16(""), None);
    assert_eq!(parse_i16("-"), None);
    assert_eq!(parse_i16("7a"), None);
    assert_eq!(parse_i16(" 7"), None);
    for text in ["0", "42", "-3", "+9", "x", "", "99999", "-32768"] {
        assert_eq!(parse_i16(text), text.parse::<i16>().ok());
    }
}

#[test]
fn ids_from_text() {
    assert_eq!(id_from_text("7"), Some(7));
    assert_eq!(id_from_text("-1"), None);
    assert_eq!(id_from_text("seven"), None);
}

#[test]
fn acknowledged_id_resolves_me() {
    let mut session = Session::new();
    let outcome = session.respond_with(&response(1, "7"), 0, 0);
    assert_eq!(outcome, Outcome::IdRecorded(Some(7)));
    assert_eq!(session.my_id, Some(7));
    session.apply_snapshot(game(vec![player(3, vec![]), player(7, vec![])], None));
    assert_eq!(session.my_id, Some(7));
    assert_eq!(session.me().unwrap().id, 7);
    assert!(session.me().unwrap().is_me(session.my_id));
    assert!(!session.game.as_ref().unwrap().players[0].is_me(session.my_id));
}

#[test]
fn unreadable_id_is_none() {
    let mut session = Session::new();
    session.apply_snapshot(game(vec![player(7, vec![])], None));
    assert_eq!(session.respond_with(&response(1, "x"), 0, 0), Outcome::IdRecorded(None));
    assert!(session.me().is_none());
}

#[test]
fn snapshot_replaces_game() {
    let mut session = Session::new();
    session.apply_snapshot(game(vec![player(1, vec![])], None));
    session.apply_snapshot(game(vec![player(2, vec![])], Some(triangle())));
    let g = session.game.as_ref().unwrap();
    assert_eq!(g.get_players().len(), 1);
    assert_eq!(g.get_player_by_id(2).unwrap().id, 2);
    assert!(g.get_player_by_id(1).is_none());
    assert!(g.get_board().is_some());
}

#[test]
fn build_request_without_candidates_sends_nothing() {
    let mut session = Session::new();
    session.respond_with(&response(1, "5"), 0, 0);
    session.apply_snapshot(game(vec![player(5, vec![])], Some(triangle())));
    let outcome = session.respond_with(&response(101, ""), 3, 4);
    assert_eq!(outcome, Outcome::Send(Reply::Builds(vec![])));
}

#[test]
fn build_request_prefers_village() {
    let mut board = triangle();
    board.edges[0] = edge("(T1,T2)", Some(5), true);
    let mut session = Session { my_id: Some(5), game: Some(game(vec![player(5, vec![])], Some(board))) };
    let outcome = session.respond_with(&response(101, ""), 0, 0);
    assert_eq!(build_pairs(&outcome), vec![(String::from("village"), String::from("N1"))]);
}

#[test]
fn build_request_falls_back_to_street() {
    let mut board = triangle();
    board.edges[0] = edge("(T1,T2)", Some(5), true);
    board.nodes[0].player = Some(9);
    board.nodes[0].structure = String::from("village");
    let session = Session { my_id: Some(5), game: Some(game(vec![player(5, vec![])], Some(board))) };
    let g = session.game.as_ref().unwrap();
    let b = g.board.as_ref().unwrap();
    let p = &g.players[0];
    let first = b.build_commands(p, 0);
    let second = b.build_commands(p, 1);
    assert_eq!(first[0].structure, "street");
    assert_eq!(first[0].location, "(T1,T3)");
    assert_eq!(second[0].location, "(T2,T3)");
}

#[test]
fn requests_before_any_game_fail() {
    let mut session = Session::new();
    for code in [101, 102, 103, 104] {
        assert_eq!(session.respond_with(&response(code, ""), 0, 0), Outcome::Failed(DispatchError::NoGame));
    }
}

#[test]
fn requests_without_board_fail() {
    let mut session = Session { my_id: Some(1), game: Some(game(vec![player(1, vec![])], None)) };
    for code in [101, 102, 103] {
        assert_eq!(session.respond_with(&response(code, ""), 0, 0), Outcome::Failed(DispatchError::NoBoard));
    }
}

#[test]
fn requests_for_unknown_player_fail() {
    let mut session = Session { my_id: Some(8), game: Some(game(vec![player(1, vec![])], Some(triangle()))) };
    assert_eq!(session.respond_with(&response(101, ""), 0, 0), Outcome::Failed(DispatchError::UnknownPlayer));
    assert_eq!(session.respond_with(&response(104, ""), 0, 0), Outcome::Failed(DispatchError::UnknownPlayer));
}

#[test]
fn informational_and_unknown_codes() {
    let mut session = Session::new();
    assert_eq!(session.respond_with(&response(0, ""), 0, 0), Outcome::Acknowledged);
    assert_eq!(session.respond_with(&response(42, ""), 0, 0), Outcome::Unrecognized(42));
    assert_eq!(session, Session::new());
}

#[test]
fn initial_build_places_village_and_street() {
    let mut session = Session { my_id: None, game: Some(game(vec![], Some(triangle()))) };
    let outcome = session.respond_with(&response(102, ""), 0, 4);
    assert_eq!(
        build_pairs(&outcome),
        vec![(String::from("village"), String::from("N1")), (String::from("street"), String::from("(T1,T2)"))]
    );
}

#[test]
fn initial_build_errors() {
    let mut empty = triangle();
    empty.nodes.clear();
    assert_eq!(empty.initial_build_commands(0, 0), Err(DispatchError::NoNodes));
    let mut lonely = triangle();
    lonely.edges.clear();
    assert_eq!(lonely.initial_build_commands(0, 0), Err(DispatchError::NoEdgeAroundNode));
}

#[test]
fn bandit_moves_to_chosen_tile() {
    let mut session = Session { my_id: None, game: Some(game(vec![], Some(triangle()))) };
    match session.respond_with(&response(103, ""), 4, 0) {
        Outcome::Send(Reply::Bandit(cs)) => {
            assert_eq!(cs.len(), 1);
            assert_eq!(cs[0].location, "T2");
        }
        other => panic!("unexpected {:?}", other),
    }
    let mut bare = triangle();
    bare.tiles.clear();
    assert_eq!(bare.bandit_commands(0), Err(DispatchError::NoTiles));
}

#[test]
fn discard_sends_own_resources() {
    let held = vec![
        Resource { kind: String::from("wood"), value: 3 },
        Resource { kind: String::from("ore"), value: 1 },
    ];
    let mut session = Session { my_id: Some(2), game: Some(game(vec![player(2, held)], None)) };
    match session.respond_with(&response(104, ""), 0, 0) {
        Outcome::Send(Reply::Discard(rs)) => {
            assert_eq!(rs.len(), 2);
            assert_eq!((rs[0].kind.as_str(), rs[0].value), ("wood", 3));
            assert_eq!((rs[1].kind.as_str(), rs[1].value), ("ore", 1));
        }
        other => panic!("unexpected {:?}", other),
    }
    let copy = copy_resources(&vec![Resource { kind: String::from("wool"), value: 9 }]);
    assert_eq!(copy, vec![Resource { kind: String::from("wool"), value: 9 }]);
}

#[test]
fn trade_proposals() {
    let t = trade_commands(6, 5);
    assert_eq!(t.len(), 1);
    assert_eq!((t[0].from.as_str(), t[0].to.as_str()), ("grain", "stone"));
    let t = trade_commands(4, 3);
    assert_eq!((t[0].from.as_str(), t[0].to.as_str()), ("stone", "wool"));
}

#[test]
fn random_trade_reply_is_a_proposal() {
    let mut session = Session::new();
    match session.respond(&response(100, "")) {
        Outcome::Send(Reply::Trades(ts)) => {
            assert_eq!(ts.len(), 1);
            assert!(["ore", "grain", "wool", "wood", "stone"].contains(&ts[0].from.as_str()));
            assert!(["wood", "stone", "grain", "wool"].contains(&ts[0].to.as_str()));
        }
        other => panic!("unexpected {:?}", other),
    }
}

#[test]
fn random_initial_build_uses_candidates() {
    let mut session = Session { my_id: None, game: Some(game(vec![], Some(triangle()))) };
    let pairs = build_pairs(&session.respond(&response(102, "")));
    assert_eq!(pairs[0], (String::from("village"), String::from("N1")));
    assert!(["(T1,T2)", "(T1,T3)", "(T2,T3)"].contains(&pairs[1].1.as_str()));
}
