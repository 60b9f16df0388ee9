//! Replies to the server's requests, computed from the legal moves. Where a
//! reply picks one of several candidates, the pick is an index that the
//! caller supplies (`choice`), taken modulo the number of candidates; any
//! selection policy, random or not, fits that shape.
use vstd::prelude::*;

use crate::board::{Board, Player};
use crate::commands::{bandit_views, build_views, trade_views, BuildCommand, MoveBanditCommand, TradeCommand};

verus! {

/// Why a request could not be answered.
#[derive(Debug, Clone, Copy, PartialEq, Eq, Structural)]
pub enum DispatchError {
    /// No game snapshot has arrived yet.
    NoGame,
    /// The game snapshot has no board.
    NoBoard,
    /// The local player is unknown or not among the players.
    UnknownPlayer,
    /// The board has no node.
    NoNodes,
    /// The chosen node has no edge around it.
    NoEdgeAroundNode,
    /// The board has no tile.
    NoTiles,
}

/// The resource types offered in a trade, by index.
pub open spec fn offered(i: int) -> Seq<char> {
    if i == 0 {
        "ore"@
    } else if i == 1 {
        "grain"@
    } else if i == 2 {
        "wool"@
    } else if i == 3 {
        "wood"@
    } else {
        "stone"@
    }
}

/// The resource types asked for in a trade, by index.
pub open spec fn wanted(i: int) -> Seq<char> {
    if i == 0 {
        "wood"@
    } else if i == 1 {
        "stone"@
    } else if i == 2 {
        "grain"@
    } else {
        "wool"@
    }
}

/// The trade proposal: one of the five resource types for one of the four
/// wanted ones.
pub open spec fn trade_plan(from_choice: usize, to_choice: usize) -> Seq<(Seq<char>, Seq<char>)> {
    seq![(offered(from_choice as int % 5), wanted(to_choice as int % 4))]
}

/// The reply to a trade request.
pub fn trade_commands(from_choice: usize, to_choice: usize) -> (r: Vec<TradeCommand>)
    ensures
        trade_views(r@) == trade_plan(from_choice, to_choice),
{
    let from = match from_choice % 5 {
        0 => "ore",
        1 => "grain",
        2 => "wool",
        3 => "wood",
        _ => "stone",
    };
    let to = match to_choice % 4 {
        0 => "wood",
        1 => "stone",
        2 => "grain",
        _ => "wool",
    };
    let r = vec![TradeCommand { from: String::from_str(from), to: String::from_str(to) }];
    assert(trade_views(r@) =~= trade_plan(from_choice, to_choice));
    r
}

impl Board {
    /// The build that answers a build request: a village where one may
    /// stand, else a street where one may go, else nothing.
    pub open spec fn build_plan(self, p: Player, choice: usize) -> Seq<(Seq<char>, Seq<char>)> {
        let vs = self.potential_villages(p);
        let ss = self.potential_streets(p);
        if vs.len() > 0 {
            seq![("village"@, self.nodes@[vs[choice as int % vs.len() as int]].key@)]
        } else if ss.len() > 0 {
            seq![("street"@, self.edges@[ss[choice as int % ss.len() as int]].key@)]
        } else {
            Seq::empty()
        }
    }

    /// The reply to a build request from `player`.
    pub fn build_commands(&self, player: &Player, choice: usize) -> (r: Vec<BuildCommand>)
        ensures
            build_views(r@) == self.build_plan(*player, choice),
    {
        let vs = self.village_positions(player);
        if vs.len() > 0 {
            let j = vs[choice % vs.len()];
            let r = vec![BuildCommand::new("village", self.nodes[j].key.as_str())];
            assert(build_views(r@) =~= self.build_plan(*player, choice));
            return r;
        }
        let ss = self.street_positions(player);
        if ss.len() > 0 {
            let e = ss[choice % ss.len()];
            let r = vec![BuildCommand::new("street", self.edges[e].key.as_str())];
            assert(build_views(r@) =~= self.build_plan(*player, choice));
            return r;
        }
        let r: Vec<BuildCommand> = Vec::new();
        assert(build_views(r@) =~= self.build_plan(*player, choice));
        r
    }

    /// The first placement: a village on a chosen node, unconstrained by the
    /// distance rule, and a street on a chosen edge around it.
    pub open spec fn initial_plan(self, node_choice: usize, edge_choice: usize) -> Result<
        Seq<(Seq<char>, Seq<char>)>,
        DispatchError,
    > {
        if self.nodes@.len() == 0 {
            Err(DispatchError::NoNodes)
        } else {
            let n = self.nodes@[node_choice as int % self.nodes@.len() as int];
            let es = self.edges_around(n);
            if es.len() == 0 {
                Err(DispatchError::NoEdgeAroundNode)
            } else {
                Ok(
                    seq![
                        ("village"@, n.key@),
                        ("street"@, self.edges@[es[edge_choice as int % es.len() as int]].key@),
                    ],
                )
            }
        }
    }

    /// The reply to an initial build request.
    pub fn initial_build_commands(&self, node_choice: usize, edge_choice: usize) -> (r: Result<
        Vec<BuildCommand>,
        DispatchError,
    >)
        ensures
            match r {
                Ok(cs) => self.initial_plan(node_choice, edge_choice) == Ok::<
                    Seq<(Seq<char>, Seq<char>)>,
                    DispatchError,
                >(build_views(cs@)),
                Err(e) => self.initial_plan(node_choice, edge_choice) == Err::<
                    Seq<(Seq<char>, Seq<char>)>,
                    DispatchError,
                >(e),
            },
    {
        if self.nodes.len() == 0 {
            return Err(DispatchError::NoNodes);
        }
        let node = &self.nodes[node_choice % self.nodes.len()];
        let es = self.edge_positions_around(node);
        if es.len() == 0 {
            return Err(DispatchError::NoEdgeAroundNode);
        }
        let e = es[edge_choice % es.len()];
        assert(self.edges_around(*node)[edge_choice as int % es@.len() as int] == e as int);
        let r = vec![
            BuildCommand::new("village", node.key.as_str()),
            BuildCommand::new("street", self.edges[e].key.as_str()),
        ];
        assert(build_views(r@) =~= self.initial_plan(node_choice, edge_choice)->Ok_0);
        Ok(r)
    }

    /// The bandit's move: onto a chosen tile.
    pub open spec fn bandit_plan(self, choice: usize) -> Result<Seq<Seq<char>>, DispatchError> {
        if self.tiles@.len() == 0 {
            Err(DispatchError::NoTiles)
        } else {
            Ok(seq![self.tiles@[choice as int % self.tiles@.len() as int].key@])
        }
    }

    /// The reply to a request to move the bandit.
    pub fn bandit_commands(&self, choice: usize) -> (r: Result<Vec<MoveBanditCommand>, DispatchError>)
        ensures
            match r {
                Ok(cs) => self.bandit_plan(choice) == Ok::<Seq<Seq<char>>, DispatchError>(
                    bandit_views(cs@),
                ),
                Err(e) => self.bandit_plan(choice) == Err::<Seq<Seq<char>>, DispatchError>(e),
            },
    {
        if self.tiles.len() == 0 {
            return Err(DispatchError::NoTiles);
        }
        let tile = &self.tiles[choice % self.tiles.len()];
        let r = vec![MoveBanditCommand { location: tile.key.clone() }];
        assert(bandit_views(r@) =~= self.bandit_plan(choice)->Ok_0);
        Ok(r)
    }
}

} // verus!
