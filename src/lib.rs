//! Board topology and legal moves for a client of a settlement-building
//! board game, with the dispatcher that answers the server's requests.
pub mod board;
pub mod commands;
pub mod keys;
pub mod moves;
pub mod protocol;
pub mod replies;
pub mod seqs;
pub mod topology;

pub use board::{Bandit, Board, Edge, Node, Player, Resource, Tile};
pub use commands::{BuildCommand, MoveBanditCommand, TradeCommand};
pub use protocol::{Game, Outcome, Reply, ResponseCode, ServerResponse, Session};
pub use replies::DispatchError;
