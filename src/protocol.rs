//! The request/response protocol: response codes, the game state that the
//! server pushes, and the dispatcher that answers each request.
use vstd::prelude::*;

use crate::board::{refs_all, Board, Player};
use crate::commands::{
    build_views, copy_resources, resource_views, trade_views, bandit_views, BuildCommand,
    MoveBanditCommand, TradeCommand,
};
use crate::board::Resource;
use crate::replies::{trade_commands, trade_plan, DispatchError};

verus! {

/// A response or request from the server.
#[derive(Debug, PartialEq, Eq)]
pub struct ServerResponse {
    pub code: i16,
    pub title: String,
    pub description: String,
    pub additional_info: String,
    pub is_error: bool,
}

/// The response codes this client knows.
#[derive(Debug, Clone, Copy, PartialEq, Eq, Structural)]
pub enum ResponseCode {
    Success,
    IdAcknowledgment,
    TradeRequest,
    BuildRequest,
    InitialBuildRequest,
    MoveBanditRequest,
    ForceDiscardRequest,
}

impl ResponseCode {
    /// The meaning of the integer `code`, if it has one.
    pub open spec fn spec_from_code(code: i16) -> Option<ResponseCode> {
        if code == 0 {
            Some(ResponseCode::Success)
        } else if code == 1 {
            Some(ResponseCode::IdAcknowledgment)
        } else if code == 100 {
            Some(ResponseCode::TradeRequest)
        } else if code == 101 {
            Some(ResponseCode::BuildRequest)
        } else if code == 102 {
            Some(ResponseCode::InitialBuildRequest)
        } else if code == 103 {
            Some(ResponseCode::MoveBanditRequest)
        } else if code == 104 {
            Some(ResponseCode::ForceDiscardRequest)
        } else {
            None
        }
    }

    /// The response code with the integer value `code`, or `None` for an
    /// unknown one.
    pub fn from_code(code: i16) -> (r: Option<ResponseCode>)
        ensures
            r == Self::spec_from_code(code),
    {
        match code {
            0 => Some(ResponseCode::Success),
            1 => Some(ResponseCode::IdAcknowledgment),
            100 => Some(ResponseCode::TradeRequest),
            101 => Some(ResponseCode::BuildRequest),
            102 => Some(ResponseCode::InitialBuildRequest),
            103 => Some(ResponseCode::MoveBanditRequest),
            104 => Some(ResponseCode::ForceDiscardRequest),
            _ => None,
        }
    }
}

/// A decimal digit.
pub open spec fn is_digit(c: char) -> bool {
    '0' <= c <= '9'
}

/// The value of a sequence of decimal digits.
pub open spec fn digits_value(d: Seq<char>) -> int
    decreases d.len(),
{
    if d.len() == 0 {
        0
    } else {
        digits_value(d.drop_last()) * 10 + ((d.last() as u32) - ('0' as u32))
    }
}

/// A numeral without its leading sign, if it has one.
pub open spec fn unsigned_part(s: Seq<char>) -> Seq<char> {
    if s.len() > 0 && (s[0] == '-' || s[0] == '+') {
        s.drop_first()
    } else {
        s
    }
}

/// The value of a decimal numeral: an optional `+` or `-`, then one digit
/// or more.
pub open spec fn numeral_value(s: Seq<char>) -> Option<int> {
    let d = unsigned_part(s);
    if d.len() > 0 && (forall|i: int| 0 <= i < d.len() ==> is_digit(#[trigger] d[i])) {
        Some(
            if s[0] == '-' {
                -digits_value(d)
            } else {
                digits_value(d)
            },
        )
    } else {
        None
    }
}

/// The `i16` that the numeral `s` denotes, where it denotes one.
pub open spec fn parsed_i16(s: Seq<char>) -> Option<i16> {
    match numeral_value(s) {
        Some(v) => if i16::MIN <= v <= i16::MAX {
            Some(v as i16)
        } else {
            None
        },
        None => None,
    }
}

/// Reads a decimal `i16`: an optional sign, then digits, nothing else.
pub fn parse_i16(s: &str) -> (r: Option<i16>)
    ensures
        r == parsed_i16(s@),
{
    let len = s.unicode_len();
    if len == 0 {
        return None;
    }
    let first = s.get_char(0);
    let neg = first == '-';
    let start: usize = if first == '-' || first == '+' {
        1
    } else {
        0
    };
    let ghost d = unsigned_part(s@);
    assert(d =~= s@.subrange(start as int, len as int));
    if start == len {
        return None;
    }
    let mut acc: u32 = 0;
    let mut big = false;
    let mut i: usize = start;
    assert(s@.subrange(start as int, start as int) =~= Seq::<char>::empty());
    while i < len
        invariant
            start <= i <= len,
            len == s@.len(),
            d == s@.subrange(start as int, len as int),
            d == unsigned_part(s@),
            forall|k: int| start <= k < i ==> is_digit(#[trigger] s@[k]),
            !big ==> acc as int == digits_value(s@.subrange(start as int, i as int)) && acc <= 32768,
            big ==> digits_value(s@.subrange(start as int, i as int)) > 32768,
        decreases len - i,
    {
        let c = s.get_char(i);
        if !('0' <= c && c <= '9') {
            assert(d[i - start] == c);
            assert(!is_digit(d[i - start]));
            return None;
        }
        let digit = (c as u32) - ('0' as u32);
        let ghost prev = s@.subrange(start as int, i as int);
        let ghost next = s@.subrange(start as int, i + 1);
        assert(next.drop_last() =~= prev);
        assert(next.last() == c);
        if !big {
            let value = acc * 10 + digit;
            if value > 32768 {
                big = true;
            } else {
                acc = value;
            }
        }
        i = i + 1;
    }
    assert(s@.subrange(start as int, len as int) == d);
    assert forall|k: int| 0 <= k < d.len() implies is_digit(#[trigger] d[k]) by {
        assert(d[k] == s@[start + k]);
    }
    if big {
        return None;
    }
    if neg {
        Some((0 - (acc as i32)) as i16)
    } else if acc <= 32767 {
        Some(acc as i16)
    } else {
        None
    }
}

/// The id that an acknowledgment carrying `info` assigns: its value where
/// it reads as a non-negative `i16`.
pub open spec fn id_from(info: Seq<char>) -> Option<usize> {
    match parsed_i16(info) {
        Some(v) => if v >= 0 {
            Some(v as usize)
        } else {
            None
        },
        None => None,
    }
}

/// The id that an acknowledgment carrying `info` assigns, if any.
pub fn id_from_text(info: &str) -> (r: Option<usize>)
    ensures
        r == id_from(info@),
{
    match parse_i16(info) {
        Some(v) => if v >= 0 {
            Some(v as usize)
        } else {
            None
        },
        None => None,
    }
}

impl Player {
    /// Whether this is the local player, whose id is `my_id`.
    pub fn is_me(&self, my_id: Option<usize>) -> (r: bool)
        ensures
            r == (my_id == Some(self.id)),
    {
        match my_id {
            Some(id) => id == self.id,
            None => false,
        }
    }
}

/// One snapshot of the game as the server sends it.
#[derive(Debug, PartialEq, Eq)]
pub struct Game {
    pub move_count: Option<u32>,
    pub players: Vec<Player>,
    pub status: String,
    pub board: Option<Board>,
    pub last_dice_throw: Option<u8>,
    pub phase: Option<String>,
    pub current_player: Option<u8>,
}

/// `i` is the first position of `s` that holds a player with id `id`.
pub open spec fn first_with_id(s: Seq<Player>, id: usize, i: int) -> bool {
    &&& 0 <= i < s.len()
    &&& s[i].id == id
    &&& forall|j: int| 0 <= j < i ==> s[j].id != id
}

impl Game {
    /// The first player with the id `id`, if any.
    pub open spec fn player_with_id(self, id: usize) -> Option<Player> {
        if exists|i: int| first_with_id(self.players@, id, i) {
            Some(self.players@[choose|i: int| first_with_id(self.players@, id, i)])
        } else {
            None
        }
    }

    /// The board of the snapshot, if it has one.
    pub fn get_board(&self) -> (r: Option<&Board>)
        ensures
            match self.board {
                Some(b) => r matches Some(x) && *x == b,
                None => r is None,
            },
    {
        match &self.board {
            Some(b) => Some(b),
            None => None,
        }
    }

    /// The players of the snapshot, in order.
    pub fn get_players(&self) -> (r: Vec<&Player>)
        ensures
            r@.unref() == self.players@,
    {
        refs_all(&self.players)
    }

    /// The first player with the id `id`, or `None` if no player has it.
    pub fn get_player_by_id(&self, id: usize) -> (r: Option<&Player>)
        ensures
            match self.player_with_id(id) {
                Some(p) => r matches Some(x) && *x == p,
                None => r is None,
            },
    {
        let mut i: usize = 0;
        while i < self.players.len()
            invariant
                i <= self.players@.len(),
                forall|j: int| 0 <= j < i ==> self.players@[j].id != id,
            decreases self.players@.len() - i,
        {
            if self.players[i].id == id {
                assert(first_with_id(self.players@, id, i as int));
                let ghost c = choose|c: int| first_with_id(self.players@, id, c);
                assert(c == i);
                return Some(&self.players[i]);
            }
            i = i + 1;
        }
        None
    }
}

/// A reply to send back to the server.
#[derive(Debug, PartialEq, Eq)]
pub enum Reply {
    Builds(Vec<BuildCommand>),
    Trades(Vec<TradeCommand>),
    Bandit(Vec<MoveBanditCommand>),
    Discard(Vec<Resource>),
}

/// What handling one response from the server came to.
#[derive(Debug, PartialEq, Eq)]
pub enum Outcome {
    /// The server confirmed an earlier command; nothing to send.
    Acknowledged,
    /// The server assigned this client its id (`None`: none could be read).
    IdRecorded(Option<usize>),
    /// A reply to send.
    Send(Reply),
    /// The request could not be answered; nothing to send.
    Failed(DispatchError),
    /// An unknown response code; nothing to send.
    Unrecognized(i16),
}

/// The state of one connection: the id the server assigned to this client,
/// once acknowledged, and the latest game snapshot, once one arrived.
#[derive(Debug, PartialEq, Eq)]
pub struct Session {
    pub my_id: Option<usize>,
    pub game: Option<Game>,
}

/// Relies on rand's `random`: a `usize` from the thread-local generator,
/// of which nothing is known.
#[verifier::external_body]
fn random_pick() -> (r: usize) {
    rand::random::<usize>()
}

impl Session {
    /// A fresh connection: no id, no game.
    pub fn new() -> (r: Session)
        ensures
            r.my_id is None,
            r.game is None,
    {
        Session { my_id: None, game: None }
    }

    /// Replaces the game state with a new snapshot, wholesale.
    pub fn apply_snapshot(&mut self, game: Game)
        ensures
            final(self).game == Some(game),
            final(self).my_id == old(self).my_id,
    {
        self.game = Some(game);
    }

    /// The local player: the first player of the game with this client's id.
    pub open spec fn me_spec(self) -> Option<Player> {
        match (self.my_id, self.game) {
            (Some(id), Some(g)) => g.player_with_id(id),
            _ => None,
        }
    }

    /// The local player, if the id and the game are known and the game has it.
    pub fn me(&self) -> (r: Option<&Player>)
        ensures
            match self.me_spec() {
                Some(p) => r matches Some(x) && *x == p,
                None => r is None,
            },
    {
        match (self.my_id, &self.game) {
            (Some(id), Some(g)) => g.get_player_by_id(id),
            _ => None,
        }
    }

    /// What answers the response `code`, carrying `info`, in the state `s`,
    /// with the picks `first` and `second`.
    pub open spec fn answers(
        s: Session,
        code: ResponseCode,
        info: Seq<char>,
        first: usize,
        second: usize,
        r: Outcome,
    ) -> bool {
        match code {
            ResponseCode::Success => r == Outcome::Acknowledged,
            ResponseCode::IdAcknowledgment => r == Outcome::IdRecorded(id_from(info)),
            ResponseCode::TradeRequest => r matches Outcome::Send(Reply::Trades(cs)) && trade_views(cs@)
                == trade_plan(first, second),
            ResponseCode::BuildRequest => match s.game {
                None => r == Outcome::Failed(DispatchError::NoGame),
                Some(g) => match g.board {
                    None => r == Outcome::Failed(DispatchError::NoBoard),
                    Some(b) => match s.me_spec() {
                        None => r == Outcome::Failed(DispatchError::UnknownPlayer),
                        Some(p) => r matches Outcome::Send(Reply::Builds(cs)) && build_views(cs@)
                            == b.build_plan(p, first),
                    },
                },
            },
            ResponseCode::InitialBuildRequest => match s.game {
                None => r == Outcome::Failed(DispatchError::NoGame),
                Some(g) => match g.board {
                    None => r == Outcome::Failed(DispatchError::NoBoard),
                    Some(b) => match b.initial_plan(first, second) {
                        Ok(plan) => r matches Outcome::Send(Reply::Builds(cs)) && build_views(cs@)
                            == plan,
                        Err(e) => r == Outcome::Failed(e),
                    },
                },
            },
            ResponseCode::MoveBanditRequest => match s.game {
                None => r == Outcome::Failed(DispatchError::NoGame),
                Some(g) => match g.board {
                    None => r == Outcome::Failed(DispatchError::NoBoard),
                    Some(b) => match b.bandit_plan(first) {
                        Ok(plan) => r matches Outcome::Send(Reply::Bandit(cs)) && bandit_views(cs@)
                            == plan,
                        Err(e) => r == Outcome::Failed(e),
                    },
                },
            },
            ResponseCode::ForceDiscardRequest => match s.game {
                None => r == Outcome::Failed(DispatchError::NoGame),
                Some(_) => match s.me_spec() {
                    None => r == Outcome::Failed(DispatchError::UnknownPlayer),
                    Some(p) => r matches Outcome::Send(Reply::Discard(rs)) && resource_views(rs@)
                        == resource_views(p.resources@),
                },
            },
        }
    }

    /// How a session in the state `before` handles `resp` with the picks
    /// `first` and `second`: an acknowledgment of the id records it, every
    /// other response leaves the state as it is and is answered.
    pub open spec fn reacts(
        before: Session,
        after: Session,
        resp: ServerResponse,
        first: usize,
        second: usize,
        r: Outcome,
    ) -> bool {
        match ResponseCode::spec_from_code(resp.code) {
            None => after == before && r == Outcome::Unrecognized(resp.code),
            Some(ResponseCode::IdAcknowledgment) => {
                &&& after.game == before.game
                &&& after.my_id == id_from(resp.additional_info@)
                &&& Session::answers(
                    before,
                    ResponseCode::IdAcknowledgment,
                    resp.additional_info@,
                    first,
                    second,
                    r,
                )
            },
            Some(code) => after == before && Session::answers(
                before,
                code,
                resp.additional_info@,
                first,
                second,
                r,
            ),
        }
    }

    fn answer_build(&self, first: usize) -> (r: Outcome)
        ensures
            Session::answers(*self, ResponseCode::BuildRequest, Seq::empty(), first, 0, r),
    {
        let game = match &self.game {
            Some(g) => g,
            None => return Outcome::Failed(DispatchError::NoGame),
        };
        let board = match game.get_board() {
            Some(b) => b,
            None => return Outcome::Failed(DispatchError::NoBoard),
        };
        let me = match self.me() {
            Some(p) => p,
            None => return Outcome::Failed(DispatchError::UnknownPlayer),
        };
        Outcome::Send(Reply::Builds(board.build_commands(me, first)))
    }

    fn answer_initial_build(&self, first: usize, second: usize) -> (r: Outcome)
        ensures
            Session::answers(*self, ResponseCode::InitialBuildRequest, Seq::empty(), first, second, r),
    {
        let game = match &self.game {
            Some(g) => g,
            None => return Outcome::Failed(DispatchError::NoGame),
        };
        let board = match game.get_board() {
            Some(b) => b,
            None => return Outcome::Failed(DispatchError::NoBoard),
        };
        match board.initial_build_commands(first, second) {
            Ok(cs) => Outcome::Send(Reply::Builds(cs)),
            Err(e) => Outcome::Failed(e),
        }
    }

    fn answer_bandit(&self, first: usize) -> (r: Outcome)
        ensures
            Session::answers(*self, ResponseCode::MoveBanditRequest, Seq::empty(), first, 0, r),
    {
        let game = match &self.game {
            Some(g) => g,
            None => return Outcome::Failed(DispatchError::NoGame),
        };
        let board = match game.get_board() {
            Some(b) => b,
            None => return Outcome::Failed(DispatchError::NoBoard),
        };
        match board.bandit_commands(first) {
            Ok(cs) => Outcome::Send(Reply::Bandit(cs)),
            Err(e) => Outcome::Failed(e),
        }
    }

    fn answer_discard(&self) -> (r: Outcome)
        ensures
            Session::answers(*self, ResponseCode::ForceDiscardRequest, Seq::empty(), 0, 0, r),
    {
        if self.game.is_none() {
            return Outcome::Failed(DispatchError::NoGame);
        }
        match self.me() {
            Some(p) => Outcome::Send(Reply::Discard(copy_resources(&p.resources))),
            None => Outcome::Failed(DispatchError::UnknownPlayer),
        }
    }

    /// Handles one response from the server, with `first` and `second` as
    /// the picks among candidates.
    pub fn respond_with(&mut self, response: &ServerResponse, first: usize, second: usize) -> (r:
        Outcome)
        ensures
            Session::reacts(*old(self), *final(self), *response, first, second, r),
    {
        match ResponseCode::from_code(response.code) {
            None => Outcome::Unrecognized(response.code),
            Some(ResponseCode::Success) => Outcome::Acknowledged,
            Some(ResponseCode::IdAcknowledgment) => {
                let id = id_from_text(response.additional_info.as_str());
                self.my_id = id;
                Outcome::IdRecorded(id)
            },
            Some(ResponseCode::TradeRequest) => Outcome::Send(
                Reply::Trades(trade_commands(first, second)),
            ),
            Some(ResponseCode::BuildRequest) => self.answer_build(first),
            Some(ResponseCode::InitialBuildRequest) => self.answer_initial_build(first, second),
            Some(ResponseCode::MoveBanditRequest) => self.answer_bandit(first),
            Some(ResponseCode::ForceDiscardRequest) => self.answer_discard(),
        }
    }

    /// Handles one response from the server, picking among candidates at
    /// random.
    pub fn respond(&mut self, response: &ServerResponse) -> (r: Outcome)
        ensures
            exists|first: usize, second: usize|
                Session::reacts(*old(self), *final(self), *response, first, second, r),
    {
        let first = random_pick();
        let second = random_pick();
        self.respond_with(response, first, second)
    }
}

} // verus!
