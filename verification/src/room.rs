//! What a room does when a client connects, speaks, leaves or answers a
//! ping.
//!
//! A room owns the server's board. It is told what happens, one thing at a
//! time, and answers with the messages to send. The connections themselves
//! are its owner's.

use crate::auth::UserData;
use crate::board::common::{increasing, sorted_keys, Board, BoardAction, BoardEvent};
use crate::board::global_board::{fan_out, GlobalBoard, GlobalBoardView, Outcome};
use crate::client_info::{ClientData, ClientListMessage, ClientMessage};
use vstd::bytes::{
    spec_u128_from_le_bytes, spec_u128_to_le_bytes, u128_from_le_bytes, u128_to_le_bytes,
};
use vstd::prelude::*;

verus! {

/// A message from the room to a client.
#[derive(Clone, Debug)]
pub enum ToClient {
    ClientListMessage(ClientListMessage),
    NewBoard(Board<u64>),
    BoardEvent(BoardEvent),
}

/// A message from a client to the room.
#[derive(Clone, Debug, PartialEq, Eq)]
pub enum ToServer {
    BoardAction(BoardAction),
}

/// Who a message goes to.
#[derive(Clone, Copy, Debug, PartialEq, Eq, Structural)]
pub enum Recipient {
    /// The client with this number.
    Client(u64),
    /// Every client that is connected when the message is sent.
    Everyone,
}

/// A message and who it goes to.
#[derive(Clone, Debug)]
pub struct Outgoing {
    pub to: Recipient,
    pub message: ToClient,
}

/// Number of bytes of the time that a ping carries.
pub const TIMESTAMP_LEN: usize = 16;

/// The time between a ping and its answer, in milliseconds: nothing if the
/// answer claims to be earlier than now; else what fits 32 bits of it.
pub open spec fn elapsed(now: u128, timestamp: u128) -> u32 {
    if now >= timestamp {
        ((now - timestamp) % 0x1_0000_0000) as u32
    } else {
        0
    }
}

/// What a ping carries: the time at which it is sent, in milliseconds, as
/// sixteen bytes with the least significant first.
pub fn ping_payload(now: u128) -> (payload: Vec<u8>)
    ensures
        payload@ == spec_u128_to_le_bytes(now),
        payload@.len() == TIMESTAMP_LEN,
{
    u128_to_le_bytes(now)
}

/// The time that the answer to a ping carries, if the answer is as long as
/// a ping.
pub fn pong_timestamp(payload: &[u8]) -> (timestamp: Option<u128>)
    ensures
        timestamp == (if payload@.len() == TIMESTAMP_LEN {
            Some(spec_u128_from_le_bytes(payload@))
        } else {
            None
        }),
{
    if payload.len() == TIMESTAMP_LEN {
        Some(u128_from_le_bytes(payload))
    } else {
        None
    }
}

/// The time between a ping and its answer; see `elapsed`.
pub fn ping_millis(now: u128, timestamp: u128) -> (millis: u32)
    ensures
        millis == elapsed(now, timestamp),
{
    if now >= timestamp {
        let passed: u128 = now - timestamp;
        (passed % 0x1_0000_0000) as u32
    } else {
        0
    }
}

/// A room. A room whose log could not be written is poisoned: what is on
/// its board is no longer what is stored, and it takes no more actions.
pub struct Room {
    board: GlobalBoard,
    poisoned: bool,
}

impl View for Room {
    type V = GlobalBoardView;

    closed spec fn view(&self) -> GlobalBoardView {
        self.board@
    }
}

impl Room {
    pub closed spec fn wf(&self) -> bool {
        self.board.wf()
    }

    /// Whether the room has stopped taking actions.
    pub closed spec fn poisoned(&self) -> bool {
        self.poisoned
    }

    /// A room with an empty board.
    pub fn new() -> (room: Room)
        ensures
            room.wf(),
            !room.poisoned(),
            room@ == GlobalBoardView::empty(),
    {
        Room { board: GlobalBoard::new(), poisoned: false }
    }

    /// A room whose board is taken up from storage.
    pub fn from_board(board: Board<u64>) -> (room: Room)
        ensures
            room.wf(),
            !room.poisoned(),
            room@.board == board@,
            room@.clients == Map::<u64, Map<u64, u64>>::empty(),
            room@.counter == 0 || board@.uses(room@.counter),
            room@.bounded(),
    {
        Room { board: GlobalBoard::from_board(board), poisoned: false }
    }

    /// A copy of the board as it stands.
    pub fn get_state(&self) -> (state: Board<u64>)
        ensures
            state@ == self@.board,
    {
        self.board.get_state()
    }

    /// A client has connected. It is registered with the board; it is sent
    /// the board as it stands; and everyone, the new client too, is told
    /// that it has joined.
    pub fn on_connect(&mut self, client_id: u64, user: UserData) -> (outgoing: Vec<Outgoing>)
        requires
            old(self).wf(),
        ensures
            final(self).wf(),
            final(self).poisoned() == old(self).poisoned(),
            final(self)@ == (GlobalBoardView {
                clients: old(self)@.clients.insert(client_id, Map::empty()),
                ..old(self)@
            }),
            outgoing@.len() == 2,
            outgoing@[0].to == Recipient::Client(client_id),
            outgoing@[0].message matches ToClient::NewBoard(board) && board@ == old(self)@.board,
            outgoing@[1].to == Recipient::Everyone,
            outgoing@[1].message matches ToClient::ClientListMessage(ClientListMessage::Joined(data))
                && data.id == client_id && data.name@ == user.username@ && data.ping == 0,
    {
        self.board.new_client(client_id);
        let mut outgoing: Vec<Outgoing> = Vec::new();
        outgoing.push(
            Outgoing {
                to: Recipient::Client(client_id),
                message: ToClient::NewBoard(self.board.get_state()),
            },
        );
        outgoing.push(
            Outgoing {
                to: Recipient::Everyone,
                message: ToClient::ClientListMessage(
                    ClientListMessage::Joined(ClientData { id: client_id, name: user.username, ping: 0 }),
                ),
            },
        );
        outgoing
    }

    /// A client has sent a message. Its action is applied to the board; the
    /// outcome says what was placed and which event goes to which client.
    /// What was placed is to be written to the log before the events are
    /// sent. A poisoned room drops the message.
    pub fn on_message(&mut self, client_id: u64, message: ToServer) -> (outcome: Outcome)
        requires
            old(self).wf(),
        ensures
            final(self).wf(),
            final(self).poisoned() == old(self).poisoned(),
            old(self).poisoned() ==> final(self)@ == old(self)@ && outcome.placed is None
                && outcome.deliveries@.len() == 0,
            !old(self).poisoned() ==> (message matches ToServer::BoardAction(action) && {
                &&& old(self)@.resolves(client_id, action@.texture(), outcome.resolved())
                &&& final(self)@ == old(self)@.applied(client_id, action@, outcome.resolved())
                &&& match outcome.placed {
                    Some(placed) => {
                        &&& Some(placed@) == old(self)@.placed(action@, outcome.resolved())
                        &&& outcome.deliveries_view() == fan_out(
                            old(self)@.clients.contains_key(client_id),
                            client_id,
                            action@.local_id(),
                            placed@,
                            sorted_keys(old(self)@.clients.dom().remove(client_id)),
                        )
                        &&& increasing(sorted_keys(old(self)@.clients.dom().remove(client_id)))
                        &&& sorted_keys(old(self)@.clients.dom().remove(client_id)).to_set()
                            == old(self)@.clients.dom().remove(client_id)
                    },
                    None => outcome.deliveries@.len() == 0,
                }
            }),
    {
        if self.poisoned {
            return Outcome { placed: None, deliveries: Vec::new() };
        }
        match message {
            ToServer::BoardAction(action) => self.board.apply(client_id, action),
        }
    }

    /// The log could not be written: the room takes no more actions.
    pub fn poison(&mut self)
        ensures
            final(self).poisoned(),
            final(self)@ == old(self)@,
            final(self).wf() == old(self).wf(),
    {
        self.poisoned = true;
    }

    /// Whether the room has stopped taking actions.
    pub fn is_poisoned(&self) -> (poisoned: bool)
        ensures
            poisoned == self.poisoned(),
    {
        self.poisoned
    }

    /// A client has left. The board forgets it, and everyone is told that
    /// it has quit.
    pub fn on_disconnect(&mut self, client_id: u64) -> (outgoing: Vec<Outgoing>)
        requires
            old(self).wf(),
        ensures
            final(self).wf(),
            final(self).poisoned() == old(self).poisoned(),
            final(self)@ == (GlobalBoardView {
                clients: old(self)@.clients.remove(client_id),
                ..old(self)@
            }),
            outgoing@.len() == 1,
            outgoing@[0].to == Recipient::Everyone,
            outgoing@[0].message == ToClient::ClientListMessage(ClientListMessage::Quit(client_id)),
    {
        self.board.remove_client(client_id);
        let mut outgoing: Vec<Outgoing> = Vec::new();
        outgoing.push(
            Outgoing {
                to: Recipient::Everyone,
                message: ToClient::ClientListMessage(ClientListMessage::Quit(client_id)),
            },
        );
        outgoing
    }

    /// A client has answered a ping that was sent at `timestamp`. Everyone
    /// is told how long the answer took.
    pub fn on_pong(&self, client_id: u64, now: u128, timestamp: u128) -> (outgoing: Vec<Outgoing>)
        ensures
            outgoing@.len() == 1,
            outgoing@[0].to == Recipient::Everyone,
            outgoing@[0].message == ToClient::ClientListMessage(
                ClientListMessage::Update(client_id, ClientMessage::Ping(elapsed(now, timestamp))),
            ),
    {
        let mut outgoing: Vec<Outgoing> = Vec::new();
        outgoing.push(
            Outgoing {
                to: Recipient::Everyone,
                message: ToClient::ClientListMessage(
                    ClientListMessage::Update(client_id, ClientMessage::Ping(ping_millis(now, timestamp))),
                ),
            },
        );
        outgoing
    }
}

} // verus!
