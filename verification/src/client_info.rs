//! The list of the clients of a room, as each client sees it.

use vstd::prelude::*;

verus! {

/// A client of a room as the others see it.
#[derive(Clone, Debug, PartialEq, Eq)]
pub struct ClientData {
    pub id: u64,
    pub name: String,
    pub ping: u32,
}

/// News about one client.
#[derive(Clone, Copy, Debug, PartialEq, Eq, Structural)]
pub enum ClientMessage {
    /// The time in milliseconds that the client took to answer a ping.
    Ping(u32),
}

/// News about the clients of a room.
#[derive(Clone, Debug, PartialEq, Eq)]
pub enum ClientListMessage {
    Joined(ClientData),
    Quit(u64),
    Update(u64, ClientMessage),
}

/// What is shown of a client: its name and how long it took to answer the
/// last ping.
pub struct ClientInfo {
    name: String,
    ping: u32,
}

impl ClientInfo {
    pub closed spec fn name(&self) -> Seq<char> {
        self.name@
    }

    pub closed spec fn ping(&self) -> u32 {
        self.ping
    }

    /// What is shown of a client that has joined.
    pub fn new(data: ClientData) -> (info: ClientInfo)
        ensures
            info.name() == data.name@,
            info.ping() == data.ping,
    {
        ClientInfo { name: data.name, ping: data.ping }
    }

    /// Takes up news about the client.
    pub fn consume(&mut self, message: ClientMessage)
        ensures
            final(self).name() == old(self).name(),
            message matches ClientMessage::Ping(ping) && final(self).ping() == ping,
    {
        match message {
            ClientMessage::Ping(ping) => {
                self.ping = ping;
            },
        }
    }

    /// The name to show.
    pub fn get_name(&self) -> (name: &String)
        ensures
            name@ == self.name(),
    {
        &self.name
    }

    /// The ping time to show, in milliseconds.
    pub fn get_ping(&self) -> (ping: u32)
        ensures
            ping == self.ping(),
    {
        self.ping
    }
}

} // verus!
