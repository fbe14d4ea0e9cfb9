use vstd::prelude::*;

verus! {

/// One admitted client of a room, as the other members see it.
#[derive(Debug, Clone, PartialEq, Eq)]
pub struct ClientData {
    pub color_hue: u16,
    pub id: u32,
    pub instrument_name: String,
}

impl ClientData {
    /// A copy of this record, field for field.
    pub fn duplicate(&self) -> (r: ClientData)
        ensures
            r == *self,
    {
        ClientData {
            color_hue: self.color_hue,
            id: self.id,
            instrument_name: self.instrument_name.clone(),
        }
    }
}

/// A message that a client sends to the server.
///
/// The volume travels as the bit pattern of an IEEE-754 single-precision
/// number; the library only carries it through.
#[derive(Debug, Clone, PartialEq, Eq)]
pub enum ClientMessage {
    Play { note: String, volume_bits: u32 },
    Stop { note: String, sustain: bool },
    InstrumentChange { instrument_name: String },
}

/// A message that the server sends to a client.
#[derive(Debug, Clone, PartialEq, Eq)]
pub enum ServerMessage {
    Error { error: String },
    ClientConnect(ClientData),
    ReceiveInfo { client_list: Vec<ClientData>, created_client: ClientData },
    ClientDisconnect { id: u32 },
    Relay { msg: ClientMessage, id: u32 },
}

/// One message and the ids of the clients it is to be delivered to, in order.
#[derive(Debug)]
pub struct Outgoing {
    pub message: ServerMessage,
    pub recipients: Vec<u32>,
}

} // verus!
