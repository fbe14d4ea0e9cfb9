use vstd::prelude::*;

use rand::Rng;

use crate::client::{has_id, position, recipients, without, ClientError};
use crate::message::{ClientMessage, Outgoing, ServerMessage};
use crate::rooms::{after_message, join_error, joined, left, members_of, Admission, GlobalState, JoinError, QueryParams};

verus! {

/// Relies on rand's `thread_rng` and `Rng::gen_range`: a value drawn from the
/// half-open range 0..360.
#[verifier::external_body]
fn random_hue() -> (r: u16)
    ensures
        r < 360,
{
    rand::thread_rng().gen_range(0..360)
}

/// Where a connection stands in its life.
#[derive(Debug, Clone, Copy, PartialEq, Eq)]
pub enum ConnectionState {
    /// Opened, not yet admitted into a room.
    Connecting,
    /// Admitted with the id `id`; its messages are relayed.
    Relaying { id: u32 },
    /// Finished: refused, or gone.
    Closed,
}

/// One frame read from a client, as the decoder left it.
#[derive(Debug)]
pub enum InboundFrame {
    /// A frame with no bytes.
    Empty,
    /// A frame whose bytes are no client message.
    Malformed,
    /// A decoded client message.
    Message(ClientMessage),
}

/// What the read loop does after one frame.
#[derive(Debug)]
pub enum FrameAction {
    /// Nothing to do; read on.
    Ignore,
    /// The frame was malformed: report it and read on.
    ReportMalformed,
    /// Deliver this and read on.
    Deliver(Outgoing),
    /// The connection lost its place in its room: stop reading.
    Close(ClientError),
}

/// One client connection: its join parameters and where it stands.
#[derive(Debug)]
pub struct WebsocketConnection {
    params: QueryParams,
    state: ConnectionState,
}

impl WebsocketConnection {
    /// The join parameters, in specifications.
    pub closed spec fn spec_params(&self) -> &QueryParams {
        &self.params
    }

    /// Where the connection stands, in specifications.
    pub closed spec fn spec_state(&self) -> ConnectionState {
        self.state
    }

    /// A connection that has not joined yet.
    pub fn new(params: QueryParams) -> (r: WebsocketConnection)
        ensures
            r.spec_state() == ConnectionState::Connecting,
            *r.spec_params() == params,
    {
        WebsocketConnection { params, state: ConnectionState::Connecting }
    }

    /// The join parameters.
    pub fn params(&self) -> (r: &QueryParams)
        ensures
            r == self.spec_params(),
    {
        &self.params
    }

    /// Where the connection stands.
    pub fn state(&self) -> (r: ConnectionState)
        ensures
            r == self.spec_state(),
    {
        self.state
    }

    /// Admits the connection into its room with a random colour. Admitted,
    /// it relays; refused, it is closed and nothing else changes.
    pub fn on_connect(&mut self, state: &mut GlobalState) -> (r: Result<Admission, JoinError>)
        requires
            old(self).spec_state() == ConnectionState::Connecting,
            old(state).wf(),
        ensures
            final(state).wf(),
            final(self).spec_params() == old(self).spec_params(),
            r is Ok <==> join_error(old(state)@, old(self).spec_params().room_name@) is None
                && old(state).spec_next_id() < u32::MAX,
            join_error(old(state)@, old(self).spec_params().room_name@) matches Some(e)
                ==> r == Err::<Admission, JoinError>(e),
            r is Err ==> final(state)@ == old(state)@ && final(self).spec_state() == ConnectionState::Closed
                && final(state).spec_next_id() == old(state).spec_next_id(),
            r matches Ok(a) ==> {
                let members = members_of(old(state)@, old(self).spec_params().room_name@);
                &&& a.client.id == old(state).spec_next_id()
                &&& final(state).spec_next_id() == old(state).spec_next_id() + 1
                &&& a.client.color_hue < 360
                &&& a.client.instrument_name == old(self).spec_params().instrument_name
                &&& final(state)@ == joined(old(state)@, old(self).spec_params().room_name@, a.client)
                &&& final(self).spec_state() == (ConnectionState::Relaying { id: a.client.id })
                &&& a.info.message matches ServerMessage::ReceiveInfo { client_list, created_client }
                    && client_list@ == members && created_client == a.client
                &&& a.info.recipients@ == seq![a.client.id]
                &&& a.announcement.message == ServerMessage::ClientConnect(a.client)
                &&& a.announcement.recipients@ == recipients(members, a.client.id)
            },
    {
        let hue = random_hue();
        let r = state.join(&self.params, hue);
        match &r {
            Ok(a) => {
                self.state = ConnectionState::Relaying { id: a.client.id };
            },
            Err(_) => {
                self.state = ConnectionState::Closed;
            },
        }
        r
    }

    /// Handles one decoded message from the client: it is relayed, stamped
    /// with the connection's id, to the other members of its room. A
    /// connection that is not relaying has nobody to relay to.
    pub fn handle_websocket_message(&mut self, state: &mut GlobalState, msg: ClientMessage) -> (r: Result<Outgoing, ClientError>)
        requires
            old(state).wf(),
        ensures
            final(state).wf(),
            final(state).spec_next_id() == old(state).spec_next_id(),
            *final(self) == *old(self),
            !(old(self).spec_state() is Relaying) ==>
                r == Err::<Outgoing, ClientError>(ClientError::NotFound) && final(state)@ == old(state)@,
            old(self).spec_state() matches ConnectionState::Relaying { id } ==> {
                let name = old(self).spec_params().room_name@;
                &&& r is Ok <==> old(state)@.contains_key(name) && has_id(old(state)@[name], id)
                &&& r is Err ==> r == Err::<Outgoing, ClientError>(ClientError::NotFound)
                    && final(state)@ == old(state)@
                &&& r matches Ok(o) ==> {
                    let members = after_message(old(state)@[name], id, msg);
                    &&& final(state)@ == old(state)@.insert(name, members)
                    &&& o.message == (ServerMessage::Relay { msg, id })
                    &&& o.recipients@ == recipients(members, id)
                }
            },
    {
        match self.state {
            ConnectionState::Relaying { id } => state.relay(&self.params.room_name, id, msg),
            _ => Err(ClientError::NotFound),
        }
    }

    /// Decides what one inbound frame leads to. Empty and malformed frames
    /// change nothing and keep the connection open; a message is handled as
    /// `handle_websocket_message` does, and a failure there closes.
    pub fn on_frame(&mut self, state: &mut GlobalState, frame: InboundFrame) -> (r: FrameAction)
        requires
            old(state).wf(),
        ensures
            final(state).wf(),
            final(state).spec_next_id() == old(state).spec_next_id(),
            *final(self) == *old(self),
            frame is Empty ==> (r is Ignore && final(state)@ == old(state)@),
            frame is Malformed ==> (r is ReportMalformed && final(state)@ == old(state)@),
            frame matches InboundFrame::Message(msg) ==> {
                &&& !(old(self).spec_state() is Relaying) ==>
                    (r matches FrameAction::Close(e) && e == ClientError::NotFound && final(state)@ == old(state)@)
                &&& old(self).spec_state() matches ConnectionState::Relaying { id } ==> {
                    let name = old(self).spec_params().room_name@;
                    &&& (r is Deliver <==> old(state)@.contains_key(name) && has_id(old(state)@[name], id))
                    &&& r is Close ==> (r matches FrameAction::Close(e) && e == ClientError::NotFound
                        && final(state)@ == old(state)@)
                    &&& r matches FrameAction::Deliver(o) ==> {
                        let members = after_message(old(state)@[name], id, msg);
                        &&& final(state)@ == old(state)@.insert(name, members)
                        &&& o.message == (ServerMessage::Relay { msg, id })
                        &&& o.recipients@ == recipients(members, id)
                    }
                }
                &&& (r is Deliver || r is Close)
            },
    {
        match frame {
            InboundFrame::Empty => FrameAction::Ignore,
            InboundFrame::Malformed => FrameAction::ReportMalformed,
            InboundFrame::Message(msg) => match self.handle_websocket_message(state, msg) {
                Ok(out) => FrameAction::Deliver(out),
                Err(e) => FrameAction::Close(e),
            },
        }
    }

    /// Ends the connection. An admitted one leaves its room: the room goes
    /// when it is left empty, else its members are told. Afterwards the
    /// connection is closed.
    pub fn on_disconnect(&mut self, state: &mut GlobalState) -> (r: Result<Option<Outgoing>, ClientError>)
        requires
            old(state).wf(),
        ensures
            final(state).wf(),
            final(state).spec_next_id() == old(state).spec_next_id(),
            final(self).spec_state() == ConnectionState::Closed,
            final(self).spec_params() == old(self).spec_params(),
            !(old(self).spec_state() is Relaying) ==> (r matches Ok(None) && final(state)@ == old(state)@),
            old(self).spec_state() matches ConnectionState::Relaying { id } ==> {
                let name = old(self).spec_params().room_name@;
                &&& !old(state)@.contains_key(name) ==> (r matches Ok(None) && final(state)@ == old(state)@)
                &&& old(state)@.contains_key(name) && !has_id(old(state)@[name], id) ==>
                    r == Err::<Option<Outgoing>, ClientError>(ClientError::NotFound) && final(state)@ == old(state)@
                &&& old(state)@.contains_key(name) && has_id(old(state)@[name], id) ==>
                    final(state)@ == left(old(state)@, name, id)
                &&& old(state)@.contains_key(name) && has_id(old(state)@[name], id) ==> {
                    let after = members_of(final(state)@, name);
                    let before = old(state)@[name];
                    &&& after.len() == before.len() - 1
                    &&& !has_id(after, id)
                    &&& after.to_multiset() == before.to_multiset().remove(before[position(before, id)])
                }
                &&& old(state)@.contains_key(name) && has_id(old(state)@[name], id)
                    && without(old(state)@[name], id).len() == 0 ==> (r matches Ok(None))
                &&& old(state)@.contains_key(name) && has_id(old(state)@[name], id)
                    && without(old(state)@[name], id).len() > 0 ==> (r matches Ok(Some(o))
                    && o.message == (ServerMessage::ClientDisconnect { id })
                    && o.recipients@ == recipients(without(old(state)@[name], id), id))
            },
    {
        let r = match self.state {
            ConnectionState::Relaying { id } => state.leave(&self.params.room_name, id),
            _ => Ok(None),
        };
        self.state = ConnectionState::Closed;
        r
    }
}

} // verus!
