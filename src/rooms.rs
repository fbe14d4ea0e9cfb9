use vstd::prelude::*;
use vstd::string::*;

use crate::client::{has_id, lemma_without, position, recipients, unique_ids, without, ClientError, ClientList};
use crate::message::{ClientData, ClientMessage, Outgoing, ServerMessage};

verus! {

/// Longest room name, in characters, that a join may ask for.
pub const MAX_ROOM_NAME_LEN: usize = 100;

/// Most members a room holds: a join to a room that holds this many is refused.
pub const ROOM_CAPACITY: usize = 25;

/// Why a connection was not admitted into a room.
#[derive(Debug, Clone, Copy, PartialEq, Eq)]
pub enum JoinError {
    InvalidRoomName,
    RoomFull,
    IdsExhausted,
}

impl JoinError {
    /// The text sent to the refused client in an `Error` message.
    pub fn message(&self) -> (r: String)
        ensures
            *self == JoinError::InvalidRoomName ==> r@ == "Room name to long!"@,
            *self == JoinError::RoomFull ==> r@ == "Room already has over 25 people"@,
            *self == JoinError::IdsExhausted ==> r@ == "No client ids left"@,
    {
        match self {
            JoinError::InvalidRoomName => String::from_str("Room name to long!"),
            JoinError::RoomFull => String::from_str("Room already has over 25 people"),
            JoinError::IdsExhausted => String::from_str("No client ids left"),
        }
    }
}

/// The members of the room `name`; empty where there is no such room.
pub open spec fn members_of(rooms: Map<Seq<char>, Seq<ClientData>>, name: Seq<char>) -> Seq<ClientData> {
    if rooms.contains_key(name) {
        rooms[name]
    } else {
        Seq::empty()
    }
}

/// Why a join to the room `name` is refused, if it is.
pub open spec fn join_error(rooms: Map<Seq<char>, Seq<ClientData>>, name: Seq<char>) -> Option<JoinError> {
    if name.len() > MAX_ROOM_NAME_LEN {
        Some(JoinError::InvalidRoomName)
    } else if members_of(rooms, name).len() >= ROOM_CAPACITY {
        Some(JoinError::RoomFull)
    } else {
        None
    }
}

/// The rooms after `client` joined the room `name`, which is created if
/// it did not exist.
pub open spec fn joined(rooms: Map<Seq<char>, Seq<ClientData>>, name: Seq<char>, client: ClientData) -> Map<Seq<char>, Seq<ClientData>> {
    rooms.insert(name, members_of(rooms, name).push(client))
}

/// The rooms after the member `id` left the room `name`; a room that is
/// left empty is gone.
pub open spec fn left(rooms: Map<Seq<char>, Seq<ClientData>>, name: Seq<char>, id: u32) -> Map<Seq<char>, Seq<ClientData>> {
    let rest = without(members_of(rooms, name), id);
    if rest.len() == 0 {
        rooms.remove(name)
    } else {
        rooms.insert(name, rest)
    }
}

/// The members of a room after the member `id` sent `msg`: an instrument
/// change renames that member's instrument, anything else changes nothing.
pub open spec fn after_message(members: Seq<ClientData>, id: u32, msg: ClientMessage) -> Seq<ClientData> {
    match msg {
        ClientMessage::InstrumentChange { instrument_name } => {
            let p = position(members, id);
            members.update(p, ClientData { instrument_name, ..members[p] })
        },
        _ => members,
    }
}

/// One membership change asked of a room.
#[derive(Debug)]
pub enum RoomEvent {
    Join(ClientData),
    Leave(u32),
}

/// True when `event` succeeds on the room `name` of `rooms`: a join that
/// `join_error` does not refuse and whose record has an id below `u32::MAX`
/// (`join` hands out the counter's value and refuses once it reaches
/// `u32::MAX`), or a leave of a present member.
pub open spec fn event_succeeds(rooms: Map<Seq<char>, Seq<ClientData>>, name: Seq<char>, event: RoomEvent) -> bool {
    match event {
        RoomEvent::Join(c) => join_error(rooms, name) is None && c.id < u32::MAX,
        RoomEvent::Leave(id) => rooms.contains_key(name) && has_id(rooms[name], id),
    }
}

/// The rooms after `event`; a refused join or a leave of an absent member
/// changes nothing.
pub open spec fn apply_event(rooms: Map<Seq<char>, Seq<ClientData>>, name: Seq<char>, event: RoomEvent) -> Map<Seq<char>, Seq<ClientData>> {
    if !event_succeeds(rooms, name, event) {
        rooms
    } else {
        match event {
            RoomEvent::Join(c) => joined(rooms, name, c),
            RoomEvent::Leave(id) => left(rooms, name, id),
        }
    }
}

/// The rooms after every event of `events`, in order.
pub open spec fn run_events(rooms: Map<Seq<char>, Seq<ClientData>>, name: Seq<char>, events: Seq<RoomEvent>) -> Map<Seq<char>, Seq<ClientData>>
    decreases events.len(),
{
    if events.len() == 0 {
        rooms
    } else {
        apply_event(run_events(rooms, name, events.drop_last()), name, events.last())
    }
}

/// How many joins of `events` succeed, and how many leaves.
pub open spec fn event_counts(rooms: Map<Seq<char>, Seq<ClientData>>, name: Seq<char>, events: Seq<RoomEvent>) -> (nat, nat)
    decreases events.len(),
{
    if events.len() == 0 {
        (0, 0)
    } else {
        let before = run_events(rooms, name, events.drop_last());
        let (joins, leaves) = event_counts(rooms, name, events.drop_last());
        if !event_succeeds(before, name, events.last()) {
            (joins, leaves)
        } else {
            match events.last() {
                RoomEvent::Join(_) => (joins + 1, leaves),
                RoomEvent::Leave(_) => (joins, leaves + 1),
            }
        }
    }
}

/// After any sequence of joins and leaves, a room holds as many members as
/// it held before, plus the joins that succeeded, minus the leaves that did.
pub proof fn lemma_member_count(rooms: Map<Seq<char>, Seq<ClientData>>, name: Seq<char>, events: Seq<RoomEvent>)
    ensures
        members_of(run_events(rooms, name, events), name).len() + event_counts(rooms, name, events).1
            == members_of(rooms, name).len() + event_counts(rooms, name, events).0,
    decreases events.len(),
{
    if events.len() > 0 {
        lemma_member_count(rooms, name, events.drop_last());
        let before = run_events(rooms, name, events.drop_last());
        if event_succeeds(before, name, events.last()) {
            match events.last() {
                RoomEvent::Join(c) => {
                    assert(members_of(joined(before, name, c), name) == members_of(before, name).push(c));
                },
                RoomEvent::Leave(id) => {
                    let rest = without(before[name], id);
                    assert(rest.len() + 1 == before[name].len());
                },
            }
        }
    }
}

/// When the last member of a room leaves, the room is gone, and the next
/// join to that name finds an empty room and creates it afresh.
pub proof fn lemma_last_leave_removes_room(rooms: Map<Seq<char>, Seq<ClientData>>, name: Seq<char>, id: u32, client: ClientData)
    requires
        rooms.contains_key(name),
        rooms[name].len() == 1,
        rooms[name][0].id == id,
    ensures
        !left(rooms, name, id).contains_key(name),
        members_of(left(rooms, name, id), name).len() == 0,
        join_error(left(rooms, name, id), name) is None <==> name.len() <= MAX_ROOM_NAME_LEN,
        members_of(joined(left(rooms, name, id), name, client), name) == seq![client],
{
    assert(has_id(rooms[name], id));
    assert(without(rooms[name], id).len() == 0);
    assert(members_of(left(rooms, name, id), name).push(client) =~= seq![client]);
}

/// True when no id is a member of two rooms of `s`.
spec fn ids_apart(s: Seq<Room>) -> bool {
    forall|a: int, b: int, k: int|
        #![trigger s[a].clients@[k], s[b]]
        0 <= a < s.len() && 0 <= b < s.len() && a != b && 0 <= k < s[a].clients@.len()
            ==> !has_id(s[b].clients@, s[a].clients@[k].id)
}

proof fn lemma_ids_apart_swap_remove(s: Seq<Room>, i: int)
    requires
        ids_apart(s),
        0 <= i < s.len(),
    ensures
        ids_apart(s.update(i, s.last()).drop_last()),
{
    let t = s.update(i, s.last()).drop_last();
    let n = s.len() - 1;
    assert forall|j: int| 0 <= j < t.len() implies #[trigger] t[j] == (if j == i { s[n] } else { s[j] }) by {}
    assert forall|a: int, b: int, k: int|
        #![trigger t[a].clients@[k], t[b]]
        0 <= a < t.len() && 0 <= b < t.len() && a != b && 0 <= k < t[a].clients@.len()
        implies !has_id(t[b].clients@, t[a].clients@[k].id) by {
        let sa = if a == i { n } else { a };
        let sb = if b == i { n } else { b };
        assert(t[a] == s[sa] && t[b] == s[sb]);
        assert(!has_id(s[sb].clients@, s[sa].clients@[k].id));
    }
}

/// The join parameters of a connection.
#[derive(Debug)]
pub struct QueryParams {
    pub room_name: String,
    pub instrument_name: String,
}

/// A room: its name and its members.
#[derive(Debug)]
struct Room {
    name: String,
    clients: ClientList,
}

/// True when no two rooms of `s` share a name.
spec fn unique_names(s: Seq<Room>) -> bool {
    forall|i: int, j: int| 0 <= i < j < s.len() ==> s[i].name@ != s[j].name@
}

/// True when some room of `s` is named `name`.
spec fn contains_room(s: Seq<Room>, name: Seq<char>) -> bool {
    exists|i: int| 0 <= i < s.len() && s[i].name@ == name
}

/// The index of the room named `name`, where there is one.
spec fn room_index(s: Seq<Room>, name: Seq<char>) -> int {
    choose|i: int| 0 <= i < s.len() && s[i].name@ == name
}

/// The rooms of `s` as a map from name to members.
spec fn rooms_view(s: Seq<Room>) -> Map<Seq<char>, Seq<ClientData>> {
    Map::new(|k: Seq<char>| contains_room(s, k), |k: Seq<char>| s[room_index(s, k)].clients@)
}

proof fn lemma_rooms_view_at(s: Seq<Room>, i: int)
    requires
        unique_names(s),
        0 <= i < s.len(),
    ensures
        rooms_view(s).contains_key(s[i].name@),
        rooms_view(s)[s[i].name@] == s[i].clients@,
{
    let k = s[i].name@;
    assert(contains_room(s, k));
    let j = room_index(s, k);
    if j < i {
        assert(s[j].name@ != s[i].name@);
    } else if j > i {
        assert(s[i].name@ != s[j].name@);
    }
}

proof fn lemma_rooms_view_update(s: Seq<Room>, i: int, room: Room)
    requires
        unique_names(s),
        0 <= i < s.len(),
        room.name@ == s[i].name@,
    ensures
        unique_names(s.update(i, room)),
        rooms_view(s.update(i, room)) == rooms_view(s).insert(room.name@, room.clients@),
{
    let t = s.update(i, room);
    assert forall|a: int, b: int| 0 <= a < b < t.len() implies t[a].name@ != t[b].name@ by {
        assert(t[a].name@ == s[a].name@ && t[b].name@ == s[b].name@);
    }
    let m = rooms_view(s).insert(room.name@, room.clients@);
    assert forall|k: Seq<char>| rooms_view(t).contains_key(k) <==> m.contains_key(k) by {
        if contains_room(t, k) {
            let j = choose|j: int| 0 <= j < t.len() && t[j].name@ == k;
            if j != i {
                lemma_rooms_view_at(s, j);
            }
        }
        if contains_room(s, k) {
            let j = choose|j: int| 0 <= j < s.len() && s[j].name@ == k;
            assert(t[j].name@ == k);
        }
        if k == room.name@ {
            assert(t[i].name@ == k);
        }
    }
    assert forall|k: Seq<char>| #[trigger] rooms_view(t).contains_key(k) implies rooms_view(t)[k] == m[k] by {
        let j = choose|j: int| 0 <= j < t.len() && t[j].name@ == k;
        lemma_rooms_view_at(t, j);
        if j != i {
            lemma_rooms_view_at(s, j);
        }
    }
    assert(rooms_view(t) =~= m);
}

proof fn lemma_rooms_view_push(s: Seq<Room>, room: Room)
    requires
        unique_names(s),
        !contains_room(s, room.name@),
    ensures
        unique_names(s.push(room)),
        rooms_view(s.push(room)) == rooms_view(s).insert(room.name@, room.clients@),
{
    let t = s.push(room);
    let n = s.len() as int;
    assert forall|a: int, b: int| 0 <= a < b < t.len() implies t[a].name@ != t[b].name@ by {
        assert(t[a] == s[a]);
        if b < n {
            assert(t[b] == s[b]);
        } else {
            assert(s[a].name@ != room.name@);
        }
    }
    let m = rooms_view(s).insert(room.name@, room.clients@);
    assert forall|k: Seq<char>| rooms_view(t).contains_key(k) <==> m.contains_key(k) by {
        if contains_room(t, k) {
            let j = choose|j: int| 0 <= j < t.len() && t[j].name@ == k;
            if j < n {
                assert(t[j] == s[j]);
                lemma_rooms_view_at(s, j);
            }
        }
        if contains_room(s, k) {
            let j = choose|j: int| 0 <= j < s.len() && s[j].name@ == k;
            assert(t[j] == s[j]);
        }
        if k == room.name@ {
            assert(t[n].name@ == k);
        }
    }
    assert forall|k: Seq<char>| #[trigger] rooms_view(t).contains_key(k) implies rooms_view(t)[k] == m[k] by {
        let j = choose|j: int| 0 <= j < t.len() && t[j].name@ == k;
        lemma_rooms_view_at(t, j);
        if j < n {
            assert(t[j] == s[j]);
            lemma_rooms_view_at(s, j);
        }
    }
    assert(rooms_view(t) =~= m);
}

proof fn lemma_rooms_view_swap_remove(s: Seq<Room>, i: int)
    requires
        unique_names(s),
        0 <= i < s.len(),
    ensures
        unique_names(s.update(i, s.last()).drop_last()),
        rooms_view(s.update(i, s.last()).drop_last()) == rooms_view(s).remove(s[i].name@),
{
    let t = s.update(i, s.last()).drop_last();
    let n = s.len() - 1;
    assert forall|j: int| 0 <= j < t.len() implies #[trigger] t[j] == (if j == i { s[n] } else { s[j] }) by {}
    assert forall|a: int, b: int| 0 <= a < b < t.len() implies t[a].name@ != t[b].name@ by {
        if a == i {
            assert(s[b].name@ != s[n].name@);
        } else if b == i {
            assert(s[a].name@ != s[n].name@);
        } else {
            assert(s[a].name@ != s[b].name@);
        }
    }
    let gone = s[i].name@;
    let m = rooms_view(s).remove(gone);
    assert forall|k: Seq<char>| rooms_view(t).contains_key(k) <==> m.contains_key(k) by {
        if contains_room(t, k) {
            let j = choose|j: int| 0 <= j < t.len() && t[j].name@ == k;
            if j == i {
                lemma_rooms_view_at(s, n);
                assert(s[n].name@ != gone);
            } else {
                lemma_rooms_view_at(s, j);
                assert(s[j].name@ != gone);
            }
        }
        if contains_room(s, k) && k != gone {
            let j = choose|j: int| 0 <= j < s.len() && s[j].name@ == k;
            if j == n {
                assert(t[i].name@ == k);
            } else {
                assert(j != i);
                assert(t[j].name@ == k);
            }
        }
    }
    assert forall|k: Seq<char>| #[trigger] rooms_view(t).contains_key(k) implies rooms_view(t)[k] == m[k] by {
        let j = choose|j: int| 0 <= j < t.len() && t[j].name@ == k;
        lemma_rooms_view_at(t, j);
        if j == i {
            lemma_rooms_view_at(s, n);
        } else {
            lemma_rooms_view_at(s, j);
        }
    }
    assert(rooms_view(t) =~= m);
}

/// What an admitted client is told, and what the room is told about it.
#[derive(Debug)]
pub struct Admission {
    /// The record of the admitted client.
    pub client: ClientData,
    /// `ReceiveInfo` for the admitted client alone.
    pub info: Outgoing,
    /// `ClientConnect` for the members that were there before.
    pub announcement: Outgoing,
}

/// Every room that the server knows of, and the counter of client ids.
#[derive(Debug)]
pub struct GlobalState {
    rooms: Vec<Room>,
    next_id: u32,
}

impl View for GlobalState {
    type V = Map<Seq<char>, Seq<ClientData>>;

    closed spec fn view(&self) -> Map<Seq<char>, Seq<ClientData>> {
        rooms_view(self.rooms@)
    }
}

impl GlobalState {
    /// The id that the next admitted client receives.
    pub closed spec fn spec_next_id(&self) -> u32 {
        self.next_id
    }

    /// Room names are distinct, every room has members with distinct ids,
    /// no id is a member of two rooms, and every id is below the counter.
    pub closed spec fn wf(&self) -> bool {
        &&& unique_names(self.rooms@)
        &&& ids_apart(self.rooms@)
        &&& forall|i: int| 0 <= i < self.rooms@.len() ==> {
            &&& (#[trigger] self.rooms@[i]).clients.wf()
            &&& self.rooms@[i].clients@.len() > 0
            &&& forall|k: int| 0 <= k < self.rooms@[i].clients@.len() ==> #[trigger] self.rooms@[i].clients@[k].id < self.next_id
        }
    }

    /// What holds of the rooms of a well-formed state.
    pub proof fn lemma_wf_view(&self)
        requires
            self.wf(),
        ensures
            forall|name: Seq<char>| #[trigger] self@.contains_key(name) ==> {
                &&& self@[name].len() > 0
                &&& unique_ids(self@[name])
                &&& forall|k: int| 0 <= k < self@[name].len() ==> #[trigger] self@[name][k].id < self.spec_next_id()
            },
            forall|n1: Seq<char>, n2: Seq<char>, k: int|
                #![trigger self@[n1][k], self@[n2]]
                self@.contains_key(n1) && self@.contains_key(n2) && n1 != n2 && 0 <= k < self@[n1].len()
                    ==> !has_id(self@[n2], self@[n1][k].id),
    {
        assert forall|n1: Seq<char>, n2: Seq<char>, k: int|
            #![trigger self@[n1][k], self@[n2]]
            self@.contains_key(n1) && self@.contains_key(n2) && n1 != n2 && 0 <= k < self@[n1].len()
            implies !has_id(self@[n2], self@[n1][k].id) by {
            let a = choose|a: int| 0 <= a < self.rooms@.len() && self.rooms@[a].name@ == n1;
            let b = choose|b: int| 0 <= b < self.rooms@.len() && self.rooms@[b].name@ == n2;
            lemma_rooms_view_at(self.rooms@, a);
            lemma_rooms_view_at(self.rooms@, b);
            assert(!has_id(self.rooms@[b].clients@, self.rooms@[a].clients@[k].id));
        }
        assert forall|name: Seq<char>| #[trigger] self@.contains_key(name) implies {
            &&& self@[name].len() > 0
            &&& unique_ids(self@[name])
            &&& forall|k: int| 0 <= k < self@[name].len() ==> #[trigger] self@[name][k].id < self.spec_next_id()
        } by {
            let j = choose|j: int| 0 <= j < self.rooms@.len() && self.rooms@[j].name@ == name;
            lemma_rooms_view_at(self.rooms@, j);
            assert(self.rooms@[j].clients.wf());
        }
    }

    /// A server with no rooms, whose first client gets the id 0.
    pub fn new() -> (r: GlobalState)
        ensures
            r.wf(),
            r@ == Map::<Seq<char>, Seq<ClientData>>::empty(),
            r.spec_next_id() == 0,
    {
        let r = GlobalState { rooms: Vec::new(), next_id: 0 };
        assert(r@ =~= Map::<Seq<char>, Seq<ClientData>>::empty());
        r
    }

    /// The index of the room named `name`.
    fn find_room(&self, name: &String) -> (r: Option<usize>)
        requires
            unique_names(self.rooms@),
        ensures
            r is Some <==> contains_room(self.rooms@, name@),
            r matches Some(i) ==> i < self.rooms@.len() && self.rooms@[i as int].name@ == name@,
    {
        let mut i: usize = 0;
        while i < self.rooms.len()
            invariant
                i <= self.rooms@.len(),
                forall|k: int| 0 <= k < i ==> self.rooms@[k].name@ != name@,
            decreases self.rooms@.len() - i,
        {
            if self.rooms[i].name == *name {
                return Some(i);
            }
            i = i + 1;
        }
        None
    }

    /// Admits a client with the given colour into the room of `params`,
    /// creating the room if needed. The client gets the next id; it is told
    /// the members as they were before it came, and they are told of it.
    pub fn join(&mut self, params: &QueryParams, color_hue: u16) -> (r: Result<Admission, JoinError>)
        requires
            old(self).wf(),
        ensures
            final(self).wf(),
            r is Ok <==> join_error(old(self)@, params.room_name@) is None && old(self).spec_next_id() < u32::MAX,
            join_error(old(self)@, params.room_name@) matches Some(e) ==> r == Err::<Admission, JoinError>(e),
            join_error(old(self)@, params.room_name@) is None && old(self).spec_next_id() == u32::MAX ==>
                r == Err::<Admission, JoinError>(JoinError::IdsExhausted),
            r is Err ==> final(self)@ == old(self)@ && final(self).spec_next_id() == old(self).spec_next_id(),
            r matches Ok(a) ==> {
                let members = members_of(old(self)@, params.room_name@);
                &&& a.client == (ClientData {
                    color_hue,
                    id: old(self).spec_next_id(),
                    instrument_name: params.instrument_name,
                })
                &&& final(self).spec_next_id() == old(self).spec_next_id() + 1
                &&& final(self)@ == joined(old(self)@, params.room_name@, a.client)
                &&& a.info.message matches ServerMessage::ReceiveInfo { client_list, created_client }
                    && client_list@ == members && created_client == a.client
                &&& a.info.recipients@ == seq![a.client.id]
                &&& a.announcement.message == ServerMessage::ClientConnect(a.client)
                &&& a.announcement.recipients@ == recipients(members, a.client.id)
            },
    {
        params.check(self)?;
        if self.next_id == u32::MAX {
            return Err(JoinError::IdsExhausted);
        }
        let id = self.next_id;
        let client = ClientData {
            color_hue,
            id,
            instrument_name: params.instrument_name.clone(),
        };
        let ghost old_rooms = self.rooms@;
        let ghost name = params.room_name@;
        proof {
            self.lemma_wf_view();
        }
        let found = self.find_room(&params.room_name);
        let admission = match found {
            Some(i) => {
                proof {
                    lemma_rooms_view_at(old_rooms, i as int);
                }
                let client_list = self.rooms[i].clients.snapshot();
                let announcement = self.rooms[i].clients.send_to_all(ServerMessage::ClientConnect(client.duplicate()), id);
                let created_client = client.duplicate();
                let ghost members = old_rooms[i as int].clients@;
                proof {
                    assert(!has_id(members, id)) by {
                        if has_id(members, id) {
                            let k = choose|k: int| 0 <= k < members.len() && members[k].id == id;
                            assert(self.rooms@[i as int].clients@[k].id < self.next_id);
                        }
                    }
                }
                let room = &mut self.rooms[i];
                room.clients.push(client);
                proof {
                    lemma_rooms_view_update(old_rooms, i as int, self.rooms@[i as int]);
                    assert(self.rooms@ == old_rooms.update(i as int, self.rooms@[i as int]));
                }
                Admission {
                    client: created_client.duplicate(),
                    info: Outgoing {
                        message: ServerMessage::ReceiveInfo { client_list, created_client },
                        recipients: vec![id],
                    },
                    announcement,
                }
            },
            None => {
                let mut clients = ClientList::new();
                let announcement = clients.send_to_all(ServerMessage::ClientConnect(client.duplicate()), id);
                let created_client = client.duplicate();
                let admission = Admission {
                    client: client.duplicate(),
                    info: Outgoing {
                        message: ServerMessage::ReceiveInfo { client_list: Vec::new(), created_client },
                        recipients: vec![id],
                    },
                    announcement,
                };
                proof {
                    assert(!has_id(clients@, id));
                }
                clients.push(client);
                let room = Room { name: params.room_name.clone(), clients };
                proof {
                    lemma_rooms_view_push(old_rooms, room);
                }
                self.rooms.push(room);
                admission
            },
        };
        self.next_id = id + 1;
        proof {
            assert(self@ =~= joined(rooms_view(old_rooms), name, admission.client));
            assert forall|i: int| 0 <= i < self.rooms@.len() implies {
                &&& (#[trigger] self.rooms@[i]).clients.wf()
                &&& self.rooms@[i].clients@.len() > 0
                &&& forall|k: int| 0 <= k < self.rooms@[i].clients@.len() ==> #[trigger] self.rooms@[i].clients@[k].id < self.next_id
            } by {
                if i < old_rooms.len() && self.rooms@[i] != old_rooms[i] {
                    assert forall|k: int| 0 <= k < self.rooms@[i].clients@.len() implies #[trigger] self.rooms@[i].clients@[k].id < self.next_id by {
                        if k < old_rooms[i].clients@.len() {
                            assert(self.rooms@[i].clients@[k] == old_rooms[i].clients@[k]);
                        }
                    }
                } else if i < old_rooms.len() {
                    assert forall|k: int| 0 <= k < self.rooms@[i].clients@.len() implies #[trigger] self.rooms@[i].clients@[k].id < self.next_id by {
                        assert(old_rooms[i].clients@[k].id < id);
                    }
                }
            }
        }
        Ok(admission)
    }

    /// Removes the member `id` from the room `name`. A room left empty is
    /// removed; otherwise the remaining members are told of the departure.
    /// Where there is no such room nothing happens.
    pub fn leave(&mut self, name: &String, id: u32) -> (r: Result<Option<Outgoing>, ClientError>)
        requires
            old(self).wf(),
        ensures
            final(self).wf(),
            final(self).spec_next_id() == old(self).spec_next_id(),
            !old(self)@.contains_key(name@) ==> (r matches Ok(None) && final(self)@ == old(self)@),
            old(self)@.contains_key(name@) && !has_id(old(self)@[name@], id) ==>
                r == Err::<Option<Outgoing>, ClientError>(ClientError::NotFound) && final(self)@ == old(self)@,
            old(self)@.contains_key(name@) && has_id(old(self)@[name@], id) ==>
                final(self)@ == left(old(self)@, name@, id),
            old(self)@.contains_key(name@) && has_id(old(self)@[name@], id) ==> {
                let after = members_of(final(self)@, name@);
                let before = old(self)@[name@];
                &&& after.len() == before.len() - 1
                &&& !has_id(after, id)
                &&& after.to_multiset() == before.to_multiset().remove(before[position(before, id)])
            },
            old(self)@.contains_key(name@) && has_id(old(self)@[name@], id)
                && without(old(self)@[name@], id).len() == 0 ==> r matches Ok(None),
            old(self)@.contains_key(name@) && has_id(old(self)@[name@], id)
                && without(old(self)@[name@], id).len() > 0 ==> (r matches Ok(Some(o))
                && o.message == (ServerMessage::ClientDisconnect { id })
                && o.recipients@ == recipients(without(old(self)@[name@], id), id)),
    {
        let ghost old_rooms = self.rooms@;
        proof {
            self.lemma_wf_view();
            if self@.contains_key(name@) && has_id(self@[name@], id) {
                lemma_without(self@[name@], id);
                assert(members_of(left(self@, name@, id), name@) =~= without(self@[name@], id));
            }
        }
        let i = match self.find_room(name) {
            Some(i) => i,
            None => return Ok(None),
        };
        proof {
            lemma_rooms_view_at(old_rooms, i as int);
        }
        let room = &mut self.rooms[i];
        let removed = room.clients.remove(id);
        if removed.is_err() {
            proof {
                assert(self.rooms@ =~= old_rooms);
            }
            return Err(ClientError::NotFound);
        }
        let ghost rest = self.rooms@[i as int].clients@;
        proof {
            assert(self.rooms@ == old_rooms.update(i as int, self.rooms@[i as int]));
            lemma_rooms_view_update(old_rooms, i as int, self.rooms@[i as int]);
            let members = old_rooms[i as int].clients@;
            assert forall|k: int| 0 <= k < rest.len() implies #[trigger] rest[k].id < self.next_id by {
                let p = position(members, id);
                if k == p {
                    assert(rest[k] == members[members.len() - 1]);
                } else {
                    assert(rest[k] == members[k]);
                }
            }
        }
        if self.rooms[i].clients.len() == 0 {
            let ghost mid = self.rooms@;
            self.rooms.swap_remove(i);
            proof {
                lemma_rooms_view_swap_remove(mid, i as int);
                assert(rooms_view(mid).remove(name@) =~= rooms_view(old_rooms).remove(name@));
                self.lemma_wf_after_swap_remove(mid, i as int);
            }
            Ok(None)
        } else {
            let out = self.rooms[i].clients.send_to_all(ServerMessage::ClientDisconnect { id }, id);
            proof {
                assert forall|j: int| 0 <= j < self.rooms@.len() implies {
                    &&& (#[trigger] self.rooms@[j]).clients.wf()
                    &&& self.rooms@[j].clients@.len() > 0
                    &&& forall|k: int| 0 <= k < self.rooms@[j].clients@.len() ==> #[trigger] self.rooms@[j].clients@[k].id < self.next_id
                } by {
                    if j != i {
                        assert(self.rooms@[j] == old_rooms[j]);
                    }
                }
            }
            Ok(Some(out))
        }
    }

    proof fn lemma_wf_after_swap_remove(&self, mid: Seq<Room>, i: int)
        requires
            0 <= i < mid.len(),
            self.rooms@ == mid.update(i, mid.last()).drop_last(),
            forall|j: int| 0 <= j < mid.len() && j != i ==> {
                &&& (#[trigger] mid[j]).clients.wf()
                &&& mid[j].clients@.len() > 0
                &&& forall|k: int| 0 <= k < mid[j].clients@.len() ==> #[trigger] mid[j].clients@[k].id < self.next_id
            },
            unique_names(self.rooms@),
            ids_apart(mid),
        ensures
            self.wf(),
    {
        lemma_ids_apart_swap_remove(mid, i);
        let n = mid.len() - 1;
        assert forall|j: int| 0 <= j < self.rooms@.len() implies {
            &&& (#[trigger] self.rooms@[j]).clients.wf()
            &&& self.rooms@[j].clients@.len() > 0
            &&& forall|k: int| 0 <= k < self.rooms@[j].clients@.len() ==> #[trigger] self.rooms@[j].clients@[k].id < self.next_id
        } by {
            if j == i {
                assert(self.rooms@[j] == mid[n]);
            } else {
                assert(self.rooms@[j] == mid[j]);
            }
        }
    }

    /// Handles a message that the member `id` of the room `name` sent: an
    /// instrument change is recorded on its record first, then the message is
    /// relayed, stamped with `id`, to every other member.
    pub fn relay(&mut self, name: &String, id: u32, msg: ClientMessage) -> (r: Result<Outgoing, ClientError>)
        requires
            old(self).wf(),
        ensures
            final(self).wf(),
            final(self).spec_next_id() == old(self).spec_next_id(),
            r is Ok <==> old(self)@.contains_key(name@) && has_id(old(self)@[name@], id),
            r is Err ==> r == Err::<Outgoing, ClientError>(ClientError::NotFound) && final(self)@ == old(self)@,
            r matches Ok(o) ==> {
                let members = after_message(old(self)@[name@], id, msg);
                &&& final(self)@ == old(self)@.insert(name@, members)
                &&& o.message == (ServerMessage::Relay { msg, id })
                &&& o.recipients@ == recipients(members, id)
            },
    {
        let ghost old_rooms = self.rooms@;
        let i = match self.find_room(name) {
            Some(i) => i,
            None => return Err(ClientError::NotFound),
        };
        proof {
            lemma_rooms_view_at(old_rooms, i as int);
        }
        let found = self.rooms[i].clients.get_index(id);
        if found.is_err() {
            return Err(ClientError::NotFound);
        }
        if let ClientMessage::InstrumentChange { instrument_name } = &msg {
            let room = &mut self.rooms[i];
            let _ = room.clients.set_instrument_name(id, instrument_name.clone());
        }
        proof {
            assert(self.rooms@ == old_rooms.update(i as int, self.rooms@[i as int]));
            lemma_rooms_view_update(old_rooms, i as int, self.rooms@[i as int]);
            assert(self.rooms@[i as int].clients@ == after_message(old_rooms[i as int].clients@, id, msg));
            let members = old_rooms[i as int].clients@;
            let now = self.rooms@[i as int].clients@;
            assert forall|k: int| 0 <= k < now.len() implies #[trigger] now[k].id < self.next_id by {
                assert(now[k].id == members[k].id);
            }
            assert forall|j: int| 0 <= j < self.rooms@.len() implies {
                &&& (#[trigger] self.rooms@[j]).clients.wf()
                &&& self.rooms@[j].clients@.len() > 0
                &&& forall|k: int| 0 <= k < self.rooms@[j].clients@.len() ==> #[trigger] self.rooms@[j].clients@[k].id < self.next_id
            } by {
                if j != i {
                    assert(self.rooms@[j] == old_rooms[j]);
                }
            }
        }
        let out = self.rooms[i].clients.send_to_all(ServerMessage::Relay { msg, id }, id);
        Ok(out)
    }

    /// Number of members of the room `name`; 0 where there is none.
    pub fn room_len(&self, name: &String) -> (r: usize)
        requires
            self.wf(),
        ensures
            r == members_of(self@, name@).len(),
    {
        match self.find_room(name) {
            Some(i) => {
                proof { lemma_rooms_view_at(self.rooms@, i as int); }
                self.rooms[i].clients.len()
            },
            None => 0,
        }
    }

    /// True when a room named `name` exists.
    pub fn has_room(&self, name: &String) -> (r: bool)
        requires
            self.wf(),
        ensures
            r == self@.contains_key(name@),
    {
        self.find_room(name).is_some()
    }
}

impl QueryParams {
    /// Decides whether these parameters may join: the room name is at most
    /// 100 characters long and the room, if it exists, is not full.
    pub fn check(&self, state: &GlobalState) -> (r: Result<(), JoinError>)
        requires
            state.wf(),
        ensures
            r == (match join_error(state@, self.room_name@) {
                Some(e) => Err(e),
                None => Ok(()),
            }),
    {
        if self.room_name.as_str().unicode_len() > MAX_ROOM_NAME_LEN {
            return Err(JoinError::InvalidRoomName);
        }
        if state.room_len(&self.room_name) >= ROOM_CAPACITY {
            return Err(JoinError::RoomFull);
        }
        Ok(())
    }
}

} // verus!
