use piano_backend::client::{ClientError, ClientList};
use piano_backend::message::{ClientData, ClientMessage, Outgoing, ServerMessage};
use piano_backend::rooms::{GlobalState, JoinError, QueryParams};
use piano_backend::websocket::{ConnectionState, FrameAction, InboundFrame, WebsocketConnection};

fn params(room: &str, instrument: &str) -> QueryParams {
    QueryParams {
        room_name: room.to_string(),
        instrument_name: instrument.to_string(),
    }
}

fn record(id: u32, hue: u16, instrument: &str) -> ClientData {
    ClientData {
        color_hue: hue,
        id,
        instrument_name: instrument.to_string(),
    }
}

fn connect(state: &mut GlobalState, room: &str, instrument: &str) -> (WebsocketConnection, ClientData, Outgoing, Outgoing) {
    let mut conn = WebsocketConnection::new(params(room, instrument));
    let admission = conn.on_connect(state).expect("admitted");
    (conn, admission.client, admission.info, admission.announcement)
}

#[test]
fn two_clients_in_jam_hear_each_other() {
    let mut state = GlobalState::new();
    let (mut a, a_rec, a_info, a_announce) = connect(&mut state, "jam", "piano");
    assert_eq!(a_rec.instrument_name, "piano");
    assert_eq!(a_info.recipients, vec![a_rec.id]);
    assert_eq!(
        a_info.message,
        ServerMessage::ReceiveInfo { client_list: vec![], created_client: a_rec.clone() }
    );
    assert!(a_announce.recipients.is_empty());

    let (_b, b_rec, b_info, b_announce) = connect(&mut state, "jam", "drums");
    assert_ne!(a_rec.id, b_rec.id);
    assert_eq!(b_info.recipients, vec![b_rec.id]);
    assert_eq!(
        b_info.message,
        ServerMessage::ReceiveInfo { client_list: vec![a_rec.clone()], created_client: b_rec.clone() }
    );
    assert_eq!(b_announce.message, ServerMessage::ClientConnect(b_rec.clone()));
    assert_eq!(b_announce.recipients, vec![a_rec.id]);

    let play = ClientMessage::Play { note: "C4".to_string(), volume_bits: 0.8f32.to_bits() };
    let out = a.handle_websocket_message(&mut state, play.clone()).expect("relayed");
    assert_eq!(out.message, ServerMessage::Relay { msg: play, id: a_rec.id });
    assert_eq!(out.recipients, vec![b_rec.id]);
    assert!(!out.recipients.contains(&a_rec.id));
}

#[test]
fn first_leaver_is_announced_and_room_stays() {
    let mut state = GlobalState::new();
    let (mut a, a_rec, _, _) = connect(&mut state, "jam", "piano");
    let (_b, b_rec, _, _) = connect(&mut state, "jam", "drums");
    let out = a.on_disconnect(&mut state).expect("left").expect("announced");
    assert_eq!(out.message, ServerMessage::ClientDisconnect { id: a_rec.id });
    assert_eq!(out.recipients, vec![b_rec.id]);
    assert_eq!(a.state(), ConnectionState::Closed);
    assert!(state.has_room(&"jam".to_string()));
    assert_eq!(state.room_len(&"jam".to_string()), 1);
}

#[test]
fn last_leaver_removes_room() {
    let mut state = GlobalState::new();
    let (mut a, _, _, _) = connect(&mut state, "jam", "piano");
    let (mut b, _, _, _) = connect(&mut state, "jam", "drums");
    assert!(a.on_disconnect(&mut state).expect("left").is_some());
    assert!(b.on_disconnect(&mut state).expect("left").is_none());
    assert!(!state.has_room(&"jam".to_string()));
    assert_eq!(state.room_len(&"jam".to_string()), 0);
}

#[test]
fn rejoin_after_empty_room_finds_fresh_roster() {
    let mut state = GlobalState::new();
    let (mut a, _, _, _) = connect(&mut state, "jam", "piano");
    a.on_disconnect(&mut state).expect("left");
    assert!(!state.has_room(&"jam".to_string()));
    let (_c, c_rec, c_info, c_announce) = connect(&mut state, "jam", "violin");
    assert_eq!(
        c_info.message,
        ServerMessage::ReceiveInfo { client_list: vec![], created_client: c_rec }
    );
    assert!(c_announce.recipients.is_empty());
    assert_eq!(state.room_len(&"jam".to_string()), 1);
}

#[test]
fn long_room_name_is_rejected() {
    let mut state = GlobalState::new();
    let name = "x".repeat(101);
    let mut conn = WebsocketConnection::new(params(&name, "piano"));
    let r = conn.on_connect(&mut state);
    assert_eq!(r.err(), Some(JoinError::InvalidRoomName));
    assert_eq!(conn.state(), ConnectionState::Closed);
    assert!(!state.has_room(&name));
    assert!(conn.on_disconnect(&mut state).expect("nothing to do").is_none());
}

#[test]
fn room_name_of_100_characters_is_accepted() {
    let mut state = GlobalState::new();
    let ascii = "y".repeat(100);
    let wide = "é".repeat(100);
    assert!(params(&ascii, "piano").check(&state).is_ok());
    assert!(params(&wide, "piano").check(&state).is_ok());
    connect(&mut state, &wide, "piano");
    assert!(state.has_room(&wide));
    assert_eq!(params(&"é".repeat(101), "piano").check(&state), Err(JoinError::InvalidRoomName));
}

#[test]
fn room_over_capacity_refuses_join() {
    let mut state = GlobalState::new();
    let room = "band".to_string();
    let mut members = Vec::new();
    for _ in 0..25 {
        let (conn, rec, _, _) = connect(&mut state, "band", "piano");
        members.push((conn, rec));
    }
    assert_eq!(state.room_len(&room), 25);
    let mut late = WebsocketConnection::new(params("band", "piano"));
    assert_eq!(late.on_connect(&mut state).err(), Some(JoinError::RoomFull));
    assert_eq!(late.state(), ConnectionState::Closed);
    assert!(late.on_disconnect(&mut state).expect("nothing to do").is_none());
    assert_eq!(state.room_len(&room), 25);
    let (first, first_rec) = &mut members[0];
    let stop = ClientMessage::Stop { note: "E2".to_string(), sustain: false };
    let out = first.handle_websocket_message(&mut state, stop).expect("still relaying");
    assert_eq!(out.recipients.len(), 24);
    assert!(!out.recipients.contains(&first_rec.id));
}

#[test]
fn room_of_24_admits_the_25th() {
    let mut state = GlobalState::new();
    for _ in 0..24 {
        connect(&mut state, "band", "piano");
    }
    assert_eq!(params("band", "piano").check(&state), Ok(()));
    connect(&mut state, "band", "piano");
    assert_eq!(params("band", "piano").check(&state), Err(JoinError::RoomFull));
}

#[test]
fn place_freed_in_full_room_admits_again() {
    let mut state = GlobalState::new();
    let mut members = Vec::new();
    for _ in 0..25 {
        let (conn, _, _, _) = connect(&mut state, "band", "piano");
        members.push(conn);
    }
    assert_eq!(params("band", "piano").check(&state), Err(JoinError::RoomFull));
    members[3].on_disconnect(&mut state).expect("left");
    assert_eq!(params("band", "piano").check(&state), Ok(()));
    connect(&mut state, "band", "drums");
    assert_eq!(state.room_len(&"band".to_string()), 25);
}

#[test]
fn member_count_follows_joins_and_leaves() {
    let mut state = GlobalState::new();
    let room = "jam".to_string();
    let (mut a, _, _, _) = connect(&mut state, "jam", "piano");
    assert_eq!(state.room_len(&room), 1);
    let (mut b, _, _, _) = connect(&mut state, "jam", "drums");
    let (mut c, _, _, _) = connect(&mut state, "jam", "bass");
    assert_eq!(state.room_len(&room), 3);
    b.on_disconnect(&mut state).expect("left");
    assert_eq!(state.room_len(&room), 2);
    b.on_disconnect(&mut state).expect("closed already");
    assert_eq!(state.room_len(&room), 2);
    let (_d, _, _, _) = connect(&mut state, "jam", "flute");
    assert_eq!(state.room_len(&room), 3);
    a.on_disconnect(&mut state).expect("left");
    c.on_disconnect(&mut state).expect("left");
    assert_eq!(state.room_len(&room), 1);
}

#[test]
fn rooms_are_independent() {
    let mut state = GlobalState::new();
    let (mut a, a_rec, _, _) = connect(&mut state, "one", "piano");
    let (_b, _, _, b_announce) = connect(&mut state, "two", "drums");
    assert!(b_announce.recipients.is_empty());
    let stop = ClientMessage::Stop { note: "A0".to_string(), sustain: true };
    let out = a.handle_websocket_message(&mut state, stop.clone()).expect("relayed");
    assert_eq!(out.message, ServerMessage::Relay { msg: stop, id: a_rec.id });
    assert!(out.recipients.is_empty());
}

#[test]
fn ids_increase_and_hues_stay_in_range() {
    let mut state = GlobalState::new();
    let mut last = None;
    for i in 0..20 {
        let room = format!("room{}", i % 3);
        let (_, rec, _, _) = connect(&mut state, &room, "piano");
        assert!(rec.color_hue < 360);
        if let Some(prev) = last {
            assert_eq!(rec.id, prev + 1);
        }
        last = Some(rec.id);
    }
    assert_eq!(last, Some(19));
}

#[test]
fn refused_join_keeps_id_counter() {
    let mut state = GlobalState::new();
    let mut bad = WebsocketConnection::new(params(&"z".repeat(150), "piano"));
    assert!(bad.on_connect(&mut state).is_err());
    let (_, rec, _, _) = connect(&mut state, "jam", "piano");
    assert_eq!(rec.id, 0);
}

#[test]
fn instrument_change_is_recorded_and_relayed() {
    let mut state = GlobalState::new();
    let (mut a, a_rec, _, _) = connect(&mut state, "jam", "piano");
    let (_b, b_rec, _, _) = connect(&mut state, "jam", "drums");
    let change = ClientMessage::InstrumentChange { instrument_name: "organ".to_string() };
    let out = a.handle_websocket_message(&mut state, change.clone()).expect("relayed");
    assert_eq!(out.message, ServerMessage::Relay { msg: change, id: a_rec.id });
    assert_eq!(out.recipients, vec![b_rec.id]);
    let (_c, c_rec, c_info, _) = connect(&mut state, "jam", "");
    assert_eq!(
        c_info.message,
        ServerMessage::ReceiveInfo {
            client_list: vec![record(a_rec.id, a_rec.color_hue, "organ"), b_rec],
            created_client: c_rec,
        }
    );
}

#[test]
fn message_before_admission_is_not_relayed() {
    let mut state = GlobalState::new();
    let mut conn = WebsocketConnection::new(params("jam", "piano"));
    assert_eq!(conn.state(), ConnectionState::Connecting);
    let msg = ClientMessage::Stop { note: "".to_string(), sustain: false };
    assert_eq!(conn.handle_websocket_message(&mut state, msg).err(), Some(ClientError::NotFound));
}

#[test]
fn leave_of_unknown_member_or_room() {
    let mut state = GlobalState::new();
    let room = "jam".to_string();
    assert!(state.leave(&room, 3).expect("no room").is_none());
    let (_a, a_rec, _, _) = connect(&mut state, "jam", "piano");
    assert_eq!(state.leave(&room, a_rec.id + 1).err(), Some(ClientError::NotFound));
    assert_eq!(state.room_len(&room), 1);
    assert_eq!(
        state.relay(&room, a_rec.id + 1, ClientMessage::Stop { note: "C".to_string(), sustain: false }).err(),
        Some(ClientError::NotFound)
    );
}

#[test]
fn join_with_given_hue() {
    let mut state = GlobalState::new();
    let a = state.join(&params("jam", "piano"), 0).expect("admitted");
    let b = state.join(&params("jam", "harp"), 359).expect("admitted");
    assert_eq!(a.client, record(0, 0, "piano"));
    assert_eq!(b.client, record(1, 359, "harp"));
    assert_eq!(b.announcement.message, ServerMessage::ClientConnect(record(1, 359, "harp")));
    assert_eq!(b.announcement.recipients, vec![0]);
}

#[test]
fn join_error_messages() {
    assert_eq!(JoinError::InvalidRoomName.message(), "Room name to long!");
    assert_eq!(JoinError::RoomFull.message(), "Room already has over 25 people");
    assert_eq!(JoinError::IdsExhausted.message(), "No client ids left");
}

#[test]
fn broadcast_skips_only_the_sender() {
    let mut list = ClientList::new();
    list.push(record(4, 10, "a"));
    list.push(record(7, 20, "b"));
    list.push(record(9, 30, "c"));
    let out = list.send_to_all(ServerMessage::ClientDisconnect { id: 7 }, 7);
    assert_eq!(out.recipients, vec![4, 9]);
    assert_eq!(out.message, ServerMessage::ClientDisconnect { id: 7 });
    let all = list.send_to_all(ServerMessage::ClientDisconnect { id: 1 }, 1);
    assert_eq!(all.recipients, vec![4, 7, 9]);
}

#[test]
fn roster_remove_moves_last_into_place() {
    let mut list = ClientList::new();
    list.push(record(1, 0, "a"));
    list.push(record(2, 0, "b"));
    list.push(record(3, 0, "c"));
    assert_eq!(list.get_index(2), Ok(1));
    assert_eq!(list.remove(1), Ok(()));
    assert_eq!(list.get().iter().map(|c| c.id).collect::<Vec<_>>(), vec![3, 2]);
    assert_eq!(list.remove(1), Err(ClientError::NotFound));
    assert_eq!(list.get_index(1), Err(ClientError::NotFound));
    assert_eq!(list.len(), 2);
    assert_eq!(list.snapshot(), vec![record(3, 0, "c"), record(2, 0, "b")]);
    assert_eq!(list.set_instrument_name(2, "z".to_string()), Ok(()));
    assert_eq!(list.get()[1].instrument_name, "z");
    assert_eq!(list.set_instrument_name(8, "z".to_string()), Err(ClientError::NotFound));
}

#[test]
fn record_duplicate_is_equal() {
    let r = record(5, 200, "");
    assert_eq!(r.duplicate(), r);
}

#[test]
fn empty_and_malformed_frames_keep_connection() {
    let mut state = GlobalState::new();
    let (mut a, a_rec, _, _) = connect(&mut state, "jam", "piano");
    let (_b, b_rec, _, _) = connect(&mut state, "jam", "drums");
    assert!(matches!(a.on_frame(&mut state, InboundFrame::Empty), FrameAction::Ignore));
    assert!(matches!(a.on_frame(&mut state, InboundFrame::Malformed), FrameAction::ReportMalformed));
    assert_eq!(a.state(), ConnectionState::Relaying { id: a_rec.id });
    let play = ClientMessage::Play { note: "".to_string(), volume_bits: 0f32.to_bits() };
    match a.on_frame(&mut state, InboundFrame::Message(play.clone())) {
        FrameAction::Deliver(out) => {
            assert_eq!(out.message, ServerMessage::Relay { msg: play, id: a_rec.id });
            assert_eq!(out.recipients, vec![b_rec.id]);
        }
        other => panic!("unexpected {:?}", other),
    }
}

#[test]
fn frame_after_losing_room_closes() {
    let mut state = GlobalState::new();
    let (mut a, a_rec, _, _) = connect(&mut state, "jam", "piano");
    state.leave(&"jam".to_string(), a_rec.id).expect("left");
    let stop = ClientMessage::Stop { note: "C4".to_string(), sustain: false };
    assert!(matches!(a.on_frame(&mut state, InboundFrame::Message(stop)), FrameAction::Close(ClientError::NotFound)));
    assert!(a.on_disconnect(&mut state).expect("room gone").is_none());
}
