use udp_game_server::{
    decode_ids, decode_players, handle_datagram, handle_packet, DecodeError, Packet, PlayerState,
    State,
};

const A: u128 = 0xa1a2_a3a4_b1b2_c1c2_d1d2_d3d4_d5d6_d7d8;
const B: u128 = 7;

fn at(uuid: u128, x: f32, y: f32) -> PlayerState {
    PlayerState { uuid, x: x.to_bits(), y: y.to_bits() }
}

fn listed(state: &mut State) -> Vec<u128> {
    let reply = handle_packet(Packet::List(), state).expect("a list request is answered");
    let mut ids = decode_ids(&reply).expect("the reply is a list of identifiers");
    ids.sort();
    ids
}

#[test]
fn new_registry_is_empty() {
    let mut state = State::new();
    assert_eq!(state.len(), 0);
    assert!(!state.contains(A));
    assert_eq!(state.get(A), None);
    assert_eq!(state.players(), vec![]);
    assert_eq!(state.ids(), vec![]);
    assert_eq!(listed(&mut state), vec![]);
}

#[test]
fn connect_enters_the_player_at_the_origin() {
    let mut state = State::new();
    assert_eq!(handle_packet(Packet::Connect(A), &mut state), None);
    assert_eq!(state.len(), 1);
    assert!(state.contains(A));
    assert_eq!(state.get(A), Some(at(A, 0.0, 0.0)));
    assert_eq!(state.get(A), Some(PlayerState { uuid: A, x: 0, y: 0 }));
}

#[test]
fn connect_twice_yields_one_entry() {
    let mut state = State::new();
    assert_eq!(handle_packet(Packet::Connect(A), &mut state), None);
    assert_eq!(handle_packet(Packet::Connect(A), &mut state), None);
    assert_eq!(state.len(), 1);
    assert_eq!(state.get(A), Some(at(A, 0.0, 0.0)));
    assert_eq!(listed(&mut state), vec![A]);
    assert_eq!(state.players(), vec![at(A, 0.0, 0.0)]);
}

#[test]
fn connect_keeps_the_position_of_a_connected_player() {
    let mut state = State::new();
    handle_packet(Packet::Player(at(A, 3.0, 4.0)), &mut state);
    assert_eq!(handle_packet(Packet::Connect(A), &mut state), None);
    assert_eq!(state.len(), 1);
    assert_eq!(state.get(A), Some(at(A, 3.0, 4.0)));
}

#[test]
fn disconnect_removes_the_player_from_later_lists() {
    let mut state = State::new();
    handle_packet(Packet::Connect(A), &mut state);
    handle_packet(Packet::Connect(B), &mut state);
    assert_eq!(listed(&mut state), vec![B, A]);
    assert_eq!(handle_packet(Packet::Disconnect(A), &mut state), None);
    assert_eq!(listed(&mut state), vec![B]);
    handle_packet(Packet::Message("anyone here?".to_string()), &mut state);
    handle_packet(Packet::Player(at(B, 1.0, 1.0)), &mut state);
    assert_eq!(listed(&mut state), vec![B]);
    assert!(!state.contains(A));
}

#[test]
fn last_report_wins() {
    let mut state = State::new();
    let first = handle_packet(Packet::Player(at(A, 1.0, 1.0)), &mut state);
    assert_eq!(decode_players(&first.unwrap()), Ok(vec![at(A, 1.0, 1.0)]));
    let second = handle_packet(Packet::Player(at(A, 2.0, 2.0)), &mut state);
    assert_eq!(state.get(A), Some(at(A, 2.0, 2.0)));
    assert_eq!(state.len(), 1);
    assert_eq!(decode_players(&second.unwrap()), Ok(vec![at(A, 2.0, 2.0)]));
}

#[test]
fn disconnect_of_an_unknown_player_changes_nothing() {
    let mut state = State::new();
    handle_packet(Packet::Player(at(B, 5.0, 6.0)), &mut state);
    assert_eq!(handle_packet(Packet::Disconnect(A), &mut state), None);
    assert_eq!(state.len(), 1);
    assert_eq!(state.get(B), Some(at(B, 5.0, 6.0)));
    assert_eq!(listed(&mut state), vec![B]);

    let mut empty = State::new();
    assert_eq!(handle_packet(Packet::Disconnect(A), &mut empty), None);
    assert_eq!(empty.len(), 0);
}

#[test]
fn message_changes_nothing_and_gets_no_reply() {
    let mut state = State::new();
    handle_packet(Packet::Connect(A), &mut state);
    assert_eq!(handle_packet(Packet::Message("hello".to_string()), &mut state), None);
    assert_eq!(state.len(), 1);
    assert_eq!(state.get(A), Some(at(A, 0.0, 0.0)));
}

#[test]
fn report_of_an_unknown_player_enters_the_player() {
    let mut state = State::new();
    let reply = handle_packet(Packet::Player(at(A, -1.5, 2.5)), &mut state);
    assert_eq!(state.get(A), Some(at(A, -1.5, 2.5)));
    assert_eq!(decode_players(&reply.unwrap()), Ok(vec![at(A, -1.5, 2.5)]));
}

#[test]
fn report_is_answered_with_every_state() {
    let mut state = State::new();
    handle_packet(Packet::Connect(A), &mut state);
    handle_packet(Packet::Player(at(B, 9.0, 8.0)), &mut state);
    let reply = handle_packet(Packet::Player(at(A, 1.0, 2.0)), &mut state).unwrap();
    let mut players = decode_players(&reply).unwrap();
    players.sort_by_key(|p| p.uuid);
    assert_eq!(players, vec![at(B, 9.0, 8.0), at(A, 1.0, 2.0)]);
    let mut direct = state.players();
    direct.sort_by_key(|p| p.uuid);
    assert_eq!(direct, players);
}

#[test]
fn list_request_changes_nothing() {
    let mut state = State::new();
    handle_packet(Packet::Player(at(A, 1.0, 2.0)), &mut state);
    assert_eq!(listed(&mut state), vec![A]);
    assert_eq!(state.len(), 1);
    assert_eq!(state.get(A), Some(at(A, 1.0, 2.0)));
    let mut ids = state.ids();
    ids.sort();
    assert_eq!(ids, vec![A]);
}

#[test]
fn connect_report_and_list_scenario() {
    let mut state = State::new();
    let connect = Packet::Connect(A).encode();
    assert_eq!(handle_datagram(&connect, &mut state), Ok(None));

    let report = Packet::Player(at(A, 3.0, 4.0)).encode();
    let reply = handle_datagram(&report, &mut state).unwrap().expect("a report is answered");
    assert_eq!(decode_players(&reply), Ok(vec![PlayerState { uuid: A, x: 0x4040_0000, y: 0x4080_0000 }]));
    let decoded = decode_players(&reply).unwrap();
    assert_eq!(f32::from_bits(decoded[0].x), 3.0);
    assert_eq!(f32::from_bits(decoded[0].y), 4.0);

    let request = Packet::List().encode();
    let reply = handle_datagram(&request, &mut state).unwrap().expect("a request is answered");
    assert_eq!(decode_ids(&reply), Ok(vec![A]));
}

#[test]
fn malformed_datagram_is_dropped() {
    let mut state = State::new();
    handle_packet(Packet::Player(at(A, 3.0, 4.0)), &mut state);
    handle_packet(Packet::Connect(B), &mut state);

    let whole = Packet::Player(at(B, 1.0, 1.0)).encode();
    let truncated = &whole[..whole.len() - 1];
    assert_eq!(handle_datagram(truncated, &mut state), Err(DecodeError::Truncated));
    assert_eq!(handle_datagram(&[9, 0, 0, 0], &mut state), Err(DecodeError::UnknownTag));
    assert_eq!(handle_datagram(&[], &mut state), Err(DecodeError::Truncated));
    let mut longer = Packet::Disconnect(A).encode();
    longer.push(0);
    assert_eq!(handle_datagram(&longer, &mut state), Err(DecodeError::TrailingBytes));

    assert_eq!(state.len(), 2);
    assert_eq!(state.get(A), Some(at(A, 3.0, 4.0)));
    assert_eq!(state.get(B), Some(at(B, 0.0, 0.0)));

    assert_eq!(handle_datagram(&whole, &mut state).map(|reply| reply.is_some()), Ok(true));
    assert_eq!(state.get(B), Some(at(B, 1.0, 1.0)));
}

#[test]
fn many_players_are_each_listed_once() {
    let mut state = State::new();
    for id in 0..200u128 {
        handle_packet(Packet::Connect(id * 1_000_003), &mut state);
    }
    for id in 0..200u128 {
        if id % 3 == 0 {
            handle_packet(Packet::Disconnect(id * 1_000_003), &mut state);
        }
    }
    let expected: Vec<u128> =
        (0..200u128).filter(|id| id % 3 != 0).map(|id| id * 1_000_003).collect();
    assert_eq!(state.len(), expected.len());
    assert_eq!(listed(&mut state), expected);
    let reply = handle_packet(Packet::Player(at(1_000_003, 1.0, 1.0)), &mut state).unwrap();
    let mut players = decode_players(&reply).unwrap();
    players.sort_by_key(|p| p.uuid);
    let ids: Vec<u128> = players.iter().map(|p| p.uuid).collect();
    assert_eq!(ids, expected);
}

#[test]
fn registry_methods_enter_replace_and_remove() {
    let mut state = State::new();
    state.connect(A);
    assert_eq!(state.get(A), Some(at(A, 0.0, 0.0)));
    state.update(at(A, 7.0, 8.0));
    state.connect(A);
    assert_eq!(state.get(A), Some(at(A, 7.0, 8.0)));
    state.update(at(B, 1.0, 2.0));
    assert_eq!(state.len(), 2);
    let mut ids = state.ids();
    ids.sort();
    assert_eq!(ids, vec![B, A]);
    state.disconnect(A);
    state.disconnect(A);
    assert_eq!(state.len(), 1);
    assert_eq!(state.players(), vec![at(B, 1.0, 2.0)]);
}
