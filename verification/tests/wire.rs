use udp_game_server::{
    decode_ids, decode_players, encode_ids, encode_players, DecodeError, Packet, PlayerState,
    Position,
};

const ID: u128 = 0x0102_0304_0506_0708_090a_0b0c_0d0e_0f10;

fn id_bytes() -> Vec<u8> {
    vec![16, 0, 0, 0, 0, 0, 0, 0, 1, 2, 3, 4, 5, 6, 7, 8, 9, 10, 11, 12, 13, 14, 15, 16]
}

fn tagged(tag: u8, body: &[u8]) -> Vec<u8> {
    let mut out = vec![tag, 0, 0, 0];
    out.extend_from_slice(body);
    out
}

fn sample_player() -> PlayerState {
    PlayerState { uuid: ID, x: 3.0f32.to_bits(), y: 4.0f32.to_bits() }
}

fn sample_player_bytes() -> Vec<u8> {
    let mut out = id_bytes();
    out.extend_from_slice(&[0x00, 0x00, 0x40, 0x40]);
    out.extend_from_slice(&[0x00, 0x00, 0x80, 0x40]);
    out
}

#[test]
fn new_takes_identifier_and_position() {
    let state = PlayerState::new(ID, Position { x: 1.5f32.to_bits(), y: (-2.0f32).to_bits() });
    assert_eq!(state.uuid, ID);
    assert_eq!(f32::from_bits(state.x), 1.5);
    assert_eq!(f32::from_bits(state.y), -2.0);
    assert_eq!(state, PlayerState { uuid: ID, x: 0x3fc0_0000, y: 0xc000_0000 });
}

#[test]
fn connect_bytes_are_tag_length_and_identifier() {
    assert_eq!(Packet::Connect(ID).encode(), tagged(0, &id_bytes()));
}

#[test]
fn disconnect_bytes_are_tag_length_and_identifier() {
    assert_eq!(Packet::Disconnect(ID).encode(), tagged(1, &id_bytes()));
}

#[test]
fn message_bytes_are_tag_length_and_text() {
    let bytes = Packet::Message("hé".to_string()).encode();
    assert_eq!(bytes, vec![2, 0, 0, 0, 3, 0, 0, 0, 0, 0, 0, 0, b'h', 0xc3, 0xa9]);
}

#[test]
fn empty_message_bytes_hold_a_zero_length() {
    let bytes = Packet::Message(String::new()).encode();
    assert_eq!(bytes, vec![2, 0, 0, 0, 0, 0, 0, 0, 0, 0, 0, 0]);
    assert_eq!(Packet::decode(&bytes), Ok(Packet::Message(String::new())));
}

#[test]
fn player_bytes_are_tag_identifier_and_coordinates() {
    assert_eq!(Packet::Player(sample_player()).encode(), tagged(3, &sample_player_bytes()));
}

#[test]
fn list_bytes_are_the_tag_alone() {
    assert_eq!(Packet::List().encode(), vec![4, 0, 0, 0]);
}

#[test]
fn every_message_round_trips() {
    let messages = vec![
        Packet::Connect(ID),
        Packet::Connect(0),
        Packet::Connect(u128::MAX),
        Packet::Disconnect(ID),
        Packet::Message("hello, world".to_string()),
        Packet::Message("日本語 and ünïcödé 🎮".to_string()),
        Packet::Player(sample_player()),
        Packet::Player(PlayerState { uuid: 1, x: f32::NAN.to_bits(), y: u32::MAX }),
        Packet::List(),
    ];
    for message in messages {
        assert_eq!(Packet::decode(&message.encode()), Ok(message));
    }
}

#[test]
fn single_state_round_trips() {
    let state = sample_player();
    assert_eq!(state.encode(), sample_player_bytes());
    assert_eq!(PlayerState::decode(&state.encode()), Ok(state));
}

#[test]
fn state_list_round_trips() {
    let states = vec![
        sample_player(),
        PlayerState { uuid: 2, x: 0, y: 0 },
        PlayerState { uuid: u128::MAX, x: 1, y: 2 },
    ];
    let bytes = encode_players(&states);
    assert_eq!(bytes.len(), 8 + 3 * 32);
    assert_eq!(&bytes[..8], &[3, 0, 0, 0, 0, 0, 0, 0]);
    assert_eq!(&bytes[8..40], &sample_player_bytes()[..]);
    assert_eq!(decode_players(&bytes), Ok(states));
}

#[test]
fn empty_lists_are_a_zero_count() {
    assert_eq!(encode_players(&[]), vec![0; 8]);
    assert_eq!(encode_ids(&[]), vec![0; 8]);
    assert_eq!(decode_players(&[0; 8]), Ok(vec![]));
    assert_eq!(decode_ids(&[0; 8]), Ok(vec![]));
}

#[test]
fn identifier_list_round_trips() {
    let ids = vec![ID, 0, u128::MAX, 42];
    let bytes = encode_ids(&ids);
    assert_eq!(bytes.len(), 8 + 4 * 24);
    assert_eq!(&bytes[..8], &[4, 0, 0, 0, 0, 0, 0, 0]);
    assert_eq!(&bytes[8..32], &id_bytes()[..]);
    assert_eq!(decode_ids(&bytes), Ok(ids));
}

#[test]
fn short_input_is_truncated() {
    assert_eq!(Packet::decode(&[]), Err(DecodeError::Truncated));
    assert_eq!(Packet::decode(&[0, 0, 0]), Err(DecodeError::Truncated));
    let connect = Packet::Connect(ID).encode();
    for cut in 0..connect.len() {
        assert_eq!(Packet::decode(&connect[..cut]), Err(DecodeError::Truncated));
    }
    let player = Packet::Player(sample_player()).encode();
    for cut in 0..player.len() {
        assert_eq!(Packet::decode(&player[..cut]), Err(DecodeError::Truncated));
    }
    let message = Packet::Message("hello".to_string()).encode();
    for cut in 0..message.len() {
        assert_eq!(Packet::decode(&message[..cut]), Err(DecodeError::Truncated));
    }
}

#[test]
fn unknown_tag_is_rejected() {
    assert_eq!(Packet::decode(&[5, 0, 0, 0]), Err(DecodeError::UnknownTag));
    assert_eq!(Packet::decode(&[0, 1, 0, 0]), Err(DecodeError::UnknownTag));
    assert_eq!(Packet::decode(&[0xff; 40]), Err(DecodeError::UnknownTag));
}

#[test]
fn trailing_bytes_are_rejected() {
    let messages = vec![
        Packet::Connect(ID),
        Packet::Disconnect(ID),
        Packet::Message("hello".to_string()),
        Packet::Player(sample_player()),
        Packet::List(),
    ];
    for message in messages {
        let mut bytes = message.encode();
        bytes.push(0);
        assert_eq!(Packet::decode(&bytes), Err(DecodeError::TrailingBytes));
    }
}

#[test]
fn identifier_of_another_length_is_rejected() {
    let mut bytes = Packet::Connect(ID).encode();
    bytes[4] = 15;
    assert_eq!(Packet::decode(&bytes), Err(DecodeError::BadIdLength));
    let mut bytes = Packet::Player(sample_player()).encode();
    bytes[11] = 1;
    assert_eq!(Packet::decode(&bytes), Err(DecodeError::BadIdLength));
}

#[test]
fn text_that_is_not_utf8_is_rejected() {
    let bytes = vec![2, 0, 0, 0, 2, 0, 0, 0, 0, 0, 0, 0, 0xc3, 0x28];
    assert_eq!(Packet::decode(&bytes), Err(DecodeError::InvalidText));
    let bytes = vec![2, 0, 0, 0, 1, 0, 0, 0, 0, 0, 0, 0, 0xff];
    assert_eq!(Packet::decode(&bytes), Err(DecodeError::InvalidText));
}

#[test]
fn text_is_decoded_from_its_bytes() {
    let bytes = vec![2, 0, 0, 0, 4, 0, 0, 0, 0, 0, 0, 0, 0xf0, 0x9f, 0x8e, 0xae];
    assert_eq!(Packet::decode(&bytes), Ok(Packet::Message("🎮".to_string())));
}

#[test]
fn text_length_beyond_the_input_is_truncated() {
    let bytes = vec![2, 0, 0, 0, 0xff, 0xff, 0xff, 0xff, 0xff, 0xff, 0xff, 0xff, b'a'];
    assert_eq!(Packet::decode(&bytes), Err(DecodeError::Truncated));
}

#[test]
fn malformed_single_state_is_rejected() {
    let bytes = sample_player_bytes();
    assert_eq!(PlayerState::decode(&bytes[..31]), Err(DecodeError::Truncated));
    let mut longer = bytes.clone();
    longer.push(7);
    assert_eq!(PlayerState::decode(&longer), Err(DecodeError::TrailingBytes));
    let mut bad = bytes.clone();
    bad[0] = 17;
    assert_eq!(PlayerState::decode(&bad), Err(DecodeError::BadIdLength));
}

#[test]
fn malformed_lists_are_rejected() {
    let states = encode_players(&[sample_player(), sample_player()]);
    assert_eq!(decode_players(&states[..7]), Err(DecodeError::Truncated));
    assert_eq!(decode_players(&states[..states.len() - 1]), Err(DecodeError::Truncated));
    let mut longer = states.clone();
    longer.push(0);
    assert_eq!(decode_players(&longer), Err(DecodeError::TrailingBytes));
    let mut bad = states.clone();
    bad[8 + 32] = 0;
    assert_eq!(decode_players(&bad), Err(DecodeError::BadIdLength));

    let ids = encode_ids(&[ID, 2]);
    assert_eq!(decode_ids(&ids[..3]), Err(DecodeError::Truncated));
    assert_eq!(decode_ids(&ids[..ids.len() - 24]), Err(DecodeError::Truncated));
    let mut longer = ids.clone();
    longer.extend_from_slice(&id_bytes());
    assert_eq!(decode_ids(&longer), Err(DecodeError::TrailingBytes));
    let mut bad = ids.clone();
    bad[8] = 0;
    assert_eq!(decode_ids(&bad), Err(DecodeError::BadIdLength));
}

#[test]
fn huge_count_is_truncated() {
    let mut bytes = vec![0xff; 8];
    bytes.extend_from_slice(&sample_player_bytes());
    assert_eq!(decode_players(&bytes), Err(DecodeError::Truncated));
    assert_eq!(decode_ids(&bytes), Err(DecodeError::Truncated));
}
