//! The state of one player, and states on the wire.
//!
//! A state travels as its identifier and its two coordinates, each a 32-bit
//! integer. A list of states travels as its length, as a 64-bit integer, and
//! the states one after another.

use crate::bytes::{
    get_count, get_le, le_bytes, le_value, lemma_le_bytes_len, lemma_le_bytes_of_value,
    lemma_le_value_bound, lemma_le_value_of_bytes, lemma_radix_values, parse_count, put_le,
};
use crate::error::DecodeError;
use crate::ident::{
    get_id, id_wire, lemma_id_exact, lemma_id_round_trip, lemma_id_wire_len, parse_id, put_id,
};
use vstd::prelude::*;

verus! {

/// A point of the plane.
///
/// Each coordinate is held as the bit pattern of an IEEE 754 single-precision
/// number, which is what travels on the wire.
#[derive(Debug, Clone, Copy, PartialEq, Eq, Structural)]
pub struct Position {
    /// The bit pattern of the horizontal coordinate.
    pub x: u32,
    /// The bit pattern of the vertical coordinate.
    pub y: u32,
}

/// Where one connected player stands.
///
/// Each coordinate is held as the bit pattern of an IEEE 754 single-precision
/// number. Two states are equal when their identifiers and their bit patterns
/// are.
#[derive(Debug, Clone, Copy, PartialEq, Eq, Structural)]
pub struct PlayerState {
    /// The player's identifier, chosen by the client.
    pub uuid: u128,
    /// The bit pattern of the horizontal coordinate.
    pub x: u32,
    /// The bit pattern of the vertical coordinate.
    pub y: u32,
}

/// The bytes of one state on the wire.
pub open spec fn player_wire(p: PlayerState) -> Seq<u8> {
    id_wire(p.uuid) + le_bytes(p.x as nat, 4) + le_bytes(p.y as nat, 4)
}

/// The state that a byte string holds, or the reason for which it holds none.
pub open spec fn parse_player(b: Seq<u8>) -> Result<PlayerState, DecodeError> {
    if b.len() < 32 {
        Err(DecodeError::Truncated)
    } else if b.len() > 32 {
        Err(DecodeError::TrailingBytes)
    } else {
        match parse_id(b.subrange(0, 24)) {
            Err(e) => Err(e),
            Ok(uuid) => Ok(
                PlayerState {
                    uuid,
                    x: le_value(b.subrange(24, 28)) as u32,
                    y: le_value(b.subrange(28, 32)) as u32,
                },
            ),
        }
    }
}

/// A state on the wire has 32 bytes.
pub proof fn lemma_player_wire_len(p: PlayerState)
    ensures
        player_wire(p).len() == 32,
{
    lemma_id_wire_len(p.uuid);
    lemma_le_bytes_len(p.x as nat, 4);
    lemma_le_bytes_len(p.y as nat, 4);
}

/// Decoding the bytes of a state gives the state.
pub proof fn lemma_player_round_trip(p: PlayerState)
    ensures
        parse_player(player_wire(p)) == Ok::<PlayerState, DecodeError>(p),
{
    let b = player_wire(p);
    lemma_le_bytes_len(p.x as nat, 4);
    lemma_le_bytes_len(p.y as nat, 4);
    lemma_radix_values();
    lemma_id_round_trip(p.uuid);
    lemma_le_value_of_bytes(p.x as nat, 4);
    lemma_le_value_of_bytes(p.y as nat, 4);
    assert(b.subrange(0, 24) =~= id_wire(p.uuid));
    assert(b.subrange(24, 28) =~= le_bytes(p.x as nat, 4));
    assert(b.subrange(28, 32) =~= le_bytes(p.y as nat, 4));
}

/// Only the bytes of a state decode to it.
pub proof fn lemma_player_exact(b: Seq<u8>)
    requires
        parse_player(b) is Ok,
    ensures
        player_wire(parse_player(b)->Ok_0) == b,
{
    lemma_radix_values();
    lemma_id_exact(b.subrange(0, 24));
    lemma_le_value_bound(b.subrange(24, 28));
    lemma_le_value_bound(b.subrange(28, 32));
    lemma_le_bytes_of_value(b.subrange(24, 28));
    lemma_le_bytes_of_value(b.subrange(28, 32));
}

/// Appends the bytes of one state.
pub(crate) fn put_player(out: &mut Vec<u8>, p: &PlayerState)
    ensures
        final(out)@ == old(out)@ + player_wire(*p),
{
    put_id(out, p.uuid);
    put_le(out, p.x as u128, 4);
    put_le(out, p.y as u128, 4);
}

/// Reads the state that the 32 bytes from `at` on hold.
pub(crate) fn get_player(bytes: &[u8], at: usize) -> (r: Result<PlayerState, DecodeError>)
    requires
        at + 32 <= bytes.len(),
    ensures
        r == parse_player(bytes@.subrange(at as int, at + 32)),
{
    let ghost window = bytes@.subrange(at as int, at + 32);
    proof {
        assert(window.subrange(0, 24) =~= bytes@.subrange(at as int, at + 24));
        assert(window.subrange(24, 28) =~= bytes@.subrange(at + 24, at + 28));
        assert(window.subrange(28, 32) =~= bytes@.subrange(at + 28, at + 32));
    }
    match get_id(bytes, at) {
        Err(e) => Err(e),
        Ok(uuid) => {
            let x = get_le(bytes, at + 24, 4) as u32;
            let y = get_le(bytes, at + 28, 4) as u32;
            Ok(PlayerState { uuid, x, y })
        },
    }
}

impl PlayerState {
    /// The state of the player `uuid` who stands at `pos`.
    pub fn new(uuid: u128, pos: Position) -> (state: Self)
        ensures
            state == (PlayerState { uuid, x: pos.x, y: pos.y }),
    {
        PlayerState { uuid, x: pos.x, y: pos.y }
    }

    /// The bytes of this state.
    pub fn encode(&self) -> (out: Vec<u8>)
        ensures
            out@ == player_wire(*self),
    {
        let mut out: Vec<u8> = Vec::new();
        put_player(&mut out, self);
        out
    }

    /// The state that `bytes` holds.
    ///
    /// Decoding succeeds on the bytes of a state and on no others.
    pub fn decode(bytes: &[u8]) -> (r: Result<PlayerState, DecodeError>)
        ensures
            r == parse_player(bytes@),
            r matches Ok(p) ==> bytes@ == player_wire(p),
    {
        if bytes.len() < 32 {
            Err(DecodeError::Truncated)
        } else if bytes.len() > 32 {
            Err(DecodeError::TrailingBytes)
        } else {
            proof {
                assert(bytes@.subrange(0, 32) =~= bytes@);
                if parse_player(bytes@) is Ok {
                    lemma_player_exact(bytes@);
                }
            }
            get_player(bytes, 0)
        }
    }
}

/// The bytes of states one after another.
pub open spec fn players_body(players: Seq<PlayerState>) -> Seq<u8>
    decreases players.len(),
{
    if players.len() == 0 {
        Seq::empty()
    } else {
        players_body(players.drop_last()) + player_wire(players.last())
    }
}

/// The bytes of a list of states on the wire.
pub open spec fn players_wire(players: Seq<PlayerState>) -> Seq<u8> {
    le_bytes(players.len(), 8) + players_body(players)
}

/// The bytes of the `i`-th of the states that follow a count.
pub open spec fn player_record(b: Seq<u8>, i: int) -> Seq<u8> {
    b.subrange(8 + 32 * i, 40 + 32 * i)
}

/// The list of states that a byte string holds, or the reason for which it
/// holds none.
pub open spec fn parse_players(b: Seq<u8>) -> Result<Seq<PlayerState>, DecodeError> {
    match parse_count(b, 32) {
        Err(e) => Err(e),
        Ok(n) => if exists|i: int|
            0 <= i < n && parse_player(#[trigger] player_record(b, i)) is Err {
            Err(DecodeError::BadIdLength)
        } else {
            Ok(Seq::new(n, |i: int| parse_player(player_record(b, i))->Ok_0))
        },
    }
}

/// Where each state stands in the bytes of a list.
pub proof fn lemma_players_body(players: Seq<PlayerState>)
    ensures
        players_body(players).len() == 32 * players.len(),
        forall|i: int|
            0 <= i < players.len() ==> #[trigger] players_body(players).subrange(
                32 * i,
                32 + 32 * i,
            ) == player_wire(players[i]),
    decreases players.len(),
{
    if players.len() > 0 {
        let front = players.drop_last();
        lemma_players_body(front);
        lemma_player_wire_len(players.last());
        assert forall|i: int| 0 <= i < players.len() implies #[trigger] players_body(
            players,
        ).subrange(32 * i, 32 + 32 * i) == player_wire(players[i]) by {
            if i < front.len() {
                assert(players_body(players).subrange(32 * i, 32 + 32 * i) =~= players_body(
                    front,
                ).subrange(32 * i, 32 + 32 * i));
            }
        }
    }
}

/// Decoding the bytes of a list of states gives the list.
pub proof fn lemma_players_round_trip(players: Seq<PlayerState>)
    requires
        players.len() <= u64::MAX,
    ensures
        parse_players(players_wire(players)) == Ok::<Seq<PlayerState>, DecodeError>(players),
{
    let b = players_wire(players);
    lemma_radix_values();
    lemma_le_bytes_len(players.len(), 8);
    lemma_le_value_of_bytes(players.len(), 8);
    lemma_players_body(players);
    assert(b.subrange(0, 8) =~= le_bytes(players.len(), 8));
    assert forall|i: int| 0 <= i < players.len() implies parse_player(
        #[trigger] player_record(b, i),
    ) == Ok::<PlayerState, DecodeError>(players[i]) by {
        assert(player_record(b, i) =~= players_body(players).subrange(32 * i, 32 + 32 * i));
        lemma_player_round_trip(players[i]);
    }
    assert(parse_players(b)->Ok_0 =~= players);
}

/// The states before the `k`-th spell the bytes before the `k`-th record.
proof fn lemma_players_body_of_records(b: Seq<u8>, players: Seq<PlayerState>, k: int)
    requires
        0 <= k <= players.len(),
        b.len() >= 8 + 32 * players.len(),
        forall|i: int|
            0 <= i < players.len() ==> parse_player(#[trigger] player_record(b, i)) == Ok::<
                PlayerState,
                DecodeError,
            >(players[i]),
    ensures
        players_body(players.take(k)) == b.subrange(8, 8 + 32 * k),
    decreases k,
{
    if k > 0 {
        lemma_players_body_of_records(b, players, k - 1);
        lemma_player_exact(player_record(b, k - 1));
        assert(players.take(k).drop_last() =~= players.take(k - 1));
    }
}

/// Only the bytes of a list of states decode to it.
pub proof fn lemma_players_exact(b: Seq<u8>)
    requires
        parse_players(b) is Ok,
    ensures
        players_wire(parse_players(b)->Ok_0) == b,
{
    let players = parse_players(b)->Ok_0;
    lemma_le_bytes_of_value(b.subrange(0, 8));
    lemma_players_body_of_records(b, players, players.len() as int);
    assert(players.take(players.len() as int) =~= players);
}

/// The bytes of a list of states.
pub fn encode_players(players: &[PlayerState]) -> (out: Vec<u8>)
    ensures
        out@ == players_wire(players@),
{
    let mut out: Vec<u8> = Vec::new();
    put_le(&mut out, players.len() as u128, 8);
    let mut i: usize = 0;
    while i < players.len()
        invariant
            i <= players.len(),
            out@ == le_bytes(players@.len(), 8) + players_body(players@.take(i as int)),
        decreases players.len() - i,
    {
        put_player(&mut out, &players[i]);
        proof {
            assert(players@.take(i + 1).drop_last() =~= players@.take(i as int));
        }
        i = i + 1;
    }
    assert(players@.take(i as int) =~= players@);
    out
}

/// The list of states that `bytes` holds.
///
/// Decoding succeeds on the bytes of a list of states and on no others.
pub fn decode_players(bytes: &[u8]) -> (r: Result<Vec<PlayerState>, DecodeError>)
    ensures
        match r {
            Ok(players) => parse_players(bytes@) == Ok::<Seq<PlayerState>, DecodeError>(players@)
                && bytes@ == players_wire(players@),
            Err(e) => parse_players(bytes@) == Err::<Seq<PlayerState>, DecodeError>(e),
        },
{
    let n = match get_count(bytes, 32) {
        Ok(n) => n,
        Err(e) => {
            return Err(e);
        },
    };
    let mut players: Vec<PlayerState> = Vec::new();
    let mut i: usize = 0;
    while i < n
        invariant
            i <= n,
            bytes.len() == 8 + 32 * n,
            parse_count(bytes@, 32) == Ok::<nat, DecodeError>(n as nat),
            players@.len() == i,
            forall|k: int|
                0 <= k < i ==> parse_player(#[trigger] player_record(bytes@, k)) == Ok::<
                    PlayerState,
                    DecodeError,
                >(players@[k]),
        decreases n - i,
    {
        match get_player(bytes, 8 + 32 * i) {
            Ok(p) => {
                players.push(p);
            },
            Err(e) => {
                assert(parse_player(player_record(bytes@, i as int)) is Err);
                return Err(e);
            },
        }
        i = i + 1;
    }
    proof {
        assert(parse_players(bytes@)->Ok_0 =~= players@);
        lemma_players_exact(bytes@);
    }
    Ok(players)
}

} // verus!
