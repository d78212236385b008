//! The messages of the protocol and their encoding.
//!
//! A message travels as a tag, a 32-bit integer that tells which message it
//! is, and the fields of that message.

use crate::bytes::{
    get_le, le_bytes, le_value, lemma_le_bytes_len, lemma_le_bytes_of_value,
    lemma_le_value_of_bytes, lemma_radix_values, put_le,
};
use crate::error::DecodeError;
use crate::ident::{
    get_id, id_wire, lemma_id_exact, lemma_id_round_trip, lemma_id_wire_len, parse_id, put_id,
};
use crate::player::{
    get_player, lemma_player_exact, lemma_player_round_trip, lemma_player_wire_len, parse_player,
    player_wire, put_player, PlayerState,
};
use crate::text::{
    get_text, lemma_text_exact, lemma_text_round_trip, parse_text, put_text, text_wire,
};
use vstd::prelude::*;
use vstd::utf8::encode_utf8;

verus! {

/// A message that a client sends.
#[derive(Debug, PartialEq, Eq)]
pub enum Packet {
    /// The player with this identifier joins.
    Connect(u128),
    /// The player with this identifier leaves.
    Disconnect(u128),
    /// Free text, which the server only observes.
    Message(String),
    /// A player reports where they stand, and asks where the others do.
    Player(PlayerState),
    /// A request for the identifiers of all connected players.
    List(),
}

/// A message as a mathematical value: a [`Packet`] whose text is a sequence
/// of characters.
pub enum PacketView {
    /// The player with this identifier joins.
    Connect(u128),
    /// The player with this identifier leaves.
    Disconnect(u128),
    /// Free text.
    Message(Seq<char>),
    /// A player reports where they stand.
    Player(PlayerState),
    /// A request for the identifiers of all connected players.
    List,
}

impl View for Packet {
    type V = PacketView;

    open spec fn view(&self) -> PacketView {
        match *self {
            Packet::Connect(id) => PacketView::Connect(id),
            Packet::Disconnect(id) => PacketView::Disconnect(id),
            Packet::Message(text) => PacketView::Message(text@),
            Packet::Player(state) => PacketView::Player(state),
            Packet::List() => PacketView::List,
        }
    }
}

/// The bytes of a message on the wire.
pub open spec fn packet_wire(p: PacketView) -> Seq<u8> {
    match p {
        PacketView::Connect(id) => le_bytes(0, 4) + id_wire(id),
        PacketView::Disconnect(id) => le_bytes(1, 4) + id_wire(id),
        PacketView::Message(text) => le_bytes(2, 4) + text_wire(text),
        PacketView::Player(state) => le_bytes(3, 4) + player_wire(state),
        PacketView::List => le_bytes(4, 4),
    }
}

/// The message that a byte string holds, or the reason for which it holds
/// none.
pub open spec fn parse_packet(b: Seq<u8>) -> Result<PacketView, DecodeError> {
    if b.len() < 4 {
        Err(DecodeError::Truncated)
    } else {
        let tag = le_value(b.subrange(0, 4));
        let body = b.subrange(4, b.len() as int);
        if tag == 0 {
            match parse_id(body) {
                Ok(id) => Ok(PacketView::Connect(id)),
                Err(e) => Err(e),
            }
        } else if tag == 1 {
            match parse_id(body) {
                Ok(id) => Ok(PacketView::Disconnect(id)),
                Err(e) => Err(e),
            }
        } else if tag == 2 {
            match parse_text(body) {
                Ok(text) => Ok(PacketView::Message(text)),
                Err(e) => Err(e),
            }
        } else if tag == 3 {
            match parse_player(body) {
                Ok(state) => Ok(PacketView::Player(state)),
                Err(e) => Err(e),
            }
        } else if tag == 4 {
            if body.len() > 0 {
                Err(DecodeError::TrailingBytes)
            } else {
                Ok(PacketView::List)
            }
        } else {
            Err(DecodeError::UnknownTag)
        }
    }
}

/// Whether a message fits the wire: the length of its text fits 64 bits, as
/// that of every string in memory does.
pub open spec fn sendable(p: PacketView) -> bool {
    p matches PacketView::Message(text) ==> encode_utf8(text).len() <= u64::MAX
}

/// The tag of a message.
pub open spec fn tag_of(p: PacketView) -> nat {
    match p {
        PacketView::Connect(_) => 0,
        PacketView::Disconnect(_) => 1,
        PacketView::Message(_) => 2,
        PacketView::Player(_) => 3,
        PacketView::List => 4,
    }
}

/// Decoding the bytes of a message gives the message.
pub proof fn lemma_packet_round_trip(p: PacketView)
    requires
        sendable(p),
    ensures
        parse_packet(packet_wire(p)) == Ok::<PacketView, DecodeError>(p),
{
    let b = packet_wire(p);
    let tag = tag_of(p);
    lemma_radix_values();
    lemma_le_bytes_len(tag, 4);
    lemma_le_value_of_bytes(tag, 4);
    assert(b.subrange(0, 4) =~= le_bytes(tag, 4));
    match p {
        PacketView::Connect(id) => {
            assert(b.subrange(4, b.len() as int) =~= id_wire(id));
            lemma_id_round_trip(id);
        },
        PacketView::Disconnect(id) => {
            assert(b.subrange(4, b.len() as int) =~= id_wire(id));
            lemma_id_round_trip(id);
        },
        PacketView::Message(text) => {
            assert(b.subrange(4, b.len() as int) =~= text_wire(text));
            lemma_text_round_trip(text);
        },
        PacketView::Player(state) => {
            assert(b.subrange(4, b.len() as int) =~= player_wire(state));
            lemma_player_round_trip(state);
        },
        PacketView::List => {},
    }
}

/// Only the bytes of a message decode to it.
pub proof fn lemma_packet_exact(b: Seq<u8>)
    requires
        parse_packet(b) is Ok,
    ensures
        packet_wire(parse_packet(b)->Ok_0) == b,
{
    let body = b.subrange(4, b.len() as int);
    lemma_le_bytes_of_value(b.subrange(0, 4));
    match parse_packet(b)->Ok_0 {
        PacketView::Connect(_) => {
            lemma_id_exact(body);
        },
        PacketView::Disconnect(_) => {
            lemma_id_exact(body);
        },
        PacketView::Message(_) => {
            lemma_text_exact(body);
        },
        PacketView::Player(_) => {
            lemma_player_exact(body);
        },
        PacketView::List => {},
    }
}

/// The bytes of a message start with its tag.
proof fn lemma_packet_tag(p: PacketView, b: Seq<u8>)
    requires
        b.len() >= 4,
        b.subrange(0, 4) == packet_wire(p).subrange(0, 4),
        packet_wire(p).len() >= 4,
    ensures
        le_value(b.subrange(0, 4)) == tag_of(p),
{
    let tag = tag_of(p);
    lemma_radix_values();
    lemma_le_bytes_len(tag, 4);
    lemma_le_value_of_bytes(tag, 4);
    assert(packet_wire(p).subrange(0, 4) =~= le_bytes(tag, 4));
}

/// The number of bytes of a message on the wire.
pub proof fn lemma_packet_wire_len(p: PacketView)
    ensures
        packet_wire(p).len() == match p {
            PacketView::Connect(_) => 28,
            PacketView::Disconnect(_) => 28,
            PacketView::Message(text) => 12 + encode_utf8(text).len(),
            PacketView::Player(_) => 36,
            PacketView::List => 4,
        },
{
    lemma_le_bytes_len(tag_of(p), 4);
    match p {
        PacketView::Connect(id) => {
            lemma_id_wire_len(id);
        },
        PacketView::Disconnect(id) => {
            lemma_id_wire_len(id);
        },
        PacketView::Message(text) => {
            lemma_le_bytes_len(encode_utf8(text).len(), 8);
        },
        PacketView::Player(state) => {
            lemma_player_wire_len(state);
        },
        PacketView::List => {},
    }
}

/// Bytes that start with a tag above the last message's are rejected for the
/// tag, whatever follows it.
pub proof fn lemma_unknown_tag_rejected(b: Seq<u8>)
    requires
        b.len() >= 4,
        le_value(b.subrange(0, 4)) > 4,
    ensures
        parse_packet(b) == Err::<PacketView, DecodeError>(DecodeError::UnknownTag),
{
}

/// A message that was cut short is rejected as truncated: no proper prefix of
/// the bytes of a message decodes.
pub proof fn lemma_truncated_rejected(p: PacketView, k: int)
    requires
        sendable(p),
        0 <= k < packet_wire(p).len(),
    ensures
        parse_packet(packet_wire(p).take(k)) == Err::<PacketView, DecodeError>(
            DecodeError::Truncated,
        ),
{
    let whole = packet_wire(p);
    let cut = whole.take(k);
    lemma_packet_wire_len(p);
    if k >= 4 {
        assert(cut.subrange(0, 4) =~= whole.subrange(0, 4));
        lemma_packet_tag(p, cut);
        let body = cut.subrange(4, k);
        if let PacketView::Message(text) = p {
            if body.len() >= 8 {
                let raw = encode_utf8(text);
                lemma_radix_values();
                lemma_le_bytes_len(raw.len(), 8);
                lemma_le_value_of_bytes(raw.len(), 8);
                assert(body.subrange(0, 8) =~= le_bytes(raw.len(), 8));
            }
        }
    }
}

/// A message that is followed by more bytes is rejected for them.
pub proof fn lemma_trailing_rejected(p: PacketView, extra: Seq<u8>)
    requires
        sendable(p),
        extra.len() > 0,
    ensures
        parse_packet(packet_wire(p) + extra) == Err::<PacketView, DecodeError>(
            DecodeError::TrailingBytes,
        ),
{
    let whole = packet_wire(p);
    let longer = whole + extra;
    lemma_packet_wire_len(p);
    assert(longer.subrange(0, 4) =~= whole.subrange(0, 4));
    lemma_packet_tag(p, longer);
    let body = longer.subrange(4, longer.len() as int);
    if let PacketView::Message(text) = p {
        let raw = encode_utf8(text);
        lemma_radix_values();
        lemma_le_bytes_len(raw.len(), 8);
        lemma_le_value_of_bytes(raw.len(), 8);
        assert(body.subrange(0, 8) =~= le_bytes(raw.len(), 8));
    }
}

impl Packet {
    /// The bytes of this message, which decode to it.
    pub fn encode(&self) -> (out: Vec<u8>)
        ensures
            out@ == packet_wire(self@),
            sendable(self@),
    {
        let mut out: Vec<u8> = Vec::new();
        match self {
            Packet::Connect(id) => {
                put_le(&mut out, 0, 4);
                put_id(&mut out, *id);
            },
            Packet::Disconnect(id) => {
                put_le(&mut out, 1, 4);
                put_id(&mut out, *id);
            },
            Packet::Message(text) => {
                put_le(&mut out, 2, 4);
                put_text(&mut out, text.as_str());
            },
            Packet::Player(state) => {
                put_le(&mut out, 3, 4);
                put_player(&mut out, state);
            },
            Packet::List() => {
                put_le(&mut out, 4, 4);
            },
        }
        out
    }

    /// The message that `bytes` holds.
    ///
    /// Decoding succeeds on the bytes of a message and on no others.
    pub fn decode(bytes: &[u8]) -> (r: Result<Packet, DecodeError>)
        ensures
            match r {
                Ok(p) => parse_packet(bytes@) == Ok::<PacketView, DecodeError>(p@) && bytes@
                    == packet_wire(p@),
                Err(e) => parse_packet(bytes@) == Err::<PacketView, DecodeError>(e),
            },
    {
        if bytes.len() < 4 {
            return Err(DecodeError::Truncated);
        }
        let tag: u128 = get_le(bytes, 0, 4);
        proof {
            if parse_packet(bytes@) is Ok {
                lemma_packet_exact(bytes@);
            }
        }
        if tag == 0 || tag == 1 {
            if bytes.len() < 28 {
                Err(DecodeError::Truncated)
            } else if bytes.len() > 28 {
                Err(DecodeError::TrailingBytes)
            } else {
                match get_id(bytes, 4) {
                    Ok(id) => if tag == 0 {
                        Ok(Packet::Connect(id))
                    } else {
                        Ok(Packet::Disconnect(id))
                    },
                    Err(e) => Err(e),
                }
            }
        } else if tag == 2 {
            match get_text(bytes, 4) {
                Ok(text) => Ok(Packet::Message(text)),
                Err(e) => Err(e),
            }
        } else if tag == 3 {
            if bytes.len() < 36 {
                Err(DecodeError::Truncated)
            } else if bytes.len() > 36 {
                Err(DecodeError::TrailingBytes)
            } else {
                match get_player(bytes, 4) {
                    Ok(state) => Ok(Packet::Player(state)),
                    Err(e) => Err(e),
                }
            }
        } else if tag == 4 {
            if bytes.len() > 4 {
                Err(DecodeError::TrailingBytes)
            } else {
                Ok(Packet::List())
            }
        } else {
            Err(DecodeError::UnknownTag)
        }
    }
}

} // verus!
