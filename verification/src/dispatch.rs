//! The dispatcher: what each message does to the registry, and what is
//! answered.

use crate::error::DecodeError;
use crate::ident::{encode_ids, ids_wire, lemma_ids_exact, lemma_ids_round_trip, parse_ids};
use crate::packet::{parse_packet, Packet, PacketView};
use crate::player::{
    encode_players, lemma_players_exact, lemma_players_round_trip, parse_players, players_wire,
    PlayerState,
};
use crate::registry::{holds_once, lemma_listed_once, lists_ids, lists_players, State};
use vstd::prelude::*;

verus! {

/// The registry after the message `p`.
pub open spec fn apply(reg: Map<u128, PlayerState>, p: PacketView) -> Map<u128, PlayerState> {
    match p {
        PacketView::Connect(id) => if reg.contains_key(id) {
            reg
        } else {
            reg.insert(id, PlayerState { uuid: id, x: 0, y: 0 })
        },
        PacketView::Disconnect(id) => reg.remove(id),
        PacketView::Message(_) => reg,
        PacketView::Player(state) => reg.insert(state.uuid, state),
        PacketView::List => reg,
    }
}

/// The registry after the messages `packets`, the first of them applied
/// first.
pub open spec fn run(reg: Map<u128, PlayerState>, packets: Seq<PacketView>) -> Map<
    u128,
    PlayerState,
>
    decreases packets.len(),
{
    if packets.len() == 0 {
        reg
    } else {
        apply(run(reg, packets.drop_last()), packets.last())
    }
}

/// Whether the message `p` enters the player `id`.
pub open spec fn enters(p: PacketView, id: u128) -> bool {
    match p {
        PacketView::Connect(other) => other == id,
        PacketView::Player(state) => state.uuid == id,
        _ => false,
    }
}

/// Whether `reply` answers the message `p`, where `reg` is the registry after
/// `p`: a position report is answered with the states of all players, a list
/// request with their identifiers, each in some order, and any other message
/// with nothing.
pub open spec fn answers(reg: Map<u128, PlayerState>, p: PacketView, reply: Option<Seq<u8>>) -> bool {
    match p {
        PacketView::Player(_) => reply matches Some(bytes) && (parse_players(bytes) matches Ok(
            players,
        ) && lists_players(reg, players)),
        PacketView::List => reply matches Some(bytes) && (parse_ids(bytes) matches Ok(ids)
            && lists_ids(reg, ids)),
        _ => reply is None,
    }
}

/// The bytes of a reply, if there is one.
pub open spec fn reply_bytes(reply: Option<Vec<u8>>) -> Option<Seq<u8>> {
    match reply {
        Some(bytes) => Some(bytes@),
        None => None,
    }
}

/// Applies one message to the registry and gives the reply that is owed to
/// its sender, if any.
pub fn handle_packet(packet: Packet, state: &mut State) -> (reply: Option<Vec<u8>>)
    ensures
        final(state)@ == apply(old(state)@, packet@),
        answers(final(state)@, packet@, reply_bytes(reply)),
{
    match packet {
        Packet::Connect(id) => {
            state.connect(id);
            None
        },
        Packet::Disconnect(id) => {
            state.disconnect(id);
            None
        },
        Packet::Message(_) => None,
        Packet::Player(player) => {
            state.update(player);
            let players = state.players();
            proof {
                assert(players@.len() == players.len() <= usize::MAX);
                lemma_players_round_trip(players@);
            }
            Some(encode_players(players.as_slice()))
        },
        Packet::List() => {
            let ids = state.ids();
            proof {
                assert(ids@.len() == ids.len() <= usize::MAX);
                lemma_ids_round_trip(ids@);
            }
            Some(encode_ids(ids.as_slice()))
        },
    }
}

/// Handles one datagram: decodes it, applies the message and gives the reply
/// that is owed to the sender, if any. A datagram that holds no message is
/// dropped: the registry stays as it is and nothing is owed.
pub fn handle_datagram(datagram: &[u8], state: &mut State) -> (r: Result<
    Option<Vec<u8>>,
    DecodeError,
>)
    ensures
        match parse_packet(datagram@) {
            Ok(p) => r matches Ok(reply) && final(state)@ == apply(old(state)@, p) && answers(
                final(state)@,
                p,
                reply_bytes(reply),
            ),
            Err(e) => r matches Err(f) && f == e && final(state)@ == old(state)@,
        },
{
    match Packet::decode(datagram) {
        Ok(packet) => Ok(handle_packet(packet, state)),
        Err(e) => Err(e),
    }
}

/// A reply is the encoding of what it decodes to.
pub proof fn lemma_reply_exact(reg: Map<u128, PlayerState>, p: PacketView, bytes: Seq<u8>)
    requires
        answers(reg, p, Some(bytes)),
    ensures
        p matches PacketView::Player(_) ==> bytes == players_wire(parse_players(bytes)->Ok_0),
        p is List ==> bytes == ids_wire(parse_ids(bytes)->Ok_0),
{
    match p {
        PacketView::Player(_) => {
            lemma_players_exact(bytes);
        },
        PacketView::List => {
            lemma_ids_exact(bytes);
        },
        _ => {},
    }
}

/// A player who is not entered stays so while no message enters the player.
pub proof fn lemma_stays_absent(reg: Map<u128, PlayerState>, id: u128, later: Seq<PacketView>)
    requires
        !reg.contains_key(id),
        forall|i: int| 0 <= i < later.len() ==> !enters(#[trigger] later[i], id),
    ensures
        !run(reg, later).contains_key(id),
    decreases later.len(),
{
    if later.len() > 0 {
        lemma_stays_absent(reg, id, later.drop_last());
    }
}

/// A second `Connect` of the same player changes nothing, and a connected
/// player keeps the state that the registry held; every list of the states
/// then holds that one state of the player, once.
pub proof fn lemma_connect_twice(reg: Map<u128, PlayerState>, id: u128)
    ensures
        ({
            let once = apply(reg, PacketView::Connect(id));
            let twice = apply(once, PacketView::Connect(id));
            &&& twice == once
            &&& once.contains_key(id)
            &&& once[id] == if reg.contains_key(id) {
                reg[id]
            } else {
                PlayerState { uuid: id, x: 0, y: 0 }
            }
            &&& forall|players: Seq<PlayerState>| #[trigger]
                lists_players(twice, players) ==> holds_once(players, once[id])
        }),
{
    let once = apply(reg, PacketView::Connect(id));
    assert forall|players: Seq<PlayerState>| #[trigger]
        lists_players(once, players) implies holds_once(players, once[id]) by {
        lemma_listed_once(once, players, id);
    }
}

/// After `Disconnect(id)` no reply to a list request names `id`, whatever
/// messages came between, as long as none of them entered `id` again.
pub proof fn lemma_disconnected_not_listed(
    reg: Map<u128, PlayerState>,
    id: u128,
    later: Seq<PacketView>,
    reply: Option<Seq<u8>>,
)
    requires
        forall|i: int| 0 <= i < later.len() ==> !enters(#[trigger] later[i], id),
        answers(run(apply(reg, PacketView::Disconnect(id)), later), PacketView::List, reply),
    ensures
        reply matches Some(bytes) && (parse_ids(bytes) matches Ok(ids) && !ids.contains(id)),
{
    lemma_stays_absent(apply(reg, PacketView::Disconnect(id)), id, later);
}

/// Of two position reports of one player the second stands in the registry,
/// and the reply to it holds that state of the player, once.
pub proof fn lemma_last_report_wins(
    reg: Map<u128, PlayerState>,
    first: PlayerState,
    second: PlayerState,
    reply: Option<Seq<u8>>,
)
    requires
        first.uuid == second.uuid,
        answers(
            apply(apply(reg, PacketView::Player(first)), PacketView::Player(second)),
            PacketView::Player(second),
            reply,
        ),
    ensures
        ({
            let after = apply(apply(reg, PacketView::Player(first)), PacketView::Player(second));
            &&& after == apply(reg, PacketView::Player(second))
            &&& after.contains_key(second.uuid) && after[second.uuid] == second
            &&& reply matches Some(bytes) && (parse_players(bytes) matches Ok(players)
                && holds_once(players, second))
        }),
{
    let after = apply(apply(reg, PacketView::Player(first)), PacketView::Player(second));
    lemma_listed_once(after, parse_players(reply->Some_0)->Ok_0, second.uuid);
}

/// A `Disconnect` of a player who is not entered leaves the registry as it
/// is, and is answered with nothing.
pub proof fn lemma_disconnect_unknown(
    reg: Map<u128, PlayerState>,
    id: u128,
    reply: Option<Seq<u8>>,
)
    requires
        !reg.contains_key(id),
        answers(apply(reg, PacketView::Disconnect(id)), PacketView::Disconnect(id), reply),
    ensures
        apply(reg, PacketView::Disconnect(id)) == reg,
        reply is None,
{
}

} // verus!
