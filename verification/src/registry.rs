//! The registry of connected players.
//!
//! The registry holds one state for each connected player. As a mathematical
//! value it is a map from identifiers to states, in which every state stands
//! under its own identifier.

use crate::player::{PlayerState, Position};
use std::collections::HashMap;
use vstd::prelude::*;
use vstd::std_specs::hash::{group_hash_axioms, spec_hash_map_iter, spec_keys_iter};
use vstd::std_specs::iter::IteratorSpec;

verus! {

broadcast use group_hash_axioms;

/// Whether every entry of a registry stands under its own identifier.
pub open spec fn keyed_by_id(reg: Map<u128, PlayerState>) -> bool {
    forall|id: u128| #[trigger] reg.contains_key(id) ==> reg[id].uuid == id
}

/// The identifiers of a sequence of states, in its order.
pub open spec fn ids_of(players: Seq<PlayerState>) -> Seq<u128> {
    Seq::new(players.len(), |i: int| players[i].uuid)
}

/// Whether `ids` names each player of the registry once, and nothing else.
pub open spec fn lists_ids(reg: Map<u128, PlayerState>, ids: Seq<u128>) -> bool {
    &&& ids.no_duplicates()
    &&& forall|id: u128| ids.contains(id) <==> reg.contains_key(id)
}

/// Whether `players` holds the state of each player of the registry once, and
/// nothing else.
pub open spec fn lists_players(reg: Map<u128, PlayerState>, players: Seq<PlayerState>) -> bool {
    &&& lists_ids(reg, ids_of(players))
    &&& forall|i: int| 0 <= i < players.len() ==> reg[players[i].uuid] == #[trigger] players[i]
}

/// Whether `players` holds `state`, and no other state of the same player.
pub open spec fn holds_once(players: Seq<PlayerState>, state: PlayerState) -> bool {
    exists|i: int|
        0 <= i < players.len() && #[trigger] players[i] == state && forall|j: int|
            0 <= j < players.len() && (#[trigger] players[j]).uuid == state.uuid ==> j == i
}

/// A list of the identifiers of a registry is as long as the registry.
pub proof fn lemma_listing_len(reg: Map<u128, PlayerState>, ids: Seq<u128>)
    requires
        lists_ids(reg, ids),
    ensures
        reg.dom().finite(),
        ids.len() == reg.len(),
{
    ids.unique_seq_to_set();
    assert(ids.to_set() =~= reg.dom());
}

/// A list of the states of a registry holds the state of each of its players
/// once.
pub proof fn lemma_listed_once(reg: Map<u128, PlayerState>, players: Seq<PlayerState>, id: u128)
    requires
        lists_players(reg, players),
        reg.contains_key(id),
    ensures
        holds_once(players, reg[id]),
{
    let ids = ids_of(players);
    assert(ids.contains(id));
    let i = choose|i: int| 0 <= i < ids.len() && ids[i] == id;
    assert forall|j: int| 0 <= j < players.len() && (#[trigger] players[j]).uuid == reg[id].uuid
        implies j == i by {
        assert(ids[j] == ids[i]);
    }
}

/// The registry: one state for each connected player, found by the player's
/// identifier.
pub struct State {
    players: HashMap<u128, Position>,
}

impl View for State {
    type V = Map<u128, PlayerState>;

    closed spec fn view(&self) -> Map<u128, PlayerState> {
        Map::new(
            |id: u128| self.players@.contains_key(id),
            |id: u128| PlayerState { uuid: id, x: self.players@[id].x, y: self.players@[id].y },
        )
    }
}

impl State {
    /// A registry holds finitely many players, each under its own identifier.
    pub proof fn lemma_well_formed(&self)
        ensures
            keyed_by_id(self@),
            self@.dom().finite(),
    {
        assert(self@.dom() =~= self.players@.dom());
    }

    /// The registry with no player.
    pub fn new() -> (state: State)
        ensures
            state@ == Map::<u128, PlayerState>::empty(),
    {
        State { players: HashMap::new() }
    }

    /// The number of players.
    pub fn len(&self) -> (n: usize)
        ensures
            n == self@.len(),
    {
        assert(self@.dom() =~= self.players@.dom());
        self.players.len()
    }

    /// Whether the player `id` is entered.
    pub fn contains(&self, id: u128) -> (found: bool)
        ensures
            found == self@.contains_key(id),
    {
        self.players.contains_key(&id)
    }

    /// The state of the player `id`, if entered.
    pub fn get(&self, id: u128) -> (state: Option<PlayerState>)
        ensures
            state == if self@.contains_key(id) {
                Some(self@[id])
            } else {
                None
            },
    {
        match self.players.get(&id) {
            Some(pos) => Some(PlayerState { uuid: id, x: pos.x, y: pos.y }),
            None => None,
        }
    }

    /// The states of all players, in no particular order.
    pub fn players(&self) -> (out: Vec<PlayerState>)
        ensures
            lists_players(self@, out@),
    {
        let mut out: Vec<PlayerState> = Vec::new();
        let ghost entries = spec_hash_map_iter(&self.players).remaining();
        for entry in it: self.players.iter()
            invariant
                it.seq() == entries,
                entries.no_duplicates(),
                out@.len() == it.index(),
                forall|i: int|
                    0 <= i < out@.len() ==> out@[i] == (PlayerState {
                        uuid: *entries[i].0,
                        x: entries[i].1.x,
                        y: entries[i].1.y,
                    }),
        {
            let (id, pos) = entry;
            out.push(PlayerState { uuid: *id, x: pos.x, y: pos.y });
        }
        proof {
            let ids = ids_of(out@);
            assert forall|i: int, j: int| 0 <= i < j < ids.len() implies ids[i] != ids[j] by {
                if ids[i] == ids[j] {
                    assert(self.players@[*entries[j].0] == *entries[j].1);
                }
            }
            assert forall|id: u128| self@.contains_key(id) implies ids.contains(id) by {
                let entry = (&id, &self.players@[id]);
                let i = choose|i: int| 0 <= i < entries.len() && entries[i] == entry;
                assert(ids[i] == id);
            }
        }
        out
    }

    /// The identifiers of all players, in no particular order.
    pub fn ids(&self) -> (out: Vec<u128>)
        ensures
            lists_ids(self@, out@),
    {
        let mut out: Vec<u128> = Vec::new();
        let ghost keys = spec_keys_iter(&self.players).remaining();
        for id in it: self.players.keys()
            invariant
                it.seq() == keys,
                out@.len() == it.index(),
                forall|i: int| 0 <= i < out@.len() ==> out@[i] == *keys[i],
        {
            out.push(*id);
        }
        assert(out@ =~= keys.unref());
        out
    }

    /// Enters the player `id` at the origin, unless `id` is entered already.
    pub fn connect(&mut self, id: u128)
        ensures
            final(self)@ == if old(self)@.contains_key(id) {
                old(self)@
            } else {
                old(self)@.insert(id, PlayerState { uuid: id, x: 0, y: 0 })
            },
    {
        if !self.players.contains_key(&id) {
            self.players.insert(id, Position { x: 0, y: 0 });
        }
    }

    /// Removes the player `id`, if entered.
    pub fn disconnect(&mut self, id: u128)
        ensures
            final(self)@ == old(self)@.remove(id),
    {
        self.players.remove(&id);
    }

    /// Enters `player` under its identifier, in place of the state that
    /// stood there, if any.
    pub fn update(&mut self, player: PlayerState)
        ensures
            final(self)@ == old(self)@.insert(player.uuid, player),
    {
        self.players.insert(player.uuid, Position { x: player.x, y: player.y });
    }
}

} // verus!
