//! The message schema of the client/server reconciliation protocol.

use crate::pos::Pos;
use vstd::prelude::*;

verus! {

/// One protocol message, transmitted over the transport as a tagged union.
///
/// * `JoinAsPlayer` — client asks to join or resume as the identified player.
/// * `WelcomePlayer` — server assigns the client its own thing id.
/// * `TileVisible` — full-state tile push, used for join-time snapshots.
/// * `TileUpdate` — incremental tile merge; absent fields mean "no change".
/// * `ThingUpdate` — incremental or full thing merge, keyed by the wire id.
///
/// Player identities travel as the 128-bit value of the client's UUID, and
/// thing handles as their packed 64-bit wire form.
#[derive(PartialEq, Eq, Debug)]
pub enum Message {
    JoinAsPlayer { id: u128, name: String },
    WelcomePlayer { your_entity: u64 },
    TileVisible { pos: Pos, wall: bool },
    TileUpdate { pos: Pos, wall: Option<bool>, visible: Option<bool> },
    ThingUpdate { id: u64, pos: Option<Pos>, classes: Option<String>, visible: Option<bool> },
}

} // verus!
