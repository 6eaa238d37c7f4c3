//! The client-side mirror: rebuilding a local copy of the server's world
//! from an unordered stream of partial updates.
//!
//! The mirror applies messages in the order received, so within one frame a
//! later message about the same coordinate or id always wins. Absent fields
//! of an update mean "no change", never "false".

use crate::grid::Grid;
use crate::pos::Pos;
use crate::protocol::Message;
use crate::thing::{apply_thing_update, merged_thing, Thing};
use crate::tile::{apply_tile_update, merged_tile, Tile};
use vstd::prelude::*;

verus! {

/// The client's own identity, and the thing id the server assigned to it
/// (set by `WelcomePlayer`).
pub struct Player {
    pub id: u128,
    pub name: String,
    pub entityid: Option<u64>,
}

/// A connection event as the client sees it.
pub enum Event {
    Connecting,
    Connected,
    Disconnected,
    Message(Message),
}

/// The connection state the user interface surfaces.
#[derive(Clone, Copy, PartialEq, Eq, Structural, Debug)]
pub enum Status {
    Connecting,
    Connected,
    Disconnected,
}

/// The client's local copy of the server's world: a tile grid and a thing
/// table keyed by the opaque 64-bit wire id (looked up by exact match; the
/// client never inspects generations).
pub struct ServerState {
    pub grid: Grid,
    pub things: Vec<(u64, Thing)>,
}

impl ServerState {
    /// The thing table as a map keyed by wire id.
    pub open spec fn things_map(self) -> Map<u64, Thing> {
        Map::new(
            |id: u64|
                exists|k: int| 0 <= k < self.things@.len() && (#[trigger] self.things@[k]).0 == id,
            |id: u64|
                self.things@[choose|k: int|
                    0 <= k < self.things@.len() && (#[trigger] self.things@[k]).0 == id].1,
        )
    }

    /// At most one table entry per wire id.
    pub open spec fn things_wf(self) -> bool {
        forall|k1: int, k2: int|
            #![trigger self.things@[k1], self.things@[k2]]
            0 <= k1 < k2 < self.things@.len() ==> self.things@[k1].0 != self.things@[k2].0
    }

    pub open spec fn wf(self) -> bool {
        self.grid.wf() && self.things_wf()
    }

    /// With unique ids, entry `k` is exactly what the table map says about
    /// its id.
    proof fn lemma_thing_at(self, k: int)
        requires
            self.things_wf(),
            0 <= k < self.things@.len(),
        ensures
            self.things_map().contains_key(self.things@[k].0),
            self.things_map()[self.things@[k].0] == self.things@[k].1,
    {
        let id = self.things@[k].0;
        let k2 = choose|k2: int|
            0 <= k2 < self.things@.len() && (#[trigger] self.things@[k2]).0 == id;
        if k2 != k {
            if k2 < k {
                assert(self.things@[k2].0 != self.things@[k].0);
            } else {
                assert(self.things@[k].0 != self.things@[k2].0);
            }
        }
    }

    /// An empty mirror, as held before the first message arrives.
    pub fn new() -> (s: ServerState)
        ensures
            s.wf(),
            s.grid@ == Map::<Pos, Tile>::empty(),
            s.things_map() == Map::<u64, Thing>::empty(),
    {
        let s = ServerState { grid: Grid::new(), things: Vec::new() };
        proof {
            assert(s.things_map() =~= Map::<u64, Thing>::empty());
        }
        s
    }

    /// Index of the table entry for `id`, if one exists.
    fn find_thing(&self, id: u64) -> (r: Option<usize>)
        requires
            self.things_wf(),
        ensures
            match r {
                Some(k) => k < self.things@.len() && self.things@[k as int].0 == id
                    && self.things_map().contains_key(id) && self.things_map()[id]
                    == self.things@[k as int].1,
                None => !self.things_map().contains_key(id),
            },
    {
        let mut k: usize = 0;
        while k < self.things.len()
            invariant
                self.things_wf(),
                k <= self.things@.len(),
                forall|j: int| 0 <= j < k ==> (#[trigger] self.things@[j]).0 != id,
            decreases self.things@.len() - k,
        {
            if self.things[k].0 == id {
                proof {
                    self.lemma_thing_at(k as int);
                }
                return Some(k);
            }
            k += 1;
        }
        None
    }

    /// The mirrored thing for a wire id, if the server has mentioned it.
    pub fn thing(&self, id: u64) -> (r: Option<&Thing>)
        requires
            self.wf(),
        ensures
            match r {
                Some(t) => self.things_map().contains_key(id) && *t == self.things_map()[id],
                None => !self.things_map().contains_key(id),
            },
    {
        match self.find_thing(id) {
            Some(k) => Some(&self.things[k].1),
            None => None,
        }
    }
}

/// The tile an incremental update starts from: the mirrored one, or a blank
/// tile when the coordinate was never mentioned.
pub open spec fn prior_tile(m: Map<Pos, Tile>, pos: Pos) -> Tile {
    if m.contains_key(pos) {
        m[pos]
    } else {
        Tile::blank()
    }
}

/// What the mirrored thing must look like after an update: a merge into the
/// prior record, or into a blank lazily-created one (empty classes, origin
/// position, invisible) when the id was never mentioned.
pub open spec fn updated_thing_ok(
    prior: Option<Thing>,
    t: Thing,
    pos: Option<Pos>,
    classes: Option<String>,
    visible: Option<bool>,
) -> bool {
    match prior {
        Some(p0) => t == merged_thing(p0, pos, classes, visible),
        None => {
            &&& t.pos == (match pos {
                Some(p) => p,
                None => (Pos { x: 0, y: 0 }),
            })
            &&& (match classes {
                Some(c) => t.classes == c,
                None => t.classes@ == Seq::<char>::empty(),
            })
            &&& t.visible == (match visible {
                Some(v) => v,
                None => false,
            })
        },
    }
}

/// What applying one message does to the mirror and the local player.
pub open spec fn applied(
    pre: ServerState,
    post: ServerState,
    pre_p: Player,
    post_p: Player,
    msg: Message,
) -> bool {
    match msg {
        Message::TileVisible { pos, wall } => {
            &&& post.grid@ == pre.grid@.insert(pos, (Tile { wall, visible: true }))
            &&& post.things_map() == pre.things_map()
            &&& post_p == pre_p
        },
        Message::TileUpdate { pos, wall, visible } => {
            &&& post.grid@ == pre.grid@.insert(
                pos,
                merged_tile(prior_tile(pre.grid@, pos), wall, visible),
            )
            &&& post.things_map() == pre.things_map()
            &&& post_p == pre_p
        },
        Message::ThingUpdate { id, pos, classes, visible } => {
            &&& post.grid@ == pre.grid@
            &&& post_p == pre_p
            &&& post.things_map().contains_key(id)
            &&& post.things_map() == pre.things_map().insert(id, post.things_map()[id])
            &&& updated_thing_ok(
                if pre.things_map().contains_key(id) {
                    Some(pre.things_map()[id])
                } else {
                    None
                },
                post.things_map()[id],
                pos,
                classes,
                visible,
            )
        },
        Message::WelcomePlayer { your_entity } => {
            &&& post.grid@ == pre.grid@
            &&& post.things_map() == pre.things_map()
            &&& post_p.id == pre_p.id
            &&& post_p.name == pre_p.name
            &&& post_p.entityid == Some(your_entity)
        },
        Message::JoinAsPlayer { .. } => {
            &&& post.grid@ == pre.grid@
            &&& post.things_map() == pre.things_map()
            &&& post_p == pre_p
        },
    }
}

/// Apply one inbound message to the mirror, with the merge semantics of the
/// protocol: full-state pushes overwrite, incremental updates merge, and a
/// message about an unknown coordinate or id lazily creates a blank record
/// to merge into.
pub fn apply_message(st: &mut ServerState, player: &mut Player, msg: Message)
    requires
        old(st).wf(),
    ensures
        final(st).wf(),
        applied(*old(st), *final(st), *old(player), *final(player), msg),
{
    match msg {
        Message::TileVisible { pos, wall } => {
            st.grid.insert(pos, Tile { wall, visible: true });
        },
        Message::TileUpdate { pos, wall, visible } => {
            let mut t = match st.grid.get(pos) {
                Some(t) => *t,
                None => Tile::default(),
            };
            apply_tile_update(&mut t, wall, visible);
            st.grid.insert(pos, t);
        },
        Message::ThingUpdate { id, pos, classes, visible } => {
            match st.find_thing(id) {
                Some(k) => {
                    apply_thing_update(&mut st.things[k].1, pos, classes, visible);
                    proof {
                        assert forall|j: int|
                            0 <= j < st.things@.len() && j != k ==> st.things@[j]
                                == old(st).things@[j] by {}
                        assert(st.things@[k as int].0 == id);
                        assert forall|id2: u64| #[trigger]
                            st.things_map().contains_key(id2)
                            implies old(st).things_map().contains_key(id2) && (id2 != id
                            ==> st.things_map()[id2] == old(st).things_map()[id2]) by {
                            let j = choose|j: int|
                                0 <= j < st.things@.len() && (#[trigger] st.things@[j]).0 == id2;
                            old(st).lemma_thing_at(j);
                            st.lemma_thing_at(j);
                        }
                        assert forall|id2: u64| #[trigger]
                            old(st).things_map().contains_key(id2)
                            implies st.things_map().contains_key(id2) by {
                            let j = choose|j: int|
                                0 <= j < old(st).things@.len() && (#[trigger] old(
                                    st,
                                ).things@[j]).0 == id2;
                            st.lemma_thing_at(j);
                        }
                        st.lemma_thing_at(k as int);
                        assert(st.things_map() =~= old(st).things_map().insert(
                            id,
                            st.things_map()[id],
                        ));
                    }
                },
                None => {
                    let mut t = Thing::default();
                    apply_thing_update(&mut t, pos, classes, visible);
                    st.things.push((id, t));
                    proof {
                        let n = st.things@.len() - 1;
                        assert forall|j: int| 0 <= j < n implies st.things@[j]
                            == old(st).things@[j] by {}
                        assert forall|id2: u64| #[trigger]
                            old(st).things_map().contains_key(id2)
                            implies st.things_map().contains_key(id2) && st.things_map()[id2]
                            == old(st).things_map()[id2] by {
                            let j = choose|j: int|
                                0 <= j < old(st).things@.len() && (#[trigger] old(
                                    st,
                                ).things@[j]).0 == id2;
                            old(st).lemma_thing_at(j);
                            st.lemma_thing_at(j);
                        }
                        st.lemma_thing_at(n);
                        assert forall|id2: u64| #[trigger]
                            st.things_map().contains_key(id2) && id2 != id
                            implies old(st).things_map().contains_key(id2) by {
                            let j = choose|j: int|
                                0 <= j < st.things@.len() && (#[trigger] st.things@[j]).0 == id2;
                            assert(j != n);
                            old(st).lemma_thing_at(j);
                        }
                        assert(st.things_map() =~= old(st).things_map().insert(
                            id,
                            st.things_map()[id],
                        ));
                    }
                },
            }
        },
        Message::WelcomePlayer { your_entity } => {
            player.entityid = Some(your_entity);
        },
        Message::JoinAsPlayer { .. } => {},
    }
}

/// React to one connection event: `Connected` answers with the
/// `JoinAsPlayer` to send (carrying the client's identity) and each
/// lifecycle event reports the status to surface; an inbound message is
/// merged into the mirror.
pub fn handle_event(st: &mut ServerState, player: &mut Player, event: Event) -> (r: (
    Option<Message>,
    Option<Status>,
))
    requires
        old(st).wf(),
    ensures
        final(st).wf(),
        (match event {
            Event::Connecting => {
                &&& r == (None::<Message>, Some(Status::Connecting))
                &&& *final(st) == *old(st)
                &&& *final(player) == *old(player)
            },
            Event::Connected => {
                &&& r.0 == Some(
                    (Message::JoinAsPlayer { id: old(player).id, name: old(player).name }),
                )
                &&& r.1 == Some(Status::Connected)
                &&& *final(st) == *old(st)
                &&& *final(player) == *old(player)
            },
            Event::Disconnected => {
                &&& r == (None::<Message>, Some(Status::Disconnected))
                &&& *final(st) == *old(st)
                &&& *final(player) == *old(player)
            },
            Event::Message(msg) => {
                &&& r == (None::<Message>, None::<Status>)
                &&& applied(*old(st), *final(st), *old(player), *final(player), msg)
            },
        }),
{
    match event {
        Event::Connecting => (None, Some(Status::Connecting)),
        Event::Connected => {
            let m = Message::JoinAsPlayer { id: player.id, name: player.name.clone() };
            (Some(m), Some(Status::Connected))
        },
        Event::Disconnected => (None, Some(Status::Disconnected)),
        Event::Message(msg) => {
            apply_message(st, player, msg);
            (None, None)
        },
    }
}

} // verus!
