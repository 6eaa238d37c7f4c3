//! The authoritative server loop's decision logic: one transport event in,
//! world-state mutation plus outbound messages out.
//!
//! The surrounding process drives this once per tick for every queued
//! event; performing the actual network sends (and logging the non-fatal
//! "no spawn point" condition) is the caller's job.

use crate::pos::Pos;
use crate::protocol::Message;
use crate::store::{lemma_wire_injective, Handle};
use crate::thing::{has_class_in, Thing};
use crate::world::{Player, State};
use vstd::prelude::*;

verus! {

/// A transport event as the server sees it.
pub enum Event {
    ClientConnected { client_id: u64 },
    ClientDisconnected { client_id: u64 },
    Message { client_id: u64, msg: Message },
}

/// One message addressed to one connection.
pub struct Outbound {
    pub to: u64,
    pub msg: Message,
}

/// How many `TileVisible` messages for coordinate `p` the sequence holds.
pub open spec fn count_tile_at(s: Seq<Message>, p: Pos) -> int
    decreases s.len(),
{
    if s.len() == 0 {
        0
    } else {
        count_tile_at(s.drop_last(), p) + (
        if (s.last() matches Message::TileVisible { pos, .. } && pos == p) {
            1int
        } else {
            0int
        })
    }
}

/// How many `ThingUpdate` messages for wire id `id` the sequence holds.
pub open spec fn count_thing_for(s: Seq<Message>, id: u64) -> int
    decreases s.len(),
{
    if s.len() == 0 {
        0
    } else {
        count_thing_for(s.drop_last(), id) + (
        if (s.last() matches Message::ThingUpdate { id: tid, .. } && tid == id) {
            1int
        } else {
            0int
        })
    }
}

/// How many `WelcomePlayer` messages the sequence holds.
pub open spec fn count_welcome(s: Seq<Message>) -> int
    decreases s.len(),
{
    if s.len() == 0 {
        0
    } else {
        count_welcome(s.drop_last()) + (
        if (s.last() is WelcomePlayer) {
            1int
        } else {
            0int
        })
    }
}

/// How appending one message moves each of the three counts.
proof fn lemma_counts_push(s: Seq<Message>, m: Message)
    ensures
        forall|p: Pos|
            count_tile_at(#[trigger] s.push(m), p) == count_tile_at(s, p) + (
            if (m matches Message::TileVisible { pos, .. } && pos == p) {
                1int
            } else {
                0int
            }),
        forall|id: u64|
            count_thing_for(#[trigger] s.push(m), id) == count_thing_for(s, id) + (
            if (m matches Message::ThingUpdate { id: tid, .. } && tid == id) {
                1int
            } else {
                0int
            }),
        count_welcome(s.push(m)) == count_welcome(s) + (
        if (m is WelcomePlayer) {
            1int
        } else {
            0int
        }),
{
    assert(s.push(m).drop_last() =~= s);
    assert(s.push(m).last() == m);
}

/// Player `id` already has an assigned thing.
pub open spec fn has_assigned(s: State, id: u128) -> bool {
    s.players_map().contains_key(id) && s.players_map()[id].thing is Some
}

/// Some live thing is tagged `"spawn_player"`.
pub open spec fn has_spawn(s: State) -> bool {
    exists|h: Handle| #[trigger]
        s.things.contents().contains_key(h) && has_class_in(
            s.things.contents()[h].classes@,
            "spawn_player"@,
        )
}

/// The join snapshot in `msgs` covers the world exactly: one `TileVisible`
/// per tile with its wall flag, one `ThingUpdate` per live thing with every
/// field filled in, nothing for coordinates or ids that do not exist, and
/// nothing but these two kinds and `WelcomePlayer`.
pub open spec fn snapshot_complete(s: State, msgs: Seq<Message>) -> bool {
    &&& forall|p: Pos| #[trigger] s.grid@.contains_key(p) ==> count_tile_at(msgs, p) == 1
    &&& forall|k: int|
        0 <= k < msgs.len() ==> ((#[trigger] msgs[k]) matches Message::TileVisible { pos, wall }
            ==> s.grid@.contains_key(pos) && wall == s.grid@[pos].wall)
    &&& forall|h: Handle| #[trigger]
        s.things.contents().contains_key(h) ==> count_thing_for(msgs, h.spec_wire()) == 1
    &&& forall|k: int|
        0 <= k < msgs.len() ==> ((#[trigger] msgs[k]) matches Message::ThingUpdate {
            id,
            pos,
            classes,
            visible,
        } ==> exists|h: Handle|
            {
                &&& #[trigger] s.things.contents().contains_key(h)
                &&& h.spec_wire() == id
                &&& pos == Some(s.things.contents()[h].pos)
                &&& (classes matches Some(c) && c@ == s.things.contents()[h].classes@)
                &&& visible == Some(s.things.contents()[h].visible)
            })
    &&& forall|k: int|
        0 <= k < msgs.len() ==> ((#[trigger] msgs[k]) is WelcomePlayer || msgs[k] is TileVisible
            || msgs[k] is ThingUpdate)
}

/// A fresh player thing was spawned for `id`: it stands at some
/// `"spawn_player"` marker, carries exactly the class `"player"`, is
/// recorded as the player's assigned thing, and exactly one
/// `WelcomePlayer` in `msgs` announces it.
pub open spec fn spawned_ok(pre: State, post: State, id: u128, msgs: Seq<Message>) -> bool {
    exists|hn: Handle|
        {
            &&& !pre.things.contents().contains_key(hn)
            &&& #[trigger] post.things.contents().contains_key(hn)
            &&& post.things.contents() == pre.things.contents().insert(
                hn,
                post.things.contents()[hn],
            )
            &&& post.things.contents()[hn].classes@ == "player"@
            &&& post.things.contents()[hn].visible
            &&& (exists|hs: Handle|
                {
                    &&& #[trigger] pre.things.contents().contains_key(hs)
                    &&& has_class_in(pre.things.contents()[hs].classes@, "spawn_player"@)
                    &&& post.things.contents()[hn].pos == pre.things.contents()[hs].pos
                })
            &&& post.players_map() == pre.players_map().insert(id, (Player { thing: Some(hn) }))
            &&& count_welcome(msgs) == 1
            &&& forall|k: int|
                0 <= k < msgs.len() ==> ((#[trigger] msgs[k]) matches Message::WelcomePlayer {
                    your_entity,
                } ==> your_entity == hn.spec_wire())
        }
}

/// Service one `JoinAsPlayer` for player `id`: look up or create the roster
/// record, spawn a player thing at a `"spawn_player"` marker when the
/// player has none yet (sending `WelcomePlayer`), and always follow with a
/// full snapshot of every tile and every thing. All returned messages go to
/// the joining connection alone. The boolean reports the non-fatal "no
/// spawn point" condition.
pub fn process_join(state: &mut State, id: u128) -> (r: (Vec<Message>, bool))
    requires
        old(state).wf(),
        !has_assigned(*old(state), id) && has_spawn(*old(state)) ==> old(state).things.spec_can_insert(),
    ensures
        final(state).wf(),
        final(state).grid == old(state).grid,
        r.1 == (!has_assigned(*old(state), id) && !has_spawn(*old(state))),
        has_assigned(*old(state), id) ==> final(state).things == old(state).things && final(state).players_map() == old(state).players_map() && count_welcome(r.0@) == 0,
        !has_assigned(*old(state), id) && has_spawn(*old(state)) ==> spawned_ok(
            *old(state),
            *final(state),
            id,
            r.0@,
        ),
        !has_assigned(*old(state), id) && !has_spawn(*old(state)) ==> final(state).things == old(state).things && final(state).players_map() == old(state).players_map().insert(
            id,
            (Player { thing: None }),
        ) && count_welcome(r.0@) == 0,
        snapshot_complete(*final(state), r.0@),
{
    let ghost pre = *old(state);
    let mut msgs: Vec<Message> = Vec::new();
    let mut failed = false;
    state.ensure_player(id);
    let pl = match state.get_player(id) {
        Some(p) => p,
        None => {
            proof {
                assert(false);
            }
            Player { thing: None }
        },
    };
    let ghost mut welcomed: Option<Handle> = None;
    if pl.thing.is_none() {
        match state.things.find_with_class("spawn_player") {
            Some(hs) => {
                let spawn_pos = match state.things.get(hs) {
                    Some(t) => t.pos,
                    None => {
                        proof {
                            assert(false);
                        }
                        Pos { x: 0, y: 0 }
                    },
                };
                let nt = Thing { pos: spawn_pos, classes: "player".to_owned(), visible: true };
                let hn = state.spawn_entity(nt);
                state.assign_player_thing(id, hn);
                proof {
                    lemma_counts_push(msgs@, Message::WelcomePlayer { your_entity: hn.spec_wire() });
                }
                msgs.push(Message::WelcomePlayer { your_entity: hn.wire() });
                proof {
                    welcomed = Some(hn);
                    assert(state.things.contents()[hn] == nt);
                    assert(state.players_map() =~= pre.players_map().insert(
                        id,
                        (Player { thing: Some(hn) }),
                    ));
                    assert(pre.things.contents().contains_key(hs) && has_class_in(
                        pre.things.contents()[hs].classes@,
                        "spawn_player"@,
                    ));
                    assert(state.things.contents()[hn].pos == pre.things.contents()[hs].pos);
                }
            },
            None => {
                failed = true;
                proof {
                    assert(!has_spawn(pre));
                }
            },
        }
    }
    let ghost mid = *state;
    let ghost base = msgs@;
    proof {
        assert forall|p: Pos| count_tile_at(base, p) == 0 by {
            if base.len() > 0 {
                lemma_counts_push(Seq::<Message>::empty(), base.last());
                assert(Seq::<Message>::empty().push(base.last()) =~= base);
            }
        }
        assert forall|w: u64| count_thing_for(base, w) == 0 by {
            if base.len() > 0 {
                lemma_counts_push(Seq::<Message>::empty(), base.last());
                assert(Seq::<Message>::empty().push(base.last()) =~= base);
            }
        }
        if base.len() > 0 {
            lemma_counts_push(Seq::<Message>::empty(), base.last());
            assert(Seq::<Message>::empty().push(base.last()) =~= base);
        }
        assert(count_welcome(base) == if welcomed is Some {
            1int
        } else {
            0int
        });
        assert forall|k: int| 0 <= k < base.len() implies (#[trigger] base[k]) is WelcomePlayer by {
            assert(k == 0);
        }
    }
    // Full tile snapshot: exactly one TileVisible per tile now in the grid.
    let entries = state.grid.entries();
    let mut i: usize = 0;
    while i < entries.len()
        invariant
            *state == mid,
            state.wf(),
            i <= entries@.len(),
            forall|a: int, b: int|
                #![trigger entries@[a], entries@[b]]
                0 <= a < b < entries@.len() ==> entries@[a].0 != entries@[b].0,
            forall|k: int|
                0 <= k < entries@.len() ==> state.grid@.contains_key((#[trigger] entries@[k]).0)
                    && entries@[k].1 == state.grid@[entries@[k].0],
            forall|p: Pos| #[trigger]
                state.grid@.contains_key(p) ==> exists|k: int|
                    0 <= k < entries@.len() && (#[trigger] entries@[k]).0 == p,
            msgs@.len() == base.len() + i,
            forall|k: int| 0 <= k < base.len() ==> msgs@[k] == base[k],
            count_welcome(msgs@) == count_welcome(base),
            forall|w: u64| count_thing_for(msgs@, w) == 0,
            forall|j: int|
                0 <= j < i ==> count_tile_at(msgs@, (#[trigger] entries@[j]).0) == 1,
            forall|p: Pos|
                count_tile_at(msgs@, p) != 0 ==> exists|j: int|
                    0 <= j < i && (#[trigger] entries@[j]).0 == p,
            forall|k: int|
                base.len() <= k < msgs@.len() ==> ((#[trigger] msgs@[k])
                    matches Message::TileVisible { pos, wall } && state.grid@.contains_key(pos)
                    && wall == state.grid@[pos].wall),
        decreases entries@.len() - i,
    {
        let e = &entries[i];
        proof {
            lemma_counts_push(
                msgs@,
                Message::TileVisible { pos: e.0, wall: e.1.wall },
            );
            assert forall|j: int| 0 <= j < i implies (#[trigger] entries@[j]).0 != e.0 by {}
        }
        msgs.push(Message::TileVisible { pos: e.0, wall: e.1.wall });
        i += 1;
    }
    // Full thing snapshot: exactly one ThingUpdate per live thing, each
    // field filled in (sent once; the id makes re-sends idempotent anyway).
    let hs = state.things.handles();
    let ghost base2 = msgs@;
    let mut i2: usize = 0;
    while i2 < hs.len()
        invariant
            *state == mid,
            state.wf(),
            i2 <= hs@.len(),
            forall|a: int, b: int|
                #![trigger hs@[a], hs@[b]]
                0 <= a < b < hs@.len() ==> hs@[a] != hs@[b],
            forall|k: int|
                0 <= k < hs@.len() ==> state.things.contents().contains_key(#[trigger] hs@[k]),
            forall|h: Handle| #[trigger]
                state.things.contents().contains_key(h) ==> exists|k: int|
                    0 <= k < hs@.len() && hs@[k] == h,
            msgs@.len() == base2.len() + i2,
            forall|k: int| 0 <= k < base2.len() ==> msgs@[k] == base2[k],
            count_welcome(msgs@) == count_welcome(base2),
            forall|p: Pos| count_tile_at(msgs@, p) == count_tile_at(base2, p),
            forall|j: int|
                0 <= j < i2 ==> count_thing_for(msgs@, (#[trigger] hs@[j]).spec_wire()) == 1,
            forall|w: u64|
                count_thing_for(msgs@, w) != 0 ==> exists|j: int|
                    0 <= j < i2 && (#[trigger] hs@[j]).spec_wire() == w,
            forall|k: int|
                base2.len() <= k < msgs@.len() ==> ((#[trigger] msgs@[k])
                    matches Message::ThingUpdate { id: tid, pos, classes, visible } ==> exists|
                        h: Handle,
                    |
                        {
                            &&& #[trigger] state.things.contents().contains_key(h)
                            &&& h.spec_wire() == tid
                            &&& pos == Some(state.things.contents()[h].pos)
                            &&& (classes matches Some(c) && c@
                                == state.things.contents()[h].classes@)
                            &&& visible == Some(state.things.contents()[h].visible)
                        }),
            forall|k: int|
                base2.len() <= k < msgs@.len() ==> (#[trigger] msgs@[k]) is ThingUpdate,
        decreases hs@.len() - i2,
    {
        let h = hs[i2];
        let t = state.things.get(h).unwrap();
        let m = Message::ThingUpdate {
            id: h.wire(),
            pos: Some(t.pos),
            classes: Some(t.classes.clone()),
            visible: Some(t.visible),
        };
        proof {
            lemma_counts_push(msgs@, m);
            assert forall|j: int| 0 <= j < i2 implies (#[trigger] hs@[j]).spec_wire()
                != h.spec_wire() by {
                if hs@[j].spec_wire() == h.spec_wire() {
                    lemma_wire_injective(hs@[j], h);
                }
            }
        }
        msgs.push(m);
        i2 += 1;
    }
    proof {
        assert(snapshot_complete(*state, msgs@)) by {
            assert forall|p: Pos| #[trigger]
                state.grid@.contains_key(p) implies count_tile_at(msgs@, p) == 1 by {
                let j = choose|j: int| 0 <= j < entries@.len() && (#[trigger] entries@[j]).0 == p;
                assert(count_tile_at(base2, entries@[j].0) == 1);
            }
            assert forall|h: Handle| #[trigger]
                state.things.contents().contains_key(h) implies count_thing_for(
                msgs@,
                h.spec_wire(),
            ) == 1 by {
                let j = choose|j: int| 0 <= j < hs@.len() && (#[trigger] hs@[j]) == h;
                assert(count_thing_for(msgs@, hs@[j].spec_wire()) == 1);
            }
            assert forall|k: int|
                0 <= k < msgs@.len() implies ((#[trigger] msgs@[k])
                matches Message::TileVisible { pos, wall } ==> state.grid@.contains_key(pos)
                && wall == state.grid@[pos].wall) by {
                if k < base.len() {
                    assert(msgs@[k] == base[k]);
                } else if k < base2.len() {
                    assert(msgs@[k] == base2[k]);
                }
            }
            assert forall|k: int|
                0 <= k < msgs@.len() implies ((#[trigger] msgs@[k])
                matches Message::ThingUpdate { id: tid, pos, classes, visible } ==> exists|
                    h: Handle,
                |
                    {
                        &&& #[trigger] state.things.contents().contains_key(h)
                        &&& h.spec_wire() == tid
                        &&& pos == Some(state.things.contents()[h].pos)
                        &&& (classes matches Some(c) && c@ == state.things.contents()[h].classes@)
                        &&& visible == Some(state.things.contents()[h].visible)
                    }) by {
                if k < base.len() {
                    assert(msgs@[k] == base[k]);
                } else if k < base2.len() {
                    assert(msgs@[k] == base2[k]);
                }
            }
            assert forall|k: int|
                0 <= k < msgs@.len() implies ((#[trigger] msgs@[k]) is WelcomePlayer || msgs@[k]
                is TileVisible || msgs@[k] is ThingUpdate) by {
                if k < base.len() {
                    assert(msgs@[k] == base[k]);
                } else if k < base2.len() {
                    assert(msgs@[k] == base2[k]);
                }
            }
        }
        assert(count_welcome(msgs@) == count_welcome(base));
        if !has_assigned(pre, id) && has_spawn(pre) {
            assert(welcomed is Some);
            if let Some(hn) = welcomed {
                assert forall|k: int|
                    0 <= k < msgs@.len() implies ((#[trigger] msgs@[k])
                    matches Message::WelcomePlayer { your_entity } ==> your_entity
                    == hn.spec_wire()) by {
                    if k < base.len() {
                        assert(msgs@[k] == base[k]);
                        assert(k == 0);
                    } else if k < base2.len() {
                        assert(msgs@[k] == base2[k]);
                    }
                }
                assert(spawned_ok(pre, *state, id, msgs@));
            }
        }
    }
    (msgs, failed)
}

/// The message sequence an outbound batch carries.
pub open spec fn outbound_msgs(v: Seq<Outbound>) -> Seq<Message> {
    v.map_values(|o: Outbound| o.msg)
}

/// Drive the server by one transport event. Connects and disconnects
/// change nothing (player records are created lazily and never torn down);
/// a `JoinAsPlayer` message is serviced by [`process_join`], with every
/// reply addressed to the joining connection; any other inbound message is
/// ignored. The boolean reports the non-fatal "no spawn point" condition.
pub fn handle_event(state: &mut State, event: Event) -> (r: (Vec<Outbound>, bool))
    requires
        old(state).wf(),
        (event matches Event::Message { msg: Message::JoinAsPlayer { id, .. }, .. }
            && !has_assigned(*old(state), id) && has_spawn(*old(state))) ==> old(state).things.spec_can_insert(),
    ensures
        final(state).wf(),
        (match event {
            Event::Message { client_id, msg: Message::JoinAsPlayer { id, .. } } => {
                &&& final(state).grid == old(state).grid
                &&& forall|k: int|
                    0 <= k < r.0@.len() ==> (#[trigger] r.0@[k]).to == client_id
                &&& r.1 == (!has_assigned(*old(state), id) && !has_spawn(*old(state)))
                &&& (has_assigned(*old(state), id) ==> final(state).things == old(state).things
                    && final(state).players_map() == old(state).players_map() && count_welcome(
                    outbound_msgs(r.0@),
                ) == 0)
                &&& (!has_assigned(*old(state), id) && has_spawn(*old(state)) ==> spawned_ok(
                    *old(state),
                    *final(state),
                    id,
                    outbound_msgs(r.0@),
                ))
                &&& (!has_assigned(*old(state), id) && !has_spawn(*old(state)) ==> final(state).things == old(state).things && final(state).players_map() == old(state).players_map().insert(id, (Player { thing: None })) && count_welcome(
                    outbound_msgs(r.0@),
                ) == 0)
                &&& snapshot_complete(*final(state), outbound_msgs(r.0@))
            },
            _ => *final(state) == *old(state) && r.0@.len() == 0 && !r.1,
        }),
{
    match event {
        Event::Message { client_id, msg: Message::JoinAsPlayer { id, name: _ } } => {
            let (mut msgs, failed) = process_join(state, id);
            let ghost msgs0 = msgs@;
            let mut out: Vec<Outbound> = Vec::new();
            while msgs.len() > 0
                invariant
                    out@.len() + msgs@.len() == msgs0.len(),
                    msgs@ =~= msgs0.subrange(out@.len() as int, msgs0.len() as int),
                    forall|k: int|
                        0 <= k < out@.len() ==> (#[trigger] out@[k]).to == client_id && out@[k].msg
                            == msgs0[k],
                decreases msgs@.len(),
            {
                let m = msgs.remove(0);
                out.push(Outbound { to: client_id, msg: m });
            }
            proof {
                assert(outbound_msgs(out@) =~= msgs0);
            }
            (out, failed)
        },
        _ => (Vec::new(), false),
    }
}

} // verus!
