use tileworld::pos::Pos;
use tileworld::protocol::Message;
use tileworld::server::{handle_event, process_join, Event};
use tileworld::store::Handle;
use tileworld::thing::Thing;
use tileworld::world::State;

fn seeded_state() -> State {
    let mut st = State::new();
    st.seed(Pos::new(0, 0), "tile wall");
    st.seed(Pos::new(2, 3), "entity spawn_player");
    st
}

fn welcome_ids(msgs: &[Message]) -> Vec<u64> {
    let mut ids = Vec::new();
    for m in msgs {
        if let Message::WelcomePlayer { your_entity } = m {
            ids.push(*your_entity);
        }
    }
    ids
}

fn tile_msgs(msgs: &[Message]) -> Vec<(Pos, bool)> {
    let mut out = Vec::new();
    for m in msgs {
        if let Message::TileVisible { pos, wall } = m {
            out.push((*pos, *wall));
        }
    }
    out
}

fn thing_msgs(msgs: &[Message]) -> Vec<(u64, Option<Pos>, Option<String>, Option<bool>)> {
    let mut out = Vec::new();
    for m in msgs {
        if let Message::ThingUpdate { id, pos, classes, visible } = m {
            out.push((*id, *pos, classes.clone(), *visible));
        }
    }
    out
}

fn resolve(st: &State, wire: u64) -> Option<(Handle, Thing)> {
    for h in st.things.handles() {
        if h.wire() == wire {
            return st.things.get(h).map(|t| (h, t.clone()));
        }
    }
    None
}

#[test]
fn seeding_creates_tile_and_marker() {
    let st = seeded_state();
    let t = st.grid.get(Pos::new(0, 0)).copied().unwrap();
    assert!(t.wall);
    let hs = st.things.handles();
    assert_eq!(hs.len(), 1);
    let marker = st.things.get(hs[0]).unwrap();
    assert_eq!(marker.pos, Pos::new(2, 3));
    assert_eq!(marker.classes, "entity spawn_player");
    assert!(marker.visible);
}

#[test]
fn join_spawns_player_and_sends_snapshot() {
    let mut st = seeded_state();
    let (msgs, no_spawn) = process_join(&mut st, 42);
    assert!(!no_spawn);

    // Exactly one WelcomePlayer, whose id resolves to a fresh player thing
    // standing at the spawn marker.
    let welcomes = welcome_ids(&msgs);
    assert_eq!(welcomes.len(), 1);
    let (h, player_thing) = resolve(&st, welcomes[0]).unwrap();
    assert_eq!(player_thing.pos, Pos::new(2, 3));
    assert_eq!(player_thing.classes, "player");
    assert!(player_thing.visible);
    assert_eq!(st.get_player(42).unwrap().thing, Some(h));

    // Exactly one TileVisible for the one tile.
    assert_eq!(tile_msgs(&msgs), vec![(Pos::new(0, 0), true)]);

    // Exactly one ThingUpdate per thing (marker and player thing), every
    // field filled in.
    let things = thing_msgs(&msgs);
    assert_eq!(things.len(), 2);
    let marker_updates: Vec<_> = things
        .iter()
        .filter(|(_, _, c, _)| c.as_deref() == Some("entity spawn_player"))
        .collect();
    assert_eq!(marker_updates.len(), 1);
    assert_eq!(marker_updates[0].1, Some(Pos::new(2, 3)));
    assert_eq!(marker_updates[0].3, Some(true));
    let player_updates: Vec<_> =
        things.iter().filter(|(id, _, _, _)| *id == welcomes[0]).collect();
    assert_eq!(player_updates.len(), 1);
    assert_eq!(player_updates[0].2.as_deref(), Some("player"));
    assert_eq!(player_updates[0].1, Some(Pos::new(2, 3)));

    assert_eq!(msgs.len(), 4);
}

#[test]
fn rejoin_reuses_assigned_thing() {
    let mut st = seeded_state();
    let (msgs1, _) = process_join(&mut st, 7);
    let first = welcome_ids(&msgs1);
    assert_eq!(first.len(), 1);
    let assigned = st.get_player(7).unwrap().thing.unwrap();
    let live_before = st.things.handles().len();

    let (msgs2, no_spawn) = process_join(&mut st, 7);
    assert!(!no_spawn);
    // No second thing, no second welcome; the assignment is unchanged.
    assert_eq!(welcome_ids(&msgs2).len(), 0);
    assert_eq!(st.things.handles().len(), live_before);
    assert_eq!(st.get_player(7).unwrap().thing, Some(assigned));
    // The snapshot still covers everything: one tile, two things.
    assert_eq!(tile_msgs(&msgs2).len(), 1);
    assert_eq!(thing_msgs(&msgs2).len(), 2);
}

#[test]
fn two_players_get_two_things() {
    let mut st = seeded_state();
    process_join(&mut st, 1);
    process_join(&mut st, 2);
    let a = st.get_player(1).unwrap().thing.unwrap();
    let b = st.get_player(2).unwrap().thing.unwrap();
    assert_ne!(a.wire(), b.wire());
    assert_eq!(st.things.handles().len(), 3);
}

#[test]
fn join_without_spawn_point_is_partial() {
    let mut st = State::new();
    st.seed(Pos::new(0, 0), "tile");
    let (msgs, no_spawn) = process_join(&mut st, 9);
    // Reported as a non-fatal error: no thing spawned, no WelcomePlayer,
    // but the player record exists and the snapshot is still delivered.
    assert!(no_spawn);
    assert_eq!(welcome_ids(&msgs).len(), 0);
    assert!(st.get_player(9).unwrap().thing.is_none());
    assert_eq!(st.things.handles().len(), 0);
    assert_eq!(tile_msgs(&msgs), vec![(Pos::new(0, 0), false)]);
}

#[test]
fn connect_and_disconnect_change_nothing() {
    let mut st = seeded_state();
    let (out, err) = handle_event(&mut st, Event::ClientConnected { client_id: 5 });
    assert!(out.is_empty() && !err);
    let (out, err) = handle_event(&mut st, Event::ClientDisconnected { client_id: 5 });
    assert!(out.is_empty() && !err);
    assert_eq!(st.things.handles().len(), 1);
    assert!(st.get_player(5).is_none());
}

#[test]
fn non_join_messages_are_ignored() {
    let mut st = seeded_state();
    let (out, err) = handle_event(
        &mut st,
        Event::Message {
            client_id: 5,
            msg: Message::TileUpdate { pos: Pos::new(0, 0), wall: Some(false), visible: None },
        },
    );
    assert!(out.is_empty() && !err);
    assert!(st.grid.get(Pos::new(0, 0)).unwrap().wall);
}

#[test]
fn join_event_addresses_the_joining_connection() {
    let mut st = seeded_state();
    let (out, err) = handle_event(
        &mut st,
        Event::Message {
            client_id: 77,
            msg: Message::JoinAsPlayer { id: 42, name: "A".to_owned() },
        },
    );
    assert!(!err);
    assert_eq!(out.len(), 4);
    assert!(out.iter().all(|o| o.to == 77));
    let msgs: Vec<Message> = out.into_iter().map(|o| o.msg).collect();
    assert_eq!(welcome_ids(&msgs).len(), 1);
    assert_eq!(tile_msgs(&msgs).len(), 1);
    assert_eq!(thing_msgs(&msgs).len(), 2);
}

#[test]
fn spawn_entity_returns_resolving_handle() {
    let mut st = State::new();
    let h = st.spawn_entity(Thing {
        pos: Pos::new(4, 5),
        classes: "door".to_owned(),
        visible: true,
    });
    let t = st.things.get(h).unwrap();
    assert_eq!(t.pos, Pos::new(4, 5));
    assert!(t.has_class("door"));
}
