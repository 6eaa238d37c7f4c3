use tileworld::mirror::{apply_message, handle_event, Event, Player, ServerState, Status};
use tileworld::pos::Pos;
use tileworld::protocol::Message;
use tileworld::server;
use tileworld::tile::Tile;
use tileworld::world::State;

fn fresh_player() -> Player {
    Player { id: 123, name: "A".to_owned(), entityid: None }
}

#[test]
fn tile_visible_overwrites() {
    let mut st = ServerState::new();
    let mut p = fresh_player();
    apply_message(&mut st, &mut p, Message::TileVisible { pos: Pos::new(1, 2), wall: true });
    assert_eq!(st.grid.get(Pos::new(1, 2)).copied(), Some(Tile { wall: true, visible: true }));
    apply_message(&mut st, &mut p, Message::TileVisible { pos: Pos::new(1, 2), wall: false });
    assert_eq!(st.grid.get(Pos::new(1, 2)).copied(), Some(Tile { wall: false, visible: true }));
}

#[test]
fn tile_update_lazily_creates_then_merges() {
    let mut st = ServerState::new();
    let mut p = fresh_player();
    // Unknown coordinate: a blank tile is created, then merged into.
    apply_message(
        &mut st,
        &mut p,
        Message::TileUpdate { pos: Pos::new(0, 0), wall: None, visible: Some(true) },
    );
    assert_eq!(st.grid.get(Pos::new(0, 0)).copied(), Some(Tile { wall: false, visible: true }));
    // Absent fields keep their previous value.
    apply_message(
        &mut st,
        &mut p,
        Message::TileUpdate { pos: Pos::new(0, 0), wall: Some(true), visible: None },
    );
    assert_eq!(st.grid.get(Pos::new(0, 0)).copied(), Some(Tile { wall: true, visible: true }));
}

#[test]
fn later_messages_win_within_a_frame() {
    let mut st = ServerState::new();
    let mut p = fresh_player();
    apply_message(
        &mut st,
        &mut p,
        Message::TileUpdate { pos: Pos::new(3, 3), wall: Some(true), visible: None },
    );
    apply_message(
        &mut st,
        &mut p,
        Message::TileUpdate { pos: Pos::new(3, 3), wall: Some(false), visible: None },
    );
    assert_eq!(st.grid.get(Pos::new(3, 3)).unwrap().wall, false);
}

#[test]
fn thing_update_lazily_creates_then_merges() {
    let mut st = ServerState::new();
    let mut p = fresh_player();
    apply_message(
        &mut st,
        &mut p,
        Message::ThingUpdate {
            id: 7,
            pos: Some(Pos::new(2, 3)),
            classes: Some("door".to_owned()),
            visible: Some(true),
        },
    );
    let t = st.thing(7).unwrap();
    assert_eq!(t.pos, Pos::new(2, 3));
    assert_eq!(t.classes, "door");
    assert!(t.visible);
    // A partial update retains the absent fields.
    apply_message(
        &mut st,
        &mut p,
        Message::ThingUpdate { id: 7, pos: Some(Pos::new(4, 4)), classes: None, visible: None },
    );
    let t = st.thing(7).unwrap();
    assert_eq!(t.pos, Pos::new(4, 4));
    assert_eq!(t.classes, "door");
    assert!(t.visible);
    assert!(st.thing(8).is_none());
}

#[test]
fn welcome_records_own_entity() {
    let mut st = ServerState::new();
    let mut p = fresh_player();
    apply_message(&mut st, &mut p, Message::WelcomePlayer { your_entity: 99 });
    assert_eq!(p.entityid, Some(99));
    assert_eq!(p.id, 123);
    assert_eq!(p.name, "A");
}

#[test]
fn connected_triggers_join_request() {
    let mut st = ServerState::new();
    let mut p = fresh_player();
    let (send, status) = handle_event(&mut st, &mut p, Event::Connected);
    assert_eq!(status, Some(Status::Connected));
    match send {
        Some(Message::JoinAsPlayer { id, name }) => {
            assert_eq!(id, 123);
            assert_eq!(name, "A");
        },
        other => panic!("expected a JoinAsPlayer request, got {:?}", other),
    }
}

#[test]
fn lifecycle_statuses_surface() {
    let mut st = ServerState::new();
    let mut p = fresh_player();
    let (send, status) = handle_event(&mut st, &mut p, Event::Connecting);
    assert!(send.is_none());
    assert_eq!(status, Some(Status::Connecting));
    let (send, status) = handle_event(&mut st, &mut p, Event::Disconnected);
    assert!(send.is_none());
    assert_eq!(status, Some(Status::Disconnected));
}

#[test]
fn mirror_rebuilds_world_from_join_snapshot() {
    // Server side: seed the world and service a join.
    let mut world = State::new();
    world.seed(Pos::new(0, 0), "tile wall");
    world.seed(Pos::new(2, 3), "entity spawn_player");
    let (out, err) = server::handle_event(
        &mut world,
        server::Event::Message {
            client_id: 1,
            msg: Message::JoinAsPlayer { id: 123, name: "A".to_owned() },
        },
    );
    assert!(!err);

    // Client side: apply the whole batch in order.
    let mut st = ServerState::new();
    let mut p = fresh_player();
    for o in out {
        handle_event(&mut st, &mut p, Event::Message(o.msg));
    }

    // The mirror agrees with the authoritative state.
    assert_eq!(st.grid.get(Pos::new(0, 0)).copied(), Some(Tile { wall: true, visible: true }));
    assert_eq!(st.things.len(), 2);
    let own = p.entityid.expect("welcome must assign the player's thing");
    let me = st.thing(own).unwrap();
    assert_eq!(me.pos, Pos::new(2, 3));
    assert_eq!(me.classes, "player");
    assert!(me.visible);
}
