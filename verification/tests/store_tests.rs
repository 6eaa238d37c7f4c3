use tileworld::pos::Pos;
use tileworld::store::Store;
use tileworld::thing::Thing;

fn thing_at(x: i32, y: i32, classes: &str) -> Thing {
    Thing { pos: Pos::new(x, y), classes: classes.to_owned(), visible: true }
}

#[test]
fn insert_get_remove() {
    let mut s = Store::new();
    let h = s.insert(thing_at(1, 2, "door"));
    let t = s.get(h).unwrap();
    assert_eq!(t.pos, Pos::new(1, 2));
    assert_eq!(t.classes, "door");
    let removed = s.remove(h).unwrap();
    assert_eq!(removed.classes, "door");
    assert!(s.get(h).is_none());
    assert!(s.remove(h).is_none());
}

#[test]
fn handle_reuse_bumps_generation() {
    let mut s = Store::new();
    let h1 = s.insert(thing_at(0, 0, "a"));
    assert_eq!(h1.wire(), 0);
    s.remove(h1);
    let h2 = s.insert(thing_at(5, 5, "b"));
    // The freed slot is reused: same slot index (low half of the wire id),
    // bumped generation (high half).
    assert_eq!(h2.wire(), 0x1_0000_0000);
    assert_ne!(h1.wire(), h2.wire());
    // The stale handle stays dead.
    assert!(s.get(h1).is_none());
    assert_eq!(s.get(h2).unwrap().classes, "b");
}

#[test]
fn distinct_slots_for_live_things() {
    let mut s = Store::new();
    let h1 = s.insert(thing_at(0, 0, "a"));
    let h2 = s.insert(thing_at(1, 1, "b"));
    let h3 = s.insert(thing_at(2, 2, "c"));
    assert_eq!(s.get(h1).unwrap().classes, "a");
    assert_eq!(s.get(h2).unwrap().classes, "b");
    assert_eq!(s.get(h3).unwrap().classes, "c");
    s.remove(h2);
    assert_eq!(s.get(h1).unwrap().classes, "a");
    assert!(s.get(h2).is_none());
    assert_eq!(s.get(h3).unwrap().classes, "c");
}

#[test]
fn handles_enumerate_live_things_once() {
    let mut s = Store::new();
    let h1 = s.insert(thing_at(0, 0, "a"));
    let h2 = s.insert(thing_at(1, 1, "b"));
    let h3 = s.insert(thing_at(2, 2, "c"));
    s.remove(h2);
    let hs = s.handles();
    assert_eq!(hs.len(), 2);
    assert!(hs.contains(&h1));
    assert!(hs.contains(&h3));
    assert!(!hs.contains(&h2));
}

#[test]
fn find_with_class_token_match() {
    let mut s = Store::new();
    s.insert(thing_at(0, 0, "entity door"));
    let spawn = s.insert(thing_at(2, 3, "entity spawn_player"));
    // "spawn_player" is found as a whole word; a bare "player" matches
    // neither thing, since "spawn_player" is a different token.
    assert_eq!(s.find_with_class("spawn_player"), Some(spawn));
    assert_eq!(s.find_with_class("player"), None);
    assert!(s.find_with_class("door").is_some());
}
