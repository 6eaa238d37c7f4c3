use tileworld::pos::Pos;
use tileworld::thing::{apply_thing_update, str_has_class, Thing};
use tileworld::tile::{apply_tile_update, Tile};

#[test]
fn empty_tile_update_changes_nothing() {
    let mut t = Tile { wall: true, visible: false };
    for _ in 0..5 {
        apply_tile_update(&mut t, None, None);
        assert_eq!(t, Tile { wall: true, visible: false });
    }
}

#[test]
fn tile_update_absent_field_keeps_value() {
    let mut t = Tile { wall: true, visible: true };
    apply_tile_update(&mut t, Some(false), None);
    assert_eq!(t, Tile { wall: false, visible: true });
    apply_tile_update(&mut t, None, Some(false));
    assert_eq!(t, Tile { wall: false, visible: false });
}

#[test]
fn tile_update_composition_matches_combined() {
    let start = Tile { wall: false, visible: false };

    let mut split = start;
    apply_tile_update(&mut split, Some(true), None);
    apply_tile_update(&mut split, None, Some(true));

    let mut combined = start;
    apply_tile_update(&mut combined, Some(true), Some(true));

    assert_eq!(split, combined);
    assert!(split.wall && split.visible);
}

#[test]
fn thing_update_merges_field_wise() {
    let mut t = Thing { pos: Pos::new(1, 1), classes: "door".to_owned(), visible: false };
    apply_thing_update(&mut t, Some(Pos::new(9, 9)), None, Some(true));
    assert_eq!(t.pos, Pos::new(9, 9));
    assert_eq!(t.classes, "door");
    assert!(t.visible);
    apply_thing_update(&mut t, None, Some("door open".to_owned()), None);
    assert_eq!(t.pos, Pos::new(9, 9));
    assert_eq!(t.classes, "door open");
    assert!(t.visible);
    apply_thing_update(&mut t, None, None, None);
    assert_eq!(t.classes, "door open");
}

#[test]
fn class_matching_is_whole_word() {
    assert!(str_has_class("entity spawn_player", "entity"));
    assert!(str_has_class("entity spawn_player", "spawn_player"));
    assert!(!str_has_class("entity spawn_player", "player"));
    assert!(!str_has_class("entity spawn_player", "spawn"));
    assert!(str_has_class("player", "player"));
    assert!(!str_has_class("", "player"));
    assert!(!str_has_class("tile", "wall"));
    assert!(str_has_class("tile wall", "wall"));
}

#[test]
fn thing_has_class_reads_its_tags() {
    let t = Thing { pos: Pos::new(0, 0), classes: "entity door".to_owned(), visible: true };
    assert!(t.has_class("door"));
    assert!(t.has_class("entity"));
    assert!(!t.has_class("doo"));
    assert!(!t.has_class("player"));
}
