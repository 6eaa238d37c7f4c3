use tileworld::grid::Grid;
use tileworld::pos::Pos;
use tileworld::tile::Tile;

#[test]
fn insert_and_get_roundtrip() {
    let mut g = Grid::new();
    g.insert(Pos::new(3, 4), Tile { wall: true, visible: false });
    let t = g.get(Pos::new(3, 4)).copied();
    assert_eq!(t, Some(Tile { wall: true, visible: false }));
    assert!(g.get(Pos::new(4, 3)).is_none());
}

#[test]
fn insert_overwrites() {
    let mut g = Grid::new();
    g.insert(Pos::new(7, -2), Tile { wall: false, visible: false });
    g.insert(Pos::new(7, -2), Tile { wall: true, visible: true });
    assert_eq!(g.get(Pos::new(7, -2)).copied(), Some(Tile { wall: true, visible: true }));
}

#[test]
fn distinct_chunks_no_aliasing() {
    // (0, 0) and (20, 0) live in different chunks; so do (-1, -1) and (0, 0),
    // which sit on either side of a chunk edge.
    let mut g = Grid::new();
    let t1 = Tile { wall: true, visible: false };
    let t2 = Tile { wall: false, visible: true };
    g.insert(Pos::new(0, 0), t1);
    g.insert(Pos::new(20, 0), t2);
    assert_eq!(g.get(Pos::new(0, 0)).copied(), Some(t1));
    assert_eq!(g.get(Pos::new(20, 0)).copied(), Some(t2));

    g.insert(Pos::new(-1, -1), t2);
    assert_eq!(g.get(Pos::new(-1, -1)).copied(), Some(t2));
    assert_eq!(g.get(Pos::new(0, 0)).copied(), Some(t1));
}

#[test]
fn wall_behaves_the_same_at_chunk_edges() {
    // A wall tile adjacent to a chunk edge is indistinguishable from an
    // interior one: chunking is never observable through the interface.
    let mut g = Grid::new();
    for x in [-17, -16, -1, 0, 15, 16, 31, 32] {
        g.insert(Pos::new(x, 0), Tile { wall: true, visible: true });
    }
    for x in [-17, -16, -1, 0, 15, 16, 31, 32] {
        let t = g.get(Pos::new(x, 0)).copied().unwrap();
        assert!(t.wall && t.visible);
    }
}

#[test]
fn far_apart_coordinates() {
    let mut g = Grid::new();
    g.insert(Pos::new(i32::MIN, i32::MAX), Tile { wall: true, visible: false });
    g.insert(Pos::new(i32::MAX, i32::MIN), Tile { wall: false, visible: true });
    assert!(g.get(Pos::new(i32::MIN, i32::MAX)).unwrap().wall);
    assert!(g.get(Pos::new(i32::MAX, i32::MIN)).unwrap().visible);
    assert!(g.get(Pos::new(0, 0)).is_none());
}

#[test]
fn entries_cover_every_insert_once() {
    let mut g = Grid::new();
    let coords = [(0, 0), (-1, 0), (15, 15), (16, 16), (-40, 33)];
    for (i, (x, y)) in coords.iter().enumerate() {
        g.insert(Pos::new(*x, *y), Tile { wall: i % 2 == 0, visible: true });
    }
    let entries = g.entries();
    assert_eq!(entries.len(), coords.len());
    for (i, (x, y)) in coords.iter().enumerate() {
        let found: Vec<&(Pos, Tile)> =
            entries.iter().filter(|(p, _)| *p == Pos::new(*x, *y)).collect();
        assert_eq!(found.len(), 1);
        assert_eq!(found[0].1.wall, i % 2 == 0);
    }
}
