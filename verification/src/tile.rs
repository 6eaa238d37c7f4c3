//! Tiles and the merge semantics of incremental tile updates.

use vstd::prelude::*;

verus! {

/// One cell of the world: whether it blocks movement and whether it has been
/// revealed to the viewer. At most one tile exists per integer coordinate.
#[derive(Clone, Copy, PartialEq, Eq, Structural, Debug)]
pub struct Tile {
    pub wall: bool,
    pub visible: bool,
}

impl Tile {
    /// The state of a tile that has never been described by any message.
    pub open spec fn blank() -> Tile {
        Tile { wall: false, visible: false }
    }
}

impl Default for Tile {
    fn default() -> (t: Tile)
        ensures
            t == Tile::blank(),
    {
        Tile { wall: false, visible: false }
    }
}

/// What a tile looks like after an incremental update: a field present in the
/// update replaces the old value, an absent field keeps it ("absent means
/// unchanged", not "false").
pub open spec fn merged_tile(t: Tile, wall: Option<bool>, visible: Option<bool>) -> Tile {
    Tile {
        wall: match wall {
            Some(w) => w,
            None => t.wall,
        },
        visible: match visible {
            Some(v) => v,
            None => t.visible,
        },
    }
}

/// Apply an incremental update to a tile in place.
pub fn apply_tile_update(t: &mut Tile, wall: Option<bool>, visible: Option<bool>)
    ensures
        *final(t) == merged_tile(*old(t), wall, visible),
{
    if let Some(w) = wall {
        t.wall = w;
    }
    if let Some(v) = visible {
        t.visible = v;
    }
}

/// An update that carries no fields never changes a tile, no matter how many
/// times it is applied.
pub proof fn lemma_tile_merge_empty(t: Tile)
    ensures
        merged_tile(t, None, None) == t,
{
}

/// The field-wise combination of two updates applied in order: a field of the
/// later update wins, an absent one falls back to the earlier update.
pub open spec fn combined_field(first: Option<bool>, second: Option<bool>) -> Option<bool> {
    match second {
        Some(b) => Some(b),
        None => first,
    }
}

/// Applying two updates one after the other has the same effect as applying
/// their combination in a single message.
pub proof fn lemma_tile_merge_compose(
    t: Tile,
    w1: Option<bool>,
    v1: Option<bool>,
    w2: Option<bool>,
    v2: Option<bool>,
)
    ensures
        merged_tile(merged_tile(t, w1, v1), w2, v2) == merged_tile(
            t,
            combined_field(w1, w2),
            combined_field(v1, v2),
        ),
{
}

/// Setting the wall flag and then the visible flag in two separate updates
/// leaves the tile with both flags set, exactly as one combined update would.
pub proof fn lemma_tile_merge_wall_then_visible(t: Tile)
    ensures
        ({
            let r = merged_tile(merged_tile(t, Some(true), None), None, Some(true));
            r == merged_tile(t, Some(true), Some(true)) && r.wall && r.visible
        }),
{
}

} // verus!
