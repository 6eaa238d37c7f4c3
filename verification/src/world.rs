//! The single authoritative copy of the world: grid, things, and the
//! player roster.

use crate::grid::Grid;
use crate::pos::Pos;
use crate::store::{Handle, Store};
use crate::thing::{has_class_in, str_has_class, Thing};
use crate::tile::Tile;
use vstd::prelude::*;

verus! {

/// One known player, created lazily on the first join with their UUID.
/// `thing` is the handle of the player's avatar, once one was spawned; it
/// outlives the connection so a reconnect with the same UUID resumes it.
#[derive(Clone, Copy, Debug)]
pub struct Player {
    pub thing: Option<Handle>,
}

impl Default for Player {
    fn default() -> (p: Player)
        ensures
            p.thing is None,
    {
        Player { thing: None }
    }
}

/// The authoritative world state. Only the server loop mutates it; outbound
/// messages are built from it.
pub struct State {
    pub grid: Grid,
    pub things: Store,
    pub players: Vec<(u128, Player)>,
}

impl State {
    /// The player roster as a map keyed by the 128-bit UUID value.
    pub open spec fn players_map(self) -> Map<u128, Player> {
        Map::new(
            |id: u128|
                exists|k: int|
                    0 <= k < self.players@.len() && (#[trigger] self.players@[k]).0 == id,
            |id: u128|
                self.players@[choose|k: int|
                    0 <= k < self.players@.len() && (#[trigger] self.players@[k]).0 == id].1,
        )
    }

    /// At most one roster entry per UUID.
    pub open spec fn players_wf(self) -> bool {
        forall|k1: int, k2: int|
            #![trigger self.players@[k1], self.players@[k2]]
            0 <= k1 < k2 < self.players@.len() ==> self.players@[k1].0 != self.players@[k2].0
    }

    /// Grid and store are well-formed, roster keys are unique, and every
    /// assigned thing handle resolves to a live thing.
    pub open spec fn wf(self) -> bool {
        &&& self.grid.wf()
        &&& self.things.wf()
        &&& self.players_wf()
        &&& forall|id: u128| #[trigger]
            self.players_map().contains_key(id) ==> match self.players_map()[id].thing {
                Some(h) => self.things.contents().contains_key(h),
                None => true,
            }
    }

    /// With unique keys, entry `k` is exactly what the roster map says
    /// about its UUID.
    proof fn lemma_player_at(self, k: int)
        requires
            self.players_wf(),
            0 <= k < self.players@.len(),
        ensures
            self.players_map().contains_key(self.players@[k].0),
            self.players_map()[self.players@[k].0] == self.players@[k].1,
    {
        let id = self.players@[k].0;
        assert(self.players_map().contains_key(id));
        let k2 = choose|k2: int|
            0 <= k2 < self.players@.len() && (#[trigger] self.players@[k2]).0 == id;
        if k2 != k {
            if k2 < k {
                assert(self.players@[k2].0 != self.players@[k].0);
            } else {
                assert(self.players@[k].0 != self.players@[k2].0);
            }
        }
    }

    /// An empty world: no tiles, no things, no players.
    pub fn new() -> (s: State)
        ensures
            s.wf(),
            s.grid@ == Map::<Pos, Tile>::empty(),
            s.things.contents() == Map::<Handle, Thing>::empty(),
            s.players_map() == Map::<u128, Player>::empty(),
            s.things.spec_can_insert(),
    {
        let s = State { grid: Grid::new(), things: Store::new(), players: Vec::new() };
        proof {
            assert(s.players_map() =~= Map::<u128, Player>::empty());
        }
        s
    }

    /// Index of the roster entry for `id`, if the player is known.
    fn find_player(&self, id: u128) -> (r: Option<usize>)
        requires
            self.players_wf(),
        ensures
            match r {
                Some(k) => k < self.players@.len() && self.players@[k as int].0 == id
                    && self.players_map().contains_key(id) && self.players_map()[id]
                    == self.players@[k as int].1,
                None => !self.players_map().contains_key(id),
            },
    {
        let mut k: usize = 0;
        while k < self.players.len()
            invariant
                self.players_wf(),
                k <= self.players@.len(),
                forall|j: int| 0 <= j < k ==> (#[trigger] self.players@[j]).0 != id,
            decreases self.players@.len() - k,
        {
            if self.players[k].0 == id {
                proof {
                    self.lemma_player_at(k as int);
                }
                return Some(k);
            }
            k += 1;
        }
        None
    }

    /// The roster record for `id`, if the player is known.
    pub fn get_player(&self, id: u128) -> (r: Option<Player>)
        requires
            self.wf(),
        ensures
            r == if self.players_map().contains_key(id) {
                Some(self.players_map()[id])
            } else {
                None::<Player>
            },
    {
        match self.find_player(id) {
            Some(k) => Some(self.players[k].1),
            None => None,
        }
    }

    /// Create the roster record for `id` if it does not exist yet; an
    /// existing record (and everything else) is left untouched.
    pub fn ensure_player(&mut self, id: u128)
        requires
            old(self).wf(),
        ensures
            final(self).wf(),
            final(self).players_map() == if old(self).players_map().contains_key(id) {
                old(self).players_map()
            } else {
                old(self).players_map().insert(id, (Player { thing: None }))
            },
            final(self).players_map().contains_key(id),
            final(self).grid == old(self).grid,
            final(self).things == old(self).things,
    {
        match self.find_player(id) {
            Some(_) => {},
            None => {
                self.players.push((id, Player { thing: None }));
                proof {
                    let n = self.players@.len() - 1;
                    assert forall|k: int| 0 <= k < n implies self.players@[k]
                        == old(self).players@[k] by {}
                    assert forall|id2: u128| #[trigger]
                        old(self).players_map().contains_key(id2)
                        implies self.players_map().contains_key(id2) && self.players_map()[id2]
                        == old(self).players_map()[id2] by {
                        let k = choose|k: int|
                            0 <= k < old(self).players@.len() && (#[trigger] old(
                                self,
                            ).players@[k]).0 == id2;
                        old(self).lemma_player_at(k);
                        self.lemma_player_at(k);
                    }
                    self.lemma_player_at(n);
                    assert forall|id2: u128| #[trigger]
                        self.players_map().contains_key(id2) && id2 != id
                        implies old(self).players_map().contains_key(id2) by {
                        let k = choose|k: int|
                            0 <= k < self.players@.len() && (#[trigger] self.players@[k]).0 == id2;
                        assert(k != n);
                        old(self).lemma_player_at(k);
                    }
                    assert(self.players_map() =~= old(self).players_map().insert(
                        id,
                        (Player { thing: None }),
                    ));
                }
            },
        }
    }

    /// Record `h` as the assigned thing of the (known) player `id`.
    pub fn assign_player_thing(&mut self, id: u128, h: Handle)
        requires
            old(self).wf(),
            old(self).players_map().contains_key(id),
            old(self).things.contents().contains_key(h),
        ensures
            final(self).wf(),
            final(self).players_map() == old(self).players_map().insert(
                id,
                (Player { thing: Some(h) }),
            ),
            final(self).grid == old(self).grid,
            final(self).things == old(self).things,
    {
        let k = match self.find_player(id) {
            Some(k) => k,
            None => {
                proof {
                    assert(false);
                }
                0
            },
        };
        self.players[k].1 = Player { thing: Some(h) };
        proof {
            assert forall|j: int|
                0 <= j < self.players@.len() && j != k ==> self.players@[j]
                    == old(self).players@[j] by {}
            assert(self.players@[k as int].0 == id);
            assert forall|id2: u128| #[trigger]
                self.players_map().contains_key(id2)
                implies old(self).players_map().contains_key(id2) && (id2 != id
                ==> self.players_map()[id2] == old(self).players_map()[id2]) by {
                let j = choose|j: int|
                    0 <= j < self.players@.len() && (#[trigger] self.players@[j]).0 == id2;
                old(self).lemma_player_at(j);
                self.lemma_player_at(j);
            }
            assert forall|id2: u128| #[trigger]
                old(self).players_map().contains_key(id2)
                implies self.players_map().contains_key(id2) by {
                let j = choose|j: int|
                    0 <= j < old(self).players@.len() && (#[trigger] old(self).players@[j]).0
                        == id2;
                self.lemma_player_at(j);
            }
            self.lemma_player_at(k as int);
            assert(self.players_map() =~= old(self).players_map().insert(
                id,
                (Player { thing: Some(h) }),
            ));
        }
    }

    /// Add a dynamic entity to the world and return its handle.
    pub fn spawn_entity(&mut self, entity: Thing) -> (h: Handle)
        requires
            old(self).wf(),
            old(self).things.spec_can_insert(),
        ensures
            final(self).wf(),
            !old(self).things.contents().contains_key(h),
            final(self).things.contents() == old(self).things.contents().insert(h, entity),
            final(self).grid == old(self).grid,
            final(self).players_map() == old(self).players_map(),
    {
        self.things.insert(entity)
    }

    /// What map seeding does to the store when the cell carries `"entity"`:
    /// exactly one new thing appears, at the cell, with the cell's classes,
    /// visible.
    pub open spec fn thing_seeded(
        pre: Map<Handle, Thing>,
        post: Map<Handle, Thing>,
        pos: Pos,
        classes: Seq<char>,
    ) -> bool {
        exists|h: Handle|
            {
                &&& !pre.contains_key(h)
                &&& #[trigger] post.contains_key(h)
                &&& post == pre.insert(h, post[h])
                &&& post[h].pos == pos
                &&& post[h].classes@ == classes
                &&& post[h].visible
            }
    }

    /// Seed one authored map cell into the world, from the classification
    /// tag string the map loader reports for it: `"tile"` creates the tile
    /// (a wall when also tagged `"wall"`), `"entity"` creates a thing
    /// carrying the full tag string.
    pub fn seed(&mut self, pos: Pos, classes: &str)
        requires
            old(self).wf(),
            has_class_in(classes@, "entity"@) ==> old(self).things.spec_can_insert(),
        ensures
            final(self).wf(),
            final(self).grid@ == if has_class_in(classes@, "tile"@) {
                old(self).grid@.insert(
                    pos,
                    (Tile { wall: has_class_in(classes@, "wall"@), visible: true }),
                )
            } else {
                old(self).grid@
            },
            has_class_in(classes@, "entity"@) ==> State::thing_seeded(
                old(self).things.contents(),
                final(self).things.contents(),
                pos,
                classes@,
            ),
            !has_class_in(classes@, "entity"@) ==> final(self).things == old(self).things,
            final(self).players_map() == old(self).players_map(),
    {
        if str_has_class(classes, "tile") {
            let wall = str_has_class(classes, "wall");
            self.grid.insert(pos, Tile { wall, visible: true });
        }
        if str_has_class(classes, "entity") {
            let t = Thing { pos, classes: classes.to_owned(), visible: true };
            let h = self.spawn_entity(t);
            proof {
                assert(self.things.contents().contains_key(h));
            }
        }
    }
}

} // verus!
