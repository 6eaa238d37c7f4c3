//! An infinite, chunked, sparse 2-D tile grid.
//!
//! Tiles are addressed by arbitrary `i32` coordinates. Storage is a set of
//! fixed-size 16x16 chunks, each created lazily on the first insert that
//! falls into it, so a sparsely populated unbounded plane costs memory only
//! for the chunks actually touched. Chunking is an implementation detail:
//! the grid behaves exactly like a map from coordinates to tiles.

use crate::pos::Pos;
use crate::tile::Tile;
use vstd::arithmetic::div_mod::{
    lemma_fundamental_div_mod, lemma_fundamental_div_mod_converse, lemma_mod_bound,
};
use vstd::prelude::*;

verus! {

/// Every coordinate, moved into the non-negative range so that chunk and
/// offset fall out of plain Euclidean division.
pub open spec fn shifted(x: int) -> int {
    x + 0x8000_0000
}

/// Which 16-wide band of the (shifted) axis a coordinate lies in.
pub open spec fn chunk_coord(x: int) -> int {
    shifted(x) / 16
}

/// Where within its 16-wide band a coordinate lies.
pub open spec fn cell_offset(x: int) -> int {
    shifted(x) % 16
}

/// The chunk that owns a coordinate pair.
pub open spec fn chunk_of(p: Pos) -> (int, int) {
    (chunk_coord(p.x as int), chunk_coord(p.y as int))
}

/// The slot, within the owning chunk's 256 cells, that holds a coordinate.
pub open spec fn slot_index(p: Pos) -> int {
    cell_offset(p.x as int) + 16 * cell_offset(p.y as int)
}

/// One lazily allocated 16x16 block of cells.
struct Chunk {
    cx: u32,
    cy: u32,
    tiles: Vec<Option<Tile>>,
}

impl Chunk {
    spec fn wf(self) -> bool {
        &&& self.tiles@.len() == 256
        &&& self.cx < 0x1000_0000
        &&& self.cy < 0x1000_0000
    }
}

/// Sparse, unbounded tile storage with O(1) amortized insert and lookup.
/// Its abstract value (the view `@`) is a finite map from coordinates to
/// tiles.
pub struct Grid {
    chunks: Vec<Chunk>,
}

impl Grid {
    /// The chunks hold 256 cells each and no two chunks claim the same key.
    pub closed spec fn wf(self) -> bool {
        &&& forall|k: int| 0 <= k < self.chunks@.len() ==> (#[trigger] self.chunks@[k]).wf()
        &&& forall|k1: int, k2: int|
            #![trigger self.chunks@[k1], self.chunks@[k2]]
            0 <= k1 < k2 < self.chunks@.len() ==> !(self.chunks@[k1].cx == self.chunks@[k2].cx
                && self.chunks@[k1].cy == self.chunks@[k2].cy)
    }

    spec fn chunk_has(self, cx: int, cy: int) -> bool {
        exists|k: int|
            0 <= k < self.chunks@.len() && (#[trigger] self.chunks@[k]).cx == cx
                && self.chunks@[k].cy == cy
    }

    spec fn chunk_idx(self, cx: int, cy: int) -> int {
        choose|k: int|
            0 <= k < self.chunks@.len() && (#[trigger] self.chunks@[k]).cx == cx
                && self.chunks@[k].cy == cy
    }

    spec fn spec_tile(self, p: Pos) -> Option<Tile> {
        if self.chunk_has(chunk_of(p).0, chunk_of(p).1) {
            self.chunks@[self.chunk_idx(chunk_of(p).0, chunk_of(p).1)].tiles@[slot_index(p)]
        } else {
            None
        }
    }

    /// With distinct chunk keys, the index found for a key is the only one.
    proof fn lemma_chunk_idx_is(self, k: int)
        requires
            self.wf(),
            0 <= k < self.chunks@.len(),
        ensures
            self.chunk_has(self.chunks@[k].cx as int, self.chunks@[k].cy as int),
            self.chunk_idx(self.chunks@[k].cx as int, self.chunks@[k].cy as int) == k,
    {
        let cx = self.chunks@[k].cx as int;
        let cy = self.chunks@[k].cy as int;
        assert(self.chunk_has(cx, cy));
        let k2 = self.chunk_idx(cx, cy);
        if k2 != k {
            if k2 < k {
                assert(!(self.chunks@[k2].cx == self.chunks@[k].cx && self.chunks@[k2].cy
                    == self.chunks@[k].cy));
            } else {
                assert(!(self.chunks@[k].cx == self.chunks@[k2].cx && self.chunks@[k].cy
                    == self.chunks@[k2].cy));
            }
        }
    }
}

impl View for Grid {
    type V = Map<Pos, Tile>;

    closed spec fn view(&self) -> Map<Pos, Tile> {
        Map::new(
            |p: Pos| self.spec_tile(p) is Some,
            |p: Pos|
                match self.spec_tile(p) {
                    Some(t) => t,
                    None => Tile::blank(),
                },
        )
    }
}

/// The shifted coordinate and the chunk/offset decomposition recover the
/// coordinate: two coordinates in the same chunk and slot are equal.
pub proof fn lemma_coord_injective(p: Pos, q: Pos)
    requires
        chunk_of(p) == chunk_of(q),
        slot_index(p) == slot_index(q),
    ensures
        p == q,
{
    lemma_mod_bound(shifted(p.x as int), 16);
    lemma_mod_bound(shifted(p.y as int), 16);
    lemma_mod_bound(shifted(q.x as int), 16);
    lemma_mod_bound(shifted(q.y as int), 16);
    lemma_fundamental_div_mod_converse(
        slot_index(p),
        16,
        cell_offset(p.y as int),
        cell_offset(p.x as int),
    );
    lemma_fundamental_div_mod_converse(
        slot_index(q),
        16,
        cell_offset(q.y as int),
        cell_offset(q.x as int),
    );
    lemma_fundamental_div_mod(shifted(p.x as int), 16);
    lemma_fundamental_div_mod(shifted(p.y as int), 16);
    lemma_fundamental_div_mod(shifted(q.x as int), 16);
    lemma_fundamental_div_mod(shifted(q.y as int), 16);
}

/// Inserting at two coordinates that live in different chunks never
/// interferes: each lookup still sees its own tile.
pub proof fn lemma_insert_distinct_chunks(m: Map<Pos, Tile>, c1: Pos, c2: Pos, t1: Tile, t2: Tile)
    requires
        chunk_of(c1) != chunk_of(c2),
    ensures
        c1 != c2,
        m.insert(c1, t1).insert(c2, t2).contains_key(c1),
        m.insert(c1, t1).insert(c2, t2).contains_key(c2),
        m.insert(c1, t1).insert(c2, t2)[c1] == t1,
        m.insert(c1, t1).insert(c2, t2)[c2] == t2,
{
}

/// Move an `i32` coordinate into the non-negative shifted range.
fn shift_coord(x: i32) -> (r: u32)
    ensures
        r as int == shifted(x as int),
{
    ((x as i64) + 0x8000_0000i64) as u32
}

/// Undo `shift_coord`.
fn unshift_coord(s: u32) -> (r: i32)
    ensures
        shifted(r as int) == s as int,
{
    ((s as i64) - 0x8000_0000i64) as i32
}

/// Chunk key and slot of a coordinate pair, by machine arithmetic.
fn keys_of(p: Pos) -> (r: (u32, u32, usize))
    ensures
        r.0 as int == chunk_coord(p.x as int),
        r.1 as int == chunk_coord(p.y as int),
        r.2 as int == slot_index(p),
        r.0 < 0x1000_0000,
        r.1 < 0x1000_0000,
        r.2 < 256,
{
    let sx = shift_coord(p.x);
    let sy = shift_coord(p.y);
    let cx = sx / 16;
    let cy = sy / 16;
    let ox = sx % 16;
    let oy = sy % 16;
    proof {
        lemma_mod_bound(shifted(p.x as int), 16);
        lemma_mod_bound(shifted(p.y as int), 16);
    }
    (cx, cy, (ox + 16 * oy) as usize)
}

/// The coordinate pair that chunk key `(cx, cy)` and slot `si` stand for.
fn coord_of(cx: u32, cy: u32, si: usize) -> (p: Pos)
    requires
        cx < 0x1000_0000,
        cy < 0x1000_0000,
        si < 256,
    ensures
        chunk_of(p) == (cx as int, cy as int),
        slot_index(p) == si as int,
{
    let ox = (si % 16) as u32;
    let oy = (si / 16) as u32;
    let x = unshift_coord(cx * 16 + ox);
    let y = unshift_coord(cy * 16 + oy);
    proof {
        lemma_fundamental_div_mod(si as int, 16);
        lemma_fundamental_div_mod_converse(
            shifted(x as int),
            16,
            cx as int,
            ox as int,
        );
        lemma_fundamental_div_mod_converse(
            shifted(y as int),
            16,
            cy as int,
            oy as int,
        );
        lemma_fundamental_div_mod_converse(si as int, 16, oy as int, ox as int);
    }
    Pos { x, y }
}

impl Grid {
    /// An empty grid: no chunk allocated, no tile present.
    pub fn new() -> (g: Grid)
        ensures
            g.wf(),
            g@ == Map::<Pos, Tile>::empty(),
    {
        let g = Grid { chunks: Vec::new() };
        proof {
            assert(g@ =~= Map::<Pos, Tile>::empty());
        }
        g
    }

    /// Index of the chunk with key `(cx, cy)`, if one was ever created.
    fn find_chunk(&self, cx: u32, cy: u32) -> (r: Option<usize>)
        requires
            self.wf(),
        ensures
            match r {
                Some(k) => k < self.chunks@.len() && self.chunks@[k as int].cx == cx
                    && self.chunks@[k as int].cy == cy && self.chunk_idx(cx as int, cy as int)
                    == k as int && self.chunk_has(cx as int, cy as int),
                None => !self.chunk_has(cx as int, cy as int),
            },
    {
        let mut k: usize = 0;
        while k < self.chunks.len()
            invariant
                self.wf(),
                k <= self.chunks@.len(),
                forall|j: int|
                    0 <= j < k ==> !((#[trigger] self.chunks@[j]).cx == cx && self.chunks@[j].cy
                        == cy),
            decreases self.chunks@.len() - k,
        {
            if self.chunks[k].cx == cx && self.chunks[k].cy == cy {
                proof {
                    self.lemma_chunk_idx_is(k as int);
                }
                return Some(k);
            }
            k += 1;
        }
        None
    }

    /// Look up the tile at `pos`; absent if its chunk or its slot was never
    /// written.
    pub fn get(&self, pos: Pos) -> (r: Option<&Tile>)
        requires
            self.wf(),
        ensures
            match r {
                Some(t) => self@.contains_key(pos) && *t == self@[pos],
                None => !self@.contains_key(pos),
            },
    {
        let (cx, cy, si) = keys_of(pos);
        match self.find_chunk(cx, cy) {
            Some(k) => {
                match &self.chunks[k].tiles[si] {
                    Some(t) => Some(t),
                    None => None,
                }
            },
            None => None,
        }
    }

    /// Create or overwrite the tile at `pos`, allocating the owning chunk on
    /// first use.
    pub fn insert(&mut self, pos: Pos, tile: Tile)
        requires
            old(self).wf(),
        ensures
            final(self).wf(),
            final(self)@ == old(self)@.insert(pos, tile),
    {
        let (cx, cy, si) = keys_of(pos);
        let k = match self.find_chunk(cx, cy) {
            Some(k) => k,
            None => {
                let mut tiles: Vec<Option<Tile>> = Vec::new();
                let mut c: usize = 0;
                while c < 256
                    invariant
                        c <= 256,
                        tiles@.len() == c,
                        forall|j: int| 0 <= j < c ==> tiles@[j] is None,
                    decreases 256 - c,
                {
                    tiles.push(None);
                    c += 1;
                }
                self.chunks.push(Chunk { cx, cy, tiles });
                proof {
                    let n = self.chunks@.len() - 1;
                    assert(self.chunks@.subrange(0, n) =~= old(self).chunks@);
                    assert(self.chunks@[n].wf());
                    assert forall|q: Pos| old(self).spec_tile(q) == self.spec_tile(q) by {
                        self.lemma_spec_tile_after_push(*old(self), q);
                    }
                }
                self.chunks.len() - 1
            },
        };
        proof {
            self.lemma_chunk_idx_is(k as int);
        }
        let ghost pre = *self;
        self.chunks[k].tiles[si] = Some(tile);
        proof {
            assert forall|j: int|
                0 <= j < self.chunks@.len() && j != k ==> self.chunks@[j] == pre.chunks@[j] by {}
            assert(self.wf());
            assert forall|q: Pos| #[trigger] self.spec_tile(q) == if q == pos {
                Some(tile)
            } else {
                pre.spec_tile(q)
            } by {
                self.lemma_spec_tile_after_set(pre, k as int, si as int, pos, tile, q);
            }
            assert(self@ =~= old(self)@.insert(pos, tile));
        }
    }

    /// Pushing a fresh chunk full of empty slots changes no lookup.
    proof fn lemma_spec_tile_after_push(self, pre: Grid, q: Pos)
        requires
            pre.wf(),
            self.chunks@.len() == pre.chunks@.len() + 1,
            self.chunks@.subrange(0, pre.chunks@.len() as int) == pre.chunks@,
            forall|j: int|
                0 <= j < 256 ==> (#[trigger] self.chunks@[pre.chunks@.len() as int].tiles@[j])
                    is None,
            self.chunks@[pre.chunks@.len() as int].tiles@.len() == 256,
            !pre.chunk_has(
                self.chunks@[pre.chunks@.len() as int].cx as int,
                self.chunks@[pre.chunks@.len() as int].cy as int,
            ),
            self.wf(),
        ensures
            pre.spec_tile(q) == self.spec_tile(q),
    {
        let n = pre.chunks@.len() as int;
        let cc = chunk_of(q);
        assert forall|j: int| 0 <= j < n implies self.chunks@[j] == pre.chunks@[j] by {
            assert(self.chunks@.subrange(0, n)[j] == self.chunks@[j]);
        }
        if pre.chunk_has(cc.0, cc.1) {
            let k = pre.chunk_idx(cc.0, cc.1);
            assert(pre.chunks@[k].cx == cc.0 && pre.chunks@[k].cy == cc.1);
            assert(self.chunks@[k] == pre.chunks@[k]);
            self.lemma_chunk_idx_is(k);
            lemma_slot_in_range(q);
        } else {
            if self.chunk_has(cc.0, cc.1) {
                let k = self.chunk_idx(cc.0, cc.1);
                if k < n {
                    assert(pre.chunk_has(cc.0, cc.1));
                } else {
                    assert(k == n);
                    lemma_slot_in_range(q);
                }
            }
        }
    }

    /// Overwriting one slot of one chunk changes exactly the lookup of the
    /// coordinate that chunk and slot stand for.
    proof fn lemma_spec_tile_after_set(
        self,
        pre: Grid,
        k: int,
        si: int,
        pos: Pos,
        tile: Tile,
        q: Pos,
    )
        requires
            pre.wf(),
            self.wf(),
            0 <= k < pre.chunks@.len(),
            self.chunks@.len() == pre.chunks@.len(),
            forall|j: int| 0 <= j < pre.chunks@.len() && j != k ==> self.chunks@[j]
                == pre.chunks@[j],
            self.chunks@[k].cx == pre.chunks@[k].cx,
            self.chunks@[k].cy == pre.chunks@[k].cy,
            self.chunks@[k].tiles@ == pre.chunks@[k].tiles@.update(si, Some(tile)),
            pre.chunks@[k].cx as int == chunk_of(pos).0,
            pre.chunks@[k].cy as int == chunk_of(pos).1,
            si == slot_index(pos),
        ensures
            self.spec_tile(q) == if q == pos {
                Some(tile)
            } else {
                pre.spec_tile(q)
            },
    {
        let cc = chunk_of(q);
        lemma_slot_in_range(q);
        lemma_slot_in_range(pos);
        if cc == chunk_of(pos) {
            pre.lemma_chunk_idx_is(k);
            self.lemma_chunk_idx_is(k);
            if q == pos {
            } else {
                assert(slot_index(q) != slot_index(pos)) by {
                    if slot_index(q) == slot_index(pos) {
                        lemma_coord_injective(q, pos);
                    }
                }
            }
        } else {
            if pre.chunk_has(cc.0, cc.1) {
                let j = pre.chunk_idx(cc.0, cc.1);
                pre.lemma_chunk_idx_is(j);
                assert(j != k);
                assert(self.chunks@[j] == pre.chunks@[j]);
                self.lemma_chunk_idx_is(j);
            } else {
                assert(!self.chunk_has(cc.0, cc.1)) by {
                    if self.chunk_has(cc.0, cc.1) {
                        let j = self.chunk_idx(cc.0, cc.1);
                        assert(j != k);
                        assert(pre.chunks@[j] == self.chunks@[j]);
                    }
                }
            }
        }
    }

    /// Every tile ever inserted, each exactly once. Iteration order is
    /// stable within one pass but otherwise unspecified.
    pub fn entries(&self) -> (r: Vec<(Pos, Tile)>)
        requires
            self.wf(),
        ensures
            forall|a: int, b: int|
                #![trigger r@[a], r@[b]]
                0 <= a < b < r@.len() ==> r@[a].0 != r@[b].0,
            forall|k: int|
                0 <= k < r@.len() ==> self@.contains_key((#[trigger] r@[k]).0) && r@[k].1
                    == self@[r@[k].0],
            forall|p: Pos| #[trigger]
                self@.contains_key(p) ==> exists|k: int|
                    0 <= k < r@.len() && (#[trigger] r@[k]).0 == p,
    {
        let mut r: Vec<(Pos, Tile)> = Vec::new();
        let mut ci: usize = 0;
        while ci < self.chunks.len()
            invariant
                self.wf(),
                ci <= self.chunks@.len(),
                forall|k: int|
                    0 <= k < r@.len() ==> self.covered(ci as int, 0, (#[trigger] r@[k]).0),
                forall|k: int|
                    0 <= k < r@.len() ==> self@.contains_key((#[trigger] r@[k]).0) && r@[k].1
                        == self@[r@[k].0],
                forall|a: int, b: int|
                    #![trigger r@[a], r@[b]]
                    0 <= a < b < r@.len() ==> r@[a].0 != r@[b].0,
                forall|p: Pos| #[trigger]
                    self@.contains_key(p) && self.covered(ci as int, 0, p) ==> exists|k: int|
                        0 <= k < r@.len() && (#[trigger] r@[k]).0 == p,
            decreases self.chunks@.len() - ci,
        {
            let mut si: usize = 0;
            while si < 256
                invariant
                    self.wf(),
                    ci < self.chunks@.len(),
                    si <= 256,
                    forall|k: int|
                        0 <= k < r@.len() ==> self.covered(
                            ci as int,
                            si as int,
                            (#[trigger] r@[k]).0,
                        ),
                    forall|k: int|
                        0 <= k < r@.len() ==> self@.contains_key((#[trigger] r@[k]).0) && r@[k].1
                            == self@[r@[k].0],
                    forall|a: int, b: int|
                        #![trigger r@[a], r@[b]]
                        0 <= a < b < r@.len() ==> r@[a].0 != r@[b].0,
                    forall|p: Pos| #[trigger]
                        self@.contains_key(p) && self.covered(ci as int, si as int, p) ==> exists|
                            k: int,
                        | 0 <= k < r@.len() && (#[trigger] r@[k]).0 == p,
                decreases 256 - si,
            {
                let c = &self.chunks[ci];
                let p = coord_of(c.cx, c.cy, si);
                proof {
                    self.lemma_chunk_idx_is(ci as int);
                    assert(self.spec_tile(p) == self.chunks@[ci as int].tiles@[si as int]);
                    assert(!self.covered(ci as int, si as int, p));
                }
                let ghost r0 = r@;
                if let Some(t) = &c.tiles[si] {
                    r.push((p, *t));
                }
                proof {
                    // Any cell covered once this slot is done is either an
                    // already-covered cell or exactly this one.
                    assert forall|q: Pos| #[trigger]
                        self.covered(ci as int, si as int + 1, q) && !self.covered(
                            ci as int,
                            si as int,
                            q,
                        ) implies q == p by {
                        let cc = chunk_of(q);
                        assert(self.chunk_idx(cc.0, cc.1) == ci as int);
                        assert(slot_index(q) == si as int);
                        assert(chunk_of(q) == chunk_of(p));
                        lemma_coord_injective(q, p);
                    }
                    assert forall|k: int|
                        0 <= k < r@.len() implies self.covered(
                        ci as int,
                        si as int + 1,
                        (#[trigger] r@[k]).0,
                    ) by {
                        if k < r0.len() {
                            assert(r@[k] == r0[k]);
                            assert(self.covered(ci as int, si as int, r0[k].0));
                        } else {
                            assert(r@[k].0 == p);
                        }
                    }
                    assert forall|a: int, b: int|
                        #![trigger r@[a], r@[b]]
                        0 <= a < b < r@.len() implies r@[a].0 != r@[b].0 by {
                        if b < r0.len() {
                            assert(r@[a] == r0[a] && r@[b] == r0[b]);
                        } else if r@.len() > r0.len() && b == r0.len() {
                            assert(r@[a] == r0[a]);
                            assert(self.covered(ci as int, si as int, r0[a].0));
                            assert(r@[b].0 == p);
                        }
                    }
                    assert forall|q: Pos| #[trigger]
                        self@.contains_key(q) && self.covered(ci as int, si as int + 1, q)
                        implies exists|k: int| 0 <= k < r@.len() && (#[trigger] r@[k]).0 == q by {
                        if self.covered(ci as int, si as int, q) {
                            let k = choose|k: int| 0 <= k < r0.len() && (#[trigger] r0[k]).0 == q;
                            assert(r@[k] == r0[k]);
                            assert(r@[k].0 == q);
                        } else {
                            assert(q == p);
                            assert(self.spec_tile(q) is Some);
                            assert(r@[r0.len() as int].0 == q);
                        }
                    }
                }
                si += 1;
            }
            proof {
                assert forall|q: Pos| #[trigger]
                    self.covered(ci as int + 1, 0, q) implies self.covered(ci as int, 256, q) by {
                    if self.chunk_has(chunk_of(q).0, chunk_of(q).1) {
                        lemma_slot_in_range(q);
                    }
                }
            }
            ci += 1;
        }
        proof {
            assert forall|p: Pos| #[trigger]
                self@.contains_key(p) implies self.covered(self.chunks@.len() as int, 0, p) by {
                let cc = chunk_of(p);
                assert(self.chunk_has(cc.0, cc.1));
            }
        }
        r
    }

    /// The cells already walked by `entries`: everything in a chunk before
    /// `ci`, or in chunk `ci` at a slot before `si`.
    spec fn covered(self, ci: int, si: int, p: Pos) -> bool {
        let cc = chunk_of(p);
        self.chunk_has(cc.0, cc.1) && {
            let k = self.chunk_idx(cc.0, cc.1);
            k < ci || (k == ci && slot_index(p) < si)
        }
    }
}

/// The slot of any coordinate lies in `[0, 256)`.
proof fn lemma_slot_in_range(p: Pos)
    ensures
        0 <= slot_index(p) < 256,
        0 <= cell_offset(p.x as int) < 16,
        0 <= cell_offset(p.y as int) < 16,
{
    lemma_mod_bound(shifted(p.x as int), 16);
    lemma_mod_bound(shifted(p.y as int), 16);
}

} // verus!
