//! Chunk streaming around the viewer: which chunks to request, which requests
//! have turned into loaded chunks, and which chunks to drop once the viewer has
//! moved on.  Generating a chunk, spawning and despawning its entity are done by
//! the caller; `E` is the caller's handle of a loaded chunk and `T` that of a
//! chunk still being generated.

use vstd::prelude::*;
use crate::coord_map::{
    ChunkCoord,
    CoordMap,
    chebyshev,
    entries_map,
    keys_unique,
    lemma_entries_map_dom,
    within,
};
use crate::height_cache::HeightCache;

verus! {

/// Chunks kept loaded in each direction around the viewer's chunk.
pub const VIEW_DISTANCE: i32 = 6;

/// Extra chunks a loaded chunk may lie beyond the view before it is dropped.
pub const DESPAWN_MARGIN: i32 = 1;

/// Whether `c` lies in the square of chunks around `center` that is kept loaded.
pub open spec fn in_view(center: ChunkCoord, c: ChunkCoord) -> bool {
    chebyshev(c, center) <= VIEW_DISTANCE
}

/// Position of `c` in the row-by-row scan of the view square around `center`.
pub open spec fn view_position(center: ChunkCoord, c: ChunkCoord) -> int {
    (c.1 - center.1 + VIEW_DISTANCE) * (2 * VIEW_DISTANCE + 1) + (c.0 - center.0 + VIEW_DISTANCE)
}

/// The component that marks a spawned terrain chunk with its coordinate.
#[derive(Clone, Copy, Debug)]
pub struct TerrainChunk {
    pub coord: ChunkCoord,
}

/// Keys of the first `i` entries.
pub open spec fn prefix_keys<V>(s: Seq<(ChunkCoord, V)>, i: int) -> Set<ChunkCoord> {
    Set::new(|k: ChunkCoord| exists|j: int| 0 <= j < i && s[j].0 == k)
}

/// Whether one of the entries from position `from` on carries coordinate `c`.
pub open spec fn carries_from<E, H>(ready: Seq<(ChunkCoord, E, Vec<H>)>, from: int, c: ChunkCoord) -> bool {
    exists|j: int| from <= j < ready.len() && ready[j].0 == c
}

/// Loaded chunks and chunks being generated.
pub struct LoadedChunks<E, T> {
    chunks: CoordMap<E>,
    pending: CoordMap<T>,
}

impl<E, T> LoadedChunks<E, T> {
    /// Loaded chunks by coordinate.
    pub closed spec fn loaded(&self) -> Map<ChunkCoord, E> {
        self.chunks@
    }

    /// Chunks being generated, by coordinate.
    pub closed spec fn requested(&self) -> Map<ChunkCoord, T> {
        self.pending@
    }

    /// Each coordinate occurs once, and never both loaded and being generated.
    pub closed spec fn wf(&self) -> bool {
        &&& self.chunks.wf()
        &&& self.pending.wf()
        &&& forall|c: ChunkCoord| !(#[trigger] self.chunks@.contains_key(c) && self.pending@.contains_key(c))
    }

    /// Whether chunk `c` is loaded or being generated.
    pub open spec fn knows(&self, c: ChunkCoord) -> bool {
        self.loaded().contains_key(c) || self.requested().contains_key(c)
    }

    /// The collision cache holds heights of loaded chunks only.
    pub open spec fn covers_cache<H>(&self, cache: &HeightCache<H>) -> bool {
        cache@.dom().subset_of(self.loaded().dom())
    }

    /// The collision cache holds heights for exactly the loaded chunks.
    pub open spec fn matches_cache<H>(&self, cache: &HeightCache<H>) -> bool {
        cache@.dom() == self.loaded().dom()
    }

    /// Nothing loaded, nothing requested.
    pub fn new() -> (s: Self)
        ensures
            s.wf(),
            s.loaded() == Map::<ChunkCoord, E>::empty(),
            s.requested() == Map::<ChunkCoord, T>::empty(),
    {
        LoadedChunks { chunks: CoordMap::new(), pending: CoordMap::new() }
    }

    /// Whether chunk `c` is loaded or being generated.
    pub fn is_known(&self, c: ChunkCoord) -> (r: bool)
        requires
            self.wf(),
        ensures
            r == self.knows(c),
    {
        self.chunks.contains_key(c) || self.pending.contains_key(c)
    }

    /// The handle of loaded chunk `c`.
    pub fn chunk(&self, c: ChunkCoord) -> (r: Option<&E>)
        requires
            self.wf(),
        ensures
            match r {
                Some(e) => self.loaded().contains_key(c) && *e == self.loaded()[c],
                None => !self.loaded().contains_key(c),
            },
    {
        self.chunks.get(c)
    }

    /// Number of loaded chunks.
    pub fn loaded_count(&self) -> (n: usize)
        requires
            self.wf(),
        ensures
            n == self.loaded().len(),
    {
        self.chunks.len()
    }

    /// Number of chunks being generated.
    pub fn pending_count(&self) -> (n: usize)
        requires
            self.wf(),
        ensures
            n == self.requested().len(),
    {
        self.pending.len()
    }

    /// Coordinates of the chunks being generated, each once.
    pub fn pending_coords(&self) -> (ks: Vec<ChunkCoord>)
        requires
            self.wf(),
        ensures
            ks@.no_duplicates(),
            ks@.to_set() == self.requested().dom(),
    {
        self.pending.keys()
    }

    /// Coordinates of the loaded chunks, each once.
    pub fn loaded_coords(&self) -> (ks: Vec<ChunkCoord>)
        requires
            self.wf(),
        ensures
            ks@.no_duplicates(),
            ks@.to_set() == self.loaded().dom(),
    {
        self.chunks.keys()
    }

    /// The chunks of the view around `(cx, cz)` that are neither loaded nor being
    /// generated, scanning the view row by row (rows along z, then columns along x).
    pub fn chunks_to_request(&self, cx: i32, cz: i32) -> (r: Vec<ChunkCoord>)
        requires
            self.wf(),
            i32::MIN + VIEW_DISTANCE <= cx <= i32::MAX - VIEW_DISTANCE,
            i32::MIN + VIEW_DISTANCE <= cz <= i32::MAX - VIEW_DISTANCE,
        ensures
            forall|i: int|
                0 <= i < r@.len() ==> in_view((cx, cz), #[trigger] r@[i]) && !self.knows(r@[i]),
            forall|c: ChunkCoord| in_view((cx, cz), c) && !self.knows(c) ==> r@.contains(c),
            forall|i: int, j: int|
                0 <= i < j < r@.len() ==> view_position((cx, cz), #[trigger] r@[i])
                    < view_position((cx, cz), #[trigger] r@[j]),
    {
        let ghost center: ChunkCoord = (cx, cz);
        let mut r: Vec<ChunkCoord> = Vec::new();
        let mut dz: i32 = -VIEW_DISTANCE;
        while dz <= VIEW_DISTANCE
            invariant
                self.wf(),
                center == (cx, cz),
                i32::MIN + VIEW_DISTANCE <= cx <= i32::MAX - VIEW_DISTANCE,
                i32::MIN + VIEW_DISTANCE <= cz <= i32::MAX - VIEW_DISTANCE,
                -VIEW_DISTANCE <= dz <= VIEW_DISTANCE + 1,
                forall|i: int|
                    0 <= i < r@.len() ==> in_view(center, #[trigger] r@[i]) && !self.knows(r@[i])
                        && view_position(center, r@[i]) < (dz + VIEW_DISTANCE) * (2 * VIEW_DISTANCE
                        + 1),
                forall|c: ChunkCoord|
                    in_view(center, c) && !self.knows(c) && view_position(center, c) < (dz
                        + VIEW_DISTANCE) * (2 * VIEW_DISTANCE + 1) ==> r@.contains(c),
                forall|i: int, j: int|
                    0 <= i < j < r@.len() ==> view_position(center, #[trigger] r@[i])
                        < view_position(center, #[trigger] r@[j]),
            decreases VIEW_DISTANCE + 1 - dz,
        {
            let mut dx: i32 = -VIEW_DISTANCE;
            while dx <= VIEW_DISTANCE
                invariant
                    self.wf(),
                    center == (cx, cz),
                    i32::MIN + VIEW_DISTANCE <= cx <= i32::MAX - VIEW_DISTANCE,
                    i32::MIN + VIEW_DISTANCE <= cz <= i32::MAX - VIEW_DISTANCE,
                    -VIEW_DISTANCE <= dz <= VIEW_DISTANCE,
                    -VIEW_DISTANCE <= dx <= VIEW_DISTANCE + 1,
                    forall|i: int|
                        0 <= i < r@.len() ==> in_view(center, #[trigger] r@[i]) && !self.knows(
                            r@[i],
                        ) && view_position(center, r@[i]) < (dz + VIEW_DISTANCE) * (2
                            * VIEW_DISTANCE + 1) + dx + VIEW_DISTANCE,
                    forall|c: ChunkCoord|
                        in_view(center, c) && !self.knows(c) && view_position(center, c) < (dz
                            + VIEW_DISTANCE) * (2 * VIEW_DISTANCE + 1) + dx + VIEW_DISTANCE
                            ==> r@.contains(c),
                    forall|i: int, j: int|
                        0 <= i < j < r@.len() ==> view_position(center, #[trigger] r@[i])
                            < view_position(center, #[trigger] r@[j]),
                decreases VIEW_DISTANCE + 1 - dx,
            {
                let coord: ChunkCoord = (cx + dx, cz + dz);
                let ghost before = r@;
                if !self.is_known(coord) {
                    r.push(coord);
                    proof {
                        assert forall|c: ChunkCoord|
                            in_view(center, c) && !self.knows(c) && view_position(center, c) < (dz
                                + VIEW_DISTANCE) * (2 * VIEW_DISTANCE + 1) + dx + 1
                                + VIEW_DISTANCE implies r@.contains(c) by {
                            if view_position(center, c) == (dz + VIEW_DISTANCE) * (2
                                * VIEW_DISTANCE + 1) + dx + VIEW_DISTANCE {
                                lemma_view_position_injective(center, c, coord);
                                assert(r@[r@.len() - 1] == coord);
                            } else {
                                assert(before.contains(c));
                                let k = choose|k: int| 0 <= k < before.len() && before[k] == c;
                                assert(r@[k] == c);
                            }
                        }
                    }
                } else {
                    proof {
                        assert forall|c: ChunkCoord|
                            in_view(center, c) && !self.knows(c) && view_position(center, c) < (dz
                                + VIEW_DISTANCE) * (2 * VIEW_DISTANCE + 1) + dx + 1
                                + VIEW_DISTANCE implies r@.contains(c) by {
                            if view_position(center, c) == (dz + VIEW_DISTANCE) * (2
                                * VIEW_DISTANCE + 1) + dx + VIEW_DISTANCE {
                                lemma_view_position_injective(center, c, coord);
                            }
                        }
                    }
                }
                dx = dx + 1;
            }
            assert((dz + 1 + VIEW_DISTANCE) * (2 * VIEW_DISTANCE + 1) == (dz + VIEW_DISTANCE) * (2
                * VIEW_DISTANCE + 1) + 2 * VIEW_DISTANCE + 1) by (nonlinear_arith);
            dz = dz + 1;
        }
        r
    }

    /// Records that chunk `c` is being generated, `task` standing for the work.
    pub fn add_pending(&mut self, c: ChunkCoord, task: T)
        requires
            old(self).wf(),
            !old(self).knows(c),
        ensures
            final(self).wf(),
            final(self).loaded() == old(self).loaded(),
            final(self).requested() == old(self).requested().insert(c, task),
    {
        self.pending.insert(c, task);
    }

    /// Records that each chunk `coords[i]` is being generated, `tasks[i]` standing for
    /// its work.
    pub fn add_pending_all(&mut self, coords: Vec<ChunkCoord>, tasks: Vec<T>)
        requires
            old(self).wf(),
            coords@.len() == tasks@.len(),
            coords@.no_duplicates(),
            forall|i: int| 0 <= i < coords@.len() ==> !old(self).knows(#[trigger] coords@[i]),
        ensures
            final(self).wf(),
            final(self).loaded() == old(self).loaded(),
            forall|i: int|
                0 <= i < coords@.len() ==> final(self).requested().contains_key(#[trigger] coords@[i])
                    && final(self).requested()[coords@[i]] == tasks@[i],
            forall|c: ChunkCoord| #[trigger]
                final(self).requested().contains_key(c) <==> (old(self).requested().contains_key(c)
                    || coords@.contains(c)),
            forall|c: ChunkCoord| #[trigger]
                old(self).requested().contains_key(c) ==> final(self).requested()[c] == old(
                    self,
                ).requested()[c],
            forall|c: ChunkCoord| #[trigger]
                final(self).knows(c) <==> (old(self).knows(c) || coords@.contains(c)),
    {
        let ghost cs = coords@;
        let ghost ts = tasks@;
        let ghost len = cs.len();
        let mut coords = coords;
        let mut tasks = tasks;
        while tasks.len() > 0
            invariant
                self.wf(),
                len == cs.len(),
                cs.len() == ts.len(),
                cs.no_duplicates(),
                forall|i: int| 0 <= i < len ==> !old(self).knows(#[trigger] cs[i]),
                coords@.len() == tasks@.len(),
                coords@.len() <= len,
                coords@ == cs.take(coords@.len() as int),
                tasks@ == ts.take(tasks@.len() as int),
                self.loaded() == old(self).loaded(),
                forall|j: int|
                    coords@.len() <= j < len ==> self.requested().contains_key(#[trigger] cs[j])
                        && self.requested()[cs[j]] == ts[j],
                forall|c: ChunkCoord| #[trigger]
                    self.requested().contains_key(c) <==> (old(self).requested().contains_key(c)
                        || exists|j: int| coords@.len() <= j < len && cs[j] == c),
                forall|c: ChunkCoord| #[trigger]
                    old(self).requested().contains_key(c) ==> self.requested()[c] == old(
                        self,
                    ).requested()[c],
            decreases tasks@.len(),
        {
            let ghost n = coords@.len() as int;
            let t = tasks.pop().unwrap();
            let c = coords.pop().unwrap();
            proof {
                assert(c == cs[n - 1]);
                assert(t == ts[n - 1]);
                assert(coords@ =~= cs.take(n - 1));
                assert(tasks@ =~= ts.take(n - 1));
                assert(!old(self).knows(cs[n - 1]));
                assert(!self.knows(c)) by {
                    if self.requested().contains_key(c) {
                        let j = choose|j: int| n <= j < len && cs[j] == c;
                        assert(cs[j] == cs[n - 1]);
                    }
                }
            }
            self.add_pending(c, t);
            proof {
                assert forall|c2: ChunkCoord| #[trigger]
                    self.requested().contains_key(c2) <==> (old(self).requested().contains_key(c2)
                        || exists|j: int| n - 1 <= j < len && cs[j] == c2) by {
                    if c2 == c {
                        assert(cs[n - 1] == c2);
                    }
                    if exists|j: int| n - 1 <= j < len && cs[j] == c2 {
                        let j = choose|j: int| n - 1 <= j < len && cs[j] == c2;
                        if j >= n {
                            assert(exists|j: int| n <= j < len && cs[j] == c2);
                        }
                    }
                }
                assert forall|j: int|
                    n - 1 <= j < len implies self.requested().contains_key(#[trigger] cs[j])
                        && self.requested()[cs[j]] == ts[j] by {
                    if j >= n {
                        assert(cs[j] != cs[n - 1]);
                    }
                }
            }
        }
        proof {
            assert forall|c: ChunkCoord| #[trigger]
                self.requested().contains_key(c) <==> (old(self).requested().contains_key(c)
                    || cs.contains(c)) by {
                if exists|j: int| 0 <= j < len && cs[j] == c {
                    let j = choose|j: int| 0 <= j < len && cs[j] == c;
                    assert(cs.contains(c));
                }
                if cs.contains(c) {
                    let j = choose|j: int| 0 <= j < len && cs[j] == c;
                    assert(exists|j: int| 0 <= j < len && cs[j] == c);
                }
            }
        }
    }

    /// Takes the work for chunk `c` out of the requests, if it is there.
    pub fn take_pending(&mut self, c: ChunkCoord) -> (r: Option<T>)
        requires
            old(self).wf(),
        ensures
            final(self).wf(),
            final(self).loaded() == old(self).loaded(),
            final(self).requested() == old(self).requested().remove(c),
            r == old(self).requested().get(c),
    {
        self.pending.remove(c)
    }

    /// Records chunk `c`, which is not being generated, as loaded with handle `entity`.
    pub fn insert_loaded(&mut self, c: ChunkCoord, entity: E)
        requires
            old(self).wf(),
            !old(self).requested().contains_key(c),
        ensures
            final(self).wf(),
            final(self).requested() == old(self).requested(),
            final(self).loaded() == old(self).loaded().insert(c, entity),
    {
        self.chunks.insert(c, entity);
    }

    /// The viewer stands in chunk `(cx, cz)`: drops the loaded chunks and the requests
    /// farther than `VIEW_DISTANCE + DESPAWN_MARGIN` along either axis, and hands back
    /// the dropped loaded chunks, each once.
    pub fn drop_out_of_range(&mut self, cx: i32, cz: i32) -> (dropped: Vec<(ChunkCoord, E)>)
        requires
            old(self).wf(),
        ensures
            final(self).wf(),
            final(self).loaded() == old(self).loaded().restrict(
                within((cx, cz), (VIEW_DISTANCE + DESPAWN_MARGIN) as int),
            ),
            final(self).requested() == old(self).requested().restrict(
                within((cx, cz), (VIEW_DISTANCE + DESPAWN_MARGIN) as int),
            ),
            keys_unique(dropped@),
            entries_map(dropped@) == old(self).loaded().remove_keys(
                within((cx, cz), (VIEW_DISTANCE + DESPAWN_MARGIN) as int),
            ),
    {
        let limit = VIEW_DISTANCE + DESPAWN_MARGIN;
        let dropped = self.chunks.retain_within((cx, cz), limit);
        let _requests = self.pending.retain_within((cx, cz), limit);
        dropped
    }

    /// Chunk `c` has been generated and spawned as `entity`: it leaves the requests
    /// (whose work is handed back, if still there), its heights go into the collision
    /// cache and it becomes a loaded chunk.
    pub fn complete<H>(
        &mut self,
        cache: &mut HeightCache<H>,
        c: ChunkCoord,
        entity: E,
        heights: Vec<H>,
    ) -> (r: Option<T>)
        requires
            old(self).wf(),
            old(cache).wf(),
        ensures
            final(self).wf(),
            final(cache).wf(),
            final(self).requested() == old(self).requested().remove(c),
            final(self).loaded() == old(self).loaded().insert(c, entity),
            final(cache)@ == old(cache)@.insert(c, heights@),
            r == old(self).requested().get(c),
            old(self).covers_cache(old(cache)) ==> final(self).covers_cache(final(cache)),
            old(self).matches_cache(old(cache)) ==> final(self).matches_cache(final(cache)),
    {
        let r = self.pending.remove(c);
        cache.insert(c, heights);
        self.chunks.insert(c, entity);
        r
    }

    /// The rest of a frame once the finished chunks are known: each `(c, entity, heights)`
    /// of `ready` is completed as by `complete`, then the chunks and requests out of
    /// range of the viewer's chunk `(cx, cz)` are dropped as by `evict_out_of_range`.
    /// Chunks that stay loaded keep their handle and their heights; the cache still
    /// holds exactly the loaded chunks if it did before.
    pub fn finish_frame<H>(
        &mut self,
        cache: &mut HeightCache<H>,
        ready: Vec<(ChunkCoord, E, Vec<H>)>,
        cx: i32,
        cz: i32,
    ) -> (evicted: Vec<(ChunkCoord, E)>)
        requires
            old(self).wf(),
            old(cache).wf(),
            forall|i: int, j: int|
                0 <= i < j < ready@.len() ==> #[trigger] ready@[i].0 != #[trigger] ready@[j].0,
        ensures
            final(self).wf(),
            final(cache).wf(),
            old(self).matches_cache(old(cache)) ==> final(self).matches_cache(final(cache)),
            forall|c: ChunkCoord| #[trigger]
                final(self).loaded().contains_key(c) <==> (within(
                    (cx, cz),
                    (VIEW_DISTANCE + DESPAWN_MARGIN) as int,
                ).contains(c) && (old(self).loaded().contains_key(c) || carries_from(ready@, 0, c))),
            forall|i: int|
                0 <= i < ready@.len() && within((cx, cz), (VIEW_DISTANCE + DESPAWN_MARGIN) as int).contains(
                    #[trigger] ready@[i].0,
                ) ==> final(self).loaded()[ready@[i].0] == ready@[i].1 && final(cache)@.contains_key(
                    ready@[i].0,
                ) && final(cache)@[ready@[i].0] == ready@[i].2@,
            forall|c: ChunkCoord|
                within((cx, cz), (VIEW_DISTANCE + DESPAWN_MARGIN) as int).contains(c)
                    && #[trigger] old(self).loaded().contains_key(c) && !carries_from(ready@, 0, c)
                    ==> final(self).loaded()[c] == old(self).loaded()[c],
            forall|c: ChunkCoord| #[trigger]
                final(cache)@.contains_key(c) <==> ((old(cache)@.contains_key(c) || carries_from(
                    ready@,
                    0,
                    c,
                )) && !entries_map(evicted@).contains_key(c)),
            forall|c: ChunkCoord|
                #[trigger] old(cache)@.contains_key(c) && !carries_from(ready@, 0, c)
                    && !entries_map(evicted@).contains_key(c) ==> final(cache)@[c] == old(
                    cache,
                )@[c],
            forall|c: ChunkCoord| #[trigger]
                final(self).requested().contains_key(c) <==> (within(
                    (cx, cz),
                    (VIEW_DISTANCE + DESPAWN_MARGIN) as int,
                ).contains(c) && old(self).requested().contains_key(c) && !carries_from(ready@, 0, c)),
            forall|c: ChunkCoord| #[trigger]
                final(self).requested().contains_key(c) ==> final(self).requested()[c] == old(
                    self,
                ).requested()[c],
            keys_unique(evicted@),
            forall|c: ChunkCoord| #[trigger]
                entries_map(evicted@).contains_key(c) <==> (!within(
                    (cx, cz),
                    (VIEW_DISTANCE + DESPAWN_MARGIN) as int,
                ).contains(c) && (old(self).loaded().contains_key(c) || carries_from(ready@, 0, c))),
            forall|i: int|
                0 <= i < ready@.len() && !within((cx, cz), (VIEW_DISTANCE + DESPAWN_MARGIN) as int).contains(
                    #[trigger] ready@[i].0,
                ) ==> entries_map(evicted@)[ready@[i].0] == ready@[i].1,
            forall|c: ChunkCoord|
                !within((cx, cz), (VIEW_DISTANCE + DESPAWN_MARGIN) as int).contains(c)
                    && #[trigger] old(self).loaded().contains_key(c) && !carries_from(ready@, 0, c)
                    ==> entries_map(evicted@)[c] == old(self).loaded()[c],
    {
        let ghost rs = ready@;
        let ghost len = rs.len();
        let mut ready = ready;
        while ready.len() > 0
            invariant
                self.wf(),
                cache.wf(),
                len == rs.len(),
                forall|i: int, j: int|
                    0 <= i < j < len ==> #[trigger] rs[i].0 != #[trigger] rs[j].0,
                ready@.len() <= len,
                ready@ == rs.take(ready@.len() as int),
                forall|c: ChunkCoord| #[trigger]
                    self.loaded().contains_key(c) <==> (old(self).loaded().contains_key(c)
                        || carries_from(rs, ready@.len() as int, c)),
                forall|j: int|
                    ready@.len() <= j < len ==> self.loaded().contains_key(#[trigger] rs[j].0)
                        && self.loaded()[rs[j].0] == rs[j].1 && cache@.contains_key(rs[j].0)
                        && cache@[rs[j].0] == rs[j].2@,
                forall|c: ChunkCoord|
                    #[trigger] old(self).loaded().contains_key(c) && !carries_from(
                        rs,
                        ready@.len() as int,
                        c,
                    ) ==> self.loaded()[c] == old(self).loaded()[c],
                forall|c: ChunkCoord|
                    #[trigger] old(cache)@.contains_key(c) && !carries_from(rs, ready@.len() as int, c)
                        ==> cache@.contains_key(c) && cache@[c] == old(cache)@[c],
                forall|c: ChunkCoord| #[trigger]
                    cache@.contains_key(c) <==> (old(cache)@.contains_key(c) || carries_from(
                        rs,
                        ready@.len() as int,
                        c,
                    )),
                forall|c: ChunkCoord| #[trigger]
                    self.requested().contains_key(c) <==> (old(self).requested().contains_key(c)
                        && !carries_from(rs, ready@.len() as int, c)),
                forall|c: ChunkCoord| #[trigger]
                    self.requested().contains_key(c) ==> self.requested()[c] == old(
                        self,
                    ).requested()[c],
            decreases ready@.len(),
        {
            let ghost n = ready@.len() as int;
            let (c, entity, heights) = ready.pop().unwrap();
            proof {
                assert((c, entity, heights) == rs[n - 1]);
                assert(ready@ =~= rs.take(n - 1));
            }
            let _ = self.complete(cache, c, entity, heights);
            proof {
                assert forall|c2: ChunkCoord|
                    carries_from(rs, n - 1, c2) <==> (carries_from(rs, n, c2) || c2 == c) by {
                    if c2 == c {
                        assert(rs[n - 1].0 == c2);
                    }
                    if carries_from(rs, n - 1, c2) {
                        let j = choose|j: int| n - 1 <= j < len && rs[j].0 == c2;
                        if j >= n {
                            assert(carries_from(rs, n, c2));
                        }
                    }
                }
                assert forall|j: int|
                    n - 1 <= j < len implies self.loaded().contains_key(#[trigger] rs[j].0)
                        && self.loaded()[rs[j].0] == rs[j].1 && cache@.contains_key(rs[j].0)
                        && cache@[rs[j].0] == rs[j].2@ by {
                    if j >= n {
                        assert(rs[n - 1].0 != rs[j].0);
                    }
                }
            }
        }
        let ghost mid_loaded = self.loaded();
        let ghost mid_cache = cache@;
        let evicted = self.evict_out_of_range(cache, cx, cz);
        proof {
            if old(self).matches_cache(old(cache)) {
                assert(mid_cache.dom() =~= mid_loaded.dom());
            }
            assert forall|c: ChunkCoord| #[trigger]
                entries_map(evicted@).contains_key(c) <==> (!within(
                    (cx, cz),
                    (VIEW_DISTANCE + DESPAWN_MARGIN) as int,
                ).contains(c) && (old(self).loaded().contains_key(c) || carries_from(rs, 0, c))) by {
                assert(mid_loaded.contains_key(c) == (old(self).loaded().contains_key(c)
                    || carries_from(rs, 0, c)));
            }
            assert forall|c: ChunkCoord| #[trigger]
                cache@.contains_key(c) <==> ((old(cache)@.contains_key(c) || carries_from(rs, 0, c))
                    && !entries_map(evicted@).contains_key(c)) by {
                assert(mid_cache.contains_key(c) == (old(cache)@.contains_key(c) || carries_from(
                    rs,
                    0,
                    c,
                )));
            }
            assert forall|c: ChunkCoord|
                #[trigger] old(cache)@.contains_key(c) && !carries_from(rs, 0, c)
                    && !entries_map(evicted@).contains_key(c) implies cache@[c] == old(cache)@[c] by {
                assert(mid_cache.contains_key(c));
            }
            assert forall|i: int|
                0 <= i < len && !within((cx, cz), (VIEW_DISTANCE + DESPAWN_MARGIN) as int).contains(
                    #[trigger] rs[i].0,
                ) implies entries_map(evicted@)[rs[i].0] == rs[i].1 by {
                assert(mid_loaded.contains_key(rs[i].0));
            }
            assert forall|c: ChunkCoord|
                !within((cx, cz), (VIEW_DISTANCE + DESPAWN_MARGIN) as int).contains(c)
                    && #[trigger] old(self).loaded().contains_key(c) && !carries_from(rs, 0, c)
                    implies entries_map(evicted@)[c] == old(self).loaded()[c] by {
                assert(mid_loaded.contains_key(c));
            }
            assert forall|i: int|
                0 <= i < len && within((cx, cz), (VIEW_DISTANCE + DESPAWN_MARGIN) as int).contains(
                    #[trigger] rs[i].0,
                ) implies self.loaded()[rs[i].0] == rs[i].1 && cache@.contains_key(rs[i].0)
                    && cache@[rs[i].0] == rs[i].2@ by {
                assert(mid_loaded.contains_key(rs[i].0));
                assert(!entries_map(evicted@).dom().contains(rs[i].0));
            }
        }
        evicted
    }

    /// The viewer stands in chunk `(cx, cz)`: drops the loaded chunks and the requests
    /// farther than `VIEW_DISTANCE + DESPAWN_MARGIN` along either axis, removes the
    /// dropped chunks' heights from the cache, and hands back the dropped loaded
    /// chunks, each once, for despawning.
    pub fn evict_out_of_range<H>(
        &mut self,
        cache: &mut HeightCache<H>,
        cx: i32,
        cz: i32,
    ) -> (evicted: Vec<(ChunkCoord, E)>)
        requires
            old(self).wf(),
            old(cache).wf(),
        ensures
            final(self).wf(),
            final(cache).wf(),
            final(self).loaded() == old(self).loaded().restrict(
                within((cx, cz), (VIEW_DISTANCE + DESPAWN_MARGIN) as int),
            ),
            final(self).requested() == old(self).requested().restrict(
                within((cx, cz), (VIEW_DISTANCE + DESPAWN_MARGIN) as int),
            ),
            keys_unique(evicted@),
            entries_map(evicted@) == old(self).loaded().remove_keys(
                within((cx, cz), (VIEW_DISTANCE + DESPAWN_MARGIN) as int),
            ),
            final(cache)@ == old(cache)@.remove_keys(entries_map(evicted@).dom()),
            old(self).covers_cache(old(cache)) ==> final(self).covers_cache(final(cache)),
            old(self).matches_cache(old(cache)) ==> final(self).matches_cache(final(cache)),
    {
        let evicted = self.drop_out_of_range(cx, cz);
        let ghost cache0 = cache@;
        let n = evicted.len();
        let mut i: usize = 0;
        while i < n
            invariant
                n == evicted@.len(),
                i <= n,
                cache.wf(),
                cache@ == cache0.remove_keys(prefix_keys(evicted@, i as int)),
            decreases n - i,
        {
            cache.remove(evicted[i].0);
            proof {
                assert forall|k: ChunkCoord| #[trigger]
                    prefix_keys(evicted@, i + 1).contains(k) <==> (prefix_keys(
                        evicted@,
                        i as int,
                    ).contains(k) || k == evicted@[i as int].0) by {
                    if k == evicted@[i as int].0 {
                        assert(0 <= i < i + 1 && evicted@[i as int].0 == k);
                    }
                }
                assert(cache@ =~= cache0.remove_keys(prefix_keys(evicted@, i + 1)));
            }
            i = i + 1;
        }
        proof {
            assert forall|k: ChunkCoord| #[trigger]
                entries_map(evicted@).dom().contains(k) <==> prefix_keys(evicted@, n as int).contains(
                    k,
                ) by {
                lemma_entries_map_dom(evicted@, k);
            }
            assert(prefix_keys(evicted@, n as int) =~= entries_map(evicted@).dom());
            if old(self).matches_cache(old(cache)) {
                assert(cache@.dom() =~= self.loaded().dom());
            }
        }
        evicted
    }
}

/// Distinct chunks of the view sit at distinct positions of its scan.
proof fn lemma_view_position_injective(center: ChunkCoord, c: ChunkCoord, d: ChunkCoord)
    requires
        in_view(center, c),
        in_view(center, d),
        view_position(center, c) == view_position(center, d),
    ensures
        c == d,
{
    let a = c.1 - center.1 + VIEW_DISTANCE;
    let b = c.0 - center.0 + VIEW_DISTANCE;
    let p = d.1 - center.1 + VIEW_DISTANCE;
    let q = d.0 - center.0 + VIEW_DISTANCE;
    assert(0 <= b < 13 && 0 <= q < 13 && a * 13 + b == p * 13 + q);
    assert(a == p && b == q) by (nonlinear_arith)
        requires
            0 <= b < 13,
            0 <= q < 13,
            a * 13 + b == p * 13 + q,
    ;
    assert(c.0 == d.0 && c.1 == d.1);
}

/// Requesting every chunk that `chunks_to_request` names leaves the whole view loaded
/// or being generated: if `requests` holds every unknown chunk of the view around
/// `center`, and `after` knows exactly what `before` knew plus `requests`, then `after`
/// knows every chunk of that view.
pub proof fn lemma_requests_cover_view<E, T>(
    before: LoadedChunks<E, T>,
    after: LoadedChunks<E, T>,
    requests: Seq<ChunkCoord>,
    center: ChunkCoord,
)
    requires
        forall|c: ChunkCoord| in_view(center, c) && !before.knows(c) ==> requests.contains(c),
        forall|c: ChunkCoord| #[trigger] after.knows(c) <==> (before.knows(c) || requests.contains(c)),
    ensures
        forall|c: ChunkCoord| in_view(center, c) ==> #[trigger] after.knows(c),
{
}

/// A chunk in view is never dropped by the same update that keeps the view loaded:
/// the view lies inside the range that eviction keeps.
pub proof fn lemma_view_survives_eviction(center: ChunkCoord, c: ChunkCoord)
    requires
        in_view(center, c),
    ensures
        within(center, (VIEW_DISTANCE + DESPAWN_MARGIN) as int).contains(c),
{
}

} // verus!
