//! The collision heightfield: per loaded chunk, a square grid of surface heights
//! sampled `CACHE_VERTS` to a side, stored row by row.

use vstd::prelude::*;
use crate::coord_map::{ChunkCoord, CoordMap};
use crate::grid::row_major;

verus! {

/// Height samples along each side of a chunk in the collision cache.
pub const CACHE_VERTS: u32 = 32;

/// Height samples per chunk in the collision cache.
pub const CACHE_LEN: usize = 1024;

/// The four corner heights of the cache cell that holds a query point, and that
/// cell's lower corner `(x, z)`.
#[derive(Debug)]
pub struct CellHeights<H> {
    pub x: u32,
    pub z: u32,
    pub h00: H,
    pub h10: H,
    pub h01: H,
    pub h11: H,
}

/// The cell whose lower corner is the sample `i` along an axis, clamped so that the
/// cell's far corner is still a sample.
pub open spec fn clamped_cell(i: u32) -> u32 {
    if i < CACHE_VERTS - 2 {
        i
    } else {
        (CACHE_VERTS - 2) as u32
    }
}

/// Whatever sample a query lands on, the four corners of its clamped cell lie inside a
/// full grid of `CACHE_LEN` samples.
pub proof fn lemma_cell_corners_in_grid(xi: u32, zi: u32)
    ensures
        0 <= row_major(clamped_cell(xi) as int, clamped_cell(zi) as int, CACHE_VERTS as int),
        row_major(clamped_cell(xi) + 1, clamped_cell(zi) + 1, CACHE_VERTS as int) < CACHE_LEN,
{
    let x = clamped_cell(xi) as int;
    let z = clamped_cell(zi) as int;
    assert(0 <= z * 32 && (z + 1) * 32 + x + 1 < 1024) by (nonlinear_arith)
        requires
            0 <= x <= 30,
            0 <= z <= 30,
    ;
}

/// The clamped cell is the smaller of the sample and the last whole cell: a sample
/// whose cell's far corner is still a sample is left as it is, and every other sample
/// is moved to the last cell.
pub proof fn lemma_clamped_cell_is_min(i: u32)
    ensures
        clamped_cell(i) <= i,
        clamped_cell(i) <= CACHE_VERTS - 2,
        clamped_cell(i) == i || clamped_cell(i) == CACHE_VERTS - 2,
        i + 2 <= CACHE_VERTS ==> clamped_cell(i) == i,
{
}

/// Heights of loaded chunks, for collision queries.
pub struct HeightCache<H> {
    chunks: CoordMap<Vec<H>>,
}

impl<H> View for HeightCache<H> {
    type V = Map<ChunkCoord, Seq<H>>;

    closed spec fn view(&self) -> Map<ChunkCoord, Seq<H>> {
        self.chunks@.map_values(|v: Vec<H>| v@)
    }
}

impl<H> HeightCache<H> {
    /// The representation holds each chunk once.
    pub closed spec fn wf(&self) -> bool {
        self.chunks.wf()
    }

    /// An empty cache.
    pub fn new() -> (c: Self)
        ensures
            c.wf(),
            c@ == Map::<ChunkCoord, Seq<H>>::empty(),
    {
        let c = HeightCache { chunks: CoordMap::new() };
        assert(c@ =~= Map::<ChunkCoord, Seq<H>>::empty());
        c
    }

    /// Stores the heights of chunk `coord`, replacing earlier ones.
    pub fn insert(&mut self, coord: ChunkCoord, heights: Vec<H>)
        requires
            old(self).wf(),
        ensures
            final(self).wf(),
            final(self)@ == old(self)@.insert(coord, heights@),
    {
        let ghost h = heights@;
        self.chunks.insert(coord, heights);
        assert(self@ =~= old(self)@.insert(coord, h));
    }

    /// Drops the heights of chunk `coord`.
    pub fn remove(&mut self, coord: ChunkCoord)
        requires
            old(self).wf(),
        ensures
            final(self).wf(),
            final(self)@ == old(self)@.remove(coord),
    {
        let _ = self.chunks.remove(coord);
        assert(self@ =~= old(self)@.remove(coord));
    }

    /// The cell that a lookup of sample `(xi, zi)` in chunk `coord` reads lies inside the
    /// stored heights (or the chunk is not cached).
    pub open spec fn cell_in_bounds(&self, coord: ChunkCoord, xi: u32, zi: u32) -> bool {
        self@.contains_key(coord) ==> row_major(
            clamped_cell(xi) + 1,
            clamped_cell(zi) + 1,
            CACHE_VERTS as int,
        ) < self@[coord].len()
    }

    /// Whether a lookup of sample `(xi, zi)` in chunk `coord` stays inside the stored
    /// heights (always so for a full grid of `CACHE_LEN`).
    pub fn cell_readable(&self, coord: ChunkCoord, xi: u32, zi: u32) -> (r: bool)
        requires
            self.wf(),
        ensures
            r == self.cell_in_bounds(coord, xi, zi),
            r == (!self@.contains_key(coord) || ((if zi < 30 {
                zi
            } else {
                30
            }) + 1) * 32 + (if xi < 30 {
                xi
            } else {
                30
            }) + 1 < self@[coord].len()),
    {
        match self.chunks.get(coord) {
            None => true,
            Some(heights) => {
                let x = if xi < CACHE_VERTS - 2 {
                    xi
                } else {
                    CACHE_VERTS - 2
                };
                let z = if zi < CACHE_VERTS - 2 {
                    zi
                } else {
                    CACHE_VERTS - 2
                };
                (((z + 1) * CACHE_VERTS + x + 1) as usize) < heights.len()
            },
        }
    }

    /// Whether chunk `coord` has heights.
    pub fn contains(&self, coord: ChunkCoord) -> (r: bool)
        requires
            self.wf(),
        ensures
            r == self@.contains_key(coord),
    {
        self.chunks.contains_key(coord)
    }

    /// The heights of chunk `coord`, if cached.
    pub fn heights(&self, coord: ChunkCoord) -> (r: Option<&Vec<H>>)
        requires
            self.wf(),
        ensures
            match r {
                Some(v) => self@.contains_key(coord) && v@ == self@[coord],
                None => !self@.contains_key(coord),
            },
    {
        self.chunks.get(coord)
    }

    /// The corner heights of the cell of chunk `coord` whose lower corner is sample
    /// `(xi, zi)`, each index clamped to the last whole cell; `None` where the chunk is
    /// not cached.
    pub fn cell(&self, coord: ChunkCoord, xi: u32, zi: u32) -> (r: Option<CellHeights<H>>) where
        H: Copy,
        requires
            self.wf(),
            self.cell_in_bounds(coord, xi, zi),
        ensures
            match r {
                Some(c) => {
                    let hs = self@[coord];
                    &&& self@.contains_key(coord)
                    &&& c.x == clamped_cell(xi)
                    &&& c.z == clamped_cell(zi)
                    &&& c.h00 == hs[row_major(c.x as int, c.z as int, CACHE_VERTS as int)]
                    &&& c.h10 == hs[row_major(c.x + 1, c.z as int, CACHE_VERTS as int)]
                    &&& c.h01 == hs[row_major(c.x as int, c.z + 1, CACHE_VERTS as int)]
                    &&& c.h11 == hs[row_major(c.x + 1, c.z + 1, CACHE_VERTS as int)]
                    &&& c.x <= xi && c.x <= 30 && (c.x == xi || c.x == 30)
                    &&& c.z <= zi && c.z <= 30 && (c.z == zi || c.z == 30)
                    &&& c.h00 == hs[c.z * 32 + c.x]
                    &&& c.h10 == hs[c.z * 32 + c.x + 1]
                    &&& c.h01 == hs[(c.z + 1) * 32 + c.x]
                    &&& c.h11 == hs[(c.z + 1) * 32 + c.x + 1]
                },
                None => !self@.contains_key(coord),
            },
    {
        match self.chunks.get(coord) {
            None => None,
            Some(heights) => {
                let x = if xi < CACHE_VERTS - 2 {
                    xi
                } else {
                    CACHE_VERTS - 2
                };
                let z = if zi < CACHE_VERTS - 2 {
                    zi
                } else {
                    CACHE_VERTS - 2
                };
                let i00 = (z * CACHE_VERTS + x) as usize;
                let i01 = ((z + 1) * CACHE_VERTS + x) as usize;
                Some(
                    CellHeights {
                        x,
                        z,
                        h00: heights[i00],
                        h10: heights[i00 + 1],
                        h01: heights[i01],
                        h11: heights[i01 + 1],
                    },
                )
            },
        }
    }
}

} // verus!
