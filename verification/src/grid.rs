//! Row-major vertex grids: vertex numbering and the triangle list that
//! covers a square grid of cells.

use vstd::prelude::*;
use vstd::arithmetic::div_mod::lemma_fundamental_div_mod_converse;

verus! {

/// Cells along each side of a chunk's contour grid.
pub const CONTOUR_SUBDIVISIONS: u32 = 64;

/// Contour levels drawn per chunk.
pub const CONTOUR_LEVELS: u32 = 20;

/// Cells along each side of a chunk's filled surface mesh.
pub const FILL_SUBDIVISIONS: u32 = 32;

/// Vertex number of column `x`, row `z` in a grid that is `width` vertices wide.
pub open spec fn row_major(x: int, z: int, width: int) -> int {
    z * width + x
}

/// Vertex number of corner `k` (0..6) of the two triangles of cell `c` in a grid of
/// `s` x `s` cells, cells numbered row by row.  With `i` the cell's lower-left vertex
/// and `w = s + 1` the grid width, the triangles are `(i, i + w, i + 1)` and
/// `(i + 1, i + w, i + w + 1)`.
pub open spec fn cell_triangle_corner(s: nat, c: nat, k: nat) -> int {
    let w = s + 1;
    let i = row_major((c % s) as int, (c / s) as int, w as int);
    if k == 0 {
        i
    } else if k == 1 {
        i + w
    } else if k == 2 {
        i + 1
    } else if k == 3 {
        i + 1
    } else if k == 4 {
        i + w
    } else {
        i + w + 1
    }
}

/// Entry `j` of the triangle list of an `s` x `s` cell grid: six entries per cell.
pub open spec fn triangle_index(s: nat, j: nat) -> int {
    cell_triangle_corner(s, j / 6, j % 6)
}

/// Entry `6 * (zi * s + xi) + k` of the triangle list is corner `k` of cell `(xi, zi)`:
/// with `i = zi * (s + 1) + xi` the cell's lower-left vertex, the six entries are
/// `i, i + s + 1, i + 1, i + 1, i + s + 1, i + s + 2`.
pub proof fn lemma_triangle_index_of_cell(s: nat, xi: nat, zi: nat, k: nat)
    requires
        xi < s,
        zi < s,
        k < 6,
    ensures
        triangle_index(s, 6 * (zi * s + xi) + k) == cell_triangle_corner(s, zi * s + xi, k),
        cell_triangle_corner(s, zi * s + xi, k) == (if k == 0 {
            zi * (s + 1) + xi
        } else if k == 1 || k == 4 {
            zi * (s + 1) + xi + s + 1
        } else if k == 2 || k == 3 {
            zi * (s + 1) + xi + 1
        } else {
            zi * (s + 1) + xi + s + 2
        }),
{
    let c = zi * s + xi;
    lemma_fundamental_div_mod_converse((6 * c + k) as int, 6, c as int, k as int);
    lemma_fundamental_div_mod_converse(c as int, s as int, zi as int, xi as int);
}

/// Every entry of the triangle list of an `s` x `s` cell grid names a vertex of the
/// `(s + 1) x (s + 1)` vertex grid.
pub proof fn lemma_triangle_index_in_grid(s: nat, j: nat)
    requires
        j < 6 * s * s,
    ensures
        0 <= triangle_index(s, j) < (s + 1) * (s + 1),
{
    let c = j / 6;
    let k = j % 6;
    assert(j == 6 * c + k && 0 <= k < 6) by {
        vstd::arithmetic::div_mod::lemma_fundamental_div_mod(j as int, 6);
    }
    assert(c < s * s) by (nonlinear_arith)
        requires
            j == 6 * c + k,
            0 <= k,
            j < 6 * s * s,
    ;
    assert(s > 0) by (nonlinear_arith)
        requires
            c < s * s,
            c >= 0,
    ;
    let zi = c / s;
    let xi = c % s;
    assert(c == zi * s + xi && 0 <= xi < s) by {
        vstd::arithmetic::div_mod::lemma_fundamental_div_mod(c as int, s as int);
        vstd::arithmetic::mul::lemma_mul_is_commutative(zi as int, s as int);
    }
    assert(0 <= zi < s) by (nonlinear_arith)
        requires
            c == zi * s + xi,
            0 <= xi < s,
            c < s * s,
            c >= 0,
    ;
    assert(j == 6 * (zi * s + xi) + k);
    lemma_triangle_index_of_cell(s, xi as nat, zi as nat, k as nat);
    assert(0 <= zi * (s + 1) && zi * (s + 1) + xi + s + 2 < (s + 1) * (s + 1)) by (nonlinear_arith)
        requires
            0 <= zi < s,
            0 <= xi < s,
    ;
}

/// The triangle list (two counter-clockwise triangles per cell) that covers a grid of
/// `subdivisions` x `subdivisions` cells whose vertices are numbered row by row.
pub fn grid_triangle_indices(subdivisions: u32) -> (indices: Vec<u32>)
    requires
        (subdivisions + 1) * (subdivisions + 1) <= u32::MAX,
    ensures
        indices@.len() == 6 * subdivisions * subdivisions,
        forall|j: int|
            0 <= j < indices@.len() ==> indices@[j] as int == triangle_index(
                subdivisions as nat,
                j as nat,
            ),
{
    let s = subdivisions;
    assert(s + 1 <= u32::MAX) by (nonlinear_arith)
        requires
            (s + 1) * (s + 1) <= u32::MAX,
    ;
    let w = s + 1;
    let mut indices: Vec<u32> = Vec::new();
    let mut zi: u32 = 0;
    while zi < s
        invariant
            zi <= s,
            w == s + 1,
            (s + 1) * (s + 1) <= u32::MAX,
            indices@.len() == 6 * (zi * s),
            forall|j: int|
                0 <= j < indices@.len() ==> indices@[j] as int == triangle_index(s as nat, j as nat),
        decreases s - zi,
    {
        let mut xi: u32 = 0;
        while xi < s
            invariant
                xi <= s,
                zi < s,
                w == s + 1,
                (s + 1) * (s + 1) <= u32::MAX,
                indices@.len() == 6 * (zi * s + xi),
                forall|j: int|
                    0 <= j < indices@.len() ==> indices@[j] as int == triangle_index(
                        s as nat,
                        j as nat,
                    ),
            decreases s - xi,
        {
            assert(zi * w + xi + w + 1 <= w * w) by (nonlinear_arith)
                requires
                    zi < s,
                    xi < s,
                    w == s + 1,
            ;
            let i = zi * w + xi;
            proof {
                lemma_triangle_index_of_cell(s as nat, xi as nat, zi as nat, 0);
                lemma_triangle_index_of_cell(s as nat, xi as nat, zi as nat, 1);
                lemma_triangle_index_of_cell(s as nat, xi as nat, zi as nat, 2);
                lemma_triangle_index_of_cell(s as nat, xi as nat, zi as nat, 3);
                lemma_triangle_index_of_cell(s as nat, xi as nat, zi as nat, 4);
                lemma_triangle_index_of_cell(s as nat, xi as nat, zi as nat, 5);
            }
            indices.push(i);
            indices.push(i + w);
            indices.push(i + 1);
            indices.push(i + 1);
            indices.push(i + w);
            indices.push(i + w + 1);
            xi = xi + 1;
        }
        assert(zi * s + s == (zi + 1) * s) by (nonlinear_arith);
        zi = zi + 1;
    }
    assert(6 * (s * s) == 6 * s * s) by (nonlinear_arith);
    indices
}

/// The coarse-grid cell that holds fine-grid sample `fine`, where one fine step spans
/// `ratio` coarse cells, clamped to the last of `cells` cells; and how far past that
/// cell's lower corner the sample lies, in coarse steps.
pub fn coarse_cell(fine: u32, ratio: u32, cells: u32) -> (r: (u32, u32))
    requires
        cells >= 1,
        fine * ratio <= u32::MAX,
    ensures
        r.0 == (if fine * ratio < cells - 1 {
            fine * ratio
        } else {
            cells - 1
        }),
        r.0 < cells,
        r.0 + r.1 == fine * ratio,
{
    let g = fine * ratio;
    let cell = if g < cells - 1 {
        g
    } else {
        cells - 1
    };
    (cell, g - cell)
}

/// The samples on either side of sample `i` along an axis of `n` samples; at either
/// end of the axis the sample itself stands in for the missing neighbour.
pub fn neighbours(i: u32, n: u32) -> (r: (u32, u32))
    requires
        i < n,
    ensures
        r.0 == (if i > 0 {
            i - 1
        } else {
            i as int
        }),
        r.1 == (if i + 1 < n {
            i + 1
        } else {
            i as int
        }),
        r.0 < n,
        r.1 < n,
{
    let lo = if i > 0 {
        i - 1
    } else {
        i
    };
    let hi = if i < n - 1 {
        i + 1
    } else {
        i
    };
    (lo, hi)
}

} // verus!
