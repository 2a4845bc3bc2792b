//! Marching-squares topology: which cell edges a contour level crosses and how
//! the crossings pair up into line segments.  Where on an edge a crossing lies
//! is a matter of interpolating heights and is left to the caller.

use vstd::prelude::*;
use vstd::arithmetic::div_mod::lemma_fundamental_div_mod_converse;
use crate::grid::row_major;

verus! {

/// The sign of a height minus the contour level, as `signum` reports it:
/// `Undefined` where the difference is not a number.
#[derive(Clone, Copy, Debug, PartialEq, Eq, Structural)]
pub enum Sign {
    Negative,
    Positive,
    Undefined,
}

/// A side of a grid cell whose corners are `(x, z)`, `(x + 1, z)`, `(x, z + 1)` and
/// `(x + 1, z + 1)`.
#[derive(Clone, Copy, Debug, PartialEq, Eq, Structural)]
pub enum Edge {
    /// From `(x, z)` to `(x + 1, z)`.
    LowZ,
    /// From `(x + 1, z)` to `(x + 1, z + 1)`.
    HighX,
    /// From `(x, z + 1)` to `(x + 1, z + 1)`.
    HighZ,
    /// From `(x, z)` to `(x, z + 1)`.
    LowX,
}

/// One contour segment inside cell `(x, z)`, running between crossings on two of its edges.
#[derive(Clone, Copy, Debug, PartialEq, Eq, Structural)]
pub struct CellSegment {
    pub x: u32,
    pub z: u32,
    pub from: Edge,
    pub to: Edge,
}

/// The contour passes between two corners unless their signs are the same number;
/// two undefined signs never compare equal.
pub open spec fn crosses(a: Sign, b: Sign) -> bool {
    a == Sign::Undefined || b == Sign::Undefined || a != b
}

/// The edges of a cell that the contour crosses, in the order low-z, high-x, high-z, low-x.
pub open spec fn crossing_edges(s00: Sign, s10: Sign, s01: Sign, s11: Sign) -> Seq<Edge> {
    (if crosses(s00, s10) {
        seq![Edge::LowZ]
    } else {
        seq![]
    }) + (if crosses(s10, s11) {
        seq![Edge::HighX]
    } else {
        seq![]
    }) + (if crosses(s01, s11) {
        seq![Edge::HighZ]
    } else {
        seq![]
    }) + (if crosses(s00, s01) {
        seq![Edge::LowX]
    } else {
        seq![]
    })
}

/// Segments drawn from a cell's crossings: the first two crossings form a segment, and
/// when there are four, the last two form a second one.
pub open spec fn edge_pairs(e: Seq<Edge>) -> Seq<(Edge, Edge)> {
    (if e.len() >= 2 {
        seq![(e[0], e[1])]
    } else {
        seq![]
    }) + (if e.len() == 4 {
        seq![(e[2], e[3])]
    } else {
        seq![]
    })
}

/// Whether the contour crosses the edge between two corners.
pub fn edge_crossed(a: Sign, b: Sign) -> (r: bool)
    ensures
        r == crosses(a, b),
{
    a == Sign::Undefined || b == Sign::Undefined || a != b
}

/// The crossed edges of a cell with corner signs `s00`, `s10`, `s01`, `s11`.
pub fn cell_crossings(s00: Sign, s10: Sign, s01: Sign, s11: Sign) -> (edges: Vec<Edge>)
    ensures
        edges@ == crossing_edges(s00, s10, s01, s11),
{
    let mut edges: Vec<Edge> = Vec::new();
    if edge_crossed(s00, s10) {
        edges.push(Edge::LowZ);
    }
    if edge_crossed(s10, s11) {
        edges.push(Edge::HighX);
    }
    if edge_crossed(s01, s11) {
        edges.push(Edge::HighZ);
    }
    if edge_crossed(s00, s01) {
        edges.push(Edge::LowX);
    }
    assert(edges@ =~= crossing_edges(s00, s10, s01, s11));
    edges
}

/// The segments of a cell with corner signs `s00`, `s10`, `s01`, `s11`.
pub fn cell_segments(s00: Sign, s10: Sign, s01: Sign, s11: Sign) -> (segs: Vec<(Edge, Edge)>)
    ensures
        segs@ == edge_pairs(crossing_edges(s00, s10, s01, s11)),
{
    let e = cell_crossings(s00, s10, s01, s11);
    let mut segs: Vec<(Edge, Edge)> = Vec::new();
    if e.len() >= 2 {
        segs.push((e[0], e[1]));
    }
    if e.len() == 4 {
        segs.push((e[2], e[3]));
    }
    assert(segs@ =~= edge_pairs(e@));
    segs
}

/// The segments of cell `(x, z)` of a grid of corner signs `n` wide, stored row by row.
pub open spec fn cell_contour(signs: Seq<Sign>, n: int, x: int, z: int) -> Seq<CellSegment> {
    let pairs = edge_pairs(
        crossing_edges(
            signs[row_major(x, z, n)],
            signs[row_major(x + 1, z, n)],
            signs[row_major(x, z + 1, n)],
            signs[row_major(x + 1, z + 1, n)],
        ),
    );
    Seq::new(
        pairs.len(),
        |i: int| CellSegment { x: x as u32, z: z as u32, from: pairs[i].0, to: pairs[i].1 },
    )
}

/// The segments of the first `count` cells of the grid, cells taken row by row
/// (`n - 1` cells to a row).
pub open spec fn grid_contour(signs: Seq<Sign>, n: int, count: nat) -> Seq<CellSegment>
    decreases count,
{
    if count == 0 {
        seq![]
    } else {
        let c = count - 1;
        grid_contour(signs, n, c as nat) + cell_contour(signs, n, c % (n - 1), c / (n - 1))
    }
}

/// All contour segments of a grid of `n` x `n` corner signs stored row by row, cell by
/// cell in row order.
pub fn contour_segments(signs: &Vec<Sign>, n: u32) -> (segs: Vec<CellSegment>)
    requires
        n >= 1,
        n * n <= u32::MAX,
        signs@.len() == n * n,
    ensures
        segs@ == grid_contour(signs@, n as int, ((n - 1) * (n - 1)) as nat),
        forall|k: int|
            0 <= k < segs@.len() ==> {
                let s = #[trigger] segs@[k];
                &&& s.x + 1 < n
                &&& s.z + 1 < n
                &&& pairs_at(signs@, n as int, s.x as int, s.z as int).contains((s.from, s.to))
            },
        forall|x: int, z: int, i: int|
            0 <= x && x + 1 < n && 0 <= z && z + 1 < n && 0 <= i < pairs_at(signs@, n as int, x, z).len() ==> segs@.contains(
                CellSegment { x: x as u32, z: z as u32, from: #[trigger] pairs_at(signs@, n as int, x, z)[i].0, to: pairs_at(signs@, n as int, x, z)[i].1 },
            ),
{
    let cells = n - 1;
    let mut segs: Vec<CellSegment> = Vec::new();
    let mut zi: u32 = 0;
    while zi < cells
        invariant
            cells == n - 1,
            n * n <= u32::MAX,
            signs@.len() == n * n,
            zi <= cells,
            segs@ == grid_contour(signs@, n as int, (zi * cells) as nat),
        decreases cells - zi,
    {
        let mut xi: u32 = 0;
        while xi < cells
            invariant
                cells == n - 1,
                n * n <= u32::MAX,
                signs@.len() == n * n,
                zi < cells,
                xi <= cells,
                segs@ == grid_contour(signs@, n as int, (zi * cells + xi) as nat),
            decreases cells - xi,
        {
            assert((zi + 1) * n + xi + 1 < n * n) by (nonlinear_arith)
                requires
                    zi < n - 1,
                    xi < n - 1,
            ;
            assert(zi * n + xi + 1 < (zi + 1) * n + xi + 1) by (nonlinear_arith)
                requires
                    n >= 1,
            ;
            let i00 = zi * n + xi;
            let i01 = (zi + 1) * n + xi;
            let pairs = cell_segments(
                signs[i00 as usize],
                signs[(i00 + 1) as usize],
                signs[i01 as usize],
                signs[(i01 + 1) as usize],
            );
            let ghost before = segs@;
            let ghost cell = cell_contour(signs@, n as int, xi as int, zi as int);
            assert(pairs@.len() == cell.len());
            let mut k: usize = 0;
            while k < pairs.len()
                invariant
                    k <= pairs@.len(),
                    pairs@.len() == cell.len(),
                    cell == cell_contour(signs@, n as int, xi as int, zi as int),
                    pairs@ == edge_pairs(
                        crossing_edges(
                            signs@[row_major(xi as int, zi as int, n as int)],
                            signs@[row_major(xi + 1, zi as int, n as int)],
                            signs@[row_major(xi as int, zi + 1, n as int)],
                            signs@[row_major(xi + 1, zi + 1, n as int)],
                        ),
                    ),
                    segs@ == before + cell.take(k as int),
                decreases pairs@.len() - k,
            {
                let (a, b) = pairs[k];
                segs.push(CellSegment { x: xi, z: zi, from: a, to: b });
                assert(cell.take(k + 1) =~= cell.take(k as int).push(cell[k as int]));
                k = k + 1;
            }
            proof {
                let c = zi * cells + xi;
                lemma_fundamental_div_mod_converse(c as int, cells as int, zi as int, xi as int);
                assert(cell.take(k as int) =~= cell);
                assert(segs@ =~= grid_contour(signs@, n as int, (c + 1) as nat));
            }
            xi = xi + 1;
        }
        assert(zi * cells + cells == (zi + 1) * cells) by (nonlinear_arith);
        zi = zi + 1;
    }
    proof {
        lemma_contour_cells(signs@, n as int);
    }
    segs
}

/// The contour pairs of cell `(x, z)`, its corners `(x, z)`, `(x + 1, z)`, `(x, z + 1)` and
/// `(x + 1, z + 1)` read from a row-major grid `n` wide.
pub open spec fn pairs_at(signs: Seq<Sign>, n: int, x: int, z: int) -> Seq<(Edge, Edge)> {
    edge_pairs(
        crossing_edges(
            signs[z * n + x],
            signs[z * n + x + 1],
            signs[(z + 1) * n + x],
            signs[(z + 1) * n + x + 1],
        ),
    )
}

/// A segment lies in a cell of the grid and joins a pair of that cell's crossings.
spec fn segment_fits(signs: Seq<Sign>, n: int, s: CellSegment) -> bool {
    &&& s.x + 1 < n
    &&& s.z + 1 < n
    &&& pairs_at(signs, n, s.x as int, s.z as int).contains((s.from, s.to))
}

proof fn lemma_cell_of_index(n: int, c: int)
    requires
        n >= 2,
        0 <= c < (n - 1) * (n - 1),
    ensures
        0 <= c % (n - 1) < n - 1,
        0 <= c / (n - 1) < n - 1,
        c == (c / (n - 1)) * (n - 1) + c % (n - 1),
{
    vstd::arithmetic::div_mod::lemma_fundamental_div_mod(c, n - 1);
    vstd::arithmetic::mul::lemma_mul_is_commutative(c / (n - 1), n - 1);
    let q = c / (n - 1);
    let r = c % (n - 1);
    assert(0 <= q < n - 1) by (nonlinear_arith)
        requires
            c == q * (n - 1) + r,
            0 <= r < n - 1,
            0 <= c < (n - 1) * (n - 1),
    ;
}

proof fn lemma_grid_contour_sound(signs: Seq<Sign>, n: int, count: nat)
    requires
        n >= 2,
        n <= u32::MAX,
        count <= (n - 1) * (n - 1),
    ensures
        forall|k: int|
            0 <= k < grid_contour(signs, n, count).len() ==> segment_fits(
                signs,
                n,
                #[trigger] grid_contour(signs, n, count)[k],
            ),
    decreases count,
{
    if count > 0 {
        let c = count - 1;
        lemma_grid_contour_sound(signs, n, c as nat);
        lemma_cell_of_index(n, c);
        let x = c % (n - 1);
        let z = c / (n - 1);
        let prev = grid_contour(signs, n, c as nat);
        let cell = cell_contour(signs, n, x, z);
        assert(pairs_at(signs, n, x, z) == edge_pairs(
            crossing_edges(
                signs[row_major(x, z, n)],
                signs[row_major(x + 1, z, n)],
                signs[row_major(x, z + 1, n)],
                signs[row_major(x + 1, z + 1, n)],
            ),
        ));
        assert forall|k: int|
            0 <= k < grid_contour(signs, n, count).len() implies segment_fits(
                signs,
                n,
                #[trigger] grid_contour(signs, n, count)[k],
            ) by {
            if k >= prev.len() {
                let i = k - prev.len();
                let s = cell[i];
                assert(grid_contour(signs, n, count)[k] == s);
                assert(s.x as int == x && s.z as int == z);
                assert(pairs_at(signs, n, x, z)[i] == (s.from, s.to));
            } else {
                assert(grid_contour(signs, n, count)[k] == prev[k]);
            }
        }
    }
}

proof fn lemma_grid_contour_prefix(signs: Seq<Sign>, n: int, a: nat, b: nat)
    requires
        a <= b,
    ensures
        grid_contour(signs, n, a).len() <= grid_contour(signs, n, b).len(),
        forall|k: int|
            0 <= k < grid_contour(signs, n, a).len() ==> #[trigger] grid_contour(signs, n, b)[k]
                == grid_contour(signs, n, a)[k],
    decreases b,
{
    if a < b {
        lemma_grid_contour_prefix(signs, n, a, (b - 1) as nat);
    }
}

/// Every segment of the grid contour lies in a cell of the grid and joins a pair of
/// crossings of that cell, whose corners `(x, z)`, `(x + 1, z)`, `(x, z + 1)` and
/// `(x + 1, z + 1)` are the signs at `z * n + x`, `z * n + x + 1`, `(z + 1) * n + x` and
/// `(z + 1) * n + x + 1`; and every pair of crossings of every cell appears as a segment.
pub proof fn lemma_contour_cells(signs: Seq<Sign>, n: int)
    requires
        n >= 1,
        n <= u32::MAX,
        signs.len() == n * n,
    ensures
        forall|k: int|
            0 <= k < grid_contour(signs, n, ((n - 1) * (n - 1)) as nat).len() ==> {
                let s = #[trigger] grid_contour(signs, n, ((n - 1) * (n - 1)) as nat)[k];
                &&& s.x + 1 < n
                &&& s.z + 1 < n
                &&& pairs_at(signs, n, s.x as int, s.z as int).contains((s.from, s.to))
            },
        forall|x: int, z: int, i: int|
            0 <= x && x + 1 < n && 0 <= z && z + 1 < n && 0 <= i < pairs_at(signs, n, x, z).len() ==> grid_contour(signs, n, ((n - 1) * (n - 1)) as nat).contains(
                CellSegment { x: x as u32, z: z as u32, from: #[trigger] pairs_at(signs, n, x, z)[i].0, to: pairs_at(signs, n, x, z)[i].1 },
            ),
{
    let total = ((n - 1) * (n - 1)) as nat;
    if n < 2 {
        assert(total == 0);
        assert(grid_contour(signs, n, total) =~= Seq::<CellSegment>::empty());
    } else {
        lemma_grid_contour_sound(signs, n, total);
        assert forall|k: int|
            0 <= k < grid_contour(signs, n, total).len() implies {
                let s = #[trigger] grid_contour(signs, n, total)[k];
                &&& s.x + 1 < n
                &&& s.z + 1 < n
                &&& pairs_at(signs, n, s.x as int, s.z as int).contains((s.from, s.to))
            } by {}
        assert forall|x: int, z: int, i: int|
            0 <= x && x + 1 < n && 0 <= z && z + 1 < n && 0 <= i < pairs_at(signs, n, x, z).len() implies grid_contour(signs, n, total).contains(
                CellSegment { x: x as u32, z: z as u32, from: #[trigger] pairs_at(signs, n, x, z)[i].0, to: pairs_at(signs, n, x, z)[i].1 },
            ) by {
            let c = z * (n - 1) + x;
            assert(0 <= c < (n - 1) * (n - 1)) by (nonlinear_arith)
                requires
                    0 <= x < n - 1,
                    0 <= z < n - 1,
                    c == z * (n - 1) + x,
            ;
            lemma_fundamental_div_mod_converse(c, n - 1, z, x);
            let prev = grid_contour(signs, n, c as nat);
            let cell = cell_contour(signs, n, x, z);
            assert(grid_contour(signs, n, (c + 1) as nat) == prev + cell);
            let seg = CellSegment {
                x: x as u32,
                z: z as u32,
                from: pairs_at(signs, n, x, z)[i].0,
                to: pairs_at(signs, n, x, z)[i].1,
            };
            assert(cell[i] == seg);
            assert(grid_contour(signs, n, (c + 1) as nat)[prev.len() + i] == seg);
            lemma_grid_contour_prefix(signs, n, (c + 1) as nat, total);
            assert(grid_contour(signs, n, total)[prev.len() + i] == seg);
        }
    }
}

/// The sign with positive and negative exchanged.
pub open spec fn flipped(s: Sign) -> Sign {
    match s {
        Sign::Negative => Sign::Positive,
        Sign::Positive => Sign::Negative,
        Sign::Undefined => Sign::Undefined,
    }
}

/// Where every corner has a defined sign, a cell's contour crosses none, two or all
/// four of its edges.
pub proof fn lemma_defined_crossings_even(s00: Sign, s10: Sign, s01: Sign, s11: Sign)
    requires
        s00 != Sign::Undefined,
        s10 != Sign::Undefined,
        s01 != Sign::Undefined,
        s11 != Sign::Undefined,
    ensures
        crossing_edges(s00, s10, s01, s11).len() == 0 || crossing_edges(s00, s10, s01, s11).len()
            == 2 || crossing_edges(s00, s10, s01, s11).len() == 4,
        2 * edge_pairs(crossing_edges(s00, s10, s01, s11)).len() == crossing_edges(
            s00,
            s10,
            s01,
            s11,
        ).len(),
{
}

/// With defined signs, all four edges are crossed exactly when the corners form a
/// saddle: diagonal corners agree and adjacent ones differ.
pub proof fn lemma_saddle(s00: Sign, s10: Sign, s01: Sign, s11: Sign)
    requires
        s00 != Sign::Undefined,
        s10 != Sign::Undefined,
        s01 != Sign::Undefined,
        s11 != Sign::Undefined,
    ensures
        crossing_edges(s00, s10, s01, s11).len() == 4 <==> (s00 == s11 && s10 == s01 && s00
            != s10),
{
}

/// Exchanging the sides of the level (every positive corner negative and back) does not
/// change which edges the contour crosses, nor its segments.
pub proof fn lemma_crossings_flip_invariant(s00: Sign, s10: Sign, s01: Sign, s11: Sign)
    ensures
        crossing_edges(flipped(s00), flipped(s10), flipped(s01), flipped(s11)) == crossing_edges(
            s00,
            s10,
            s01,
            s11,
        ),
        edge_pairs(crossing_edges(flipped(s00), flipped(s10), flipped(s01), flipped(s11)))
            == edge_pairs(crossing_edges(s00, s10, s01, s11)),
{
}

/// Each edge is crossed exactly when its two corners do not carry the same defined sign,
/// and the crossings come in the order low-z, high-x, high-z, low-x.
pub proof fn lemma_crossing_edges_membership(s00: Sign, s10: Sign, s01: Sign, s11: Sign)
    ensures
        crossing_edges(s00, s10, s01, s11).contains(Edge::LowZ) <==> !(s00 == s10 && s00
            != Sign::Undefined),
        crossing_edges(s00, s10, s01, s11).contains(Edge::HighX) <==> !(s10 == s11 && s10
            != Sign::Undefined),
        crossing_edges(s00, s10, s01, s11).contains(Edge::HighZ) <==> !(s01 == s11 && s01
            != Sign::Undefined),
        crossing_edges(s00, s10, s01, s11).contains(Edge::LowX) <==> !(s00 == s01 && s00
            != Sign::Undefined),
        crossing_edges(s00, s10, s01, s11).no_duplicates(),
        forall|i: int, j: int|
            0 <= i < j < crossing_edges(s00, s10, s01, s11).len() ==> edge_rank(
                #[trigger] crossing_edges(s00, s10, s01, s11)[i],
            ) < edge_rank(#[trigger] crossing_edges(s00, s10, s01, s11)[j]),
{
    let e = crossing_edges(s00, s10, s01, s11);
    let b0 = crosses(s00, s10);
    let b1 = crosses(s10, s11);
    let b2 = crosses(s01, s11);
    let b3 = crosses(s00, s01);
    let p0: Seq<Edge> = if b0 { seq![Edge::LowZ] } else { seq![] };
    let p1: Seq<Edge> = if b1 { seq![Edge::HighX] } else { seq![] };
    let p2: Seq<Edge> = if b2 { seq![Edge::HighZ] } else { seq![] };
    let p3: Seq<Edge> = if b3 { seq![Edge::LowX] } else { seq![] };
    assert(e == p0 + p1 + p2 + p3);
    // each piece holds only its own edge
    assert forall|i: int| 0 <= i < e.len() implies (#[trigger] e[i] == Edge::LowZ && b0 && i == 0)
        || (e[i] == Edge::HighX && b1 && i == p0.len()) || (e[i] == Edge::HighZ && b2 && i
        == p0.len() + p1.len()) || (e[i] == Edge::LowX && b3 && i == p0.len() + p1.len()
        + p2.len()) by {
        if i < p0.len() {
        } else if i < p0.len() + p1.len() {
        } else if i < p0.len() + p1.len() + p2.len() {
        } else {
        }
    }
    if b0 {
        assert(e[0] == Edge::LowZ);
    }
    if b1 {
        assert(e[p0.len() as int] == Edge::HighX);
    }
    if b2 {
        assert(e[(p0.len() + p1.len()) as int] == Edge::HighZ);
    }
    if b3 {
        assert(e[(p0.len() + p1.len() + p2.len()) as int] == Edge::LowX);
    }
}

/// Position of an edge in the order in which a cell's crossings are listed.
pub open spec fn edge_rank(e: Edge) -> int {
    match e {
        Edge::LowZ => 0,
        Edge::HighX => 1,
        Edge::HighZ => 2,
        Edge::LowX => 3,
    }
}

/// Segments join the first and second crossings, and the third and fourth when all
/// four edges are crossed.
pub proof fn lemma_edge_pairs_shape(e: Seq<Edge>)
    ensures
        e.len() < 2 ==> edge_pairs(e).len() == 0,
        2 <= e.len() < 4 ==> edge_pairs(e) == seq![(e[0], e[1])],
        e.len() == 4 ==> edge_pairs(e) == seq![(e[0], e[1]), (e[2], e[3])],
{
    if e.len() < 2 {
        assert(edge_pairs(e) =~= Seq::<(Edge, Edge)>::empty());
    } else if e.len() < 4 {
        assert(edge_pairs(e) =~= seq![(e[0], e[1])]);
    } else if e.len() == 4 {
        assert(edge_pairs(e) =~= seq![(e[0], e[1]), (e[2], e[3])]);
    }
}

/// A segment never starts and ends on the same edge.
pub proof fn lemma_segment_ends_distinct(s00: Sign, s10: Sign, s01: Sign, s11: Sign, i: int)
    requires
        0 <= i < edge_pairs(crossing_edges(s00, s10, s01, s11)).len(),
    ensures
        edge_pairs(crossing_edges(s00, s10, s01, s11))[i].0 != edge_pairs(
            crossing_edges(s00, s10, s01, s11),
        )[i].1,
{
}

} // verus!
