use educational_missile_physics::contour::{
    cell_crossings, cell_segments, contour_segments, edge_crossed, CellSegment, Edge, Sign,
};

const N: Sign = Sign::Negative;
const P: Sign = Sign::Positive;
const U: Sign = Sign::Undefined;

fn flip(s: Sign) -> Sign {
    match s {
        Sign::Negative => Sign::Positive,
        Sign::Positive => Sign::Negative,
        Sign::Undefined => Sign::Undefined,
    }
}

#[test]
fn edge_crossing_rules() {
    assert!(!edge_crossed(P, P));
    assert!(!edge_crossed(N, N));
    assert!(edge_crossed(P, N));
    assert!(edge_crossed(N, P));
    assert!(edge_crossed(U, U));
    assert!(edge_crossed(U, P));
    assert!(edge_crossed(N, U));
}

#[test]
fn uniform_cell_has_no_contour() {
    assert!(cell_crossings(P, P, P, P).is_empty());
    assert!(cell_segments(N, N, N, N).is_empty());
}

#[test]
fn single_corner_above_level() {
    // only (x + 1, z) is above: the contour cuts the low-z and high-x edges
    assert_eq!(cell_crossings(N, P, N, N), vec![Edge::LowZ, Edge::HighX]);
    assert_eq!(cell_segments(N, P, N, N), vec![(Edge::LowZ, Edge::HighX)]);
}

#[test]
fn half_cell_above_level() {
    assert_eq!(cell_crossings(N, P, N, P), vec![Edge::LowZ, Edge::HighZ]);
    assert_eq!(cell_segments(P, P, N, N), vec![(Edge::HighX, Edge::LowX)]);
}

#[test]
fn saddle_cell_gives_two_segments() {
    assert_eq!(
        cell_crossings(P, N, N, P),
        vec![Edge::LowZ, Edge::HighX, Edge::HighZ, Edge::LowX]
    );
    assert_eq!(
        cell_segments(P, N, N, P),
        vec![(Edge::LowZ, Edge::HighX), (Edge::HighZ, Edge::LowX)]
    );
}

#[test]
fn undefined_corner_crosses_its_edges() {
    assert_eq!(cell_crossings(U, P, P, P), vec![Edge::LowZ, Edge::LowX]);
    // three crossings pair up into one segment
    assert_eq!(cell_crossings(U, N, P, P), vec![Edge::LowZ, Edge::HighX, Edge::LowX]);
    assert_eq!(cell_segments(U, N, P, P), vec![(Edge::LowZ, Edge::HighX)]);
}

#[test]
fn defined_corners_cross_an_even_number_of_edges() {
    let all = [N, P];
    for &a in &all {
        for &b in &all {
            for &c in &all {
                for &d in &all {
                    let n = cell_crossings(a, b, c, d).len();
                    assert!(n == 0 || n == 2 || n == 4);
                    assert_eq!(2 * cell_segments(a, b, c, d).len(), n);
                    let saddle = a == d && b == c && a != b;
                    assert_eq!(n == 4, saddle);
                }
            }
        }
    }
}

#[test]
fn flipping_the_level_side_keeps_the_contour() {
    let all = [N, P, U];
    for &a in &all {
        for &b in &all {
            for &c in &all {
                for &d in &all {
                    assert_eq!(
                        cell_crossings(flip(a), flip(b), flip(c), flip(d)),
                        cell_crossings(a, b, c, d)
                    );
                    assert_eq!(
                        cell_segments(flip(a), flip(b), flip(c), flip(d)),
                        cell_segments(a, b, c, d)
                    );
                    for (from, to) in cell_segments(a, b, c, d) {
                        assert_ne!(from, to);
                    }
                }
            }
        }
    }
}

#[test]
fn grid_contour_around_a_peak() {
    // 3 x 3 corners, only the centre above the level
    let signs = vec![N, N, N, N, P, N, N, N, N];
    let segs = contour_segments(&signs, 3);
    assert_eq!(
        segs,
        vec![
            CellSegment { x: 0, z: 0, from: Edge::HighX, to: Edge::HighZ },
            CellSegment { x: 1, z: 0, from: Edge::HighZ, to: Edge::LowX },
            CellSegment { x: 0, z: 1, from: Edge::LowZ, to: Edge::HighX },
            CellSegment { x: 1, z: 1, from: Edge::LowZ, to: Edge::LowX },
        ]
    );
}

#[test]
fn grid_contour_of_flat_and_tiny_grids() {
    assert!(contour_segments(&vec![P; 16], 4).is_empty());
    assert!(contour_segments(&vec![N], 1).is_empty());
    assert_eq!(
        contour_segments(&vec![P, N, N, P], 2),
        vec![
            CellSegment { x: 0, z: 0, from: Edge::LowZ, to: Edge::HighX },
            CellSegment { x: 0, z: 0, from: Edge::HighZ, to: Edge::LowX },
        ]
    );
}
