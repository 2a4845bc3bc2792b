use educational_missile_physics::debug_axes::DebugAxesConfig;
use educational_missile_physics::height_cache::{HeightCache, CACHE_LEN, CACHE_VERTS};

fn numbered_grid() -> Vec<u32> {
    (0..CACHE_LEN as u32).collect()
}

#[test]
fn cache_grid_dimensions() {
    assert_eq!((CACHE_VERTS * CACHE_VERTS) as usize, CACHE_LEN);
}

#[test]
fn cell_reads_back_what_was_inserted() {
    let mut cache: HeightCache<u32> = HeightCache::new();
    cache.insert((1, -1), numbered_grid());
    let c = cache.cell((1, -1), 3, 4).unwrap();
    assert_eq!((c.x, c.z), (3, 4));
    assert_eq!(c.h00, 4 * 32 + 3);
    assert_eq!(c.h10, 4 * 32 + 4);
    assert_eq!(c.h01, 5 * 32 + 3);
    assert_eq!(c.h11, 5 * 32 + 4);
}

#[test]
fn cell_indices_clamp_to_last_cell() {
    let mut cache: HeightCache<u32> = HeightCache::new();
    cache.insert((0, 0), numbered_grid());
    let c = cache.cell((0, 0), 31, 400).unwrap();
    assert_eq!((c.x, c.z), (30, 30));
    assert_eq!(c.h00, 30 * 32 + 30);
    assert_eq!(c.h11, 31 * 32 + 31);
    let c = cache.cell((0, 0), 30, 0).unwrap();
    assert_eq!((c.x, c.z), (30, 0));
}

#[test]
fn missing_chunk_has_no_cell() {
    let mut cache: HeightCache<u32> = HeightCache::new();
    assert!(cache.cell((0, 0), 0, 0).is_none());
    cache.insert((0, 0), numbered_grid());
    assert!(cache.cell((0, 1), 0, 0).is_none());
    cache.remove((0, 0));
    assert!(cache.cell((0, 0), 0, 0).is_none());
    assert!(cache.heights((0, 0)).is_none());
}

#[test]
fn insert_replaces_heights() {
    let mut cache: HeightCache<u32> = HeightCache::new();
    cache.insert((2, 2), vec![7; CACHE_LEN]);
    cache.insert((2, 2), numbered_grid());
    assert_eq!(cache.cell((2, 2), 0, 0).unwrap().h10, 1);
}

#[test]
fn debug_axes_shown_by_default() {
    assert!(DebugAxesConfig::default().enabled);
}

#[test]
fn short_grid_still_answers_cells_inside_it() {
    let mut cache: HeightCache<u32> = HeightCache::new();
    cache.insert((0, 0), (0..100).collect());
    assert!(cache.cell_readable((0, 0), 1, 1));
    let c = cache.cell((0, 0), 1, 1).unwrap();
    assert_eq!((c.h00, c.h11), (33, 66));
    assert!(!cache.cell_readable((0, 0), 5, 5));
    assert!(cache.cell_readable((9, 9), 5, 5));
    cache.insert((1, 1), (0..CACHE_LEN as u32).collect());
    assert!(cache.cell_readable((1, 1), 500, 500));
}
