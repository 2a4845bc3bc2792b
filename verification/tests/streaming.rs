use educational_missile_physics::height_cache::HeightCache;
use educational_missile_physics::streaming::{LoadedChunks, DESPAWN_MARGIN, VIEW_DISTANCE};

fn view_square(cx: i32, cz: i32) -> Vec<(i32, i32)> {
    let mut v = Vec::new();
    for dz in -VIEW_DISTANCE..=VIEW_DISTANCE {
        for dx in -VIEW_DISTANCE..=VIEW_DISTANCE {
            v.push((cx + dx, cz + dz));
        }
    }
    v
}

#[test]
fn fresh_state_requests_the_whole_view_in_row_order() {
    let lc: LoadedChunks<u64, u32> = LoadedChunks::new();
    let r = lc.chunks_to_request(3, -2);
    assert_eq!(r.len(), 169);
    assert_eq!(r, view_square(3, -2));
    assert_eq!(r[0], (-3, -8));
    assert_eq!(r[168], (9, 4));
}

#[test]
fn known_chunks_are_not_requested_again() {
    let mut lc: LoadedChunks<u64, u32> = LoadedChunks::new();
    let mut cache: HeightCache<f32> = HeightCache::new();
    lc.add_pending((0, 0), 1);
    lc.complete(&mut cache, (1, 0), 7, vec![0.0; 4]);
    let r = lc.chunks_to_request(0, 0);
    assert_eq!(r.len(), 167);
    assert!(!r.contains(&(0, 0)));
    assert!(!r.contains(&(1, 0)));
    assert!(r.contains(&(-1, 0)));
}

#[test]
fn requesting_everything_covers_the_view() {
    let mut lc: LoadedChunks<u64, u32> = LoadedChunks::new();
    for (i, c) in lc.chunks_to_request(10, 10).into_iter().enumerate() {
        assert!(!lc.is_known(c));
        lc.add_pending(c, i as u32);
    }
    assert_eq!(lc.pending_count(), 169);
    assert!(lc.chunks_to_request(10, 10).is_empty());
    for c in view_square(10, 10) {
        assert!(lc.is_known(c));
    }
    // one chunk further along x: only the new column is missing
    let r = lc.chunks_to_request(11, 10);
    assert_eq!(r.len(), 13);
    assert!(r.iter().all(|c| c.0 == 17));
}

#[test]
fn completing_a_request_loads_the_chunk_and_caches_heights() {
    let mut lc: LoadedChunks<u64, &str> = LoadedChunks::new();
    let mut cache: HeightCache<i32> = HeightCache::new();
    lc.add_pending((2, 3), "task");
    assert_eq!(lc.pending_coords(), vec![(2, 3)]);
    let t = lc.complete(&mut cache, (2, 3), 42, vec![5, 6, 7]);
    assert_eq!(t, Some("task"));
    assert_eq!(lc.pending_count(), 0);
    assert_eq!(lc.chunk((2, 3)), Some(&42));
    assert_eq!(lc.loaded_coords(), vec![(2, 3)]);
    assert_eq!(cache.heights((2, 3)), Some(&vec![5, 6, 7]));
    // completing again replaces the handle and the heights
    assert_eq!(lc.complete(&mut cache, (2, 3), 43, vec![1]), None);
    assert_eq!(lc.chunk((2, 3)), Some(&43));
    assert_eq!(lc.loaded_count(), 1);
    assert_eq!(cache.heights((2, 3)), Some(&vec![1]));
}

#[test]
fn taking_and_returning_a_request() {
    let mut lc: LoadedChunks<u64, u8> = LoadedChunks::new();
    lc.add_pending((0, 1), 9);
    assert_eq!(lc.take_pending((0, 1)), Some(9));
    assert!(!lc.is_known((0, 1)));
    assert_eq!(lc.take_pending((0, 1)), None);
    lc.add_pending((0, 1), 8);
    assert_eq!(lc.take_pending((0, 1)), Some(8));
}

#[test]
fn eviction_keeps_the_margin_and_drops_what_lies_beyond() {
    let mut lc: LoadedChunks<u64, u8> = LoadedChunks::new();
    let mut cache: HeightCache<u8> = HeightCache::new();
    let limit = VIEW_DISTANCE + DESPAWN_MARGIN;
    lc.complete(&mut cache, (limit, 0), 1, vec![1]);
    lc.complete(&mut cache, (limit + 1, 0), 2, vec![2]);
    lc.complete(&mut cache, (0, -limit - 1), 3, vec![3]);
    lc.complete(&mut cache, (-3, 4), 4, vec![4]);
    lc.add_pending((0, limit + 1), 5);
    lc.add_pending((0, limit), 6);
    let mut evicted = lc.evict_out_of_range(&mut cache, 0, 0);
    evicted.sort();
    assert_eq!(evicted, vec![((0, -limit - 1), 3), ((limit + 1, 0), 2)]);
    assert_eq!(lc.loaded_count(), 2);
    assert_eq!(lc.chunk((limit, 0)), Some(&1));
    assert_eq!(lc.chunk((-3, 4)), Some(&4));
    assert_eq!(lc.pending_coords(), vec![(0, limit)]);
    assert!(cache.contains((limit, 0)));
    assert!(cache.contains((-3, 4)));
    assert!(!cache.contains((limit + 1, 0)));
    assert!(!cache.contains((0, -limit - 1)));
}

#[test]
fn moving_one_chunk_never_drops_the_new_view() {
    let mut lc: LoadedChunks<u32, ()> = LoadedChunks::new();
    let mut cache: HeightCache<u8> = HeightCache::new();
    for (i, c) in lc.chunks_to_request(0, 0).into_iter().enumerate() {
        lc.complete(&mut cache, c, i as u32, vec![]);
    }
    let evicted = lc.evict_out_of_range(&mut cache, 1, 1);
    assert!(evicted.is_empty());
    for c in view_square(1, 1) {
        if lc.chunk(c).is_none() {
            assert!(c.0 == 7 || c.1 == 7);
        }
    }
}

#[test]
fn teleporting_drops_everything() {
    let mut lc: LoadedChunks<u32, u8> = LoadedChunks::new();
    let mut cache: HeightCache<u8> = HeightCache::new();
    for (i, c) in lc.chunks_to_request(0, 0).into_iter().enumerate() {
        if i % 2 == 0 {
            lc.complete(&mut cache, c, i as u32, vec![1, 2]);
        } else {
            lc.add_pending(c, 0);
        }
    }
    let evicted = lc.evict_out_of_range(&mut cache, 100, -100);
    assert_eq!(evicted.len(), 85);
    assert_eq!(lc.loaded_count(), 0);
    assert_eq!(lc.pending_count(), 0);
    for c in view_square(0, 0) {
        assert!(!cache.contains(c));
    }
}

#[test]
fn far_coordinates_do_not_overflow_distance() {
    let mut lc: LoadedChunks<u8, u8> = LoadedChunks::new();
    let mut cache: HeightCache<u8> = HeightCache::new();
    lc.complete(&mut cache, (i32::MAX, i32::MIN), 1, vec![]);
    let evicted = lc.evict_out_of_range(&mut cache, i32::MIN, i32::MAX);
    assert_eq!(evicted, vec![((i32::MAX, i32::MIN), 1)]);
}

#[test]
fn loaded_chunks_without_requests() {
    let mut lc: LoadedChunks<u8, ()> = LoadedChunks::new();
    lc.insert_loaded((4, 4), 1);
    lc.insert_loaded((4, 4), 2);
    assert_eq!(lc.loaded_count(), 1);
    assert_eq!(lc.chunk((4, 4)), Some(&2));
    let dropped = lc.drop_out_of_range(-4, -4);
    assert_eq!(dropped, vec![((4, 4), 2)]);
    assert_eq!(lc.loaded_count(), 0);
}

#[test]
fn requesting_a_whole_view_in_one_batch() {
    let mut lc: LoadedChunks<u64, usize> = LoadedChunks::new();
    lc.add_pending((0, 0), 999);
    let reqs = lc.chunks_to_request(0, 0);
    let tasks: Vec<usize> = (0..reqs.len()).collect();
    lc.add_pending_all(reqs.clone(), tasks);
    assert_eq!(lc.pending_count(), 169);
    assert!(lc.chunks_to_request(0, 0).is_empty());
    assert_eq!(lc.take_pending(reqs[5]), Some(5));
    assert_eq!(lc.take_pending((0, 0)), Some(999));
}

#[test]
fn finishing_a_frame_loads_ready_chunks_and_evicts() {
    let mut lc: LoadedChunks<u32, u8> = LoadedChunks::new();
    let mut cache: HeightCache<u8> = HeightCache::new();
    lc.complete(&mut cache, (0, 0), 1, vec![10]);
    lc.complete(&mut cache, (-20, 0), 2, vec![20]);
    lc.add_pending((1, 0), 0);
    lc.add_pending((2, 0), 0);
    lc.add_pending((30, 0), 0);
    let ready = vec![((1, 0), 3, vec![30]), ((40, 40), 4, vec![40])];
    let mut evicted = lc.finish_frame(&mut cache, ready, 0, 0);
    evicted.sort();
    assert_eq!(evicted, vec![((-20, 0), 2), ((40, 40), 4)]);
    assert_eq!(lc.chunk((0, 0)), Some(&1));
    assert_eq!(lc.chunk((1, 0)), Some(&3));
    assert_eq!(lc.loaded_count(), 2);
    assert_eq!(lc.pending_coords(), vec![(2, 0)]);
    assert_eq!(cache.heights((0, 0)), Some(&vec![10]));
    assert_eq!(cache.heights((1, 0)), Some(&vec![30]));
    assert!(!cache.contains((-20, 0)));
    assert!(!cache.contains((40, 40)));
}

#[test]
fn finishing_a_frame_hands_back_each_dropped_handle_with_its_chunk() {
    let mut lc: LoadedChunks<u32, u8> = LoadedChunks::new();
    let mut cache: HeightCache<u8> = HeightCache::new();
    lc.complete(&mut cache, (50, 0), 7, vec![1]);
    lc.complete(&mut cache, (0, 0), 8, vec![2]);
    // heights for a chunk that is not loaded stay untouched
    cache.insert((60, 60), vec![3]);
    let ready = vec![((0, 90), 9, vec![4]), ((1, 1), 10, vec![5])];
    let mut evicted = lc.finish_frame(&mut cache, ready, 0, 0);
    evicted.sort();
    assert_eq!(evicted, vec![((0, 90), 9), ((50, 0), 7)]);
    assert!(!cache.contains((50, 0)));
    assert!(!cache.contains((0, 90)));
    assert_eq!(cache.heights((60, 60)), Some(&vec![3]));
    assert_eq!(cache.heights((0, 0)), Some(&vec![2]));
    assert_eq!(cache.heights((1, 1)), Some(&vec![5]));
}
