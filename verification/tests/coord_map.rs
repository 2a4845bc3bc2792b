use educational_missile_physics::coord_map::CoordMap;

#[test]
fn coordinates_with_shared_bits_stay_apart() {
    let mut m: CoordMap<u8> = CoordMap::new();
    let coords = [(0, 0), (0, -1), (-1, 0), (-1, -1), (1, 0), (0, 1), (i32::MIN, i32::MAX), (i32::MAX, i32::MIN)];
    for (i, &c) in coords.iter().enumerate() {
        m.insert(c, i as u8);
    }
    assert_eq!(m.len(), coords.len());
    for (i, &c) in coords.iter().enumerate() {
        assert_eq!(m.get(c), Some(&(i as u8)));
    }
    let mut ks = m.keys();
    ks.sort();
    let mut expected = coords.to_vec();
    expected.sort();
    assert_eq!(ks, expected);
}

#[test]
fn insert_remove_and_retain() {
    let mut m: CoordMap<&str> = CoordMap::new();
    m.insert((3, 3), "a");
    m.insert((3, 3), "b");
    assert_eq!(m.len(), 1);
    assert_eq!(m.remove((3, 3)), Some("b"));
    assert_eq!(m.remove((3, 3)), None);
    assert!(!m.contains_key((3, 3)));
    m.insert((0, 0), "near");
    m.insert((2, -2), "edge");
    m.insert((3, 0), "far");
    let mut gone = m.retain_within((0, 0), 2);
    gone.sort();
    assert_eq!(gone, vec![((3, 0), "far")]);
    assert_eq!(m.len(), 2);
    assert!(m.contains_key((2, -2)));
}
