use ended::tiles::{abs_diff, manhattan_distance, TileSet};

#[test]
fn abs_diff_is_symmetric_and_wide() {
    assert_eq!(abs_diff(3, 10), 7);
    assert_eq!(abs_diff(10, 3), 7);
    assert_eq!(abs_diff(-4, -4), 0);
    assert_eq!(abs_diff(i32::MIN, i32::MAX), 4_294_967_295);
}

#[test]
fn manhattan_distance_adds_both_axes() {
    assert_eq!(manhattan_distance((5, 5), (6, 5)), 1);
    assert_eq!(manhattan_distance((5, 5), (5, 5)), 0);
    assert_eq!(manhattan_distance((0, 0), (-3, 4)), 7);
    assert_eq!(manhattan_distance((i32::MIN, i32::MIN), (i32::MAX, i32::MAX)), 8_589_934_590);
}

#[test]
fn tile_set_starts_empty() {
    let set = TileSet::new();
    assert!(!set.contains((0, 0)));
    assert!(!set.contains((-1, 7)));
}

#[test]
fn tile_set_insert_reports_new_tiles() {
    let mut set = TileSet::new();
    assert!(set.insert((2, 3)));
    assert!(!set.insert((2, 3)));
    assert!(set.contains((2, 3)));
    assert!(!set.contains((3, 2)));
}

#[test]
fn tile_set_tells_mirrored_and_negative_tiles_apart() {
    let mut set = TileSet::new();
    set.insert((-1, 0));
    set.insert((0, -1));
    set.insert((i32::MIN, i32::MAX));
    assert!(set.contains((-1, 0)));
    assert!(set.contains((0, -1)));
    assert!(set.contains((i32::MIN, i32::MAX)));
    assert!(!set.contains((i32::MAX, i32::MIN)));
    assert!(!set.contains((0, 0)));
    assert!(!set.contains((-1, -1)));
}

#[test]
fn tile_set_remove_reports_presence() {
    let mut set = TileSet::new();
    set.insert((4, 4));
    set.insert((4, 5));
    assert!(set.remove((4, 4)));
    assert!(!set.remove((4, 4)));
    assert!(!set.contains((4, 4)));
    assert!(set.contains((4, 5)));
}
