use pixel_world::tiles::{tile_index, TileQueue, LAYER_TERRAIN};

#[test]
fn tile_index_rounds_down() {
    assert_eq!(tile_index(0), 0);
    assert_eq!(tile_index(255), 0);
    assert_eq!(tile_index(256), 1);
    assert_eq!(tile_index(-1), -1);
    assert_eq!(tile_index(-256), -1);
    assert_eq!(tile_index(-257), -2);
}

#[test]
fn marks_are_queued_once_in_order() {
    let mut q = TileQueue::new();
    assert!(q.mark(1, 2, 3));
    assert!(q.mark(0, 2, 3));
    assert!(!q.mark(1, 2, 3));
    assert_eq!(q.len(), 2);
    assert_eq!(q.get(0), Some((1, 2, 3)));
    assert_eq!(q.get(1), Some((0, 2, 3)));
    assert_eq!(q.get(2), None);
}

#[test]
fn take_swaps_in_the_last_entry() {
    let mut q = TileQueue::new();
    q.mark(1, 0, 0);
    q.mark(1, 1, 0);
    q.mark(1, 2, 0);
    assert_eq!(q.take(0), (1, 0, 0));
    assert_eq!(q.len(), 2);
    assert_eq!(q.get(0), Some((1, 2, 0)));
    assert_eq!(q.get(1), Some((1, 1, 0)));
    assert!(q.mark(1, 0, 0));
}

#[test]
fn mark_rect_queues_overlapping_tiles() {
    let mut q = TileQueue::new();
    q.mark_rect(LAYER_TERRAIN, -10, 250, 20, 10);
    let mut got: Vec<(u32, i32, i32)> = (0..q.len()).map(|i| q.get(i).unwrap()).collect();
    got.sort();
    assert_eq!(got, vec![(1, -1, 0), (1, -1, 1), (1, 0, 0), (1, 0, 1)]);
    q.mark_rect(LAYER_TERRAIN, 0, 0, 0, 10);
    assert_eq!(q.len(), 4);
}
