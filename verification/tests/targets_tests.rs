use destr::targets::{BrickWallTarget, WindshieldGrid};

#[test]
fn target_wall_starts_intact() {
    let w = BrickWallTarget::new(8, 6, 2);
    assert_eq!(w.total(), 96);
    assert_eq!(w.alive_count(), 96);
    assert_eq!((w.cols(), w.rows(), w.layers()), (8, 6, 2));
    assert!(w.alive(7, 5, 1));
}

#[test]
fn target_wall_index_layout() {
    let w = BrickWallTarget::new(8, 6, 2);
    assert_eq!(w.idx(0, 0, 0), 0);
    assert_eq!(w.idx(3, 2, 1), 48 + 16 + 3);
    assert_eq!(w.idx(7, 5, 1), 95);
}

#[test]
fn target_wall_destroy_one() {
    let mut w = BrickWallTarget::new(8, 6, 2);
    w.destroy(3, 2, 1);
    assert!(!w.alive(3, 2, 1));
    assert!(w.alive(3, 2, 0));
    assert!(w.alive(4, 2, 1));
    assert_eq!(w.alive_count(), 95);
    assert_eq!(w.total() - w.alive_count(), 1);
}

#[test]
fn target_wall_point_lookup() {
    let w = BrickWallTarget::new(8, 6, 2);
    assert_eq!(w.block_from_floors(-1, 0, 0, 0), None);
    assert_eq!(w.block_from_floors(6, 0, 0, 0), None);
    assert_eq!(w.block_from_floors(0, 3, 2, 0), Some((3, 0, 0)));
    assert_eq!(w.block_from_floors(1, 3, 2, 0), Some((2, 1, 0)));
    assert_eq!(w.block_from_floors(1, 20, -3, 5), Some((0, 1, 1)));
    assert_eq!(w.block_from_floors(4, 20, 0, -2), Some((7, 4, 0)));
}

#[test]
fn windshield_tiles() {
    let mut g = WindshieldGrid::new(6, 3);
    assert_eq!((g.cols(), g.rows()), (6, 3));
    assert_eq!(g.count_alive(), 18);
    g.destroy(2, 1);
    g.destroy(2, 1);
    assert!(!g.alive(2, 1));
    assert!(g.alive(1, 2));
    assert_eq!(g.count_alive(), 17);
}

#[test]
fn target_wall_standing_blocks_in_walk_order() {
    let mut w = BrickWallTarget::new(8, 6, 2);
    let all = w.standing_blocks();
    assert_eq!(all.len(), 96);
    assert_eq!(all[0], (0, 0, 0));
    assert_eq!(all[1], (0, 0, 1));
    assert_eq!(all[8], (0, 1, 0));
    assert_eq!(all[48], (1, 0, 0));
    assert_eq!(all[95], (1, 5, 7));
    w.destroy(3, 2, 1);
    w.destroy(0, 0, 0);
    let rest = w.standing_blocks();
    assert_eq!(rest.len(), w.alive_count());
    assert_eq!(rest[0], (0, 0, 1));
    assert!(!rest.contains(&(1, 2, 3)));
    assert!(rest.contains(&(0, 2, 3)));
    for &(c, y, x) in rest.iter() {
        assert!(w.alive(x, y, c));
    }
}

#[test]
fn empty_target_wall_lists_nothing() {
    let w = BrickWallTarget::new(0, 4, 2);
    assert!(w.standing_blocks().is_empty());
    assert_eq!(w.total(), 0);
}
