use destr::wall::{
    block_from_floors, chunk_of, chunks_x, chunks_y, is_bond_course, WallData, CHUNK_COLS,
    CHUNK_ROWS, COLS, COURSES, LAYERS,
};

const STANDING: char = '\u{2593}';
const HOLE: char = '\u{b7}';

#[test]
fn fresh_wall_is_full() {
    let w = WallData::new();
    assert_eq!(w.alive_count(), LAYERS * COURSES * COLS);
    assert_eq!(w.alive_count(), 240);
    for c in 0..LAYERS {
        for y in 0..COURSES {
            for x in 0..COLS {
                assert!(w.alive(c, y, x));
            }
        }
    }
}

#[test]
fn alive_is_false_off_the_wall() {
    let w = WallData::new();
    assert!(!w.alive(LAYERS, 0, 0));
    assert!(!w.alive(0, COURSES, 0));
    assert!(!w.alive(0, 0, COLS));
    assert!(!w.alive(usize::MAX, usize::MAX, usize::MAX));
}

#[test]
fn destroy_removes_exactly_one_brick() {
    let mut w = WallData::new();
    w.destroy(1, 5, 5);
    assert!(!w.alive(1, 5, 5));
    assert!(w.alive(0, 5, 5));
    assert!(w.alive(1, 5, 4));
    assert!(w.alive(1, 4, 5));
    assert_eq!(w.alive_count(), 239);
}

#[test]
fn destroy_twice_is_destroy_once() {
    let mut w = WallData::new();
    w.destroy(0, 3, 7);
    w.destroy(0, 3, 7);
    assert_eq!(w.alive_count(), 239);
    assert!(!w.alive(0, 3, 7));
}

#[test]
fn destroy_off_the_wall_changes_nothing() {
    let mut w = WallData::new();
    w.destroy(2, 0, 0);
    w.destroy(0, 10, 0);
    w.destroy(0, 0, 12);
    assert_eq!(w.alive_count(), 240);
}

#[test]
fn alive_blocks_in_walking_order() {
    let mut w = WallData::new();
    let all = w.alive_blocks();
    assert_eq!(all.len(), 240);
    assert_eq!(all[0], (0, 0, 0));
    assert_eq!(all[1], (0, 0, 1));
    assert_eq!(all[12], (0, 1, 0));
    assert_eq!(all[120], (1, 0, 0));
    assert_eq!(all[239], (1, 9, 11));
    w.destroy(0, 0, 1);
    w.destroy(1, 9, 11);
    let rest = w.alive_blocks();
    assert_eq!(rest.len(), 238);
    assert_eq!(rest[1], (0, 0, 2));
    assert_eq!(rest[237], (1, 9, 10));
    assert!(!rest.contains(&(0, 0, 1)));
}

#[test]
fn chunk_grid_is_three_by_two() {
    assert_eq!(chunks_x(), 3);
    assert_eq!(chunks_y(), 2);
    assert_eq!(chunk_of(0, 0), (0, 0));
    assert_eq!(chunk_of(3, 4), (0, 0));
    assert_eq!(chunk_of(4, 5), (1, 1));
    assert_eq!(chunk_of(11, 9), (2, 1));
    assert_eq!(chunk_of(5, 5), (5 / CHUNK_COLS, 5 / CHUNK_ROWS));
}

#[test]
fn every_brick_is_in_one_chunk() {
    let w = WallData::new();
    let mut total = 0;
    for cy in 0..chunks_y() {
        for cx in 0..chunks_x() {
            let part = w.chunk_blocks(cx, cy);
            assert_eq!(part.len(), LAYERS * CHUNK_ROWS * CHUNK_COLS);
            for &(_, y, x) in part.iter() {
                assert_eq!(chunk_of(x, y), (cx, cy));
            }
            total += part.len();
        }
    }
    assert_eq!(total, 240);
    assert!(w.chunk_blocks(3, 0).is_empty());
    assert!(w.chunk_blocks(0, 2).is_empty());
}

#[test]
fn chunk_blocks_walk_order() {
    let w = WallData::new();
    let part = w.chunk_blocks(1, 1);
    assert_eq!(part[0], (0, 5, 4));
    assert_eq!(part[1], (0, 5, 5));
    assert_eq!(part[4], (0, 6, 4));
    assert_eq!(part[20], (1, 5, 4));
    assert_eq!(part[39], (1, 9, 7));
}

#[test]
fn punch_only_touches_its_chunk() {
    let mut w = WallData::new();
    let before: Vec<Vec<(usize, usize, usize)>> = (0..2)
        .flat_map(|cy| (0..3).map(move |cx| (cx, cy)))
        .map(|(cx, cy)| w.chunk_blocks(cx, cy))
        .collect();
    let hit = w.punch_block(1, 5, 5);
    assert_eq!(hit, Some((1, 1)));
    let mut k = 0;
    for cy in 0..2 {
        for cx in 0..3 {
            let now = w.chunk_blocks(cx, cy);
            if (cx, cy) == (1, 1) {
                assert_eq!(now.len(), before[k].len() - 1);
                assert!(!now.contains(&(1, 5, 5)));
            } else {
                assert_eq!(now, before[k]);
            }
            k += 1;
        }
    }
}

#[test]
fn punch_at_a_hole_does_nothing() {
    let mut w = WallData::new();
    assert_eq!(w.punch_block(0, 2, 3), Some((0, 0)));
    assert_eq!(w.punch_block(0, 2, 3), None);
    assert_eq!(w.punch_block(5, 2, 3), None);
    assert_eq!(w.alive_count(), 239);
}

#[test]
fn section_of_fresh_wall() {
    let w = WallData::new();
    let rows = w.section_rows(1);
    assert_eq!(rows.len(), COURSES);
    for row in rows.iter() {
        assert_eq!(row.len(), COLS);
        assert!(row.iter().all(|&ch| ch == STANDING));
    }
}

#[test]
fn section_shows_holes_top_course_first() {
    let mut w = WallData::new();
    w.destroy(1, 9, 0);
    w.destroy(1, 0, 11);
    w.destroy(0, 5, 5);
    let rows = w.section_rows(1);
    assert_eq!(rows[0][0], HOLE);
    assert_eq!(rows[9][11], HOLE);
    assert_eq!(rows[4][5], STANDING);
    let text: String = rows[0].iter().collect();
    assert_eq!(text, "\u{b7}\u{2593}\u{2593}\u{2593}\u{2593}\u{2593}\u{2593}\u{2593}\u{2593}\u{2593}\u{2593}\u{2593}");
    let back = w.section_rows(0);
    assert_eq!(back[4][5], HOLE);
}

#[test]
fn bond_courses_are_odd() {
    assert!(!is_bond_course(0));
    assert!(is_bond_course(1));
    assert!(!is_bond_course(8));
    assert!(is_bond_course(9));
}

#[test]
fn block_from_floors_picks_and_clamps() {
    assert_eq!(block_from_floors(10, 0, 0, 0), None);
    assert_eq!(block_from_floors(usize::MAX, 0, 0, 0), None);
    assert_eq!(block_from_floors(2, 4, 3, 1), Some((1, 2, 4)));
    assert_eq!(block_from_floors(3, 4, 3, 1), Some((1, 3, 3)));
    assert_eq!(block_from_floors(3, 4, -1, 0), Some((0, 3, 0)));
    assert_eq!(block_from_floors(0, 12, 0, 7), Some((1, 0, 11)));
    assert_eq!(block_from_floors(9, i32::MIN, i32::MAX, usize::MAX), Some((1, 9, 11)));
}
