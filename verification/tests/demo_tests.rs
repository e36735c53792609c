use destr::demo::{scheduled_punch, DemoDriver, PUNCH_COUNT};
use destr::wall::WallData;

#[test]
fn schedule_lists_eight_punches() {
    assert_eq!(PUNCH_COUNT, 8);
    assert_eq!(scheduled_punch(0), Some((1, 5, 5)));
    assert_eq!(scheduled_punch(3), Some((1, 6, 6)));
    assert_eq!(scheduled_punch(7), Some((1, 7, 6)));
    assert_eq!(scheduled_punch(8), None);
}

#[test]
fn driver_waits_until_due() {
    let mut d = DemoDriver::new();
    assert_eq!(d.punch_step(false), None);
    assert_eq!(d.actions_done, 0);
    assert_eq!(d.punch_step(true), Some((1, 5, 5)));
    assert_eq!(d.actions_done, 1);
}

#[test]
fn demo_knocks_an_eight_brick_hole() {
    let mut d = DemoDriver::default();
    let mut w = WallData::new();
    let mut fired = 0;
    for _ in 0..20 {
        if let Some((c, y, x)) = d.punch_step(true) {
            assert!(w.punch_block(c, y, x).is_some());
            fired += 1;
        }
    }
    assert_eq!(fired, 8);
    assert_eq!(d.actions_done, 8);
    assert_eq!(w.alive_count(), 232);
    let rows = w.section_rows(1);
    for y in 4..8 {
        for x in 5..7 {
            assert_eq!(rows[9 - y][x], '\u{b7}');
        }
    }
    assert!(w.alive(0, 5, 5));
}

#[test]
fn screenshot_requested_once() {
    let mut d = DemoDriver::new();
    assert!(!d.shot_step(false));
    assert!(!d.shot_taken);
    assert!(d.shot_step(true));
    assert!(d.shot_taken);
    assert!(!d.shot_step(true));
}
