use ball_game::layout::{arrange_rows, row_count};
use ball_game::game::MAX_BALLS;

fn float_rows(n: u32) -> u32 {
    let num = n as f32;
    ((-1.0 + (1.0 + 8.0 * num).sqrt()) / 2.0).ceil() as u32
}

#[test]
fn row_count_values() {
    assert_eq!(row_count(0), 0);
    assert_eq!(row_count(1), 1);
    assert_eq!(row_count(2), 2);
    assert_eq!(row_count(3), 2);
    assert_eq!(row_count(4), 3);
    assert_eq!(row_count(6), 3);
    assert_eq!(row_count(7), 4);
    assert_eq!(row_count(666), 36);
}

#[test]
fn row_count_matches_triangular_root() {
    for n in 0..=MAX_BALLS {
        assert_eq!(row_count(n), float_rows(n), "n = {}", n);
    }
}

#[test]
fn rows_fill_from_the_widest() {
    assert_eq!(arrange_rows(7, 4), vec![0, 0, 3, 4]);
    assert_eq!(arrange_rows(5, 3), vec![0, 2, 3]);
    assert_eq!(arrange_rows(6, 3), vec![1, 2, 3]);
    assert_eq!(arrange_rows(0, 3), vec![0, 0, 0]);
    assert_eq!(arrange_rows(0, 0), Vec::<u32>::new());
}

#[test]
fn rows_drop_balls_beyond_room() {
    assert_eq!(arrange_rows(10, 2), vec![1, 2]);
}

#[test]
fn rows_hold_all_balls() {
    for n in 0..=MAX_BALLS {
        let rows = arrange_rows(n, row_count(n));
        assert_eq!(rows.iter().sum::<u32>(), n);
        for (i, r) in rows.iter().enumerate() {
            assert!(*r as usize <= i + 1);
        }
    }
}
