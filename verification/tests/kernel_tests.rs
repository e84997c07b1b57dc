use puzzle_kernels::forest::{
    count_visible, score, vec_down, vec_left, vec_right, vec_up, viewing_distance,
    visible_in_column, visible_in_row, visible_in_vec,
};
use puzzle_kernels::grid::{Coord, Direction, Rect};
use puzzle_kernels::ranges::{count_overlaps, does_range_contain_range, parse_range};
use puzzle_kernels::rps::{decrypt, play_round, total_score};
use puzzle_kernels::signals::{add, check_line};

fn lines(rows: &[&[u8]]) -> Vec<Vec<u8>> {
    rows.iter().map(|r| r.to_vec()).collect()
}

#[test]
fn coord_moves_and_distance() {
    let c = Coord::new(3, 4);
    assert_eq!(c.move_right(), Coord { x: 4, y: 4 });
    assert_eq!(c.move_left(), Coord { x: 2, y: 4 });
    assert_eq!(c.move_down(), Coord { x: 3, y: 5 });
    assert_eq!(c.move_up(), Coord { x: 3, y: 3 });
    assert_eq!(c.move_to(Direction::Right), Coord { x: 4, y: 4 });
    assert_eq!(c.distance_to(&Coord { x: 1, y: 7 }), 5);
    assert_eq!(Coord { x: 1, y: 7 }.distance_to(&c), 5);
}

#[test]
fn rect_contains() {
    let r = Rect { min_x: 1, min_y: 1, width: 4, height: 3 };
    assert!(r.contains(Coord { x: 1, y: 1 }));
    assert!(r.contains(Coord { x: 4, y: 3 }));
    assert!(!r.contains(Coord { x: 0, y: 1 }));
    assert!(!r.contains(Coord { x: 5, y: 2 }));
    assert!(!r.contains(Coord { x: 2, y: 4 }));
}

#[test]
fn rps_round_scores() {
    // A Y: draw with rock, B X: lose with rock, C Z: win with rock
    assert_eq!(play_round(b'A', b'Y'), 4);
    assert_eq!(play_round(b'B', b'X'), 1);
    assert_eq!(play_round(b'C', b'Z'), 7);
    assert_eq!(decrypt(b'A', b'X'), b'C');
    assert_eq!(decrypt(b'B', b'Y'), b'B');
    assert_eq!(decrypt(b'C', b'Z'), b'A');
}

#[test]
fn rps_total_score() {
    let total = total_score(&lines(&[b"A Y", b"B X", b"C Z"]));
    assert_eq!(total, 12);
    // unparseable lines score nothing
    let total = total_score(&lines(&[b"A Y", b"", b"??"]));
    assert_eq!(total, 4);
}

#[test]
fn range_parsing_and_containment() {
    assert_eq!(parse_range(&b"2-8".to_vec()), Some((2, 8)));
    assert_eq!(parse_range(&b"10-99".to_vec()), Some((10, 99)));
    assert_eq!(parse_range(&b"2-".to_vec()), None);
    assert_eq!(parse_range(&b"28".to_vec()), None);
    assert_eq!(parse_range(&b"a-8".to_vec()), None);
    assert!(does_range_contain_range((2, 8), (3, 7)));
    assert!(does_range_contain_range((2, 8), (8, 12)));
    assert!(!does_range_contain_range((4, 6), (2, 8)));
}

#[test]
fn range_overlap_count() {
    // of the six worked-example pairs, four overlap at a start
    let input = lines(&[
        b"2-4,6-8",
        b"2-3,4-5",
        b"5-7,7-9",
        b"2-8,3-7",
        b"6-6,4-6",
        b"2-6,4-8",
    ]);
    assert_eq!(count_overlaps(&input), 4);
    // malformed lines count nothing
    assert_eq!(count_overlaps(&lines(&[b"junk", b"1-2,3-4"])), 0);
}

#[test]
fn forest_visible_count() {
    // the worked example has 5 visible interior trees
    assert_eq!(count_visible(&example_forest()), 5);
}

#[test]
fn signal_marker_position() {
    // the distinct-fourteen marker of the worked example
    let line = b"mjqjpqmgbljsphdztnvjfqwrcgsmlb".to_vec();
    assert_eq!(check_line(&line), 19);
    // no marker in a line of one repeated character
    assert_eq!(check_line(&b"aaaaaaaaaaaaaaaaaa".to_vec()), 0);
    // too short for any marker
    assert_eq!(check_line(&b"abcde".to_vec()), 0);
}

#[test]
fn signal_window_slides() {
    let mut window: Vec<u8> = Vec::new();
    for (k, c) in b"abcdefghijklmn".iter().enumerate() {
        let complete = add(&mut window, *c);
        // the first marker completes exactly when the fifteenth push drops
        // the oldest character; fourteen distinct pushes alone say nothing
        assert!(!complete);
        assert_eq!(window.len(), (k + 1).min(14));
    }
    assert!(add(&mut window, b'o'));
    assert!(!add(&mut window, b'o'));
}

fn example_forest() -> Vec<Vec<u32>> {
    vec![
        vec![3, 0, 3, 7, 3],
        vec![2, 5, 5, 1, 2],
        vec![6, 5, 3, 3, 2],
        vec![3, 3, 5, 4, 9],
        vec![3, 5, 3, 9, 0],
    ]
}

#[test]
fn forest_sight_lines() {
    let area = example_forest();
    assert_eq!(vec_up(&area, 3, 2), vec![3, 5, 3]);
    assert_eq!(vec_down(&area, 3, 2), vec![3]);
    assert_eq!(vec_left(&area, 3, 2), vec![3, 3]);
    assert_eq!(vec_right(&area, 3, 2), vec![4, 9]);
}

#[test]
fn forest_viewing_distance_and_score() {
    assert_eq!(viewing_distance(&vec![3, 5, 3], 5), 2);
    assert_eq!(viewing_distance(&vec![3, 3], 5), 2);
    assert_eq!(viewing_distance(&vec![3], 5), 1);
    assert_eq!(viewing_distance(&vec![4, 9], 5), 2);
    // the worked example's best scenic score
    assert_eq!(score(&example_forest(), 3, 2), 8);
    assert_eq!(score(&example_forest(), 1, 2), 4);
}

#[test]
fn forest_visibility() {
    let area = example_forest();
    // the top-left 5 is visible from the left and the top
    assert!(visible_in_row(&area, 1, 1));
    assert!(visible_in_column(&area, 1, 1));
    // the centre 3 is hidden on all four sides
    assert!(!visible_in_row(&area, 2, 2));
    assert!(!visible_in_column(&area, 2, 2));
    assert!(visible_in_vec(&vec![1, 2, 3], 2));
    assert!(!visible_in_vec(&vec![4, 2, 3, 9], 1));
}
