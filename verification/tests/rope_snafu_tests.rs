use puzzle_kernels::grid::Direction;
use puzzle_kernels::rope::{
    count_visited, move_tail_according_to_head, parse_move, tail_visits, Knot,
};
use puzzle_kernels::snafu::{from_snafu, to_snafu};

#[test]
fn tail_follows_head() {
    // touching: no movement
    let mut tail = Knot { x: 0, y: 0 };
    move_tail_according_to_head(&mut tail, Knot { x: 1, y: 1 });
    assert_eq!(tail, Knot { x: 0, y: 0 });
    // two apart on one axis: one straight step
    let mut tail = Knot { x: 0, y: 0 };
    move_tail_according_to_head(&mut tail, Knot { x: 2, y: 0 });
    assert_eq!(tail, Knot { x: 1, y: 0 });
    // a knight's-move gap closes diagonally
    let mut tail = Knot { x: 0, y: 0 };
    move_tail_according_to_head(&mut tail, Knot { x: 2, y: 1 });
    assert_eq!(tail, Knot { x: 1, y: 1 });
    let mut tail = Knot { x: 3, y: 3 };
    move_tail_according_to_head(&mut tail, Knot { x: 1, y: 2 });
    assert_eq!(tail, Knot { x: 2, y: 2 });
}

#[test]
fn moves_parse() {
    assert_eq!(parse_move(&b"R 4".to_vec()), Some((Direction::Right, 4)));
    assert_eq!(parse_move(&b"U 12".to_vec()), Some((Direction::Up, 12)));
    assert_eq!(parse_move(&b"L 1".to_vec()), Some((Direction::Left, 1)));
    assert_eq!(parse_move(&b"D 2".to_vec()), Some((Direction::Down, 2)));
    assert_eq!(parse_move(&b"X 4".to_vec()), None);
    assert_eq!(parse_move(&b"R4".to_vec()), None);
    assert_eq!(parse_move(&b"R x".to_vec()), None);
}

#[test]
fn walk_visits_counted() {
    // the worked example: 13 distinct tail positions
    let text: [(&[u8], ()); 8] = [
        (b"R 4", ()),
        (b"U 4", ()),
        (b"L 3", ()),
        (b"D 1", ()),
        (b"R 4", ()),
        (b"D 1", ()),
        (b"L 5", ()),
        (b"R 2", ()),
    ];
    let mut moves = Vec::new();
    for (line, _) in text.iter() {
        let (dir, n) = parse_move(&line.to_vec()).expect("move line");
        for _ in 0..n {
            moves.push(dir);
        }
    }
    let visits = tail_visits(&moves);
    assert_eq!(visits.len(), moves.len() + 1);
    assert_eq!(count_visited(&visits), 13);
}

#[test]
fn count_visited_dedups() {
    let walk = vec![
        Knot { x: 0, y: 0 },
        Knot { x: 1, y: 0 },
        Knot { x: 0, y: 0 },
        Knot { x: 1, y: 0 },
        Knot { x: 2, y: 0 },
    ];
    assert_eq!(count_visited(&walk), 3);
}

#[test]
fn snafu_reads() {
    assert_eq!(from_snafu(&b"1".to_vec()), Some(1));
    assert_eq!(from_snafu(&b"2=".to_vec()), Some(8));
    assert_eq!(from_snafu(&b"1=11-2".to_vec()), Some(2022));
    assert_eq!(from_snafu(&b"1121-1110-1=0".to_vec()), Some(314159265));
    assert_eq!(from_snafu(&b"".to_vec()), None);
    assert_eq!(from_snafu(&b"13".to_vec()), None);
}

#[test]
fn snafu_range_boundary() {
    // a 28-digit numeral still decodes when its value fits
    let mut big = b"1".to_vec();
    big.extend_from_slice(&[b'0'; 27]);
    assert_eq!(from_snafu(&big), Some(7_450_580_596_923_828_125));
    assert_eq!(to_snafu(7_450_580_596_923_828_125), big);
    // twice that power does not fit an i64 and is rejected
    let mut too_big = b"2".to_vec();
    too_big.extend_from_slice(&[b'0'; 27]);
    assert_eq!(from_snafu(&too_big), None);
    // the largest representable value round-trips
    let max_text = to_snafu(i64::MAX);
    assert_eq!(from_snafu(&max_text), Some(i64::MAX));
}

#[test]
fn snafu_writes() {
    assert_eq!(to_snafu(0), b"0".to_vec());
    assert_eq!(to_snafu(8), b"2=".to_vec());
    assert_eq!(to_snafu(2022), b"1=11-2".to_vec());
    assert_eq!(to_snafu(4890), b"2=-1=0".to_vec());
}

#[test]
fn snafu_round_trip() {
    for n in [0i64, 1, 2, 3, 4, 5, 9, 20, 2022, 12345, 314159265, 3_725_290_298_461_914_063] {
        let text = to_snafu(n);
        assert_eq!(from_snafu(&text), Some(n));
    }
}
