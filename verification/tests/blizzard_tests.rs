use puzzle_kernels::blizzard::{
    find_path, min_crossing_time, parse_map, Blizzard, BlizzardPrediction, Valley,
};
use puzzle_kernels::grid::{Coord, Direction};

fn lines(rows: &[&[u8]]) -> Vec<Vec<u8>> {
    rows.iter().map(|r| r.to_vec()).collect()
}

fn obstacle_field() -> Vec<Vec<u8>> {
    // a 4x4 interior with two sweeping obstacles
    lines(&[
        b"#.####",
        b"#>...#",
        b"#...v#",
        b"#....#",
        b"#....#",
        b"####.#",
    ])
}

#[test]
fn parse_map_reads_geometry_and_obstacles() {
    let (m, bs) = parse_map(&obstacle_field()).expect("well-formed map");
    assert_eq!(m.width, 4);
    assert_eq!(m.height, 4);
    assert_eq!(m.start, Coord { x: 1, y: 0 });
    assert_eq!(m.end, Coord { x: 4, y: 5 });
    assert_eq!(bs.len(), 2);
    assert_eq!(bs[0].pos, Coord { x: 1, y: 1 });
    assert!(matches!(bs[0].dir, Direction::Right));
    assert_eq!(bs[1].pos, Coord { x: 4, y: 2 });
    assert!(matches!(bs[1].dir, Direction::Down));
}

#[test]
fn parse_map_rejects_malformed() {
    // too small
    assert!(parse_map(&lines(&[b"##", b"##"])).is_none());
    // ragged rows
    assert!(parse_map(&lines(&[b"#.####", b"#...#", b"####.#"])).is_none());
    // an obstacle on the border is invalid
    assert!(parse_map(&lines(&[b"#.###>", b"#....#", b"####.#"])).is_none());
}

#[test]
fn field_is_periodic() {
    // occupancy(T) == occupancy(T + width*height), cell by cell
    let (m, bs) = parse_map(&obstacle_field()).expect("well-formed map");
    let pred = BlizzardPrediction::new(&bs, m.width, m.height);
    let period = m.width * m.height;
    for t in 0..2 * period {
        let a = pred.predict_for_iteration(t);
        let b = pred.predict_for_iteration(t + period);
        assert_eq!(a, b);
    }
}

#[test]
fn obstacles_stay_inside_interior() {
    let (m, bs) = parse_map(&obstacle_field()).expect("well-formed map");
    let pred = BlizzardPrediction::new(&bs, m.width, m.height);
    for t in 0..40 {
        // border cells and openings are never occupied
        for x in 0..m.width + 2 {
            assert!(!pred.occupied_at(t, Coord { x, y: 0 }));
            assert!(!pred.occupied_at(t, Coord { x, y: m.height + 1 }));
        }
        for y in 0..m.height + 2 {
            assert!(!pred.occupied_at(t, Coord { x: 0, y }));
            assert!(!pred.occupied_at(t, Coord { x: m.width + 1, y }));
        }
    }
}

#[test]
fn end_to_end_obstacle_field() {
    // the minimal crossing of this field is exactly 8 steps
    let (m, bs) = parse_map(&obstacle_field()).expect("well-formed map");
    let pred = BlizzardPrediction::new(&bs, m.width, m.height);
    assert_eq!(min_crossing_time(&pred, &m, 0, 100), Some(8));
}

#[test]
fn branch_and_bound_agrees_with_breadth_first() {
    // the memoized branch-and-bound and the exhaustive breadth-first
    // search agree on small fields
    let maps = [
        obstacle_field(),
        lines(&[b"#.####", b"#....#", b"#....#", b"####.#"]),
        lines(&[b"#.###", b"#>.<#", b"#.^.#", b"###.#"]),
    ];
    for text in maps.iter() {
        let (m, bs) = parse_map(text).expect("well-formed map");
        let pred = BlizzardPrediction::new(&bs, m.width, m.height);
        let exact = min_crossing_time(&pred, &m, 0, 200).expect("crossable");
        let mut cache =
            vec![None; pred.forecasts_repeat_after * ((m.width + 2) * (m.height + 2))];
        let pruned = find_path(m.start, 0, 0, 1000, &m, &pred, &mut cache, false);
        assert_eq!(pruned, exact);
    }
}

#[test]
fn reverse_leg_uses_absolute_time() {
    // a return leg starts at the time the first leg ended
    let (m, bs) = parse_map(&obstacle_field()).expect("well-formed map");
    let pred = BlizzardPrediction::new(&bs, m.width, m.height);
    let there = min_crossing_time(&pred, &m, 0, 200).expect("crossable");
    let back_map = Valley { width: m.width, height: m.height, start: m.end, end: m.start };
    let back = min_crossing_time(&pred, &back_map, there, 200).expect("crossable back");
    let again = min_crossing_time(&pred, &m, there + back, 200).expect("crossable again");
    assert!(there == 8 && back >= 8 && again >= 8);
}

#[test]
fn blizzard_new_holds_fields() {
    let b = Blizzard::new(Coord { x: 2, y: 3 }, Direction::Left);
    assert_eq!(b.pos, Coord { x: 2, y: 3 });
    assert!(matches!(b.dir, Direction::Left));
}

#[test]
fn valley_is_off() {
    let m = Valley {
        width: 4,
        height: 4,
        start: Coord { x: 1, y: 0 },
        end: Coord { x: 4, y: 5 },
    };
    assert!(m.is_off(Coord { x: 0, y: 1 }));
    assert!(m.is_off(Coord { x: 1, y: 0 }));
    assert!(m.is_off(Coord { x: 5, y: 2 }));
    assert!(!m.is_off(Coord { x: 1, y: 1 }));
    assert!(!m.is_off(Coord { x: 4, y: 4 }));
}
