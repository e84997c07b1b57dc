use puzzle_kernels::grid::Coord;
use puzzle_kernels::hill::{can_go, find_next, Terrain};

fn grid(rows: &[&[u8]]) -> Vec<Vec<u8>> {
    rows.iter().map(|r| r.to_vec()).collect()
}

fn example_terrain() -> Terrain {
    Terrain::from_2d_vec(&grid(&[
        b"Sabqponm",
        b"abcryxxl",
        b"accszExk",
        b"acctuvwj",
        b"abdefghi",
    ]))
    .expect("rectangular grid")
}

#[test]
fn terrain_reads_cells() {
    let t = example_terrain();
    assert_eq!(t.width, 8);
    assert_eq!(t.height, 5);
    assert_eq!(t.level_at(Coord { x: 0, y: 0 }), b'S');
    assert!(t.is_end_at(Coord { x: 5, y: 2 }));
    assert!(!t.is_end_at(Coord { x: 0, y: 0 }));
    let starts = t.all_coords_with_level(b'S');
    assert_eq!(starts, vec![Coord { x: 0, y: 0 }]);
    let lows = t.all_coords_with_level(b'a');
    assert_eq!(lows.len(), 5);
}

#[test]
fn terrain_rejects_ragged_or_empty() {
    assert!(Terrain::from_2d_vec(&grid(&[])).is_none());
    assert!(Terrain::from_2d_vec(&grid(&[b"abc", b"ab"])).is_none());
}

#[test]
fn climbing_steps() {
    let t = example_terrain();
    // one level up is fine, two is not
    assert!(can_go(&t, Coord { x: 0, y: 0 }, Coord { x: 1, y: 0 }));
    assert!(!can_go(&t, Coord { x: 2, y: 0 }, Coord { x: 3, y: 0 }));
    // any descent is fine
    assert!(can_go(&t, Coord { x: 3, y: 0 }, Coord { x: 2, y: 0 }));
    // no diagonal or distant step
    assert!(!can_go(&t, Coord { x: 0, y: 0 }, Coord { x: 1, y: 1 }));
    assert!(!can_go(&t, Coord { x: 0, y: 0 }, Coord { x: 2, y: 0 }));
}

#[test]
fn shortest_walk_on_example() {
    // the worked example needs exactly 31 steps
    let t = example_terrain();
    let steps = find_next(&t, Coord { x: 0, y: 0 }, Coord { x: 5, y: 2 }, 1000);
    assert_eq!(steps, Some(31));
}

#[test]
fn unreachable_goal_is_reported() {
    let t = Terrain::from_2d_vec(&grid(&[b"aza"])).expect("rectangular grid");
    assert_eq!(
        find_next(&t, Coord { x: 0, y: 0 }, Coord { x: 2, y: 0 }, 50),
        None
    );
    assert_eq!(
        find_next(&t, Coord { x: 0, y: 0 }, Coord { x: 0, y: 0 }, 50),
        Some(0)
    );
}
