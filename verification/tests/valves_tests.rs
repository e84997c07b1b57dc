use puzzle_kernels::valves::{
    approximate_possible_max_pressure_release, best_total_release, check_graph, find_valve,
    has_loop, parse_valve_line, parse_valves, trace_path, Valve,
};

fn lines(rows: &[&[u8]]) -> Vec<Vec<u8>> {
    rows.iter().map(|r| r.to_vec()).collect()
}

#[test]
fn parse_valve_record() {
    let v = parse_valve_line(
        &b"Valve AA has flow rate=0; tunnels lead to valves DD, II, BB".to_vec(),
    )
    .expect("record matches the pattern");
    assert_eq!(v.name, b"AA".to_vec());
    assert_eq!(v.flow_rate, 0);
    assert_eq!(
        v.neighbors,
        vec![b"DD".to_vec(), b"II".to_vec(), b"BB".to_vec()]
    );
}

#[test]
fn parse_valve_record_singular_forms() {
    let v = parse_valve_line(&b"Valve HH has flow rate=22; tunnel leads to valve GG".to_vec())
        .expect("singular phrasing matches too");
    assert_eq!(v.name, b"HH".to_vec());
    assert_eq!(v.flow_rate, 22);
    assert_eq!(v.neighbors, vec![b"GG".to_vec()]);
}

#[test]
fn parse_valve_rejects_malformed() {
    assert!(parse_valve_line(&b"no valve here".to_vec()).is_none());
    assert!(parse_valve_line(&b"Valve AA has flow rate=; tunnels lead to valves BB".to_vec())
        .is_none());
    // a flow rate too large for a u32 is a parse error
    assert!(parse_valve_line(
        &b"Valve AA has flow rate=99999999999; tunnels lead to valves BB".to_vec()
    )
    .is_none());
}

#[test]
fn parse_valves_whole_input() {
    let g = parse_valves(&lines(&[
        b"Valve AA has flow rate=0; tunnels lead to valves BB, CC",
        b"Valve BB has flow rate=13; tunnels lead to valves AA",
        b"Valve CC has flow rate=2; tunnels lead to valves AA",
    ]))
    .expect("all records parse");
    assert_eq!(g.len(), 3);
    assert!(check_graph(&g));
    assert_eq!(find_valve(&g, &b"BB".to_vec()), Some(1));
    assert_eq!(find_valve(&g, &b"ZZ".to_vec()), None);
    let bad = parse_valves(&lines(&[b"Valve AA has flow rate=0; tunnels lead to valves BB", b"junk"]));
    assert!(bad.is_none());
}

fn four_node_graph() -> Vec<Valve> {
    // a ring of four valves, all positive weights
    let mut g = Vec::new();
    let mut aa = Valve::new(b"AA".to_vec(), 3);
    aa.add_neighbor(b"BB".to_vec());
    aa.add_neighbor(b"DD".to_vec());
    let mut bb = Valve::new(b"BB".to_vec(), 13);
    bb.add_neighbor(b"AA".to_vec());
    bb.add_neighbor(b"CC".to_vec());
    let mut cc = Valve::new(b"CC".to_vec(), 2);
    cc.add_neighbor(b"BB".to_vec());
    cc.add_neighbor(b"DD".to_vec());
    let mut dd = Valve::new(b"DD".to_vec(), 20);
    dd.add_neighbor(b"CC".to_vec());
    dd.add_neighbor(b"AA".to_vec());
    g.push(aa);
    g.push(bb);
    g.push(cc);
    g.push(dd);
    g
}

#[test]
fn end_to_end_graph_search() {
    // exhaustive and pruned search return the identical maximum score
    let g = four_node_graph();
    assert!(check_graph(&g));
    let rem = vec![true, true, true, true];
    let exhaustive = best_total_release(&g, 0, 10, &rem);
    let pruned = trace_path(&g, 0, 10, 0, 0, &rem, Vec::new());
    assert_eq!(pruned, exhaustive);
    assert!(exhaustive > 0);
}

#[test]
fn greedy_bound_never_below_achievable() {
    // the optimistic estimate is admissible on a concrete state
    let g = four_node_graph();
    let rem = vec![true, true, true, true];
    for t in 0..=10u32 {
        let bound = approximate_possible_max_pressure_release(&g, t, &rem);
        for start in 0..4usize {
            let best = best_total_release(&g, start, t, &rem);
            assert!(bound >= best);
        }
    }
}

#[test]
fn greedy_bound_exact_value() {
    // weights 20, 13, 3, 2 with 10 units: 9*20 + 7*13 + 5*3 + 3*2 = 292
    let g = four_node_graph();
    let rem = vec![true, true, true, true];
    assert_eq!(approximate_possible_max_pressure_release(&g, 10, &rem), 292);
}

#[test]
fn opening_scores_even_at_a_dead_end() {
    // a single valve with no tunnels still earns its activation
    let g = vec![Valve::new(b"AA".to_vec(), 7)];
    assert!(check_graph(&g));
    let rem = vec![true];
    let exhaustive = best_total_release(&g, 0, 10, &rem);
    assert_eq!(exhaustive, 9 * 7);
    let pruned = trace_path(&g, 0, 10, 0, 0, &rem, Vec::new());
    assert_eq!(pruned, exhaustive);
}

#[test]
fn has_loop_detects_periodic_repeat() {
    // revisiting 5 right after [7, 5] closes the period [5, 7] -> repeat
    assert!(has_loop(5, &vec![5, 7]) == false);
    // path [3, 5, 7, 5]: seeing 7 next echoes positions [5, 7]
    assert!(has_loop(7, &vec![3, 5, 7, 5]));
    // no repeat: 9 never appeared
    assert!(!has_loop(9, &vec![3, 5, 7]));
    // an immediate period-one repeat of the last valve
    assert!(has_loop(5, &vec![3, 5]));
    assert!(has_loop(5, &vec![3, 7, 5]));
}
