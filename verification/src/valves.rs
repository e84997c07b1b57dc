//! Labeled-graph search: valves with flow rates and tunnel neighbors are
//! parsed from text records, and an exhaustive bounded search over "open
//! or move" decisions finds the best achievable release, with a greedy
//! admissible upper bound available for pruning.

use vstd::prelude::*;
use crate::packets::{digits_val, is_digit};

verus! {

/// A graph node: a name, a non-negative weight, and neighbor names.
pub struct Valve {
    pub name: Vec<u8>,
    pub flow_rate: u32,
    pub neighbors: Vec<Vec<u8>>,
}

/// The mathematical shape of a valve record.
pub struct ValveView {
    pub name: Seq<u8>,
    pub flow_rate: int,
    pub neighbors: Seq<Seq<u8>>,
}

impl View for Valve {
    type V = ValveView;

    open spec fn view(&self) -> ValveView {
        ValveView {
            name: self.name@,
            flow_rate: self.flow_rate as int,
            neighbors: self.neighbors.deep_view(),
        }
    }
}

impl Valve {
    pub fn new(name: Vec<u8>, flow_rate: u32) -> (r: Valve)
        ensures
            r.name@ == name@,
            r.flow_rate == flow_rate,
            r.neighbors@.len() == 0,
    {
        Valve { name, flow_rate, neighbors: Vec::new() }
    }

    pub fn add_neighbor(&mut self, neighbor: Vec<u8>)
        ensures
            final(self).neighbors@ == old(self).neighbors@.push(neighbor),
            final(self).name == old(self).name,
            final(self).flow_rate == old(self).flow_rate,
    {
        self.neighbors.push(neighbor);
    }
}

/// Position of the first valve with the given name, scanning from `i`.
pub open spec fn find_from(g: Seq<Valve>, name: Seq<u8>, i: int) -> Option<int>
    decreases g.len() - i,
{
    if i < 0 || i >= g.len() {
        None
    } else if g[i].name@ == name {
        Some(i)
    } else {
        find_from(g, name, i + 1)
    }
}

proof fn lemma_find_from(g: Seq<Valve>, name: Seq<u8>, i: int)
    requires
        0 <= i <= g.len(),
    ensures
        match find_from(g, name, i) {
            Option::Some(j) => i <= j < g.len() && g[j].name@ == name,
            Option::None => true,
        },
    decreases g.len() - i,
{
    if i < g.len() && g[i].name@ != name {
        lemma_find_from(g, name, i + 1);
    }
}

/// Find a valve by name.
pub fn find_valve(g: &Vec<Valve>, name: &Vec<u8>) -> (r: Option<usize>)
    ensures
        match r {
            Option::Some(j) => find_from(g@, name@, 0) == Some(j as int) && j < g@.len(),
            Option::None => find_from(g@, name@, 0) is None,
        },
{
    let mut i: usize = 0;
    while i < g.len()
        invariant
            i <= g@.len(),
            find_from(g@, name@, 0) == find_from(g@, name@, i as int),
        decreases g@.len() - i,
    {
        if crate::packets::bytes_eq(&g[i].name, name) {
            return Some(i);
        }
        i += 1;
    }
    None
}

/// A well-formed graph: every neighbor name resolves to a valve.
pub open spec fn wf_graph(g: Seq<Valve>) -> bool {
    forall|v: int, n: int|
        0 <= v < g.len() && 0 <= n < g[v].neighbors@.len() ==> find_from(
            g,
            (#[trigger] g[v].neighbors@[n])@,
            0,
        ) is Some
}

/// Check that every neighbor name resolves.
pub fn check_graph(g: &Vec<Valve>) -> (r: bool)
    ensures
        r == wf_graph(g@),
{
    let mut v: usize = 0;
    while v < g.len()
        invariant
            v <= g@.len(),
            forall|v2: int, n2: int|
                0 <= v2 < v && 0 <= n2 < g@[v2].neighbors@.len() ==> find_from(
                    g@,
                    (#[trigger] g@[v2].neighbors@[n2])@,
                    0,
                ) is Some,
        decreases g@.len() - v,
    {
        let mut n: usize = 0;
        while n < g[v].neighbors.len()
            invariant
                v < g@.len(),
                n <= g@[v as int].neighbors@.len(),
                forall|v2: int, n2: int|
                    0 <= v2 < v && 0 <= n2 < g@[v2].neighbors@.len() ==> find_from(
                        g@,
                        (#[trigger] g@[v2].neighbors@[n2])@,
                        0,
                    ) is Some,
                forall|n2: int|
                    0 <= n2 < n ==> find_from(
                        g@,
                        (#[trigger] g@[v as int].neighbors@[n2])@,
                        0,
                    ) is Some,
            decreases g@[v as int].neighbors@.len() - n,
    {
            if find_valve(g, &g[v].neighbors[n]).is_none() {
                return false;
            }
            n += 1;
        }
        v += 1;
    }
    true
}

/// The best score achievable from `cur` with `t` time units and the
/// not-yet-opened set `rem`: each step either opens the current valve
/// (one unit, scoring weight times the time left after opening) and moves,
/// or just moves to a neighbor.
pub open spec fn achievable(g: Seq<Valve>, cur: int, t: nat, rem: Seq<bool>) -> int
    decreases t, 0nat, 0nat,
{
    if t <= 1 || !(0 <= cur < g.len()) {
        0
    } else {
        let move_best = best_move(g, g[cur].neighbors@, (t - 1) as nat, rem);
        if 0 <= cur < rem.len() && rem[cur] && g[cur].flow_rate > 0 {
            let open_score = (t - 1) * g[cur].flow_rate + best_move(
                g,
                g[cur].neighbors@,
                (t - 2) as nat,
                rem.update(cur, false),
            );
            if open_score >= move_best {
                open_score
            } else {
                move_best
            }
        } else {
            move_best
        }
    }
}

/// The best score achievable by moving to one of the named neighbors.
pub open spec fn best_move(g: Seq<Valve>, ns: Seq<Vec<u8>>, t: nat, rem: Seq<bool>) -> int
    decreases t, 1nat, ns.len(),
{
    if ns.len() == 0 {
        0
    } else {
        let first = match find_from(g, ns[0]@, 0) {
            Option::Some(j) => achievable(g, j, t, rem),
            Option::None => 0,
        };
        let rest = best_move(g, ns.subrange(1, ns.len() as int), t, rem);
        if first >= rest {
            first
        } else {
            rest
        }
    }
}

/// Nothing achievable is negative.
pub proof fn lemma_achievable_nonneg(g: Seq<Valve>, cur: int, t: nat, rem: Seq<bool>)
    ensures
        achievable(g, cur, t, rem) >= 0,
    decreases t, 0nat, 0nat,
{
    if t > 1 && 0 <= cur < g.len() {
        lemma_best_move_nonneg(g, g[cur].neighbors@, (t - 1) as nat, rem);
    }
}

proof fn lemma_best_move_nonneg(g: Seq<Valve>, ns: Seq<Vec<u8>>, t: nat, rem: Seq<bool>)
    ensures
        best_move(g, ns, t, rem) >= 0,
    decreases t, 1nat, ns.len(),
{
    if ns.len() > 0 {
        lemma_best_move_nonneg(g, ns.subrange(1, ns.len() as int), t, rem);
    }
}

/// Any single neighbor's outcome is within the best move outcome.
proof fn lemma_best_move_covers(g: Seq<Valve>, ns: Seq<Vec<u8>>, t: nat, rem: Seq<bool>, n: int)
    requires
        0 <= n < ns.len(),
        find_from(g, ns[n]@, 0) is Some,
    ensures
        achievable(g, find_from(g, ns[n]@, 0).unwrap(), t, rem) <= best_move(g, ns, t, rem),
    decreases ns.len(),
{
    if n == 0 {
        lemma_best_move_nonneg(g, ns.subrange(1, ns.len() as int), t, rem);
    } else {
        lemma_best_move_covers(g, ns.subrange(1, ns.len() as int), t, rem, n - 1);
        assert(ns.subrange(1, ns.len() as int)[n - 1] == ns[n]);
        assert(ns.subrange(1, ns.len() as int)[n - 1]@ == ns[n]@);
    }
}

/// The achievable score is bounded by time squared times the largest
/// representable weight.
pub proof fn lemma_achievable_bound(g: Seq<Valve>, cur: int, t: nat, rem: Seq<bool>)
    ensures
        achievable(g, cur, t, rem) <= t * t * 4294967295,
    decreases t, 0nat, 0nat,
{
    lemma_achievable_nonneg(g, cur, t, rem);
    if t <= 1 || !(0 <= cur < g.len()) {
        assert(0 <= t * t * 4294967295) by (nonlinear_arith);
    } else {
        lemma_best_move_bound(g, g[cur].neighbors@, (t - 1) as nat, rem);
        if 0 <= cur < rem.len() && rem[cur] && g[cur].flow_rate > 0 {
            lemma_best_move_bound(g, g[cur].neighbors@, (t - 2) as nat, rem.update(cur, false));
            assert((t - 1) * g[cur].flow_rate as int + (t - 2) * (t - 2) * 4294967295 <= t * t
                * 4294967295) by (nonlinear_arith)
                requires
                    t >= 2,
                    0 <= g[cur].flow_rate as int <= 4294967295,
            ;
        }
        assert((t - 1) * (t - 1) * 4294967295 <= t * t * 4294967295) by (nonlinear_arith)
            requires
                t >= 2,
        ;
    }
}

proof fn lemma_best_move_bound(g: Seq<Valve>, ns: Seq<Vec<u8>>, t: nat, rem: Seq<bool>)
    ensures
        best_move(g, ns, t, rem) <= t * t * 4294967295,
    decreases t, 1nat, ns.len(),
{
    if ns.len() == 0 {
        assert(0 <= t * t * 4294967295) by (nonlinear_arith);
    } else {
        match find_from(g, ns[0]@, 0) {
            Option::Some(j) => {
                lemma_achievable_bound(g, j, t, rem);
            },
            Option::None => {
                assert(0 <= t * t * 4294967295) by (nonlinear_arith);
            },
        }
        lemma_best_move_bound(g, ns.subrange(1, ns.len() as int), t, rem);
    }
}

/// Exhaustive search: exactly the achievable optimum.
pub fn best_total_release(g: &Vec<Valve>, cur: usize, t: u32, rem: &Vec<bool>) -> (r: i64)
    requires
        cur < g@.len(),
        t <= 100,
    ensures
        r == achievable(g@, cur as int, t as nat, rem@),
    decreases t, 0nat, 0nat,
{
    proof {
        lemma_achievable_nonneg(g@, cur as int, t as nat, rem@);
        lemma_achievable_bound(g@, cur as int, t as nat, rem@);
        assert(t * t * 4294967295 <= 0x4000000000000i64) by (nonlinear_arith)
            requires
                t <= 100,
        ;
    }
    if t <= 1 {
        return 0;
    }
    let move_best = best_move_release(g, cur, t - 1, rem);
    if cur < rem.len() && rem[cur] && g[cur].flow_rate > 0 {
        let mut opened = rem.clone();
        opened.set(cur, false);
        proof {
            assert(opened@ =~= rem@.update(cur as int, false));
        }
        let after = best_move_release(g, cur, t - 2, &opened);
        proof {
            lemma_best_move_bound(g@, g@[cur as int].neighbors@, (t - 2) as nat, opened@);
            lemma_best_move_nonneg(g@, g@[cur as int].neighbors@, (t - 2) as nat, opened@);
            assert((t - 2) * (t - 2) * 4294967295 <= 0x4000000000000i64) by (nonlinear_arith)
                requires
                    t <= 100,
                    t >= 2,
            ;
            assert((t - 1) as i64 * g@[cur as int].flow_rate <= 0x4000000000000i64)
                by (nonlinear_arith)
                requires
                    t <= 100,
                    t >= 2,
                    0 <= g@[cur as int].flow_rate <= 4294967295,
            ;
        }
        let open_score = (t - 1) as i64 * g[cur].flow_rate as i64 + after;
        if open_score >= move_best {
            return open_score;
        }
    }
    move_best
}

/// The best outcome over the current valve's neighbors.
fn best_move_release(g: &Vec<Valve>, cur: usize, t: u32, rem: &Vec<bool>) -> (r: i64)
    requires
        cur < g@.len(),
        t <= 100,
    ensures
        r == best_move(g@, g@[cur as int].neighbors@, t as nat, rem@),
    decreases t, 2nat, 0nat,
{
    let ghost allns = g@[cur as int].neighbors@;
    let mut best: i64 = 0;
    let mut n: usize = 0;
    proof {
        assert(allns.subrange(0, allns.len() as int) =~= allns);
        lemma_best_move_nonneg(g@, allns, t as nat, rem@);
    }
    while n < g[cur].neighbors.len()
        invariant
            cur < g@.len(),
            t <= 100,
            allns == g@[cur as int].neighbors@,
            n <= allns.len(),
            best_move(g@, allns, t as nat, rem@) == ({
                let rest = best_move(g@, allns.subrange(n as int, allns.len() as int), t as nat, rem@);
                if best >= rest {
                    best as int
                } else {
                    rest
                }
            }),
            best >= 0,
            best <= 0x4000000000000i64,
        decreases allns.len() - n,
    {
        let ghost tail = allns.subrange(n as int, allns.len() as int);
        proof {
            assert(tail[0] == allns[n as int]);
            assert(tail[0]@ == allns[n as int]@);
            assert(tail.subrange(1, tail.len() as int) =~= allns.subrange(
                n + 1,
                allns.len() as int,
            ));
        }
        let name = &g[cur].neighbors[n];
        let sub: i64 = match find_valve(g, name) {
            Option::Some(j) => {
                proof {
                    lemma_find_from(g@, name@, 0);
                    lemma_achievable_bound(g@, j as int, t as nat, rem@);
                    lemma_achievable_nonneg(g@, j as int, t as nat, rem@);
                    assert(t * t * 4294967295 <= 0x4000000000000i64) by (nonlinear_arith)
                        requires
                            t <= 100,
                    ;
                }
                best_total_release(g, j, t, rem)
            },
            Option::None => 0,
        };
        if sub > best {
            best = sub;
        }
        n += 1;
    }
    proof {
        assert(allns.subrange(allns.len() as int, allns.len() as int) =~= Seq::<Vec<u8>>::empty());
    }
    best
}

/// A valve that could still be opened for gain.
pub open spec fn qualifies(g: Seq<Valve>, rem: Seq<bool>, j: int) -> bool {
    0 <= j < g.len() && j < rem.len() && rem[j] && g[j].flow_rate > 0
}

/// Scan for the first still-openable valve of largest weight, carrying the
/// best candidate found so far.
pub open spec fn scan_max(g: Seq<Valve>, rem: Seq<bool>, i: int, best: Option<int>) -> Option<int>
    decreases g.len() - i,
{
    if i < 0 || i >= g.len() {
        best
    } else {
        let better = match best {
            Option::None => true,
            Option::Some(b) => g[i].flow_rate > g[b].flow_rate,
        };
        if qualifies(g, rem, i) && better {
            scan_max(g, rem, i + 1, Some(i))
        } else {
            scan_max(g, rem, i + 1, best)
        }
    }
}

/// The first still-openable valve of largest weight.
pub open spec fn max_flow_idx(g: Seq<Valve>, rem: Seq<bool>) -> Option<int> {
    scan_max(g, rem, 0, None)
}

proof fn lemma_scan_props(g: Seq<Valve>, rem: Seq<bool>, i: int, best: Option<int>)
    requires
        0 <= i <= g.len(),
        best matches Some(b) ==> qualifies(g, rem, b),
    ensures
        match scan_max(g, rem, i, best) {
            Option::None => best is None && forall|j: int|
                i <= j < g.len() ==> !qualifies(g, rem, j),
            Option::Some(r) => {
                &&& qualifies(g, rem, r)
                &&& forall|j: int|
                    i <= j < g.len() && qualifies(g, rem, j) ==> g[j].flow_rate <= g[r].flow_rate
                &&& (best matches Some(b) ==> g[b].flow_rate <= g[r].flow_rate)
            },
        },
    decreases g.len() - i,
{
    if i < g.len() {
        let better = match best {
            Option::None => true,
            Option::Some(b) => g[i].flow_rate > g[b].flow_rate,
        };
        if qualifies(g, rem, i) && better {
            lemma_scan_props(g, rem, i + 1, Some(i));
        } else {
            lemma_scan_props(g, rem, i + 1, best);
        }
    }
}

/// Removing a valve other than the scan's winner does not change the
/// winner.
proof fn lemma_scan_stable(
    g: Seq<Valve>,
    rem: Seq<bool>,
    c: int,
    i: int,
    b1: Option<int>,
    b2: Option<int>,
)
    requires
        0 <= i <= g.len(),
        0 <= c < rem.len(),
        b1 matches Some(b) ==> 0 <= b < g.len(),
        b2 matches Some(b) ==> 0 <= b < g.len(),
        (b1 == b2 && (b1 matches Some(b) ==> b != c)) || (b1 == Some(c) && match b2 {
            Option::None => true,
            Option::Some(b) => g[b].flow_rate <= g[c].flow_rate && b != c,
        }),
        c < g.len(),
    ensures
        scan_max(g, rem, i, b1) == Some(c) || scan_max(g, rem, i, b1) == scan_max(
            g,
            rem.update(c, false),
            i,
            b2,
        ),
    decreases g.len() - i,
{
    let rem2 = rem.update(c, false);
    if i < g.len() {
        let better1 = match b1 {
            Option::None => true,
            Option::Some(b) => g[i].flow_rate > g[b].flow_rate,
        };
        let better2 = match b2 {
            Option::None => true,
            Option::Some(b) => g[i].flow_rate > g[b].flow_rate,
        };
        if i == c {
            assert(!qualifies(g, rem2, i));
            if qualifies(g, rem, i) && better1 {
                // the original scan adopts `c`; the couple diverges
                lemma_scan_stable(g, rem, c, i + 1, Some(c), b2);
            } else {
                lemma_scan_stable(g, rem, c, i + 1, b1, b2);
            }
        } else {
            assert(qualifies(g, rem2, i) == qualifies(g, rem, i));
            if b1 == b2 {
                if qualifies(g, rem, i) && better1 {
                    lemma_scan_stable(g, rem, c, i + 1, Some(i), Some(i));
                } else {
                    lemma_scan_stable(g, rem, c, i + 1, b1, b2);
                }
            } else {
                // b1 == Some(c), b2 below it
                if qualifies(g, rem, i) && better1 {
                    // beats `c`, so it beats b2 as well: the scans rejoin
                    assert(better2);
                    lemma_scan_stable(g, rem, c, i + 1, Some(i), Some(i));
                } else if qualifies(g, rem, i) && better2 {
                    // still at most `c`: the couple stays divergent
                    lemma_scan_stable(g, rem, c, i + 1, b1, Some(i));
                } else {
                    lemma_scan_stable(g, rem, c, i + 1, b1, b2);
                }
            }
        }
    }
}

/// The greedy optimistic estimate: open the best remaining valve every
/// other time unit.
pub open spec fn approx_spec(g: Seq<Valve>, t: nat, rem: Seq<bool>) -> int
    decreases t,
{
    if t <= 1 {
        0
    } else {
        match max_flow_idx(g, rem) {
            Option::None => 0,
            Option::Some(j) => (t - 1) * g[j].flow_rate + approx_spec(
                g,
                (t - 2) as nat,
                rem.update(j, false),
            ),
        }
    }
}

pub proof fn lemma_approx_nonneg(g: Seq<Valve>, t: nat, rem: Seq<bool>)
    ensures
        approx_spec(g, t, rem) >= 0,
    decreases t,
{
    if t > 1 {
        match max_flow_idx(g, rem) {
            Option::None => {},
            Option::Some(j) => {
                lemma_scan_props(g, rem, 0, None);
                lemma_approx_nonneg(g, (t - 2) as nat, rem.update(j, false));
                assert((t - 1) * g[j].flow_rate >= 0) by (nonlinear_arith)
                    requires
                        t >= 2,
                        g[j].flow_rate >= 0,
                ;
            },
        }
    }
}

/// More time never lowers the estimate.
proof fn lemma_approx_mono(g: Seq<Valve>, t1: nat, t2: nat, rem: Seq<bool>)
    requires
        t1 <= t2,
    ensures
        approx_spec(g, t1, rem) <= approx_spec(g, t2, rem),
    decreases t2,
{
    if t1 <= 1 {
        lemma_approx_nonneg(g, t2, rem);
    } else {
        match max_flow_idx(g, rem) {
            Option::None => {},
            Option::Some(j) => {
                lemma_scan_props(g, rem, 0, None);
                lemma_approx_mono(g, (t1 - 2) as nat, (t2 - 2) as nat, rem.update(j, false));
                assert((t1 - 1) * g[j].flow_rate <= (t2 - 1) * g[j].flow_rate)
                    by (nonlinear_arith)
                    requires
                        2 <= t1 <= t2,
                        g[j].flow_rate >= 0,
                ;
            },
        }
    }
}

/// Opening any openable valve first, then estimating greedily, never beats
/// the greedy estimate itself.
proof fn lemma_approx_exchange(g: Seq<Valve>, t: nat, rem: Seq<bool>, c: int)
    requires
        t >= 2,
        qualifies(g, rem, c),
    ensures
        (t - 1) * g[c].flow_rate + approx_spec(g, (t - 2) as nat, rem.update(c, false))
            <= approx_spec(g, t, rem),
    decreases t,
{
    lemma_scan_props(g, rem, 0, None);
    let jo = max_flow_idx(g, rem);
    assert(jo is Some);
    let j = jo.unwrap();
    if j == c {
    } else {
        assert(g[c].flow_rate <= g[j].flow_rate);
        let rem_c = rem.update(c, false);
        let rem_j = rem.update(j, false);
        if t <= 3 {
            assert(approx_spec(g, (t - 2) as nat, rem_c) == 0);
            lemma_approx_nonneg(g, (t - 2) as nat, rem_j);
            assert((t - 1) * g[c].flow_rate <= (t - 1) * g[j].flow_rate) by (nonlinear_arith)
                requires
                    t >= 2,
                    0 <= g[c].flow_rate <= g[j].flow_rate,
            ;
        } else {
            // the winner survives the removal of `c`
            lemma_scan_stable(g, rem, c, 0, None, None);
            assert(max_flow_idx(g, rem_c) == Some(j));
            lemma_scan_props(g, rem_c, 0, None);
            let a4 = approx_spec(g, (t - 4) as nat, rem_c.update(j, false));
            assert(approx_spec(g, (t - 2) as nat, rem_c) == (t - 3) * g[j].flow_rate + a4);
            // exchange one level deeper
            assert(qualifies(g, rem_j, c));
            lemma_approx_exchange(g, (t - 2) as nat, rem_j, c);
            assert(rem_j.update(c, false) =~= rem_c.update(j, false));
            assert((t - 3) * g[c].flow_rate + a4 <= approx_spec(g, (t - 2) as nat, rem_j));
            assert((t - 1) * g[c].flow_rate + (t - 3) * g[j].flow_rate <= (t - 1) * g[j].flow_rate
                + (t - 3) * g[c].flow_rate) by (nonlinear_arith)
                requires
                    t >= 4,
                    0 <= g[c].flow_rate <= g[j].flow_rate,
            ;
        }
    }
}

/// The greedy estimate is admissible: it never falls below the true
/// achievable score from the same state.
pub proof fn lemma_bound_admissible(g: Seq<Valve>, cur: int, t: nat, rem: Seq<bool>)
    ensures
        achievable(g, cur, t, rem) <= approx_spec(g, t, rem),
    decreases t, 0nat, 0nat,
{
    lemma_approx_nonneg(g, t, rem);
    if t > 1 && 0 <= cur < g.len() {
        lemma_best_move_admissible(g, g[cur].neighbors@, (t - 1) as nat, rem);
        lemma_approx_mono(g, (t - 1) as nat, t, rem);
        if 0 <= cur < rem.len() && rem[cur] && g[cur].flow_rate > 0 {
            lemma_best_move_admissible(g, g[cur].neighbors@, (t - 2) as nat, rem.update(cur, false));
            lemma_approx_exchange(g, t, rem, cur);
        }
    }
}

proof fn lemma_best_move_admissible(g: Seq<Valve>, ns: Seq<Vec<u8>>, t: nat, rem: Seq<bool>)
    ensures
        best_move(g, ns, t, rem) <= approx_spec(g, t, rem),
    decreases t, 1nat, ns.len(),
{
    lemma_approx_nonneg(g, t, rem);
    if ns.len() > 0 {
        match find_from(g, ns[0]@, 0) {
            Option::Some(j) => {
                lemma_bound_admissible(g, j, t, rem);
            },
            Option::None => {},
        }
        lemma_best_move_admissible(g, ns.subrange(1, ns.len() as int), t, rem);
    }
}

/// The estimate is bounded like the scores themselves.
proof fn lemma_approx_bound(g: Seq<Valve>, t: nat, rem: Seq<bool>)
    ensures
        approx_spec(g, t, rem) <= t * t * 4294967295,
    decreases t,
{
    if t <= 1 {
        assert(0 <= t * t * 4294967295) by (nonlinear_arith);
    } else {
        match max_flow_idx(g, rem) {
            Option::None => {
                assert(0 <= t * t * 4294967295) by (nonlinear_arith);
            },
            Option::Some(j) => {
                lemma_scan_props(g, rem, 0, None);
                lemma_approx_bound(g, (t - 2) as nat, rem.update(j, false));
                assert((t - 1) * g[j].flow_rate as int + (t - 2) * (t - 2) * 4294967295 <= t * t
                    * 4294967295) by (nonlinear_arith)
                    requires
                        t >= 2,
                        0 <= g[j].flow_rate as int <= 4294967295,
                ;
            },
        }
    }
}

/// The greedy optimistic estimate, computed outright: repeatedly take
/// the best remaining weight, two time units apart.
pub fn approximate_possible_max_pressure_release(g: &Vec<Valve>, time_remaining: u32, rem: &Vec<
    bool,
>) -> (r: i64)
    requires
        time_remaining <= 100,
    ensures
        r == approx_spec(g@, time_remaining as nat, rem@),
    decreases time_remaining,
{
    proof {
        lemma_approx_nonneg(g@, time_remaining as nat, rem@);
        lemma_approx_bound(g@, time_remaining as nat, rem@);
        assert(time_remaining * time_remaining * 4294967295 <= 0x4000000000000i64)
            by (nonlinear_arith)
            requires
                time_remaining <= 100,
        ;
    }
    if time_remaining <= 1 {
        return 0;
    }
    // pick the first best remaining valve
    let mut best: Option<usize> = None;
    let mut i: usize = 0;
    while i < g.len()
        invariant
            i <= g@.len(),
            match best {
                Option::Some(b) => qualifies(g@, rem@, b as int) && b < g@.len(),
                Option::None => true,
            },
            scan_max(g@, rem@, 0, None) == scan_max(
                g@,
                rem@,
                i as int,
                match best {
                    Option::Some(b) => Some(b as int),
                    Option::None => None,
                },
            ),
        decreases g@.len() - i,
    {
        let qual = i < rem.len() && rem[i] && g[i].flow_rate > 0;
        let better = match best {
            Option::Some(b) => g[i].flow_rate > g[b].flow_rate,
            Option::None => true,
        };
        if qual && better {
            best = Some(i);
        }
        i += 1;
    }
    match best {
        Option::None => 0,
        Option::Some(j) => {
            let mut rem2 = rem.clone();
            rem2.set(j, false);
            proof {
                assert(rem2@ =~= rem@.update(j as int, false));
                lemma_approx_nonneg(g@, (time_remaining - 2) as nat, rem2@);
                lemma_approx_bound(g@, (time_remaining - 2) as nat, rem2@);
                assert((time_remaining - 2) * (time_remaining - 2) * 4294967295
                    <= 0x4000000000000i64) by (nonlinear_arith)
                    requires
                        2 <= time_remaining <= 100,
                ;
                assert((time_remaining - 1) as i64 * g@[j as int].flow_rate
                    <= 0x4000000000000i64) by (nonlinear_arith)
                    requires
                        2 <= time_remaining <= 100,
                        0 <= g@[j as int].flow_rate <= 4294967295,
                ;
            }
            let sub = approximate_possible_max_pressure_release(g, time_remaining - 2, &rem2);
            (time_remaining - 1) as i64 * g[j].flow_rate as i64 + sub
        },
    }
}

/// A periodic repeat of length `i` closing at `cur`: the last `i - 1`
/// steps of the path echo the `i - 1` steps before them, and the valve
/// `i` steps back is `cur` again.
/// The step `j` back from the end echoes the step `i + j` back.
pub open spec fn echo_at(path: Seq<usize>, i: int, j: int) -> bool {
    path[path.len() - j] == path[path.len() - i - j]
}

pub open spec fn loop_match(cur: usize, path: Seq<usize>, i: int) -> bool {
    path[path.len() - i] == cur && forall|j: int| 1 <= j < i ==> #[trigger] echo_at(path, i, j)
}

/// The current valve closes a periodic repeat in the visited path.
pub open spec fn spec_has_loop(cur: usize, path: Seq<usize>) -> bool {
    exists|i: int| 1 <= i <= (path.len() + 1) / 2 && #[trigger] loop_match(cur, path, i)
}

/// Whether revisiting `name` would close a periodic repeat in the path.
pub fn has_loop(name: usize, path: &Vec<usize>) -> (r: bool)
    requires
        path@.len() < usize::MAX,
    ensures
        r == spec_has_loop(name, path@),
{
    let len = path.len();
    let mut i: usize = 1;
    while i <= (len + 1) / 2
        invariant
            len == path@.len() < usize::MAX,
            1 <= i <= (len + 1) / 2 + 1,
            forall|i2: int| 1 <= i2 < i ==> !loop_match(name, path@, i2),
        decreases (len + 1) / 2 + 1 - i,
    {
        if path[len - i] == name {
            let mut j: usize = 1;
            let mut ok = true;
            while j < i && ok
                invariant
                    len == path@.len(),
                    1 <= i <= (len + 1) / 2,
                    1 <= j <= i,
                    ok == forall|j2: int| 1 <= j2 < j ==> #[trigger] echo_at(path@, i as int, j2),
                decreases i - j,
            {
                if path[len - j] != path[len - i - j] {
                    proof {
                        assert(!echo_at(path@, i as int, j as int));
                    }
                    ok = false;
                } else {
                    proof {
                        assert(echo_at(path@, i as int, j as int));
                    }
                }
                j += 1;
            }
            if ok {
                proof {
                    assert(loop_match(name, path@, i as int));
                }
                return true;
            }
            proof {
                assert(!loop_match(name, path@, i as int));
            }
        } else {
            proof {
                assert(!loop_match(name, path@, i as int));
            }
        }
        i += 1;
    }
    false
}

/// Any single opened-then-moved outcome is within the achievable optimum.
proof fn lemma_open_branch(g: Seq<Valve>, cur: int, t: nat, rem: Seq<bool>, n: int)
    requires
        0 <= cur < g.len(),
        t >= 2,
        0 <= cur < rem.len() && rem[cur] && g[cur].flow_rate > 0,
        0 <= n < g[cur].neighbors@.len(),
        find_from(g, g[cur].neighbors@[n]@, 0) is Some,
    ensures
        (t - 1) * g[cur].flow_rate + achievable(
            g,
            find_from(g, g[cur].neighbors@[n]@, 0).unwrap(),
            (t - 2) as nat,
            rem.update(cur, false),
        ) <= achievable(g, cur, t, rem),
{
    lemma_best_move_covers(g, g[cur].neighbors@, (t - 2) as nat, rem.update(cur, false), n);
    lemma_best_move_nonneg(g, g[cur].neighbors@, (t - 1) as nat, rem);
}

/// Any single move outcome is within the achievable optimum.
proof fn lemma_move_branch(g: Seq<Valve>, cur: int, t: nat, rem: Seq<bool>, n: int)
    requires
        0 <= cur < g.len(),
        t >= 2,
        0 <= n < g[cur].neighbors@.len(),
        find_from(g, g[cur].neighbors@[n]@, 0) is Some,
    ensures
        achievable(g, find_from(g, g[cur].neighbors@[n]@, 0).unwrap(), (t - 1) as nat, rem)
            <= achievable(g, cur, t, rem),
{
    lemma_best_move_covers(g, g[cur].neighbors@, (t - 1) as nat, rem, n);
    if 0 <= cur < rem.len() && rem[cur] && g[cur].flow_rate > 0 {
        lemma_best_move_nonneg(g, g[cur].neighbors@, (t - 2) as nat, rem.update(cur, false));
        assert((t - 1) * g[cur].flow_rate >= 0) by (nonlinear_arith)
            requires
                t >= 2,
                g[cur].flow_rate >= 0,
        ;
    }
}

/// The value the pruned search computes, as a function of its inputs: the
/// search stops a branch on an exhausted budget, a periodic repeat in the
/// visited path, or an estimate that cannot beat the best known score, and
/// otherwise takes the best of opening here (scored at activation) and
/// every onward move.
pub open spec fn trace_spec(
    g: Seq<Valve>,
    cur: int,
    t: nat,
    forecast: int,
    max_known: int,
    rem: Seq<bool>,
    path: Seq<usize>,
) -> int
    decreases t, 0nat, 0nat,
{
    if t <= 1 || !(0 <= cur < g.len()) {
        forecast
    } else if spec_has_loop(cur as usize, path) {
        forecast
    } else if forecast <= max_known && max_known - forecast >= approx_spec(g, t, rem) {
        forecast
    } else {
        let path2 = path.push(cur as usize);
        let move_best = trace_moves(
            g,
            g[cur].neighbors@,
            (t - 1) as nat,
            forecast,
            max_known,
            rem,
            path2,
        );
        if 0 <= cur < rem.len() && rem[cur] && g[cur].flow_rate > 0 {
            let open_best = trace_moves(
                g,
                g[cur].neighbors@,
                (t - 2) as nat,
                forecast + (t - 1) * g[cur].flow_rate,
                max_known,
                rem.update(cur, false),
                path2,
            );
            if open_best >= move_best {
                open_best
            } else {
                move_best
            }
        } else {
            move_best
        }
    }
}

/// The best outcome over the named neighbors, never below the forecast
/// carried in.
pub open spec fn trace_moves(
    g: Seq<Valve>,
    ns: Seq<Vec<u8>>,
    t: nat,
    forecast: int,
    max_known: int,
    rem: Seq<bool>,
    path: Seq<usize>,
) -> int
    decreases t, 1nat, ns.len(),
{
    if ns.len() == 0 {
        forecast
    } else {
        let first = match find_from(g, ns[0]@, 0) {
            Option::Some(j) => trace_spec(g, j, t, forecast, max_known, rem, path),
            Option::None => forecast,
        };
        let rest = trace_moves(
            g,
            ns.subrange(1, ns.len() as int),
            t,
            forecast,
            max_known,
            rem,
            path,
        );
        if first >= rest {
            first
        } else {
            rest
        }
    }
}

/// The search never loses the forecast it carries in.
proof fn lemma_trace_spec_floor(
    g: Seq<Valve>,
    cur: int,
    t: nat,
    forecast: int,
    max_known: int,
    rem: Seq<bool>,
    path: Seq<usize>,
)
    ensures
        trace_spec(g, cur, t, forecast, max_known, rem, path) >= forecast,
    decreases t, 0nat, 0nat,
{
    if t > 1 && 0 <= cur < g.len() && !spec_has_loop(cur as usize, path) && !(forecast
        <= max_known && max_known - forecast >= approx_spec(g, t, rem)) {
        let path2 = path.push(cur as usize);
        lemma_trace_moves_floor(g, g[cur].neighbors@, (t - 1) as nat, forecast, max_known, rem, path2);
        if 0 <= cur < rem.len() && rem[cur] && g[cur].flow_rate > 0 {
            assert((t - 1) * g[cur].flow_rate >= 0) by (nonlinear_arith)
                requires
                    t >= 2,
                    g[cur].flow_rate >= 0,
            ;
            lemma_trace_moves_floor(
                g,
                g[cur].neighbors@,
                (t - 2) as nat,
                forecast + (t - 1) * g[cur].flow_rate,
                max_known,
                rem.update(cur, false),
                path2,
            );
        }
    }
}

proof fn lemma_trace_moves_floor(
    g: Seq<Valve>,
    ns: Seq<Vec<u8>>,
    t: nat,
    forecast: int,
    max_known: int,
    rem: Seq<bool>,
    path: Seq<usize>,
)
    ensures
        trace_moves(g, ns, t, forecast, max_known, rem, path) >= forecast,
    decreases t, 1nat, ns.len(),
{
    if ns.len() > 0 {
        match find_from(g, ns[0]@, 0) {
            Option::Some(j) => {
                lemma_trace_spec_floor(g, j, t, forecast, max_known, rem, path);
            },
            Option::None => {},
        }
        lemma_trace_moves_floor(
            g,
            ns.subrange(1, ns.len() as int),
            t,
            forecast,
            max_known,
            rem,
            path,
        );
    }
}

/// An owned copy of a visited path.
fn clone_path(path: &Vec<usize>) -> (r: Vec<usize>)
    ensures
        r@ == path@,
{
    let mut r: Vec<usize> = Vec::new();
    let mut i: usize = 0;
    while i < path.len()
        invariant
            i <= path@.len(),
            r@ == path@.subrange(0, i as int),
        decreases path@.len() - i,
    {
        proof {
            assert(path@.subrange(0, i + 1) =~= path@.subrange(0, i as int).push(
                path@[i as int],
            ));
        }
        r.push(path[i]);
        i += 1;
    }
    proof {
        assert(path@.subrange(0, path@.len() as int) =~= path@);
    }
    r
}

/// Recursive search with cycle cut-off and branch-and-bound pruning by the
/// admissible estimate.  The result is exactly [`trace_spec`], and it
/// improves on the accumulated forecast only by scores that are truly
/// achievable.
pub fn trace_path(
    g: &Vec<Valve>,
    cur: usize,
    time_remaining: u32,
    release_forecast: i64,
    max_release_forecast: i64,
    remaining: &Vec<bool>,
    path: Vec<usize>,
) -> (r: i64)
    requires
        wf_graph(g@),
        cur < g@.len(),
        time_remaining <= 100,
        0 <= release_forecast,
        release_forecast + achievable(g@, cur as int, time_remaining as nat, remaining@)
            <= 0x40000000000000i64,
        path@.len() + 2 * (time_remaining as int) <= usize::MAX,
    ensures
        r == trace_spec(
            g@,
            cur as int,
            time_remaining as nat,
            release_forecast as int,
            max_release_forecast as int,
            remaining@,
            path@,
        ),
        release_forecast <= r <= release_forecast + achievable(
            g@,
            cur as int,
            time_remaining as nat,
            remaining@,
        ),
    decreases time_remaining,
{
    let ghost t = time_remaining as nat;
    let ghost rem = remaining@;
    let ghost path0 = path@;
    let ghost mk = max_release_forecast as int;
    let ghost goal = trace_spec(g@, cur as int, t, release_forecast as int, mk, rem, path0);
    proof {
        lemma_achievable_nonneg(g@, cur as int, t, rem);
    }
    if time_remaining <= 1 {
        return release_forecast;
    }
    if has_loop(cur, &path) {
        return release_forecast;
    }
    let mut path = path;
    path.push(cur);
    let ghost path2 = path0.push(cur);
    // branch-and-bound: the admissible estimate cannot beat the best known
    let estimate = approximate_possible_max_pressure_release(g, time_remaining, remaining);
    proof {
        lemma_approx_nonneg(g@, t, rem);
        lemma_approx_bound(g@, t, rem);
        assert(time_remaining * time_remaining * 4294967295 <= 0x4000000000000i64)
            by (nonlinear_arith)
            requires
                time_remaining <= 100,
        ;
    }
    if release_forecast <= max_release_forecast && max_release_forecast - release_forecast
        >= estimate {
        return release_forecast;
    }
    let ghost move_goal = trace_moves(
        g@,
        g@[cur as int].neighbors@,
        (t - 1) as nat,
        release_forecast as int,
        mk,
        rem,
        path2,
    );
    let mut max_forecast = release_forecast;
    let ghost mut phase1: int = release_forecast as int;
    // Option 1: open the valve here, then move on
    if cur < remaining.len() && remaining[cur] && g[cur].flow_rate > 0 {
        let mut rem2 = remaining.clone();
        rem2.set(cur, false);
        proof {
            assert(rem2@ =~= rem.update(cur as int, false));
        }
        proof {
            assert((time_remaining - 1) as i64 * (g@[cur as int].flow_rate as i64)
                <= 0x4000000000000i64) by (nonlinear_arith)
                requires
                    2 <= time_remaining <= 100,
                    0 <= g@[cur as int].flow_rate <= 4294967295,
            ;
        }
        let forecast_open = release_forecast + (time_remaining - 1) as i64 * g[cur].flow_rate
            as i64;
        let ghost fo = forecast_open as int;
        let ghost open_goal = trace_moves(
            g@,
            g@[cur as int].neighbors@,
            (t - 2) as nat,
            fo,
            mk,
            rem2@,
            path2,
        );
        // opening scores at activation, even from a dead end
        proof {
            lemma_best_move_nonneg(g@, g@[cur as int].neighbors@, (t - 2) as nat, rem2@);
            assert((t - 1) * g@[cur as int].flow_rate <= achievable(g@, cur as int, t, rem));
            assert(g@[cur as int].neighbors@.subrange(
                0,
                g@[cur as int].neighbors@.len() as int,
            ) =~= g@[cur as int].neighbors@);
            lemma_trace_moves_floor(
                g@,
                g@[cur as int].neighbors@,
                (t - 2) as nat,
                fo,
                mk,
                rem2@,
                path2,
            );
        }
        if forecast_open > max_forecast {
            max_forecast = forecast_open;
        }
        let mut n: usize = 0;
        while n < g[cur].neighbors.len()
            invariant
                wf_graph(g@),
                cur < g@.len(),
                2 <= time_remaining <= 100,
                t == time_remaining as nat,
                rem == remaining@,
                rem2@ == rem.update(cur as int, false),
                n <= g@[cur as int].neighbors@.len(),
                0 <= cur < rem.len() && rem[cur as int] && g@[cur as int].flow_rate > 0,
                forecast_open == release_forecast + (t - 1) * g@[cur as int].flow_rate,
                fo == forecast_open as int,
                mk == max_release_forecast as int,
                0 <= release_forecast,
                release_forecast + achievable(g@, cur as int, t, rem) <= 0x40000000000000i64,
                release_forecast <= max_forecast <= release_forecast + achievable(
                    g@,
                    cur as int,
                    t,
                    rem,
                ),
                max_forecast >= fo,
                open_goal == trace_moves(
                    g@,
                    g@[cur as int].neighbors@,
                    (t - 2) as nat,
                    fo,
                    mk,
                    rem2@,
                    path2,
                ),
                open_goal == ({
                    let rest = trace_moves(
                        g@,
                        g@[cur as int].neighbors@.subrange(
                            n as int,
                            g@[cur as int].neighbors@.len() as int,
                        ),
                        (t - 2) as nat,
                        fo,
                        mk,
                        rem2@,
                        path2,
                    );
                    if max_forecast >= rest {
                        max_forecast as int
                    } else {
                        rest
                    }
                }),
                path@ == path2,
                path@.len() + 2 * (time_remaining as int) - 1 <= usize::MAX,
                forecast_open <= 0x40000000000000i64 + 0x4000000000000i64,
            decreases g@[cur as int].neighbors@.len() - n,
        {
            let ghost allns = g@[cur as int].neighbors@;
            let ghost tail = allns.subrange(n as int, allns.len() as int);
            proof {
                assert(tail[0] == allns[n as int]);
                assert(tail[0]@ == allns[n as int]@);
                assert(tail.subrange(1, tail.len() as int) =~= allns.subrange(
                    n + 1,
                    allns.len() as int,
                ));
            }
            let name = &g[cur].neighbors[n];
            match find_valve(g, name) {
                Option::Some(j) => {
                    proof {
                        lemma_find_from(g@, name@, 0);
                        lemma_open_branch(g@, cur as int, t, rem, n as int);
                        lemma_achievable_nonneg(g@, j as int, (t - 2) as nat, rem2@);
                    }
                    let branch_path = clone_path(&path);
                    let sub = trace_path(
                        g,
                        j,
                        time_remaining - 2,
                        forecast_open,
                        max_release_forecast,
                        &rem2,
                        branch_path,
                    );
                    if sub > max_forecast {
                        max_forecast = sub;
                    }
                },
                Option::None => {
                    // a well-formed graph resolves every neighbor
                    proof {
                        assert(find_from(g@, g@[cur as int].neighbors@[n as int]@, 0) is Some);
                    }
                },
            }
            n += 1;
        }
        proof {
            assert(g@[cur as int].neighbors@.subrange(
                g@[cur as int].neighbors@.len() as int,
                g@[cur as int].neighbors@.len() as int,
            ).len() == 0);
            phase1 = max_forecast as int;
            assert(phase1 == open_goal);
        }
    } else {
        proof {
            phase1 = max_forecast as int;
        }
    }
    // Option 2: move on without opening
    proof {
        assert(g@[cur as int].neighbors@.subrange(
            0,
            g@[cur as int].neighbors@.len() as int,
        ) =~= g@[cur as int].neighbors@);
        lemma_trace_moves_floor(
            g@,
            g@[cur as int].neighbors@,
            (t - 1) as nat,
            release_forecast as int,
            mk,
            rem,
            path2,
        );
    }
    let mut n: usize = 0;
    while n < g[cur].neighbors.len()
        invariant
            wf_graph(g@),
            cur < g@.len(),
            2 <= time_remaining <= 100,
            t == time_remaining as nat,
            rem == remaining@,
            mk == max_release_forecast as int,
            n <= g@[cur as int].neighbors@.len(),
            0 <= release_forecast,
            release_forecast + achievable(g@, cur as int, t, rem) <= 0x40000000000000i64,
            release_forecast <= max_forecast <= release_forecast + achievable(
                g@,
                cur as int,
                t,
                rem,
            ),
            max_forecast >= phase1 >= release_forecast,
            move_goal == trace_moves(
                g@,
                g@[cur as int].neighbors@,
                (t - 1) as nat,
                release_forecast as int,
                mk,
                rem,
                path2,
            ),
            ({
                let rest = trace_moves(
                    g@,
                    g@[cur as int].neighbors@.subrange(
                        n as int,
                        g@[cur as int].neighbors@.len() as int,
                    ),
                    (t - 1) as nat,
                    release_forecast as int,
                    mk,
                    rem,
                    path2,
                );
                (if max_forecast >= rest {
                    max_forecast as int
                } else {
                    rest
                }) == (if phase1 >= move_goal {
                    phase1
                } else {
                    move_goal
                })
            }),
            path@ == path2,
            path@.len() + 2 * (time_remaining as int) - 1 <= usize::MAX,
        decreases g@[cur as int].neighbors@.len() - n,
    {
        let ghost allns = g@[cur as int].neighbors@;
        let ghost tail = allns.subrange(n as int, allns.len() as int);
        proof {
            assert(tail[0] == allns[n as int]);
            assert(tail[0]@ == allns[n as int]@);
            assert(tail.subrange(1, tail.len() as int) =~= allns.subrange(
                n + 1,
                allns.len() as int,
            ));
        }
        let name = &g[cur].neighbors[n];
        match find_valve(g, name) {
            Option::Some(j) => {
                proof {
                    lemma_find_from(g@, name@, 0);
                    lemma_move_branch(g@, cur as int, t, rem, n as int);
                    lemma_achievable_nonneg(g@, j as int, (t - 1) as nat, rem);
                }
                let branch_path = clone_path(&path);
                let sub = trace_path(
                    g,
                    j,
                    time_remaining - 1,
                    release_forecast,
                    max_release_forecast,
                    remaining,
                    branch_path,
                );
                if sub > max_forecast {
                    max_forecast = sub;
                }
            },
            Option::None => {
                proof {
                    assert(find_from(g@, g@[cur as int].neighbors@[n as int]@, 0) is Some);
                }
            },
        }
        n += 1;
    }
    proof {
        assert(g@[cur as int].neighbors@.subrange(
            g@[cur as int].neighbors@.len() as int,
            g@[cur as int].neighbors@.len() as int,
        ).len() == 0);
        assert(max_forecast as int == if phase1 >= move_goal {
            phase1
        } else {
            move_goal
        });
        assert(goal == max_forecast as int);
    }
    max_forecast
}

impl DeepView for Valve {
    type V = ValveView;

    open spec fn deep_view(&self) -> ValveView {
        self.view()
    }
}

/// The record pattern: a name, a flow rate, and a neighbor list.
pub open spec fn valve_pattern() -> Seq<char> {
    "Valve (.*) has flow rate=(\\d*); tunnels? leads? to valves? (.*)"@
}

/// What the capture groups of a line under a pattern are.  Regular
/// expression matching is deterministic, so this is a function of the
/// pattern and the line alone.
pub uninterp spec fn capture_groups_of(pattern: Seq<char>, line: Seq<u8>) -> Option<
    Seq<Seq<u8>>,
>;

/// Relies on regex::bytes::Regex::new and Regex::captures: the capture
/// groups (after the whole-match group) that a fixed pattern finds in a
/// line, named here `capture_groups_of`; `None` when the pattern does not
/// compile or the line does not match.
#[verifier::external_body]
fn regex_capture_groups(pattern: &str, line: &[u8]) -> (r: Option<Vec<Vec<u8>>>)
    ensures
        r.deep_view() == capture_groups_of(pattern@, line@),
{
    let re = match regex::bytes::Regex::new(pattern) {
        Ok(re) => re,
        Err(_) => return None,
    };
    let caps = match re.captures(line) {
        Some(c) => c,
        None => return None,
    };
    let mut groups = Vec::new();
    for i in 1..caps.len() {
        groups.push(caps.get(i).map_or(Vec::new(), |m| m.as_bytes().to_vec()));
    }
    Some(groups)
}

/// Split a byte text on commas and blanks, dropping empty pieces; `cur`
/// carries the piece under construction.
pub open spec fn split_names(s: Seq<u8>, i: int, cur: Seq<u8>) -> Seq<Seq<u8>>
    decreases s.len() - i,
{
    if i < 0 || i >= s.len() {
        if cur.len() > 0 {
            seq![cur]
        } else {
            Seq::empty()
        }
    } else if s[i] == 44 || s[i] == 32 {
        (if cur.len() > 0 {
            seq![cur]
        } else {
            Seq::empty()
        }) + split_names(s, i + 1, Seq::empty())
    } else {
        split_names(s, i + 1, cur.push(s[i]))
    }
}

/// Split a neighbor list on `", "` separators.
pub fn split_name_list(s: &Vec<u8>) -> (r: Vec<Vec<u8>>)
    ensures
        r.deep_view() == split_names(s@, 0, Seq::empty()),
{
    let mut out: Vec<Vec<u8>> = Vec::new();
    let mut cur: Vec<u8> = Vec::new();
    let mut i: usize = 0;
    while i < s.len()
        invariant
            i <= s@.len(),
            out.deep_view() + split_names(s@, i as int, cur@) =~~= split_names(
                s@,
                0,
                Seq::empty(),
            ),
        decreases s@.len() - i,
    {
        let b = s[i];
        let ghost old_out = out.deep_view();
        let ghost old_cur = cur@;
        if b == 44 || b == 32 {
            if cur.len() > 0 {
                let done = cur;
                cur = Vec::new();
                out.push(done);
                proof {
                    assert(out.deep_view() =~~= old_out.push(old_cur));
                    assert(split_names(s@, i as int, old_cur) == seq![old_cur] + split_names(
                        s@,
                        i + 1,
                        Seq::empty(),
                    ));
                    assert(out.deep_view() + split_names(s@, i + 1, Seq::empty()) =~~= old_out
                        + split_names(s@, i as int, old_cur));
                    assert(out.deep_view() + split_names(s@, i + 1, cur@) =~~= split_names(
                        s@,
                        0,
                        Seq::empty(),
                    ));
                }
            } else {
                proof {
                    assert(cur@ =~= Seq::<u8>::empty());
                    assert(split_names(s@, i as int, old_cur) == Seq::<Seq<u8>>::empty()
                        + split_names(s@, i + 1, Seq::empty()));
                    assert(Seq::<Seq<u8>>::empty() + split_names(s@, i + 1, Seq::empty()) =~~=
                    split_names(s@, i + 1, Seq::empty()));
                    assert(out.deep_view() + split_names(s@, i + 1, Seq::empty()) =~~= old_out
                        + split_names(s@, i as int, old_cur));
                    assert(out.deep_view() + split_names(s@, i + 1, cur@) =~~= split_names(
                        s@,
                        0,
                        Seq::empty(),
                    ));
                }
            }
        } else {
            cur.push(b);
            proof {
                assert(cur@ == old_cur.push(s@[i as int]));
                assert(split_names(s@, i as int, old_cur) == split_names(s@, i + 1, cur@));
                assert(out.deep_view() + split_names(s@, i + 1, cur@) =~~= old_out + split_names(
                    s@,
                    i as int,
                    old_cur,
                ));
                assert(out.deep_view() + split_names(s@, i + 1, cur@) =~~= split_names(
                    s@,
                    0,
                    Seq::empty(),
                ));
            }
        }
        i += 1;
        proof {
            assert(out.deep_view() + split_names(s@, i as int, cur@) =~~= split_names(
                s@,
                0,
                Seq::empty(),
            ));
        }
    }
    let ghost old_out = out.deep_view();
    let ghost old_cur = cur@;
    if cur.len() > 0 {
        out.push(cur);
        proof {
            assert(out.deep_view() =~~= old_out.push(old_cur));
            assert(out.deep_view() =~~= old_out + seq![old_cur]);
        }
    }
    proof {
        assert(out.deep_view() =~~= split_names(s@, 0, Seq::empty()));
    }
    out
}

/// A digit run small enough for a `u32`.
pub open spec fn parse_u32_spec(s: Seq<u8>) -> Option<int> {
    if s.len() >= 1 && (forall|i: int| 0 <= i < s.len() ==> is_digit(#[trigger] s[i]))
        && digits_val(s) <= u32::MAX {
        Some(digits_val(s))
    } else {
        None
    }
}

/// Read a whole buffer of digits as a `u32`.
pub fn parse_u32(s: &Vec<u8>) -> (r: Option<u32>)
    ensures
        match r {
            Option::Some(v) => parse_u32_spec(s@) == Some(v as int),
            Option::None => parse_u32_spec(s@) is None,
        },
{
    if s.len() == 0 {
        return None;
    }
    let mut i: usize = 0;
    while i < s.len()
        invariant
            i <= s@.len(),
            forall|k: int| 0 <= k < i ==> is_digit(#[trigger] s@[k]),
        decreases s@.len() - i,
    {
        let b = s[i];
        if !(48 <= b && b <= 57) {
            return None;
        }
        i += 1;
    }
    let mut val: u64 = 0;
    let mut i: usize = 0;
    proof {
        assert(s@.subrange(0, 0) =~= Seq::<u8>::empty());
    }
    while i < s.len()
        invariant
            i <= s@.len(),
            forall|k: int| 0 <= k < s@.len() ==> is_digit(#[trigger] s@[k]),
            val == digits_val(s@.subrange(0, i as int)),
            0 <= val <= u32::MAX,
        decreases s@.len() - i,
    {
        let d = s[i] - 48;
        let next = val * 10 + d as u64;
        proof {
            let pre = s@.subrange(0, i as int);
            let cur = s@.subrange(0, i + 1);
            assert(cur.drop_last() =~= pre);
            assert(cur.last() == s@[i as int]);
        }
        if next > u32::MAX as u64 {
            proof {
                crate::packets::lemma_digits_val_mono(s@, i + 1);
                assert(s@.subrange(0, s@.len() as int) =~= s@);
            }
            return None;
        }
        val = next;
        i += 1;
    }
    proof {
        assert(s@.subrange(0, s@.len() as int) =~= s@);
    }
    Some(val as u32)
}

/// What one text record means: a valve with its name, rate and neighbor
/// names, or a parse error.
pub open spec fn parse_valve_line_spec(line: Seq<u8>) -> Option<ValveView> {
    match capture_groups_of(valve_pattern(), line) {
        Option::None => None,
        Option::Some(gs) => if gs.len() != 3 {
            None
        } else {
            match parse_u32_spec(gs[1]) {
                Option::None => None,
                Option::Some(f) => Some(
                    ValveView {
                        name: gs[0],
                        flow_rate: f,
                        neighbors: split_names(gs[2], 0, Seq::empty()),
                    },
                ),
            }
        },
    }
}

/// Parse one record through the pattern.
pub fn parse_valve_line(line: &Vec<u8>) -> (r: Option<Valve>)
    ensures
        match r {
            Option::Some(v) => parse_valve_line_spec(line@) == Some(v@),
            Option::None => parse_valve_line_spec(line@) is None,
        },
{
    let groups = regex_capture_groups(
        "Valve (.*) has flow rate=(\\d*); tunnels? leads? to valves? (.*)",
        line.as_slice(),
    );
    let mut gs = match groups {
        Option::Some(gs) => gs,
        Option::None => {
            return None;
        },
    };
    if gs.len() != 3 {
        return None;
    }
    let neighbors_text = gs.pop().unwrap();
    let flow_text = gs.pop().unwrap();
    let name = gs.pop().unwrap();
    let ghost captured = capture_groups_of(valve_pattern(), line@).unwrap();
    proof {
        assert(captured[0] == name@);
        assert(captured[1] == flow_text@);
        assert(captured[2] == neighbors_text@);
    }
    let flow_rate = match parse_u32(&flow_text) {
        Option::Some(f) => f,
        Option::None => {
            return None;
        },
    };
    let neighbors = split_name_list(&neighbors_text);
    let v = Valve { name, flow_rate, neighbors };
    proof {
        assert(v@ == parse_valve_line_spec(line@).unwrap());
    }
    Some(v)
}

/// What a whole input means: one valve per line, in order.
pub open spec fn parse_valves_spec(lines: Seq<Seq<u8>>) -> Option<Seq<ValveView>>
    decreases lines.len(),
{
    if lines.len() == 0 {
        Some(Seq::empty())
    } else {
        match parse_valves_spec(lines.drop_last()) {
            Option::None => None,
            Option::Some(vs) => match parse_valve_line_spec(lines.last()) {
                Option::None => None,
                Option::Some(v) => Some(vs.push(v)),
            },
        }
    }
}

/// Parse the whole input, one valve per line.
pub fn parse_valves(lines: &Vec<Vec<u8>>) -> (r: Option<Vec<Valve>>)
    ensures
        match r {
            Option::Some(g) => parse_valves_spec(lines.deep_view()) == Some(g.deep_view()),
            Option::None => parse_valves_spec(lines.deep_view()) is None,
        },
{
    let ghost lv = lines.deep_view();
    let mut g: Vec<Valve> = Vec::new();
    let mut i: usize = 0;
    proof {
        assert(lv.subrange(0, 0) =~= Seq::<Seq<u8>>::empty());
        assert(parse_valves_spec(lv.subrange(0, 0)) == Some(g.deep_view()));
    }
    while i < lines.len()
        invariant
            i <= lv.len(),
            lv == lines.deep_view(),
            lv.len() == lines@.len(),
            parse_valves_spec(lv.subrange(0, i as int)) == Some(g.deep_view()),
        decreases lv.len() - i,
    {
        proof {
            assert(lv[i as int] == lines@[i as int]@);
        }
        match parse_valve_line(&lines[i]) {
            Option::Some(v) => {
                g.push(v);
            },
            Option::None => {
                proof {
                    lemma_parse_valves_prefix_none(lv, i as int);
                }
                return None;
            },
        }
        proof {
            assert(lv.subrange(0, i + 1).drop_last() =~= lv.subrange(0, i as int));
            assert(lv.subrange(0, i + 1).last() == lv[i as int]);
            assert(g.deep_view() =~~= parse_valves_spec(lv.subrange(0, i + 1)).unwrap());
        }
        i += 1;
    }
    proof {
        assert(lv.subrange(0, lv.len() as int) =~= lv);
    }
    Some(g)
}

/// A failing line fails the whole input.
proof fn lemma_parse_valves_prefix_none(lines: Seq<Seq<u8>>, i: int)
    requires
        0 <= i < lines.len(),
        parse_valve_line_spec(lines[i]) is None,
    ensures
        parse_valves_spec(lines) is None,
    decreases lines.len(),
{
    if lines.len() > 0 {
        if i == lines.len() - 1 {
        } else {
            lemma_parse_valves_prefix_none(lines.drop_last(), i);
            assert(lines.drop_last()[i] == lines[i]);
        }
    }
}

} // verus!
