//! Tree-height grid visibility: sight lines from a cell in the four axis
//! directions, the distance seen before an equally tall tree, and the
//! visibility test from the grid's edge.

use vstd::prelude::*;

verus! {

/// A rectangular grid of digits.
pub open spec fn rectangular(area: Seq<Seq<u32>>) -> bool {
    forall|r: int| 0 <= r < area.len() ==> (#[trigger] area[r]).len() == area[0].len()
}

/// The trees above `(row, col)`, nearest first.
pub fn vec_up(area: &Vec<Vec<u32>>, row_idx: usize, column_idx: usize) -> (r: Vec<u32>)
    requires
        rectangular(area.deep_view()),
        row_idx < area@.len(),
        column_idx < area.deep_view()[0].len(),
    ensures
        r@.len() == row_idx,
        forall|k: int| 0 <= k < row_idx ==> r@[k] == area.deep_view()[row_idx - 1 - k][
            column_idx as int],
{
    let ghost av = area.deep_view();
    let mut r: Vec<u32> = Vec::new();
    let mut k: usize = 0;
    while k < row_idx
        invariant
            av == area.deep_view(),
            rectangular(av),
            k <= row_idx < av.len(),
            av.len() == area@.len(),
            column_idx < av[0].len(),
            r@.len() == k,
            forall|k2: int| 0 <= k2 < k ==> r@[k2] == av[row_idx - 1 - k2][column_idx as int],
        decreases row_idx - k,
    {
        proof {
            assert(av[row_idx - 1 - k] == area@[row_idx - 1 - k]@);
        }
        r.push(area[row_idx - 1 - k][column_idx]);
        k += 1;
    }
    r
}

/// The trees below `(row, col)`, nearest first.
pub fn vec_down(area: &Vec<Vec<u32>>, row_idx: usize, column_idx: usize) -> (r: Vec<u32>)
    requires
        rectangular(area.deep_view()),
        row_idx < area@.len(),
        column_idx < area.deep_view()[0].len(),
    ensures
        r@.len() == area@.len() - row_idx - 1,
        forall|k: int| 0 <= k < r@.len() ==> r@[k] == area.deep_view()[row_idx + 1 + k][
            column_idx as int],
{
    let ghost av = area.deep_view();
    let mut r: Vec<u32> = Vec::new();
    let mut k: usize = 0;
    while k < area.len() - row_idx - 1
        invariant
            av == area.deep_view(),
            rectangular(av),
            row_idx < av.len(),
            av.len() == area@.len(),
            k <= av.len() - row_idx - 1,
            column_idx < av[0].len(),
            r@.len() == k,
            forall|k2: int| 0 <= k2 < k ==> r@[k2] == av[row_idx + 1 + k2][column_idx as int],
        decreases area@.len() - row_idx - 1 - k,
    {
        proof {
            assert(av[row_idx + 1 + k] == area@[row_idx + 1 + k]@);
        }
        r.push(area[row_idx + 1 + k][column_idx]);
        k += 1;
    }
    r
}

/// The trees left of `(row, col)`, nearest first.
pub fn vec_left(area: &Vec<Vec<u32>>, row_idx: usize, column_idx: usize) -> (r: Vec<u32>)
    requires
        rectangular(area.deep_view()),
        row_idx < area@.len(),
        column_idx < area.deep_view()[0].len(),
    ensures
        r@.len() == column_idx,
        forall|k: int| 0 <= k < column_idx ==> r@[k] == area.deep_view()[row_idx as int][
            column_idx - 1 - k],
{
    let ghost av = area.deep_view();
    let mut r: Vec<u32> = Vec::new();
    let mut k: usize = 0;
    while k < column_idx
        invariant
            av == area.deep_view(),
            rectangular(av),
            row_idx < av.len(),
            av.len() == area@.len(),
            k <= column_idx < av[0].len(),
            r@.len() == k,
            forall|k2: int| 0 <= k2 < k ==> r@[k2] == av[row_idx as int][column_idx - 1 - k2],
        decreases column_idx - k,
    {
        proof {
            assert(av[row_idx as int] == area@[row_idx as int]@);
        }
        r.push(area[row_idx][column_idx - 1 - k]);
        k += 1;
    }
    r
}

/// The trees right of `(row, col)`, nearest first.
pub fn vec_right(area: &Vec<Vec<u32>>, row_idx: usize, column_idx: usize) -> (r: Vec<u32>)
    requires
        rectangular(area.deep_view()),
        row_idx < area@.len(),
        column_idx < area.deep_view()[0].len(),
    ensures
        r@.len() == area.deep_view()[0].len() - column_idx - 1,
        forall|k: int| 0 <= k < r@.len() ==> r@[k] == area.deep_view()[row_idx as int][
            column_idx + 1 + k],
{
    let ghost av = area.deep_view();
    let mut out: Vec<u32> = Vec::new();
    let width = area[0].len();
    let mut k: usize = 0;
    proof {
        assert(av[row_idx as int] == area@[row_idx as int]@);
        assert(av[row_idx as int].len() == av[0].len());
    }
    while k < width - column_idx - 1
        invariant
            av == area.deep_view(),
            rectangular(av),
            row_idx < av.len(),
            av.len() == area@.len(),
            width == av[0].len(),
            column_idx < width,
            k <= width - column_idx - 1,
            out@.len() == k,
            forall|k2: int| 0 <= k2 < k ==> out@[k2] == av[row_idx as int][column_idx + 1 + k2],
        decreases width - column_idx - 1 - k,
    {
        proof {
            assert(av[row_idx as int] == area@[row_idx as int]@);
            assert(av[row_idx as int].len() == av[0].len());
        }
        out.push(area[row_idx][column_idx + 1 + k]);
        k += 1;
    }
    out
}

/// How far the sight reaches over `trees`: up to and including the first
/// tree at least as tall, else the whole line.
pub open spec fn spec_viewing_distance(trees: Seq<u32>, height: u32) -> int
    decreases trees.len(),
{
    if trees.len() == 0 {
        0
    } else if trees[0] >= height {
        1
    } else {
        1 + spec_viewing_distance(trees.subrange(1, trees.len() as int), height)
    }
}

/// Viewing distance down a sight line.
pub fn viewing_distance(trees: &Vec<u32>, tree_height: u32) -> (r: usize)
    ensures
        r == spec_viewing_distance(trees@, tree_height),
        r <= trees@.len(),
{
    let mut i: usize = 0;
    proof {
        assert(trees@.subrange(0, trees@.len() as int) =~= trees@);
    }
    while i < trees.len()
        invariant
            i <= trees@.len(),
            spec_viewing_distance(trees@, tree_height) == i + spec_viewing_distance(
                trees@.subrange(i as int, trees@.len() as int),
                tree_height,
            ),
        decreases trees@.len() - i,
    {
        let ghost tail = trees@.subrange(i as int, trees@.len() as int);
        proof {
            assert(tail[0] == trees@[i as int]);
            assert(tail.subrange(1, tail.len() as int) =~= trees@.subrange(
                i + 1,
                trees@.len() as int,
            ));
        }
        if trees[i] >= tree_height {
            proof {
                assert(spec_viewing_distance(tail, tree_height) == 1);
            }
            return i + 1;
        }
        i += 1;
    }
    proof {
        assert(trees@.subrange(trees@.len() as int, trees@.len() as int).len() == 0);
    }
    trees.len()
}

/// The sight lines from a cell, nearest tree first.
pub open spec fn line_up(av: Seq<Seq<u32>>, row: int, col: int) -> Seq<u32> {
    Seq::new(row as nat, |k: int| av[row - 1 - k][col])
}

pub open spec fn line_down(av: Seq<Seq<u32>>, row: int, col: int) -> Seq<u32> {
    Seq::new((av.len() - row - 1) as nat, |k: int| av[row + 1 + k][col])
}

pub open spec fn line_left(av: Seq<Seq<u32>>, row: int, col: int) -> Seq<u32> {
    Seq::new(col as nat, |k: int| av[row][col - 1 - k])
}

pub open spec fn line_right(av: Seq<Seq<u32>>, row: int, col: int) -> Seq<u32> {
    Seq::new((av[0].len() - col - 1) as nat, |k: int| av[row][col + 1 + k])
}

/// The scenic score: the product of the four viewing distances.
pub fn score(area: &Vec<Vec<u32>>, row_idx: usize, column_idx: usize) -> (r: u64)
    requires
        rectangular(area.deep_view()),
        row_idx < area@.len(),
        column_idx < area.deep_view()[0].len(),
        area@.len() <= 10000,
        area.deep_view()[0].len() <= 10000,
    ensures
        ({
            let av = area.deep_view();
            let h = av[row_idx as int][column_idx as int];
            r == spec_viewing_distance(line_up(av, row_idx as int, column_idx as int), h)
                * spec_viewing_distance(line_down(av, row_idx as int, column_idx as int), h)
                * spec_viewing_distance(line_left(av, row_idx as int, column_idx as int), h)
                * spec_viewing_distance(line_right(av, row_idx as int, column_idx as int), h)
        }),
{
    proof {
        assert(area.deep_view()[row_idx as int] == area@[row_idx as int]@);
        assert(area.deep_view()[row_idx as int].len() == area.deep_view()[0].len());
    }
    let tree_height = area[row_idx][column_idx];
    let up = vec_up(area, row_idx, column_idx);
    let down = vec_down(area, row_idx, column_idx);
    let left = vec_left(area, row_idx, column_idx);
    let right = vec_right(area, row_idx, column_idx);
    proof {
        let av = area.deep_view();
        assert(up@ =~= line_up(av, row_idx as int, column_idx as int));
        assert(down@ =~= line_down(av, row_idx as int, column_idx as int));
        assert(left@ =~= line_left(av, row_idx as int, column_idx as int));
        assert(right@ =~= line_right(av, row_idx as int, column_idx as int));
    }
    let du = viewing_distance(&up, tree_height) as u64;
    let dd = viewing_distance(&down, tree_height) as u64;
    let dl = viewing_distance(&left, tree_height) as u64;
    let dr = viewing_distance(&right, tree_height) as u64;
    proof {
        assert(du * dd * dl * dr <= 10000u64 * 10000 * 10000 * 10000) by (nonlinear_arith)
            requires
                0 <= du <= 10000,
                0 <= dd <= 10000,
                0 <= dl <= 10000,
                0 <= dr <= 10000,
        ;
        assert(du * dd <= 10000u64 * 10000 && du * dd * dl <= 10000u64 * 10000 * 10000)
            by (nonlinear_arith)
            requires
                0 <= du <= 10000,
                0 <= dd <= 10000,
                0 <= dl <= 10000,
        ;
    }
    du * dd * dl * dr
}

/// Visible within a sight line: every tree on one side is lower.
pub open spec fn visible_in_seq(s: Seq<u32>, idx: int) -> bool {
    (forall|i: int| 0 <= i < idx ==> s[i] < s[idx]) || (forall|i: int|
        idx < i < s.len() ==> s[i] < s[idx])
}

/// The cells of one column, top first.
pub open spec fn column_of(av: Seq<Seq<u32>>, col: int) -> Seq<u32> {
    Seq::new(av.len(), |i: int| av[i][col])
}

/// Visible down a sight line: every tree before the cell is lower, from
/// one end or the other.
pub fn visible_in_vec(trees: &Vec<u32>, tree_idx: usize) -> (r: bool)
    requires
        tree_idx < trees@.len(),
    ensures
        r == visible_in_seq(trees@, tree_idx as int),
{
    let n = trees.len();
    let tree_size = trees[tree_idx];
    let mut visible = true;
    let mut i: usize = 0;
    while i < tree_idx
        invariant
            i <= tree_idx < trees@.len(),
            tree_size == trees@[tree_idx as int],
            visible == forall|k: int| 0 <= k < i ==> trees@[k] < trees@[tree_idx as int],
        decreases tree_idx - i,
    {
        if trees[i] >= tree_size {
            proof {
                assert(!(trees@[i as int] < trees@[tree_idx as int]));
            }
            visible = false;
        }
        i += 1;
    }
    if visible {
        return true;
    }
    let mut visible = true;
    let mut i: usize = tree_idx + 1;
    while i < trees.len()
        invariant
            tree_idx < i <= trees@.len(),
            tree_size == trees@[tree_idx as int],
            visible == forall|k: int| tree_idx < k < i ==> trees@[k] < trees@[tree_idx as int],
        decreases trees@.len() - i,
    {
        if trees[i] >= tree_size {
            visible = false;
        }
        i += 1;
    }
    visible
}

/// Visible along its row.
pub fn visible_in_row(area: &Vec<Vec<u32>>, row_idx: usize, tree_index: usize) -> (r: bool)
    requires
        rectangular(area.deep_view()),
        row_idx < area@.len(),
        tree_index < area.deep_view()[0].len(),
    ensures
        r == visible_in_seq(area.deep_view()[row_idx as int], tree_index as int),
{
    proof {
        assert(area.deep_view()[row_idx as int] == area@[row_idx as int]@);
        assert(area.deep_view()[row_idx as int].len() == area.deep_view()[0].len());
    }
    visible_in_vec(&area[row_idx], tree_index)
}

/// Visible along its column.
pub fn visible_in_column(area: &Vec<Vec<u32>>, column_idx: usize, tree_index: usize) -> (r: bool)
    requires
        rectangular(area.deep_view()),
        tree_index < area@.len(),
        column_idx < area.deep_view()[0].len(),
    ensures
        r == visible_in_seq(column_of(area.deep_view(), column_idx as int), tree_index as int),
{
    let ghost av = area.deep_view();
    let mut column: Vec<u32> = Vec::new();
    let mut k: usize = 0;
    while k < area.len()
        invariant
            av == area.deep_view(),
            rectangular(av),
            av.len() == area@.len(),
            column_idx < av[0].len(),
            k <= av.len(),
            column@.len() == k,
            forall|k2: int| 0 <= k2 < k ==> column@[k2] == av[k2][column_idx as int],
        decreases area@.len() - k,
    {
        proof {
            assert(av[k as int] == area@[k as int]@);
        }
        column.push(area[k][column_idx]);
        k += 1;
    }
    proof {
        assert(column@ =~= column_of(av, column_idx as int));
    }
    visible_in_vec(&column, tree_index)
}

/// Whether the tree at `(x, y)` is visible along its row or its column.
pub open spec fn cell_visible(av: Seq<Seq<u32>>, x: int, y: int) -> bool {
    visible_in_seq(av[y], x) || visible_in_seq(column_of(av, x), y)
}

/// Visible interior trees of one row, left of `upto`.
pub open spec fn row_visible_count(av: Seq<Seq<u32>>, y: int, upto: int) -> int
    decreases upto,
{
    if upto <= 1 {
        0
    } else {
        row_visible_count(av, y, upto - 1) + if cell_visible(av, upto - 1, y) {
            1int
        } else {
            0int
        }
    }
}

/// Visible interior trees of the rows above `rows`.
pub open spec fn spec_visible_count(av: Seq<Seq<u32>>, rows: int) -> int
    decreases rows,
{
    if rows <= 1 {
        0
    } else {
        spec_visible_count(av, rows - 1) + row_visible_count(av, rows - 1, av[0].len() - 1)
    }
}

/// Count the visible trees strictly inside the grid.
pub fn count_visible(area: &Vec<Vec<u32>>) -> (r: u64)
    requires
        rectangular(area.deep_view()),
        2 <= area@.len() <= 10000,
        2 <= area.deep_view()[0].len() <= 10000,
    ensures
        r == spec_visible_count(area.deep_view(), area@.len() - 1),
{
    let ghost av = area.deep_view();
    proof {
        assert(av[0] == area@[0]@);
    }
    let width = area[0].len();
    let height = area.len();
    let mut count: u64 = 0;
    let mut y: usize = 1;
    while y < height - 1
        invariant
            av == area.deep_view(),
            rectangular(av),
            av.len() == area@.len() == height,
            2 <= height <= 10000,
            2 <= width <= 10000,
            width == av[0].len(),
            1 <= y <= height - 1,
            count == spec_visible_count(av, y as int),
            count <= y * width,
        decreases height - 1 - y,
    {
        let mut x: usize = 1;
        while x < width - 1
            invariant
                av == area.deep_view(),
                rectangular(av),
                av.len() == area@.len() == height,
                2 <= height <= 10000,
                2 <= width <= 10000,
                width == av[0].len(),
                1 <= y < height - 1,
                1 <= x <= width - 1,
                count == spec_visible_count(av, y as int) + row_visible_count(av, y as int, x as int),
                count <= y * width + x,
            decreases width - 1 - x,
        {
            proof {
                assert(av[y as int] == area@[y as int]@);
                assert(av[y as int].len() == av[0].len());
                assert(y * width <= 100000000) by (nonlinear_arith)
                    requires
                        y <= 10000,
                        width <= 10000,
                ;
            }
            let in_row = visible_in_row(area, y, x);
            let in_column = visible_in_column(area, x, y);
            if in_row || in_column {
                count = count + 1;
            }
            x += 1;
        }
        proof {
            assert(y * width + width == (y + 1) * width) by (nonlinear_arith);
        }
        y += 1;
    }
    count
}

} // verus!
