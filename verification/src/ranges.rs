//! Range containment: each line holds two dash-separated numeric ranges,
//! and the reduction counts the pairs where one range contains the other's
//! start.

use vstd::prelude::*;
use crate::valves::{parse_u32, parse_u32_spec};

verus! {

/// Position of the first dash at or after `i`; the length when none.
pub open spec fn first_dash(s: Seq<u8>, i: int) -> int
    decreases s.len() - i,
{
    if i < 0 || i >= s.len() {
        i
    } else if s[i] == 45 {
        i
    } else {
        first_dash(s, i + 1)
    }
}

proof fn lemma_first_dash(s: Seq<u8>, i: int)
    requires
        0 <= i <= s.len(),
    ensures
        i <= first_dash(s, i) <= s.len(),
        first_dash(s, i) < s.len() ==> s[first_dash(s, i)] == 45,
        forall|k: int| i <= k < first_dash(s, i) ==> s[k] != 45,
        first_dash(s, i) == s.len() ==> forall|k: int| i <= k < s.len() ==> s[k] != 45,
    decreases s.len() - i,
{
    if i < s.len() && s[i] != 45 {
        lemma_first_dash(s, i + 1);
    }
}

/// Parse a `start-end` range.
pub fn parse_range(s: &Vec<u8>) -> (r: Option<(u32, u32)>)
    ensures
        match r {
            Option::Some((a, b)) => {
                let dash = first_dash(s@, 0);
                dash < s@.len() && parse_u32_spec(s@.subrange(0, dash)) == Some(a as int)
                    && parse_u32_spec(s@.subrange(dash + 1, s@.len() as int)) == Some(b as int)
            },
            Option::None => {
                let dash = first_dash(s@, 0);
                dash >= s@.len() || parse_u32_spec(s@.subrange(0, dash)) is None || parse_u32_spec(
                    s@.subrange(dash + 1, s@.len() as int),
                ) is None
            },
        },
{
    proof {
        lemma_first_dash(s@, 0);
    }
    let mut i: usize = 0;
    while i < s.len() && s[i] != 45
        invariant
            i <= s@.len(),
            forall|k: int| 0 <= k < i ==> s@[k] != 45,
            first_dash(s@, 0) == first_dash(s@, i as int),
        decreases s@.len() - i,
    {
        i += 1;
    }
    if i >= s.len() {
        return None;
    }
    proof {
        assert(first_dash(s@, i as int) == i);
    }
    let mut left: Vec<u8> = Vec::new();
    let mut k: usize = 0;
    while k < i
        invariant
            k <= i < s@.len(),
            left@ == s@.subrange(0, k as int),
        decreases i - k,
    {
        proof {
            assert(s@.subrange(0, k + 1) =~= s@.subrange(0, k as int).push(s@[k as int]));
        }
        left.push(s[k]);
        k += 1;
    }
    let mut right: Vec<u8> = Vec::new();
    let mut k: usize = i + 1;
    while k < s.len()
        invariant
            i < s@.len(),
            i + 1 <= k <= s@.len(),
            right@ == s@.subrange(i + 1, k as int),
        decreases s@.len() - k,
    {
        proof {
            assert(s@.subrange(i + 1, k + 1) =~= s@.subrange(i + 1, k as int).push(s@[k as int]));
        }
        right.push(s[k]);
        k += 1;
    }
    proof {
        assert(left@ =~= s@.subrange(0, i as int));
        assert(right@ =~= s@.subrange(i + 1, s@.len() as int));
        assert(first_dash(s@, 0) == i as int);
    }
    let a = match parse_u32(&left) {
        Option::Some(a) => a,
        Option::None => {
            return None;
        },
    };
    let b = match parse_u32(&right) {
        Option::Some(b) => b,
        Option::None => {
            return None;
        },
    };
    Some((a, b))
}

/// Whether the first range starts no later than the second and reaches its
/// start.
pub fn does_range_contain_range(r1: (u32, u32), r2: (u32, u32)) -> (r: bool)
    ensures
        r == (r1.0 <= r2.0 && r1.1 >= r2.0),
{
    r1.0 <= r2.0 && r1.1 >= r2.0
}

/// What one line contributes to the overlap count: 1 when both ranges
/// parse and either reaches the other's start.
pub open spec fn line_overlap(line: Seq<u8>) -> int {
    let comma = first_comma(line, 0);
    if comma >= line.len() {
        0
    } else {
        let left = spec_range(line.subrange(0, comma));
        let right = spec_range(line.subrange(comma + 1, line.len() as int));
        match (left, right) {
            (Option::Some((a, b)), Option::Some((c, d))) => if (a <= c && b >= c) || (c <= a && d
                >= a) {
                1int
            } else {
                0int
            },
            _ => 0,
        }
    }
}

/// What a dash-separated text means as a range.
pub open spec fn spec_range(s: Seq<u8>) -> Option<(int, int)> {
    let dash = first_dash(s, 0);
    if dash >= s.len() {
        None
    } else {
        match (parse_u32_spec(s.subrange(0, dash)), parse_u32_spec(
            s.subrange(dash + 1, s.len() as int),
        )) {
            (Option::Some(a), Option::Some(b)) => Some((a, b)),
            _ => None,
        }
    }
}

/// Position of the first comma at or after `i`; the length when none.
pub open spec fn first_comma(s: Seq<u8>, i: int) -> int
    decreases s.len() - i,
{
    if i < 0 || i >= s.len() {
        i
    } else if s[i] == 44 {
        i
    } else {
        first_comma(s, i + 1)
    }
}

/// The overlap count of a batch of lines.
pub open spec fn spec_overlap_count(lines: Seq<Seq<u8>>) -> int
    decreases lines.len(),
{
    if lines.len() == 0 {
        0
    } else {
        spec_overlap_count(lines.drop_last()) + line_overlap(lines.last())
    }
}

/// Count the lines whose two ranges overlap at a start.
pub fn count_overlaps(lines: &Vec<Vec<u8>>) -> (r: u64)
    requires
        lines@.len() <= u32::MAX,
    ensures
        r == spec_overlap_count(lines.deep_view()),
{
    let ghost lv = lines.deep_view();
    let mut count: u64 = 0;
    let mut i: usize = 0;
    proof {
        assert(lv.subrange(0, 0) =~= Seq::<Seq<u8>>::empty());
    }
    while i < lines.len()
        invariant
            i <= lv.len(),
            lv == lines.deep_view(),
            lv.len() == lines@.len() <= u32::MAX,
            count == spec_overlap_count(lv.subrange(0, i as int)),
            count <= i,
        decreases lv.len() - i,
    {
        let ghost line = lv[i as int];
        proof {
            assert(line == lines@[i as int]@);
            assert(lv.subrange(0, i + 1).drop_last() =~= lv.subrange(0, i as int));
            assert(lv.subrange(0, i + 1).last() == line);
        }
        let contribution = line_contribution(&lines[i]);
        count = count + contribution as u64;
        i += 1;
    }
    proof {
        assert(lv.subrange(0, lv.len() as int) =~= lv);
    }
    count
}

/// One line's contribution to the overlap count.
fn line_contribution(line: &Vec<u8>) -> (r: u32)
    ensures
        r == line_overlap(line@),
        r <= 1,
{
    proof {
        lemma_first_comma(line@, 0);
    }
    let mut i: usize = 0;
    while i < line.len() && line[i] != 44
        invariant
            i <= line@.len(),
            forall|k: int| 0 <= k < i ==> line@[k] != 44,
            first_comma(line@, 0) == first_comma(line@, i as int),
        decreases line@.len() - i,
    {
        i += 1;
    }
    if i >= line.len() {
        return 0;
    }
    proof {
        assert(first_comma(line@, i as int) == i);
    }
    let mut left: Vec<u8> = Vec::new();
    let mut k: usize = 0;
    while k < i
        invariant
            k <= i < line@.len(),
            left@ == line@.subrange(0, k as int),
        decreases i - k,
    {
        proof {
            assert(line@.subrange(0, k + 1) =~= line@.subrange(0, k as int).push(
                line@[k as int],
            ));
        }
        left.push(line[k]);
        k += 1;
    }
    let mut right: Vec<u8> = Vec::new();
    let mut k: usize = i + 1;
    while k < line.len()
        invariant
            i < line@.len(),
            i + 1 <= k <= line@.len(),
            right@ == line@.subrange(i + 1, k as int),
        decreases line@.len() - k,
    {
        proof {
            assert(line@.subrange(i + 1, k + 1) =~= line@.subrange(i + 1, k as int).push(
                line@[k as int],
            ));
        }
        right.push(line[k]);
        k += 1;
    }
    proof {
        assert(left@ =~= line@.subrange(0, i as int));
        assert(right@ =~= line@.subrange(i + 1, line@.len() as int));
    }
    let r1 = match parse_range(&left) {
        Option::Some(r1) => r1,
        Option::None => {
            return 0;
        },
    };
    let r2 = match parse_range(&right) {
        Option::Some(r2) => r2,
        Option::None => {
            return 0;
        },
    };
    if does_range_contain_range(r1, r2) || does_range_contain_range(r2, r1) {
        1
    } else {
        0
    }
}

proof fn lemma_first_comma(s: Seq<u8>, i: int)
    requires
        0 <= i <= s.len(),
    ensures
        i <= first_comma(s, i) <= s.len(),
        first_comma(s, i) < s.len() ==> s[first_comma(s, i)] == 44,
    decreases s.len() - i,
{
    if i < s.len() && s[i] != 44 {
        lemma_first_comma(s, i + 1);
    }
}

} // verus!
