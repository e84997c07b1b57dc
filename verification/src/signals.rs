//! Start-of-signal detection: the marker is the first position where the
//! previous fourteen characters are pairwise distinct.

use vstd::prelude::*;

verus! {

/// Pairwise distinct bytes.
pub open spec fn all_distinct(s: Seq<u8>) -> bool {
    forall|i: int, j: int| 0 <= i < j < s.len() ==> s[i] != s[j]
}

/// A complete marker ends at position `i`: fourteen characters are in and
/// the last fourteen are pairwise distinct.
pub open spec fn marker_at(line: Seq<u8>, i: int) -> bool {
    i >= 14 && all_distinct(line.subrange(i - 14, i))
}

/// Check a window for duplicates.
fn window_distinct(v: &Vec<u8>) -> (r: bool)
    ensures
        r == all_distinct(v@),
{
    let mut i: usize = 0;
    while i < v.len()
        invariant
            i <= v@.len(),
            forall|a: int, b: int| 0 <= a < b < v@.len() && a < i ==> v@[a] != v@[b],
        decreases v@.len() - i,
    {
        let mut j: usize = i + 1;
        while j < v.len()
            invariant
                i < j <= v@.len() || (i >= v@.len() && j >= v@.len()),
                i < v@.len() ==> forall|b: int| i < b < j ==> v@[i as int] != v@[b],
                forall|a: int, b: int| 0 <= a < b < v@.len() && a < i ==> v@[a] != v@[b],
            decreases v@.len() - j,
        {
            if v[i] == v[j] {
                return false;
            }
            j += 1;
        }
        i += 1;
    }
    true
}

/// Slide the window: push the new character and drop the oldest once
/// fourteen are in.  Answers whether a complete distinct marker just
/// formed.
pub fn add(v: &mut Vec<u8>, c: u8) -> (r: bool)
    requires
        old(v)@.len() <= 14,
    ensures
        final(v)@ == if old(v)@.len() + 1 <= 14 {
            old(v)@.push(c)
        } else {
            old(v)@.push(c).drop_first()
        },
        r == (old(v)@.len() + 1 > 14 && all_distinct(final(v)@)),
{
    v.push(c);
    if v.len() == 14 + 1 {
        let ghost pushed = v@;
        v.remove(0);
        proof {
            assert(v@ =~= pushed.drop_first());
        }
    } else {
        return false;
    }
    window_distinct(v)
}

/// The marker position of a line: the first `i` whose preceding fourteen
/// characters are pairwise distinct, or 0 when none exists.
pub fn check_line(line: &Vec<u8>) -> (r: usize)
    requires
        line@.len() < usize::MAX,
    ensures
        r != 0 ==> marker_at(line@, r as int) && forall|j: int| 14 <= j < r ==> !marker_at(
            line@,
            j,
        ),
        r == 0 ==> forall|j: int| 0 <= j <= line@.len() ==> !marker_at(line@, j),
{
    if line.len() < 14 {
        return 0;
    }
    let mut i: usize = 14;
    while i <= line.len()
        invariant
            line@.len() < usize::MAX,
            14 <= i <= line@.len() + 1,
            forall|j: int| 14 <= j < i ==> !marker_at(line@, j),
        decreases line@.len() + 1 - i,
    {
        let mut window: Vec<u8> = Vec::new();
        let mut k: usize = i - 14;
        proof {
            assert(line@.subrange(i - 14, i - 14) =~= Seq::<u8>::empty());
        }
        while k < i
            invariant
                14 <= i,
                i - 14 <= k <= i <= line@.len(),
                window@ == line@.subrange(i - 14, k as int),
            decreases i - k,
        {
            proof {
                assert(line@.subrange(i - 14, k + 1) =~= line@.subrange(i - 14, k as int).push(
                    line@[k as int],
                ));
            }
            window.push(line[k]);
            k += 1;
        }
        if window_distinct(&window) {
            return i;
        }
        i += 1;
    }
    0
}

} // verus!
