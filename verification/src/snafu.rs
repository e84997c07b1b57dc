//! Balanced base-five numerals: digits worth 2, 1, 0, -1 and -2, written
//! `2`, `1`, `0`, `-` and `=`, most significant first.

use vstd::prelude::*;

verus! {

/// Powers of five.
pub open spec fn pow5(n: nat) -> int
    decreases n,
{
    if n == 0 {
        1
    } else {
        5 * pow5((n - 1) as nat)
    }
}

proof fn lemma_pow5_pos(n: nat)
    ensures
        pow5(n) >= 1,
    decreases n,
{
    if n > 0 {
        lemma_pow5_pos((n - 1) as nat);
    }
}

/// The worth of one numeral byte.
pub open spec fn snafu_digit(b: u8) -> int {
    if b == 48 {
        0
    } else if b == 49 {
        1
    } else if b == 50 {
        2
    } else if b == 45 {
        -1
    } else {
        -2
    }
}

/// A byte that is a balanced base-five numeral.
pub open spec fn is_snafu_digit(b: u8) -> bool {
    b == 48 || b == 49 || b == 50 || b == 45 || b == 61
}

/// A well-formed numeral text.
pub open spec fn valid_snafu(s: Seq<u8>) -> bool {
    s.len() >= 1 && forall|i: int| 0 <= i < s.len() ==> is_snafu_digit(#[trigger] s[i])
}

/// The value of a numeral text, most significant digit first.
pub open spec fn snafu_val(s: Seq<u8>) -> int
    decreases s.len(),
{
    if s.len() == 0 {
        0
    } else {
        snafu_val(s.drop_last()) * 5 + snafu_digit(s.last())
    }
}

/// The value of a numeral text read least significant digit first.
pub open spec fn snafu_val_lsb(s: Seq<u8>) -> int
    decreases s.len(),
{
    if s.len() == 0 {
        0
    } else {
        snafu_digit(s[0]) + 5 * snafu_val_lsb(s.subrange(1, s.len() as int))
    }
}

/// The two reading orders agree after reversal.
proof fn lemma_snafu_val_reverse(s: Seq<u8>)
    ensures
        snafu_val(s.reverse()) == snafu_val_lsb(s),
    decreases s.len(),
{
    if s.len() > 0 {
        let tail = s.subrange(1, s.len() as int);
        lemma_snafu_val_reverse(tail);
        assert(s.reverse().drop_last() =~= tail.reverse());
        assert(s.reverse().last() == s[0]);
    }
}

/// Appending a low digit adds its worth at the next power.
proof fn lemma_snafu_val_lsb_push(s: Seq<u8>, b: u8)
    ensures
        snafu_val_lsb(s.push(b)) == snafu_val_lsb(s) + snafu_digit(b) * pow5(s.len()),
    decreases s.len(),
{
    if s.len() == 0 {
        assert(s.push(b)[0] == b);
        assert(s.push(b).subrange(1, s.push(b).len() as int) =~= Seq::<u8>::empty());
        assert(snafu_val_lsb(s.push(b)) == snafu_digit(b) + 5 * snafu_val_lsb(
            s.push(b).subrange(1, s.push(b).len() as int),
        ));
        assert(pow5(s.len()) == 1);
    } else {
        let tail = s.subrange(1, s.len() as int);
        lemma_snafu_val_lsb_push(tail, b);
        assert(s.push(b).subrange(1, s.push(b).len() as int) =~= tail.push(b));
        assert(s.push(b)[0] == s[0]);
        assert(snafu_val_lsb(s.push(b)) == snafu_digit(s[0]) + 5 * snafu_val_lsb(tail.push(b)));
        assert(pow5(s.len()) == 5 * pow5(tail.len()));
        assert(5 * (snafu_val_lsb(tail) + snafu_digit(b) * pow5(tail.len())) == 5
            * snafu_val_lsb(tail) + snafu_digit(b) * pow5(s.len())) by (nonlinear_arith)
            requires
                pow5(s.len()) == 5 * pow5(tail.len()),
        ;
        assert(snafu_val_lsb(s) == snafu_digit(s[0]) + 5 * snafu_val_lsb(tail));
    }
}

/// A numeral's value grows away from zero as digits are appended: once a
/// prefix is positive the whole text's value is at least the prefix's, and
/// once negative at most the prefix's.
proof fn lemma_snafu_prefix_directed(s: Seq<u8>, k: int)
    requires
        0 <= k <= s.len(),
        forall|i: int| 0 <= i < s.len() ==> is_snafu_digit(#[trigger] s[i]),
    ensures
        snafu_val(s.subrange(0, k)) >= 1 ==> snafu_val(s) >= snafu_val(s.subrange(0, k)),
        snafu_val(s.subrange(0, k)) <= -1 ==> snafu_val(s) <= snafu_val(s.subrange(0, k)),
    decreases s.len() - k,
{
    if k == s.len() {
        assert(s.subrange(0, k) =~= s);
    } else {
        lemma_snafu_prefix_directed(s, k + 1);
        let pre = s.subrange(0, k);
        let cur = s.subrange(0, k + 1);
        assert(cur.drop_last() =~= pre);
        assert(cur.last() == s[k]);
        assert(-2 <= snafu_digit(s[k]) <= 2);
    }
}

/// Read a numeral text.  Empty texts, stray bytes, and values outside the
/// representable range are malformed.
pub fn from_snafu(snafu: &Vec<u8>) -> (r: Option<i64>)
    ensures
        match r {
            Option::Some(v) => valid_snafu(snafu@) && v == snafu_val(snafu@),
            Option::None => !valid_snafu(snafu@) || snafu_val(snafu@) > i64::MAX || snafu_val(
                snafu@,
            ) < i64::MIN,
        },
{
    if snafu.len() == 0 {
        return None;
    }
    let mut sum: i128 = 0;
    let mut i: usize = 0;
    proof {
        assert(snafu@.subrange(0, 0) =~= Seq::<u8>::empty());
    }
    while i < snafu.len()
        invariant
            i <= snafu@.len(),
            1 <= snafu@.len(),
            forall|k: int| 0 <= k < i ==> is_snafu_digit(#[trigger] snafu@[k]),
            sum == snafu_val(snafu@.subrange(0, i as int)),
            i64::MIN <= sum <= i64::MAX,
        decreases snafu@.len() - i,
    {
        let b = snafu[i];
        if !(b == 48 || b == 49 || b == 50 || b == 45 || b == 61) {
            return None;
        }
        let d: i128 = if b == 48 {
            0
        } else if b == 49 {
            1
        } else if b == 50 {
            2
        } else if b == 45 {
            -1
        } else {
            -2
        };
        let next = sum * 5 + d;
        proof {
            let pre = snafu@.subrange(0, i as int);
            let cur = snafu@.subrange(0, i + 1);
            assert(cur.drop_last() =~= pre);
            assert(cur.last() == snafu@[i as int]);
        }
        if next > i64::MAX as i128 || next < i64::MIN as i128 {
            // the value so far is already out of range; appending digits
            // only carries it further from zero
            proof {
                if valid_snafu(snafu@) {
                    lemma_snafu_prefix_directed(snafu@, i + 1);
                }
            }
            return None;
        }
        sum = next;
        i += 1;
    }
    proof {
        assert(snafu@.subrange(0, snafu@.len() as int) =~= snafu@);
    }
    Some(sum as i64)
}

/// Write a number as a numeral text: repeated division by five, digits
/// above two borrowing from the next power.  Zero is written `0`.
pub fn to_snafu(num: i64) -> (r: Vec<u8>)
    requires
        0 <= num,
    ensures
        valid_snafu(r@),
        snafu_val(r@) == num,
        num > 0 ==> r@[0] != 48,
{
    if num == 0 {
        let mut out: Vec<u8> = Vec::new();
        out.push(48);
        proof {
            assert(out@.drop_last() =~= Seq::<u8>::empty());
            assert(snafu_val(Seq::<u8>::empty()) == 0);
            assert(out@.last() == 48);
            assert(out@[0] == 48);
        }
        return out;
    }
    let mut digits: Vec<u8> = Vec::new();
    let mut n: i64 = num;
    proof {
        lemma_pow5_pos(0);
        assert(pow5(0) == 1);
        assert(digits@ =~= Seq::<u8>::empty());
        assert(snafu_val_lsb(digits@) == 0);
    }
    while n > 0
        invariant
            0 <= n <= num,
            num == snafu_val_lsb(digits@) + n * pow5(digits@.len()),
            forall|k: int| 0 <= k < digits@.len() ==> is_snafu_digit(#[trigger] digits@[k]),
            n == 0 ==> digits@.len() >= 1 && digits@.last() != 48,
        decreases n,
    {
        let ghost pre = digits@;
        let ghost p = pow5(pre.len());
        let ghost n0 = n as int;
        let d = n % 5;
        let byte: u8 = if d == 0 {
            48
        } else if d == 1 {
            49
        } else if d == 2 {
            50
        } else if d == 3 {
            61
        } else {
            45
        };
        proof {
            lemma_pow5_pos(pre.len());
        }
        if d <= 2 {
            digits.push(byte);
            n = n / 5;
            proof {
                lemma_snafu_val_lsb_push(pre, byte);
                assert(pow5(pre.len() + 1) == 5 * pow5(pre.len()));
                vstd::arithmetic::div_mod::lemma_fundamental_div_mod(n0, 5);
                assert(n0 == 5 * (n0 / 5) + n0 % 5);
                assert(n0 * p == (n0 / 5) * (5 * p) + (n0 % 5) * p) by (nonlinear_arith)
                    requires
                        n0 == 5 * (n0 / 5) + n0 % 5,
                ;
                assert(snafu_digit(byte) == n0 % 5);
                assert(n == n0 / 5);
                assert(n * pow5(digits@.len()) == (n0 / 5) * (5 * p));
                assert(num == snafu_val_lsb(digits@) + n * pow5(digits@.len()));
            }
        } else {
            // the digit borrows: 3 becomes = and 4 becomes - at this power
            digits.push(byte);
            n = n / 5 + 1;
            proof {
                lemma_snafu_val_lsb_push(pre, byte);
                assert(pow5(pre.len() + 1) == 5 * pow5(pre.len()));
                vstd::arithmetic::div_mod::lemma_fundamental_div_mod(n0, 5);
                assert(n0 == 5 * (n0 / 5) + n0 % 5);
                assert(n0 * p == (n0 / 5) * (5 * p) + (n0 % 5) * p) by (nonlinear_arith)
                    requires
                        n0 == 5 * (n0 / 5) + n0 % 5,
                ;
                assert(snafu_digit(byte) == n0 % 5 - 5);
                assert(n == n0 / 5 + 1);
                assert(n * (5 * p) == (n0 / 5) * (5 * p) + 5 * p) by (nonlinear_arith)
                    requires
                        n == n0 / 5 + 1,
                ;
                assert(n * pow5(digits@.len()) == n * (5 * p));
                assert(snafu_digit(byte) == n0 % 5 - 5);
                assert((n0 % 5 - 5) * p == (n0 % 5) * p - 5 * p) by (nonlinear_arith);
                assert(num == snafu_val_lsb(digits@) + n * pow5(digits@.len()));
            }
        }
    }
    // the digits came out least significant first
    let mut out: Vec<u8> = Vec::new();
    let len = digits.len();
    let mut k: usize = 0;
    while k < len
        invariant
            k <= len == digits@.len(),
            out@.len() == k,
            forall|k2: int| 0 <= k2 < k ==> out@[k2] == digits@[len - 1 - k2],
        decreases len - k,
    {
        out.push(digits[len - 1 - k]);
        k += 1;
    }
    proof {
        assert(num == snafu_val_lsb(digits@));
        assert(out@ =~= digits@.reverse());
        lemma_snafu_val_reverse(digits@);
        assert(snafu_val(out@) == num);
        assert forall|i: int| 0 <= i < out@.len() implies is_snafu_digit(#[trigger] out@[i]) by {
            assert(out@[i] == digits@[len - 1 - i]);
        }
    }
    out
}

} // verus!
