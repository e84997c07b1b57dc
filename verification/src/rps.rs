//! Rock-paper-scissors scoring: the opponent plays `A`/`B`/`C`, the
//! second column names the required outcome (`X` lose, `Y` draw, `Z`
//! win), and a round scores the shape played plus the outcome.

use vstd::prelude::*;

verus! {

/// The shape that loses against `shape`.
pub open spec fn losing_shape(shape: u8) -> u8 {
    if shape == 65 {
        67  // rock beats scissors
    } else if shape == 66 {
        65  // paper beats rock
    } else {
        66  // scissors beat paper
    }
}

/// The shape that wins against `shape`.
pub open spec fn winning_shape(shape: u8) -> u8 {
    if shape == 65 {
        66
    } else if shape == 66 {
        67
    } else {
        65
    }
}

/// The shape to play for the asked outcome.
pub open spec fn spec_decrypt(opponent: u8, you: u8) -> u8 {
    if you == 88 {
        losing_shape(opponent)
    } else if you == 89 {
        opponent
    } else {
        winning_shape(opponent)
    }
}

/// Points for the shape played.
pub open spec fn shape_value(shape: u8) -> int {
    if shape == 65 {
        1
    } else if shape == 66 {
        2
    } else {
        3
    }
}

/// Points for one round: the shape's value plus 3 for a draw or 6 for a
/// win.
pub open spec fn spec_round_score(opponent: u8, you: u8) -> int {
    let played = spec_decrypt(opponent, you);
    shape_value(played) + if played == opponent {
        3int
    } else if played == winning_shape(opponent) {
        6int
    } else {
        0int
    }
}

/// The shape to play, from the opponent's shape and the asked outcome.
pub fn decrypt(opponent: u8, you: u8) -> (r: u8)
    requires
        opponent == 65 || opponent == 66 || opponent == 67,
        you == 88 || you == 89 || you == 90,
    ensures
        r == spec_decrypt(opponent, you),
{
    if you == 88 {
        if opponent == 65 {
            67
        } else if opponent == 66 {
            65
        } else {
            66
        }
    } else if you == 89 {
        opponent
    } else {
        if opponent == 65 {
            66
        } else if opponent == 66 {
            67
        } else {
            65
        }
    }
}

/// Score one round.
pub fn play_round(opponent: u8, you: u8) -> (r: u32)
    requires
        opponent == 65 || opponent == 66 || opponent == 67,
        you == 88 || you == 89 || you == 90,
    ensures
        r == spec_round_score(opponent, you),
{
    let played = decrypt(opponent, you);
    let value: u32 = if played == 65 {
        1
    } else if played == 66 {
        2
    } else {
        3
    };
    if played == opponent {
        3 + value
    } else if (played == 66 && opponent == 65) || (played == 67 && opponent == 66) || (played == 65
        && opponent == 67) {
        6 + value
    } else {
        value
    }
}

/// Total score of a batch of rounds, each line holding the opponent's
/// shape, a blank, and the asked outcome.
pub open spec fn spec_total_score(lines: Seq<Seq<u8>>) -> int
    decreases lines.len(),
{
    if lines.len() == 0 {
        0
    } else {
        spec_total_score(lines.drop_last()) + if valid_round_line(lines.last()) {
            spec_round_score(lines.last()[0], lines.last()[2])
        } else {
            0
        }
    }
}

/// A parseable round line.
pub open spec fn valid_round_line(line: Seq<u8>) -> bool {
    line.len() >= 3 && (line[0] == 65 || line[0] == 66 || line[0] == 67) && (line[2] == 88
        || line[2] == 89 || line[2] == 90)
}

/// Sum the scores of all well-formed round lines.
pub fn total_score(lines: &Vec<Vec<u8>>) -> (r: u64)
    requires
        lines@.len() <= u32::MAX,
    ensures
        r == spec_total_score(lines.deep_view()),
{
    let ghost lv = lines.deep_view();
    let mut sum: u64 = 0;
    let mut i: usize = 0;
    proof {
        assert(lv.subrange(0, 0) =~= Seq::<Seq<u8>>::empty());
    }
    while i < lines.len()
        invariant
            i <= lv.len(),
            lv == lines.deep_view(),
            lv.len() == lines@.len() <= u32::MAX,
            sum == spec_total_score(lv.subrange(0, i as int)),
            sum <= i * 9,
        decreases lv.len() - i,
    {
        proof {
            assert(lv[i as int] == lines@[i as int]@);
            assert(lv.subrange(0, i + 1).drop_last() =~= lv.subrange(0, i as int));
            assert(lv.subrange(0, i + 1).last() == lv[i as int]);
            assert(i * 9 + 9 <= (i + 1) * 9) by (nonlinear_arith);
            assert((i + 1) * 9 <= 0x100000000u64 * 9) by (nonlinear_arith)
                requires
                    i + 1 <= 0x100000000u64,
            ;
        }
        let line = &lines[i];
        if line.len() >= 3 {
            let opponent = line[0];
            let you = line[2];
            if (opponent == 65 || opponent == 66 || opponent == 67) && (you == 88 || you == 89
                || you == 90) {
                let round = play_round(opponent, you);
                sum = sum + round as u64;
            }
        }
        i += 1;
    }
    proof {
        assert(lv.subrange(0, lv.len() as int) =~= lv);
    }
    sum
}

} // verus!
