//! The score by which the search prefers one child of a node to another, in whole
//! millionths and without floating point.

use vstd::prelude::*;

verus! {

/// The scale of the logarithms handed to the search: a table entry holds the natural
/// logarithm of its index times this number, rounded down.
pub const LN_SCALE: u64 = 0x1_0000_0000;

/// The scale of a score: a win rate of one scores this much.
pub const SCORE_SCALE: u64 = 1_000_000;

/// The square of the exploration constant 0.7, at the scale of a squared score.
pub const EXPLORATION_SQUARED: u64 = 490_000_000_000;

/// `root` is the square root of `x`, rounded down.
pub open spec fn is_sqrt(x: nat, root: nat) -> bool {
    root * root <= x < (root + 1) * (root + 1)
}

/// The square root of `x`, rounded down.
pub open spec fn sqrt_of(x: nat) -> nat {
    choose|root: nat| is_sqrt(x, root)
}

/// The score of a child that won `wins` of its `plays` simulations, under a parent whose
/// number of simulations has the scaled logarithm `ln_visits`: the win rate, plus 0.7 times
/// the square root of the parent's logarithm over the child's simulations. Both terms are
/// in millionths, each rounded down.
pub open spec fn uct_key(wins: nat, plays: nat, ln_visits: nat) -> nat {
    wins * SCORE_SCALE as nat / plays + sqrt_of(
        EXPLORATION_SQUARED as nat * ln_visits / (plays * LN_SCALE as nat),
    )
}

/// Squares grow with their roots.
pub proof fn lemma_square_grows(a: nat, b: nat)
    requires
        a <= b,
    ensures
        a * a <= b * b,
{
    assert(a * a <= b * b) by (nonlinear_arith)
        requires
            a <= b,
    ;
}

/// A number has one square root rounded down.
pub proof fn lemma_sqrt_unique(x: nat, root: nat)
    requires
        is_sqrt(x, root),
    ensures
        sqrt_of(x) == root,
{
    let other = sqrt_of(x);
    if other < root {
        lemma_square_grows(other + 1, root);
    } else if other > root {
        lemma_square_grows(root + 1, other);
    }
}

/// The square root of `x`, rounded down.
pub fn integer_sqrt(x: u128) -> (root: u128)
    ensures
        root == sqrt_of(x as nat),
        is_sqrt(x as nat, root as nat),
{
    let mut lo: u128 = 0;
    let mut hi: u128 = 0x1_0000_0000_0000_0000;
    while hi - lo > 1
        invariant
            lo < hi <= 0x1_0000_0000_0000_0000,
            lo * lo <= x < hi * hi,
        decreases hi - lo,
    {
        let mid = lo + (hi - lo) / 2;
        assert(mid * mid <= 0xffff_ffff_ffff_ffff * 0xffff_ffff_ffff_ffff) by (nonlinear_arith)
            requires
                mid <= 0xffff_ffff_ffff_ffff,
        ;
        if mid * mid <= x {
            lo = mid;
        } else {
            hi = mid;
        }
    }
    proof {
        lemma_sqrt_unique(x as nat, lo as nat);
    }
    lo
}

/// The score of a child, given its wins and simulations and the scaled logarithm of its
/// parent's simulations.
pub fn uct_score(wins: u64, plays: u64, ln_visits: u64) -> (score: u128)
    requires
        plays >= 1,
    ensures
        score == uct_key(wins as nat, plays as nat, ln_visits as nat),
{
    let rate: u128 = (wins as u128 * 1_000_000u128) / (plays as u128);
    let scaled_plays: u128 = plays as u128 * 0x1_0000_0000u128;
    let spread: u128 = (490_000_000_000u128 * ln_visits as u128) / scaled_plays;
    let bonus = integer_sqrt(spread);
    proof {
        let total = wins as int * 1_000_000;
        assert(total / (plays as int) <= total) by (nonlinear_arith)
            requires
                total >= 0,
                plays >= 1,
        ;
        assert(bonus <= 0xffff_ffff_ffff_ffff) by (nonlinear_arith)
            requires
                bonus * bonus <= spread,
                spread <= 0xffff_ffff_ffff_ffff_ffff_ffff_ffff_ffff,
        ;
    }
    rate + bonus
}

} // verus!
