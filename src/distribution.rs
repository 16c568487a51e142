use rand::rngs::StdRng;
use vstd::prelude::*;

use crate::random::uniform_below;

verus! {

/// Size of the uniform draw that a sample is read from.
pub const DRAW_RANGE: usize = 0x8000_0000;

/// The rank, counted from `j`, that the draw `u` stands for in a geometric
/// law of probability `num / den`, read off a mass of `rest`: the first
/// `rest * num / den` values are a success at rank `j`, and the rest of the
/// mass is split again the same way for rank `j + 1`. When a share rounds
/// down to nothing the tail ends at `j`.
pub open spec fn geometric_rank(num: nat, den: nat, rest: nat, u: nat, j: nat) -> nat
    decreases rest
    via geometric_rank_decreases
{
    if den == 0 || num > den {
        j
    } else {
        let cut = rest * num / den;
        if cut == 0 || u < cut {
            j
        } else {
            geometric_rank(num, den, (rest - cut) as nat, (u - cut) as nat, j + 1)
        }
    }
}

#[via_fn]
proof fn geometric_rank_decreases(num: nat, den: nat, rest: nat, u: nat, j: nat) {
    if den != 0 && num <= den {
        let cut = rest * num / den;
        if cut != 0 {
            assert(0 < cut <= rest) by (nonlinear_arith)
                requires
                    cut == rest * num / den,
                    cut != 0,
                    den > 0,
                    num <= den,
            ;
            assert(((rest - cut) as nat) < rest);
        }
    }
}

/// The geometric law with success probability `numerator / denominator`:
/// the rank, counted from 1, of the first success in a run of independent
/// trials.
#[derive(Debug, Clone, Copy)]
pub struct Distribution {
    numerator: u32,
    denominator: u32,
}

impl View for Distribution {
    type V = (u32, u32);

    /// The probability, as numerator and denominator.
    closed spec fn view(&self) -> (u32, u32) {
        (self.numerator, self.denominator)
    }
}

impl Distribution {
    #[verifier::type_invariant]
    spec fn inv(self) -> bool {
        0 < self.numerator <= self.denominator
    }

    /// The law with probability `numerator / denominator`, which lies in `(0, 1]`.
    pub fn new(numerator: u32, denominator: u32) -> (d: Distribution)
        requires
            0 < numerator <= denominator,
        ensures
            d@ == (numerator, denominator),
    {
        Distribution { numerator, denominator }
    }

    /// The probability, as numerator and denominator.
    pub fn p(&self) -> (r: (u32, u32))
        ensures
            r == self@,
    {
        (self.numerator, self.denominator)
    }

    /// The rank that the uniform draw `u` stands for.
    pub fn rank_of_draw(&self, u: usize) -> (k: u32)
        requires
            u < DRAW_RANGE,
        ensures
            k == geometric_rank(self@.0 as nat, self@.1 as nat, DRAW_RANGE as nat, u as nat, 1),
            k >= 1,
    {
        proof {
            use_type_invariant(self);
        }
        let num = self.numerator as u64;
        let den = self.denominator as u64;
        let mut rest: u64 = DRAW_RANGE as u64;
        let mut v: u64 = u as u64;
        let mut j: u32 = 1;
        loop
            invariant
                0 < num <= den,
                num == self@.0,
                den == self@.1,
                v < rest <= DRAW_RANGE,
                1 <= j,
                j + rest <= DRAW_RANGE + 1,
                geometric_rank(num as nat, den as nat, rest as nat, v as nat, j as nat) == geometric_rank(
                    num as nat,
                    den as nat,
                    DRAW_RANGE as nat,
                    u as nat,
                    1,
                ),
            decreases rest,
        {
            assert(rest * num <= rest * den && rest * num < 0x8000_0000_0000_0000) by (nonlinear_arith)
                requires
                    num <= den,
                    rest <= 0x8000_0000,
                    den <= u32::MAX,
            ;
            let cut = rest * num / den;
            assert(cut <= rest) by (nonlinear_arith)
                requires
                    cut as int == (rest as int * num as int) / den as int,
                    rest * num <= rest * den,
                    den > 0,
            ;
            if cut == 0 || v < cut {
                return j;
            }
            v = v - cut;
            rest = rest - cut;
            j = j + 1;
        }
    }

    /// A sample: the rank that one uniform draw below `DRAW_RANGE` stands for.
    pub fn sample(&self, r: &mut StdRng) -> (k: u32)
        ensures
            k >= 1,
            exists|u: nat|
                u < DRAW_RANGE && k == geometric_rank(self@.0 as nat, self@.1 as nat, DRAW_RANGE as nat, u, 1),
    {
        let u = uniform_below(r, DRAW_RANGE);
        self.rank_of_draw(u)
    }
}

} // verus!
