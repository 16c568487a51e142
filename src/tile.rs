use rand::rngs::StdRng;
use vstd::arithmetic::power::pow;
use vstd::prelude::*;

use crate::distribution::{geometric_rank, Distribution, DRAW_RANGE};
use crate::random::uniform_below;
use crate::series::{lemma_pow_nonneg, Series};

verus! {

/// Highest rank a new tile may take when the largest value on the board is
/// `max`: the rank of `max`, and at least 1.
pub open spec fn rank_bound(max: u32) -> nat {
    let m = Series::classic().rank_of(max);
    if m <= 1 {
        1
    } else {
        m
    }
}

/// A geometric sample `sampled`, counted from 1, moved to count from 0 and
/// capped at `max_rank`.
pub open spec fn capped_rank(max_rank: int, sampled: int) -> int {
    if sampled - 1 < max_rank {
        sampled - 1
    } else {
        max_rank
    }
}

/// `k` is a rank that `Tile::rank` can draw when the largest value on the
/// board is `max`: 0 or 1 while `max` has rank 0 or 1, and otherwise the
/// capped rank of a geometric sample of probability 1/2 read off some draw.
pub open spec fn rank_outcome(max: u32, k: u32) -> bool {
    let m = Series::classic().rank_of(max);
    &&& m <= 1 ==> k <= 1
    &&& m >= 2 ==> exists|u: nat|
        u < DRAW_RANGE && k == capped_rank(m as int, geometric_rank(1, 2, DRAW_RANGE as nat, u, 1) as int)
}

/// The value waiting to be placed by the next productive move.
#[derive(Debug, Clone, Copy)]
pub struct Tile {
    value: u32,
    series: Series,
    distribution: Distribution,
}

impl View for Tile {
    type V = u32;

    /// The pending value.
    closed spec fn view(&self) -> u32 {
        self.value
    }
}

impl Tile {
    #[verifier::type_invariant]
    spec fn inv(self) -> bool {
        &&& self.series == Series::classic()
        &&& self.distribution@ == (1u32, 2u32)
    }

    /// The seed that a uniform draw `k` of `{0, 1}` stands for.
    pub fn seed_of_draw(k: usize) -> (v: u32)
        requires
            k < 2,
        ensures
            v == k + 1,
    {
        k as u32 + 1
    }

    /// A tile holding one of the two seeds, 1 or 2, drawn uniformly.
    pub fn new(r: &mut StdRng) -> (t: Tile)
        ensures
            t@ == 1 || t@ == 2,
    {
        let k = uniform_below(r, 2);
        Tile {
            value: Self::seed_of_draw(k),
            series: Series::new(1, 2, 2),
            distribution: Distribution::new(1, 2),
        }
    }

    pub fn current(&self) -> (r: u32)
        ensures
            r == self@,
    {
        self.value
    }

    /// Draws the next value: the term of a rank drawn by `rank`.
    pub fn next(&mut self, r: &mut StdRng, max: u32) -> (v: u32)
        ensures
            final(self)@ == v,
            exists|k: u32| rank_outcome(max, k) && v == Series::classic().term(k as nat),
            exists|k: nat| k <= rank_bound(max) && v == Series::classic().term(k),
    {
        proof {
            use_type_invariant(&*self);
        }
        let rank = self.rank(r, max);
        proof {
            use_type_invariant(&*self);
            let s = Series::classic();
            if rank >= 2 {
                assert(max != 1 && max != 2);
                s.lemma_term_le_by_rank(rank as nat, max);
                let p = pow(2, (rank - 2) as nat);
                lemma_pow_nonneg(2, (rank - 2) as nat);
                assert(s.term(rank as nat) == 3 * p);
                assert(s.term_fits(rank as nat));
            }
        }
        self.value = self.series.u_n(rank);
        assert(rank_outcome(max, rank));
        self.value
    }

    /// The rank a geometric sample `sampled` stands for: the sample moved to
    /// count from 0, capped at `max_rank`.
    pub fn rank_from_sample(max_rank: u32, sampled: u32) -> (k: u32)
        requires
            sampled >= 1,
        ensures
            k == capped_rank(max_rank as int, sampled as int),
    {
        let k = sampled - 1;
        if k < max_rank {
            k
        } else {
            max_rank
        }
    }

    /// A rank no higher than `rank_bound(max)`: 0 or 1 uniformly while the
    /// board's largest value has rank 0 or 1, and otherwise a geometric
    /// sample of probability 1/2, moved to start at 0 and capped at the rank
    /// of `max`.
    pub fn rank(&mut self, r: &mut StdRng, max: u32) -> (k: u32)
        ensures
            *final(self) == *old(self),
            rank_outcome(max, k),
            k <= rank_bound(max),
    {
        proof {
            use_type_invariant(&*self);
        }
        let max_rank = self.series.n(max);
        if max_rank <= 1 {
            uniform_below(r, 2) as u32
        } else {
            let sampled_rank = self.distribution.sample(r);
            Self::rank_from_sample(max_rank, sampled_rank)
        }
    }
}

} // verus!
