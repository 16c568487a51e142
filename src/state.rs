use rand::rngs::StdRng;
use vstd::arithmetic::power::{lemma_pow_increases, pow};
use vstd::prelude::*;

use crate::buckets::{count, sum};
use crate::direction::Direction;
use crate::grid::{cells, seq_max, Grid};
use crate::series::{floor_log, Series};
use crate::tile::{rank_bound, Tile};

verus! {

/// What one cell adds to the score: nothing below 3, and `3^(rank - 1)` for
/// a value of rank `rank` from there on.
pub open spec fn cell_score(v: u32) -> int {
    if v < 3 {
        0
    } else {
        pow(3, (Series::classic().rank_of(v) - 1) as nat)
    }
}

/// Sum of the cell scores of `s`.
pub open spec fn score_seq(s: Seq<u32>) -> int
    decreases s.len(),
{
    if s.len() == 0 {
        0
    } else {
        score_seq(s.drop_last()) + cell_score(s.last())
    }
}

/// Score of a board.
pub open spec fn score_of(m: [[u32; 4]; 4]) -> int {
    score_seq(cells(m))
}

/// The game: the board, the pending tile, whether the game is over, and the
/// board and tile from before the last shift.
pub struct State {
    pub grid: Grid,
    pub tile: Tile,
    pub game_over: bool,
    pub past_grid: Grid,
    pub past_tile: Tile,
}

impl State {
    /// The board and tile that `shift_back` restores.
    pub open spec fn past(self) -> (Grid, Tile) {
        (self.past_grid, self.past_tile)
    }

    /// `after` is what a shift of `self` in `dir` can leave: the old board and
    /// tile are kept for undo; the board and the game-over flag are what
    /// `Grid::shift` returns with the pending value; the tile moves on to the
    /// term of a rank no higher than `rank_bound` of the new largest value when
    /// it was placed, and stays otherwise.
    pub open spec fn shift_post(self, dir: Direction, after: State) -> bool {
        &&& after.past() == (self.grid, self.tile)
        &&& exists|placed: bool|
            {
                &&& #[trigger] self.grid.shift_result(dir, self.tile@, (after.grid, placed, after.game_over))
                &&& placed ==> exists|k: nat|
                    k <= rank_bound(seq_max(cells(after.grid.matrix))) && after.tile@ == Series::classic().term(k)
                &&& !placed ==> after.tile == self.tile
            }
    }

    /// `after` is `self` with the board and tile of `past` put back.
    pub open spec fn shift_back_post(self, after: State) -> bool {
        &&& after.grid == self.past().0
        &&& after.tile == self.past().1
        &&& after.game_over == self.game_over
        &&& after.past() == self.past()
    }

    /// A new game: a board built by `Grid::rand` from `base_values` and a
    /// fresh tile, both also kept as the undo snapshot.
    pub fn from_base_values(r: &mut StdRng, base_values: Vec<u32>) -> (s: State)
        requires
            0 < base_values@.len() <= u32::MAX,
            sum(base_values@) <= 16,
        ensures
            forall|k: int| 0 <= k < 16 ==> #[trigger] cells(s.grid.matrix)[k] < base_values@.len(),
            forall|c: int|
                0 <= c < base_values@.len() ==> #[trigger] count(cells(s.grid.matrix), c as u32)
                    >= base_values@[c],
            s.tile@ == 1 || s.tile@ == 2,
            !s.game_over,
            s.past() == (s.grid, s.tile),
    {
        let g = Grid::rand(r, base_values);
        let t = Tile::new(r);
        State { grid: g, tile: t, game_over: false, past_grid: g, past_tile: t }
    }

    /// Plays one move; see `shift_post`.
    pub fn shift(&mut self, r: &mut StdRng, direction: Direction)
        requires
            old(self).grid.move_fits(direction),
        ensures
            old(self).shift_post(direction, *final(self)),
    {
        let ghost before = *self;
        self.past_grid = self.grid;
        self.past_tile = self.tile;
        let new_tile = self.tile.current();
        let (new_grid, next_tile_inserted, game_over) = self.grid.shift(r, direction, new_tile);
        self.grid = new_grid;
        self.game_over = game_over;
        if next_tile_inserted {
            let max = self.grid.max();
            self.tile.next(r, max);
        }
        assert(before.grid.shift_result(
            direction,
            before.tile@,
            (self.grid, next_tile_inserted, self.game_over),
        ));
    }

    /// Puts back the board and tile from before the last shift.
    pub fn shift_back(&mut self)
        ensures
            old(self).shift_back_post(*final(self)),
    {
        self.grid = self.past_grid;
        self.tile = self.past_tile;
    }

    /// Sum of `cell_score` over the board.
    pub fn score(&self) -> (r: u64)
        ensures
            r == score_of(self.grid.matrix),
    {
        let series = Series::new(1, 2, 2);
        let ghost all = cells(self.grid.matrix);
        proof {
            lemma_pow_3_31();
        }
        let mut acc: u64 = 0;
        let mut k: usize = 0;
        while k < 16
            invariant
                series == Series::classic(),
                all == cells(self.grid.matrix),
                k <= 16,
                acc == score_seq(all.take(k as int)),
                acc <= k * pow(3, 31),
                pow(3, 31) == 617673396283947,
            decreases 16 - k,
        {
            assert(all.take(k + 1).drop_last() =~= all.take(k as int));
            let e = self.grid.matrix[k % 4][k / 4];
            if e >= 3 {
                let rank = series.n(e);
                proof {
                    lemma_rank_at_most_32(e);
                    lemma_pow_increases(3, (rank - 1) as nat, 31);
                }
                let p = pow3(rank - 1);
                acc = acc + p;
            }
            k = k + 1;
        }
        assert(all.take(16) =~= all);
        acc
    }
}

/// Undoing right after a shift gives back the board and the tile held
/// before the shift.
pub proof fn lemma_shift_back_undoes_shift(
    before: State,
    dir: Direction,
    shifted: State,
    undone: State,
)
    requires
        before.shift_post(dir, shifted),
        shifted.shift_back_post(undone),
    ensures
        undone.grid == before.grid,
        undone.tile == before.tile,
{
}

/// A board whose sixteen cells all hold the term of rank `i >= 2` of the
/// game's series scores `16 * 3^(i - 1)`.
pub proof fn lemma_uniform_board_score(g: Grid, i: nat)
    requires
        i >= 2,
        Series::classic().term_fits(i),
        forall|r: int, c: int| 0 <= r < 4 && 0 <= c < 4 ==> g.matrix[r][c] == Series::classic().term(i),
    ensures
        score_of(g.matrix) == 16 * pow(3, (i - 1) as nat),
{
    let s = Series::classic();
    s.lemma_rank_of_term(i);
    vstd::arithmetic::power::lemma_pow_positive(2, (i - 2) as nat);
    assert(s.term(i) == 3 * pow(2, (i - 2) as nat));
    assert(3 <= s.term(i) <= u32::MAX);
    let v = s.term(i) as u32;
    let all = cells(g.matrix);
    assert forall|k: int| 0 <= k < all.len() implies #[trigger] cell_score(all[k]) == pow(
        3,
        (i - 1) as nat,
    ) by {
        assert(all[k] == g.matrix[k % 4][k / 4]);
    }
    lemma_score_seq_const(all, pow(3, (i - 1) as nat));
}

proof fn lemma_score_seq_const(s: Seq<u32>, x: int)
    requires
        forall|k: int| 0 <= k < s.len() ==> #[trigger] cell_score(s[k]) == x,
    ensures
        score_seq(s) == s.len() * x,
    decreases s.len(),
{
    if s.len() > 0 {
        lemma_score_seq_const(s.drop_last(), x);
        assert(cell_score(s.last()) == x);
        assert((s.len() - 1) * x + x == s.len() * x) by (nonlinear_arith);
    }
}

proof fn lemma_pow_3_31()
    ensures
        pow(3, 31) == 617673396283947,
        pow(2, 31) == 2147483648,
{
    reveal_with_fuel(pow, 32);
}

/// `floor_log(q, m) < k` when `m < q^k`.
proof fn lemma_floor_log_lt(q: int, m: int, k: nat)
    requires
        q >= 2,
        k >= 1,
        0 <= m < pow(q, k),
    ensures
        floor_log(q, m) < k,
    decreases m,
{
    if m >= q {
        reveal(pow);
        if k == 1 {
            vstd::arithmetic::power::lemma_pow1(q);
            assert(false);
        }
        let p = pow(q, (k - 1) as nat);
        assert(pow(q, k) == q * p);
        assert(m / q < p && 0 <= m / q < m) by (nonlinear_arith)
            requires
                q >= 2,
                m >= q,
                m < q * p,
        ;
        lemma_floor_log_lt(q, m / q, (k - 1) as nat);
    }
}

/// Every value above the seeds has rank at most 32 in the game's series.
proof fn lemma_rank_at_most_32(v: u32)
    requires
        v >= 3,
    ensures
        Series::classic().rank_of(v) <= 32,
{
    lemma_pow_3_31();
    let m = v as int / 3;
    assert(m < 2147483648);
    lemma_floor_log_lt(2, m, 31);
}

/// `3^e` in a `u64`.
fn pow3(e: u32) -> (r: u64)
    requires
        e <= 31,
    ensures
        r == pow(3, e as nat),
{
    proof {
        lemma_pow_3_31();
    }
    let mut r: u64 = 1;
    let mut i: u32 = 0;
    proof {
        reveal(pow);
    }
    while i < e
        invariant
            i <= e <= 31,
            r == pow(3, i as nat),
            pow(3, 31) == 617673396283947,
        decreases e - i,
    {
        proof {
            reveal(pow);
            lemma_pow_increases(3, (i + 1) as nat, 31);
            assert(pow(3, (i + 1) as nat) == 3 * pow(3, i as nat));
        }
        r = r * 3;
        i = i + 1;
    }
    r
}

} // verus!
