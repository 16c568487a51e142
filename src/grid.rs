use rand::rngs::StdRng;
use vstd::prelude::*;

use crate::buckets::{count, sum, Buckets};
use crate::dimension::Dimension;
use crate::direction::Direction;
use crate::matrix_any::{accepts, refuses, MatrixAny};
use crate::line::{
    line_combinable, line_combines, line_mutated, oriented, shift_line_spec, combine,
    first_event, first_event_from, merge_fits, lemma_oriented_involution,
    lemma_shift_line_len, lemma_blocked_line_unchanged,
    first_merge_fits, tail_nonzero, zeros_before, zero_count, nth_zero, lemma_nth_zero_unique,
    lemma_nth_zero_exists, lemma_zero_count_positive,
};
use crate::random::uniform_below;

verus! {

/// Line `i` of the board in `dim`: row `i` read left to right, or column `i`
/// read top to bottom.
pub open spec fn line_of(m: [[u32; 4]; 4], i: int, dim: Dimension) -> Seq<u32> {
    Seq::new(
        4,
        |k: int|
            if dim == Dimension::Row {
                m[i][k]
            } else {
                m[k][i]
            },
    )
}

/// Index of the line in `dim` that holds cell `(r, c)`.
pub open spec fn line_index(dim: Dimension, r: int, c: int) -> int {
    if dim == Dimension::Col {
        c
    } else {
        r
    }
}

/// Position of cell `(r, c)` within its line in `dim`.
pub open spec fn line_pos(dim: Dimension, r: int, c: int) -> int {
    if dim == Dimension::Col {
        r
    } else {
        c
    }
}

/// Line `i` of a move, read from the edge the move pushes toward.
pub open spec fn move_line(m: [[u32; 4]; 4], dir: Direction, i: int) -> Seq<u32> {
    oriented(line_of(m, i, dir.spec_dimension()), dir.spec_reverse_needed())
}

/// One of the lines before line `i` merges, so the tile is already placed.
pub open spec fn placed_before(m: [[u32; 4]; 4], dir: Direction, i: int) -> bool
    decreases i,
{
    if i <= 0 {
        false
    } else {
        placed_before(m, dir, i - 1) || line_combines(move_line(m, dir, i - 1))
    }
}

/// One of the lines before line `i` changes under the move.
pub open spec fn mutated_before(m: [[u32; 4]; 4], dir: Direction, i: int) -> bool
    decreases i,
{
    if i <= 0 {
        false
    } else {
        mutated_before(m, dir, i - 1) || line_mutated(move_line(m, dir, i - 1))
    }
}

/// Line `i` after the move, read in board order again.
pub open spec fn pass_line(m: [[u32; 4]; 4], dir: Direction, tile: u32, i: int) -> Seq<u32> {
    oriented(
        shift_line_spec(move_line(m, dir, i), tile, placed_before(m, dir, i)).0,
        dir.spec_reverse_needed(),
    )
}

/// Cell `(r, c)` once every line has been shifted, before any forced
/// insertion.
pub open spec fn pass_cell(m: [[u32; 4]; 4], dir: Direction, tile: u32, r: int, c: int) -> u32 {
    pass_line(m, dir, tile, line_index(dir.spec_dimension(), r, c))[line_pos(
        dir.spec_dimension(),
        r,
        c,
    )]
}

/// Cell `(r, c)` lies on the edge that the move vacates.
pub open spec fn on_edge(dir: Direction, r: int, c: int) -> bool {
    line_pos(dir.spec_dimension(), r, c) == dir.spec_index()
}

/// The sixteen cells in column order: down the first column, then the next.
pub open spec fn cells(m: [[u32; 4]; 4]) -> Seq<u32> {
    Seq::new(16, |k: int| m[k % 4][k / 4])
}

/// Largest value of `s`, 0 when it is empty.
pub open spec fn seq_max(s: Seq<u32>) -> u32
    decreases s.len(),
{
    if s.len() == 0 {
        0
    } else if s.last() > seq_max(s.drop_last()) {
        s.last()
    } else {
        seq_max(s.drop_last())
    }
}

/// No cell is empty and no row or column holds a pair that can merge.
pub open spec fn terminal(m: [[u32; 4]; 4]) -> bool {
    &&& forall|r: int, c: int| 0 <= r < 4 && 0 <= c < 4 ==> m[r][c] != 0
    &&& forall|i: int|
        0 <= i < 4 ==> !line_combinable(#[trigger] line_of(m, i, Dimension::Row))
            && !line_combinable(line_of(m, i, Dimension::Col))
}

/// On a terminal board every line of every move is left as it is.
proof fn lemma_terminal_lines_unchanged(m: [[u32; 4]; 4], dir: Direction, tile: u32, i: int)
    requires
        terminal(m),
        0 <= i < 4,
    ensures
        !line_mutated(move_line(m, dir, i)),
        !line_combines(move_line(m, dir, i)),
        pass_line(m, dir, tile, i) == line_of(m, i, dir.spec_dimension()),
{
    let dim = dir.spec_dimension();
    let line = line_of(m, i, dim);
    assert(!line_combinable(line_of(m, i, Dimension::Row)));
    assert(!line_combinable(line_of(m, i, Dimension::Col)));
    assert forall|k: int| 0 <= k < line.len() implies line[k] != 0 by {
        if dim == Dimension::Row {
            assert(m[i][k] != 0);
        } else {
            assert(m[k][i] != 0);
        }
    }
    let ins = placed_before(m, dir, i);
    lemma_blocked_line_unchanged(line, tile, ins);
    lemma_oriented_involution(line, dir.spec_reverse_needed());
}

/// A shift on a terminal board leaves the board as it was, places no tile,
/// and reports the game as over, whatever the direction.
pub proof fn lemma_terminal_shift_is_noop(g: Grid, dir: Direction, tile: u32, res: (Grid, bool, bool))
    requires
        terminal(g.matrix),
        g.shift_result(dir, tile, res),
    ensures
        res.0 == g,
        !res.1,
        res.2,
{
    let m = g.matrix;
    lemma_terminal_lines_unchanged(m, dir, tile, 0);
    lemma_terminal_lines_unchanged(m, dir, tile, 1);
    lemma_terminal_lines_unchanged(m, dir, tile, 2);
    lemma_terminal_lines_unchanged(m, dir, tile, 3);
    assert(!placed_before(m, dir, 0));
    assert(!placed_before(m, dir, 1));
    assert(!placed_before(m, dir, 2));
    assert(!placed_before(m, dir, 3));
    assert(!placed_before(m, dir, 4));
    assert(!mutated_before(m, dir, 0));
    assert(!mutated_before(m, dir, 1));
    assert(!mutated_before(m, dir, 2));
    assert(!mutated_before(m, dir, 3));
    assert(!mutated_before(m, dir, 4));
    assert forall|r: int, c: int| 0 <= r < 4 && 0 <= c < 4 implies #[trigger] res.0.matrix[r][c] == m[r][c] by {
        let dim = dir.spec_dimension();
        assert(pass_line(m, dir, tile, line_index(dim, r, c)) == line_of(m, line_index(dim, r, c), dim));
    }
    assert forall|r: int| 0 <= r < 4 implies #[trigger] res.0.matrix[r] =~= m[r] by {
        assert(res.0.matrix[r][0] == m[r][0]);
    }
    assert(res.0.matrix =~= m);
}

/// A line of the move with no empty cell and no pair that can merge comes out
/// of a shift as it was: it does not change, and the forced tile only goes to
/// an empty cell.
pub proof fn lemma_blocked_line_kept(g: Grid, dir: Direction, tile: u32, res: (Grid, bool, bool), k: int)
    requires
        g.shift_result(dir, tile, res),
        0 <= k < 4,
        forall|p: int| 0 <= p < 4 ==> #[trigger] line_of(g.matrix, k, dir.spec_dimension())[p] != 0,
        !line_combinable(line_of(g.matrix, k, dir.spec_dimension())),
    ensures
        line_of(res.0.matrix, k, dir.spec_dimension()) == line_of(g.matrix, k, dir.spec_dimension()),
{
    let m = g.matrix;
    let dim = dir.spec_dimension();
    let line = line_of(m, k, dim);
    lemma_blocked_line_unchanged(line, tile, placed_before(m, dir, k));
    lemma_oriented_involution(line, dir.spec_reverse_needed());
    assert(pass_line(m, dir, tile, k) == line);
    assert forall|p: int| 0 <= p < 4 implies #[trigger] line_of(res.0.matrix, k, dim)[p] == line[p] by {
        let r = if dim == Dimension::Row { k } else { p };
        let c = if dim == Dimension::Row { p } else { k };
        assert(line_index(dim, r, c) == k && line_pos(dim, r, c) == p);
        assert(pass_cell(m, dir, tile, r, c) == line[p]);
        assert(res.0.matrix[r][c] == pass_cell(m, dir, tile, r, c));
    }
    assert(line_of(res.0.matrix, k, dim) =~= line);
}

/// A move under which no line changes leaves the board exactly as it was and
/// places no tile.
pub proof fn lemma_still_move_is_noop(g: Grid, dir: Direction, tile: u32, res: (Grid, bool, bool))
    requires
        g.shift_result(dir, tile, res),
        forall|i: int| 0 <= i < 4 ==> !line_mutated(#[trigger] move_line(g.matrix, dir, i)),
    ensures
        res.0 == g,
        !res.1,
{
    let m = g.matrix;
    assert(!line_mutated(move_line(m, dir, 0)));
    assert(!line_mutated(move_line(m, dir, 1)));
    assert(!line_mutated(move_line(m, dir, 2)));
    assert(!line_mutated(move_line(m, dir, 3)));
    assert(!placed_before(m, dir, 0));
    assert(!placed_before(m, dir, 1));
    assert(!placed_before(m, dir, 2));
    assert(!placed_before(m, dir, 3));
    assert(!placed_before(m, dir, 4));
    assert(!mutated_before(m, dir, 0));
    assert(!mutated_before(m, dir, 1));
    assert(!mutated_before(m, dir, 2));
    assert(!mutated_before(m, dir, 3));
    assert(!mutated_before(m, dir, 4));
    assert forall|r: int, c: int| 0 <= r < 4 && 0 <= c < 4 implies #[trigger] res.0.matrix[r][c] == m[r][c] by {
        let dim = dir.spec_dimension();
        let i = line_index(dim, r, c);
        lemma_oriented_involution(line_of(m, i, dim), dir.spec_reverse_needed());
        assert(pass_line(m, dir, tile, i) == line_of(m, i, dim));
    }
    assert forall|r: int| 0 <= r < 4 implies #[trigger] res.0.matrix[r] =~= m[r] by {
        assert(res.0.matrix[r][0] == m[r][0]);
    }
    assert(res.0.matrix =~= m);
}

/// The 4×4 board, row by row; 0 is an empty cell.
#[derive(Debug, Clone, Copy, PartialEq, Eq)]
pub struct Grid {
    pub matrix: [[u32; 4]; 4],
}

impl Grid {
    /// No line merges into a value beyond `u32` when the board moves in `dir`.
    pub open spec fn move_fits(self, dir: Direction) -> bool {
        forall|i: int| 0 <= i < 4 ==> first_merge_fits(#[trigger] move_line(self.matrix, dir, i))
    }

    /// What a shift of `self` in `dir` with pending value `tile` returns.
    ///
    /// Every line is shifted toward the edge of the move (`pass_cell`), and the
    /// first line that merges takes the tile. When no line merged but some line
    /// changed, the tile replaces one empty cell of the vacated edge, if there
    /// is one. The second flag tells whether the tile was placed; the third is
    /// set when it was not and the board that comes out is terminal.
    pub open spec fn shift_result(self, dir: Direction, tile: u32, res: (Grid, bool, bool)) -> bool {
        let m = self.matrix;
        let by_merge = placed_before(m, dir, 4);
        let moved = mutated_before(m, dir, 4);
        let room = exists|r: int, c: int|
            0 <= r < 4 && 0 <= c < 4 && on_edge(dir, r, c) && #[trigger] pass_cell(m, dir, tile, r, c)
                == 0;
        let forced = !by_merge && moved && room;
        &&& res.1 == (by_merge || forced)
        &&& !forced ==> forall|r: int, c: int|
            0 <= r < 4 && 0 <= c < 4 ==> #[trigger] res.0.matrix[r][c] == pass_cell(m, dir, tile, r, c)
        &&& forced ==> exists|r0: int, c0: int|
            0 <= r0 < 4 && 0 <= c0 < 4 && on_edge(dir, r0, c0) && #[trigger] pass_cell(m, dir, tile, r0, c0) == 0
                && res.0.matrix[r0][c0] == tile && forall|r: int, c: int|
                0 <= r < 4 && 0 <= c < 4 && (r != r0 || c != c0) ==> #[trigger] res.0.matrix[r][c]
                    == pass_cell(m, dir, tile, r, c)
        &&& res.2 == (!res.1 && terminal(res.0.matrix))
    }

    /// The merge of `a` and `b`, if they merge.
    pub fn combiner(h1: u32, h2: u32) -> (r: Option<u32>)
        requires
            merge_fits(h1, h2),
        ensures
            r == combine(h1, h2),
    {
        if h1 == h2 && h1 > 2 {
            Some(h1 * 2)
        } else if h1 < 3 && h2 < 3 && h1 + h2 == 3 {
            Some(h1 + h2)
        } else {
            None
        }
    }

    /// Whether the pair `a`, `b` merges, without computing the merge.
    fn merges(h1: u32, h2: u32) -> (r: bool)
        ensures
            r == (combine(h1, h2) is Some),
    {
        (h1 == h2 && h1 > 2) || (h1 < 3 && h2 < 3 && h1 + h2 == 3)
    }

    /// Whether some adjacent pair of the line can merge.
    pub fn combinable(elements: &[u32]) -> (r: bool)
        ensures
            r == line_combinable(elements@),
    {
        let n = elements.len();
        let mut k: usize = 0;
        while n - k > 1
            invariant
                n == elements@.len(),
                k <= n,
                forall|t: int|
                    0 <= t < k && t < n - 1 ==> !(#[trigger] combine(elements@[t], elements@[t + 1]) is Some),
            decreases n - k,
        {
            if Self::merges(elements[k], elements[k + 1]) {
                return true;
            }
            k = k + 1;
        }
        false
    }

    /// Whether the first change of the line, if it is a merge, fits in a `u32`.
    fn first_merge_fits(elements: &[u32]) -> (r: bool)
        ensures
            r == first_merge_fits(elements@),
    {
        let ghost s = elements@;
        let n = elements.len();
        let mut k: usize = 0;
        while n - k > 1
            invariant
                n == s.len(),
                s == elements@,
                k <= n,
                first_event(s) == first_event_from(s, k as int),
            decreases n - k,
        {
            if elements[k] == 0 {
                return true;
            }
            if Self::merges(elements[k], elements[k + 1]) {
                return elements[k] != elements[k + 1] || elements[k] <= u32::MAX / 2;
            }
            k = k + 1;
        }
        true
    }

    /// Whether no merge of a move in `dir` overflows a `u32`: the condition
    /// under which `shift` may be called.
    pub fn shift_fits(&self, dir: Direction) -> (r: bool)
        ensures
            r == self.move_fits(dir),
    {
        let reverse_needed = dir.reverse_needed();
        let dim = dir.associated_dimension();
        let mut i: usize = 0;
        while i < 4
            invariant
                i <= 4,
                reverse_needed == dir.spec_reverse_needed(),
                dim == dir.spec_dimension(),
                forall|k: int| 0 <= k < i ==> first_merge_fits(#[trigger] move_line(self.matrix, dir, k)),
            decreases 4 - i,
        {
            let mut elements = match Self::get_line(self.matrix, i, dim) {
                Some(v) => v,
                None => Vec::new(),
            };
            if reverse_needed {
                elements = Self::reversed(&elements);
            }
            assert(elements@ == move_line(self.matrix, dir, i as int));
            if !Self::first_merge_fits(elements.as_slice()) {
                return false;
            }
            i = i + 1;
        }
        true
    }

    /// Shifts one line toward its start; see `shift_line_spec`.
    pub fn shift_line(elements: &[u32], next_tile: u32, next_tile_inserted: bool) -> (r: (
        Vec<u32>,
        bool,
        bool,
    ))
        requires
            first_merge_fits(elements@),
        ensures
            (r.0@, r.1, r.2) == shift_line_spec(elements@, next_tile, next_tile_inserted),
    {
        let ghost s = elements@;
        let ghost j = first_event(s);
        let n = elements.len();
        let mut acc: Vec<u32> = Vec::new();
        let mut i: usize = 0;
        let mut stop = false;
        let mut combined = false;
        while n - i > 1 && !stop
            invariant
                n == s.len(),
                s == elements@,
                first_merge_fits(s),
                i <= n,
                j == first_event(s),
                !stop ==> !combined && acc@ == s.take(i as int) && j == first_event_from(s, i as int),
                stop ==> j + 1 < n,
                stop && combined ==> combine(s[j], s[j + 1]) is Some && i == j + 2 && acc@ == s.take(j).push(
                    combine(s[j], s[j + 1])->Some_0,
                ),
                stop && !combined ==> combine(s[j], s[j + 1]) is None && s[j] == 0 && i == j + 1 && acc@
                    == s.take(j),
            decreases n - i,
        {
            assert(merge_fits(s[i as int], s[i + 1]));
            match Self::combiner(elements[i], elements[i + 1]) {
                Some(v) => {
                    assert(s.take(i as int).push(v) == acc@.push(v));
                    acc.push(v);
                    i = i + 2;
                    stop = true;
                    combined = true;
                },
                None => {
                    if elements[i] == 0 {
                        i = i + 1;
                        stop = true;
                    } else {
                        acc.push(elements[i]);
                        assert(acc@ =~= s.take(i + 1));
                        i = i + 1;
                    }
                },
            }
        }
        let ghost acc0 = acc@;
        let ghost i0 = i as int;
        let mut moved_tail = false;
        while i < n
            invariant
                n == s.len(),
                s == elements@,
                0 <= i0 <= i <= n,
                acc@ == acc0 + s.subrange(i0, i as int),
                moved_tail == exists|k: int| i0 <= k < i && s[k] != 0,
            decreases n - i,
        {
            if elements[i] != 0 {
                moved_tail = true;
            }
            acc.push(elements[i]);
            assert(acc@ =~= acc0 + s.subrange(i0, i + 1));
            i = i + 1;
        }
        assert(acc@ =~= acc0 + s.skip(i0));
        let mutated = combined || (stop && moved_tail);
        if combined {
            if next_tile_inserted {
                acc.push(0);
            } else {
                acc.push(next_tile);
            }
        } else if stop {
            acc.push(0);
            if !moved_tail {
                assert forall|k: int| j <= k < n implies s[k] == 0 by {
                    if k > j && s[k] != 0 {
                        assert(i0 <= k < n);
                    }
                }
                assert(!tail_nonzero(s, j));
                assert(acc@ =~= s);
            } else {
                assert(tail_nonzero(s, j));
            }
        } else {
            assert(acc@ =~= s);
        }
        (acc, mutated, combined)
    }

    /// A board filled column by column with the sixteen items of buckets
    /// built from `base_values`: category `i` occurs at least
    /// `base_values[i]` times, and every cell holds a category index.
    pub fn rand(r: &mut StdRng, base_values: Vec<u32>) -> (g: Grid)
        requires
            0 < base_values@.len() <= u32::MAX,
            sum(base_values@) <= 16,
        ensures
            forall|k: int| 0 <= k < 16 ==> #[trigger] cells(g.matrix)[k] < base_values@.len(),
            forall|c: int|
                0 <= c < base_values@.len() ==> #[trigger] count(cells(g.matrix), c as u32)
                    >= base_values@[c],
    {
        let ghost base = base_values@;
        let grid_size: usize = 16;
        let buckets = Buckets::new(r, base_values, grid_size);
        let elements = buckets.draw(r);
        let mut g = Grid { matrix: [[0u32; 4]; 4] };
        let mut k: usize = 0;
        while k < 16
            invariant
                elements@.len() == 16,
                k <= 16,
                forall|j: int| 0 <= j < k ==> #[trigger] cells(g.matrix)[j] == elements@[j],
            decreases 16 - k,
        {
            let ghost before = g.matrix;
            g.set_cell(k % 4, k / 4, elements[k]);
            proof {
                assert forall|j: int| 0 <= j < k + 1 implies #[trigger] cells(g.matrix)[j] == elements@[j] by {
                    if j < k {
                        assert(cells(before)[j] == elements@[j]);
                        assert(j % 4 != k % 4 || j / 4 != k / 4);
                    }
                }
            }
            k = k + 1;
        }
        assert(cells(g.matrix) =~= elements@);
        g
    }

    /// Largest value on the board.
    pub fn max(&self) -> (r: u32)
        ensures
            r == seq_max(cells(self.matrix)),
    {
        let ghost all = cells(self.matrix);
        let mut r: u32 = 0;
        let mut k: usize = 0;
        while k < 16
            invariant
                all == cells(self.matrix),
                k <= 16,
                r == seq_max(all.take(k as int)),
            decreases 16 - k,
        {
            assert(all.take(k + 1).drop_last() =~= all.take(k as int));
            let v = self.matrix[k % 4][k / 4];
            if v > r {
                r = v;
            }
            k = k + 1;
        }
        assert(all.take(16) =~= all);
        r
    }

    /// Shifts every line toward the edge of `dir`, places `next_tile` as
    /// `shift_result` describes, and reports whether it was placed and
    /// whether the game is over.
    pub fn shift(self, r: &mut StdRng, dir: Direction, next_tile: u32) -> (res: (Grid, bool, bool))
        requires
            self.move_fits(dir),
        ensures
            self.shift_result(dir, next_tile, res),
    {
        let ghost m = self.matrix;
        let mut g = self;
        let reverse_needed = dir.reverse_needed();
        let dim = dir.associated_dimension();
        let mut next_tile_inserted = false;
        let mut mutated = false;
        let mut i: usize = 0;
        while i < 4
            invariant
                i <= 4,
                m == self.matrix,
                self.move_fits(dir),
                reverse_needed == dir.spec_reverse_needed(),
                dim == dir.spec_dimension(),
                next_tile_inserted == placed_before(m, dir, i as int),
                mutated == mutated_before(m, dir, i as int),
                forall|rr: int, cc: int|
                    0 <= rr < 4 && 0 <= cc < 4 ==> #[trigger] g.matrix[rr][cc] == if line_index(dim, rr, cc)
                        < i {
                        pass_cell(m, dir, next_tile, rr, cc)
                    } else {
                        m[rr][cc]
                    },
            decreases 4 - i,
        {
            let ghost line = line_of(m, i as int, dim);
            assert(line_of(g.matrix, i as int, dim) =~= line);
            let mut elements = match Self::get_line(g.matrix, i, dim) {
                Some(v) => v,
                None => Vec::new(),
            };
            if reverse_needed {
                elements = Self::reversed(&elements);
            }
            assert(elements@ == move_line(m, dir, i as int));
            assert(first_merge_fits(move_line(m, dir, i as int)));
            let (new_line, muta, combined) = Self::shift_line(
                elements.as_slice(),
                next_tile,
                next_tile_inserted,
            );
            proof {
                lemma_oriented_involution(line, reverse_needed);
                lemma_shift_line_len(elements@, next_tile, next_tile_inserted);
                lemma_oriented_involution(new_line@, reverse_needed);
            }
            if muta {
                mutated = true;
                if !next_tile_inserted && combined {
                    next_tile_inserted = true;
                }
                let back = if reverse_needed {
                    Self::reversed(&new_line)
                } else {
                    new_line
                };
                assert(back@ == pass_line(m, dir, next_tile, i as int));
                g.set_line(i, dim, &back);
            } else {
                assert(pass_line(m, dir, next_tile, i as int) == line);
            }
            i = i + 1;
        }
        let ghost stepped = g.matrix;
        if !next_tile_inserted && mutated {
            let idx = dir.index();
            let inverse_dim = dim.inverse();
            let ghost edge = line_of(stepped, idx as int, inverse_dim);
            proof {
                assert forall|k: int| 0 <= k < 4 implies #[trigger] edge[k] == pass_cell(
                    m,
                    dir,
                    next_tile,
                    if dim == Dimension::Col { idx as int } else { k },
                    if dim == Dimension::Col { k } else { idx as int },
                ) by {}
            }
            match Self::force_insert_next_tile(r, g.matrix, idx, inverse_dim, next_tile) {
                Some(line_with_next_tile) => {
                    let ghost k: int;
                    proof {
                        let i = choose|i: int|
                            0 <= i < zero_count(edge) && line_with_next_tile@ == edge.update(
                                nth_zero(edge, i),
                                next_tile,
                            );
                        lemma_nth_zero_exists(edge, i, 4);
                        k = nth_zero(edge, i);
                        assert(0 <= k < 4 && edge[k] == 0 && zeros_before(edge, k) == i);
                    }
                    g.set_line(idx, inverse_dim, &line_with_next_tile);
                    next_tile_inserted = true;
                    proof {
                        let r0 = if dim == Dimension::Col { idx as int } else { k };
                        let c0 = if dim == Dimension::Col { k } else { idx as int };
                        assert(on_edge(dir, r0, c0));
                        assert(pass_cell(m, dir, next_tile, r0, c0) == 0);
                        assert(g.matrix[r0][c0] == next_tile);
                    }
                },
                None => {
                    proof {
                        lemma_zero_count_positive(edge);
                        assert forall|rr: int, cc: int|
                            0 <= rr < 4 && 0 <= cc < 4 && on_edge(dir, rr, cc) implies #[trigger] pass_cell(
                            m,
                            dir,
                            next_tile,
                            rr,
                            cc,
                        ) != 0 by {
                            let k = if dim == Dimension::Col { cc } else { rr };
                            assert(edge[k] == pass_cell(m, dir, next_tile, rr, cc));
                        }
                    }
                },
            }
        }
        if next_tile_inserted {
            (g, true, false)
        } else {
            let game_over = g.game_over();
            (g, false, game_over)
        }
    }

    /// Line `index` of `matrix` in `dim`, when there is one.
    pub fn get_line(matrix: [[u32; 4]; 4], index: usize, dim: Dimension) -> (r: Option<Vec<u32>>)
        ensures
            r is Some <==> index < 4,
            r is Some ==> r->Some_0@ == line_of(matrix, index as int, dim),
    {
        if index >= 4 {
            return None;
        }
        let mut v: Vec<u32> = Vec::new();
        let mut k: usize = 0;
        while k < 4
            invariant
                index < 4,
                k <= 4,
                v@ == line_of(matrix, index as int, dim).take(k as int),
            decreases 4 - k,
        {
            if dim == Dimension::Col {
                v.push(matrix[k][index]);
            } else {
                v.push(matrix[index][k]);
            }
            assert(v@ =~= line_of(matrix, index as int, dim).take(k + 1));
            k = k + 1;
        }
        assert(v@ =~= line_of(matrix, index as int, dim));
        Some(v)
    }

    /// Writes `v` into cell `(r, c)`.
    fn set_cell(&mut self, r: usize, c: usize, v: u32)
        requires
            r < 4,
            c < 4,
        ensures
            forall|i: int, j: int|
                0 <= i < 4 && 0 <= j < 4 ==> #[trigger] final(self).matrix[i][j] == if i == r && j == c {
                    v
                } else {
                    old(self).matrix[i][j]
                },
    {
        let mut row = self.matrix[r];
        row[c] = v;
        self.matrix[r] = row;
    }

    /// Writes `line` as line `i` of the board in `dim`.
    fn set_line(&mut self, i: usize, dim: Dimension, line: &Vec<u32>)
        requires
            i < 4,
            line@.len() == 4,
        ensures
            forall|r: int, c: int|
                0 <= r < 4 && 0 <= c < 4 ==> #[trigger] final(self).matrix[r][c] == if line_index(dim, r, c)
                    == i {
                    line@[line_pos(dim, r, c)]
                } else {
                    old(self).matrix[r][c]
                },
    {
        let ghost before = self.matrix;
        let mut k: usize = 0;
        while k < 4
            invariant
                i < 4,
                k <= 4,
                line@.len() == 4,
                forall|r: int, c: int|
                    0 <= r < 4 && 0 <= c < 4 ==> #[trigger] self.matrix[r][c] == if line_index(dim, r, c) == i
                        && line_pos(dim, r, c) < k {
                        line@[line_pos(dim, r, c)]
                    } else {
                        before[r][c]
                    },
            decreases 4 - k,
        {
            if dim == Dimension::Col {
                self.set_cell(k, i, line[k]);
            } else {
                self.set_cell(i, k, line[k]);
            }
            k = k + 1;
        }
    }

    /// `v` read backwards.
    fn reversed(v: &Vec<u32>) -> (r: Vec<u32>)
        ensures
            r@ == v@.reverse(),
    {
        let n = v.len();
        let mut r: Vec<u32> = Vec::new();
        let mut k: usize = 0;
        while k < n
            invariant
                n == v@.len(),
                k <= n,
                r@ == v@.reverse().take(k as int),
            decreases n - k,
        {
            r.push(v[n - 1 - k]);
            assert(r@ =~= v@.reverse().take(k + 1));
            k = k + 1;
        }
        assert(r@ =~= v@.reverse());
        r
    }

    /// `line` with its `nth` empty cell, counting from 0 in index order,
    /// replaced by `next_tile`.
    pub fn insert_at_zero(line: &mut Vec<u32>, nth: usize, next_tile: u32)
        requires
            nth < zero_count(old(line)@),
        ensures
            final(line)@ == old(line)@.update(nth_zero(old(line)@, nth as int), next_tile),
    {
        let ghost s = old(line)@;
        let n = line.len();
        let mut pos: usize = n;
        let mut seen: usize = 0;
        let mut k: usize = 0;
        while k < n && pos == n
            invariant
                line@ == s,
                n == s.len(),
                k <= n,
                pos == n ==> seen == zeros_before(s, k as int) && seen <= nth < zero_count(s),
                pos != n ==> pos < n && s[pos as int] == 0 && zeros_before(s, pos as int) == nth,
            decreases n - k,
        {
            if line[k] == 0 {
                if seen == nth {
                    pos = k;
                } else {
                    seen = seen + 1;
                }
            }
            k = k + 1;
        }
        proof {
            if pos == n {
                assert(false);
            }
            let c = nth_zero(s, nth as int);
            assert(0 <= c < s.len() && s[c] == 0 && zeros_before(s, c) == nth);
            lemma_nth_zero_unique(s, c, pos as int);
        }
        line.set(pos, next_tile);
    }

    /// Places `next_tile` on one empty cell, chosen at random, of line `index`
    /// in `dim`: the cell `insert_at_zero` picks for a uniform draw below the
    /// number of empty cells. `None` when there is no such line or it has no
    /// empty cell.
    pub fn force_insert_next_tile(
        r: &mut StdRng,
        matrix: [[u32; 4]; 4],
        index: usize,
        dim: Dimension,
        next_tile: u32,
    ) -> (res: Option<Vec<u32>>)
        ensures
            res is Some ==> index < 4,
            index < 4 ==> (res is Some <==> zero_count(line_of(matrix, index as int, dim)) > 0),
            res is Some ==> exists|i: int|
                0 <= i < zero_count(line_of(matrix, index as int, dim)) && res->Some_0@ == line_of(
                    matrix,
                    index as int,
                    dim,
                ).update(nth_zero(line_of(matrix, index as int, dim), i), next_tile),
    {
        match Self::get_line(matrix, index, dim) {
            Some(slice) => {
                let ghost line = slice@;
                let mut zeros: usize = 0;
                let mut i: usize = 0;
                while i < slice.len()
                    invariant
                        slice@ == line,
                        line.len() == 4,
                        i <= 4,
                        zeros == zeros_before(line, i as int),
                        zeros <= i,
                    decreases 4 - i,
                {
                    if slice[i] == 0 {
                        zeros = zeros + 1;
                    }
                    i = i + 1;
                }
                if zeros == 0 {
                    None
                } else {
                    let t = uniform_below(r, zeros);
                    let mut values = slice;
                    Self::insert_at_zero(&mut values, t, next_tile);
                    Some(values)
                }
            },
            None => None,
        }
    }

    /// Whether the board is terminal: full, with no pair that can merge.
    pub fn game_over(self) -> (r: bool)
        ensures
            r == terminal(self.matrix),
    {
        let m = self.matrix;
        let mut i: usize = 0;
        while i < 4
            invariant
                i <= 4,
                m == self.matrix,
                forall|k: int, c: int| 0 <= k < i && 0 <= c < 4 ==> m[k][c] != 0,
            decreases 4 - i,
        {
            if m[i][0] == 0 || m[i][1] == 0 || m[i][2] == 0 || m[i][3] == 0 {
                return false;
            }
            i = i + 1;
        }
        if self.any_col(Self::combinable) {
            proof {
                let k = choose|k: int| 0 <= k < 4 && #[trigger] accepts(Self::combinable, self.line(k, Dimension::Col));
                assert(line_combinable(line_of(m, k, Dimension::Col)));
                assert(line_of(m, k, Dimension::Row).len() == 4);
            }
            return false;
        }
        if self.any_row(Self::combinable) {
            proof {
                let k = choose|k: int| 0 <= k < 4 && #[trigger] accepts(Self::combinable, self.line(k, Dimension::Row));
                assert(line_combinable(line_of(m, k, Dimension::Row)));
            }
            return false;
        }
        proof {
            assert forall|k: int| 0 <= k < 4 implies !line_combinable(
                #[trigger] line_of(m, k, Dimension::Row),
            ) && !line_combinable(line_of(m, k, Dimension::Col)) by {
                assert(refuses(Self::combinable, self.line(k, Dimension::Row)));
                assert(refuses(Self::combinable, self.line(k, Dimension::Col)));
            }
        }
        true
    }
}

} // verus!
