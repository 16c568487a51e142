use vstd::prelude::*;

verus! {

/// The merge rule for two adjacent values: equal values above the larger
/// seed double, and the two seeds 1 and 2 add up to 3.
pub open spec fn combine(a: u32, b: u32) -> Option<u32> {
    if a == b && a > 2 {
        Some((2 * a) as u32)
    } else if a < 3 && b < 3 && a + b == 3 {
        Some((a + b) as u32)
    } else {
        None
    }
}

/// Merging `a` with `b` does not overflow a `u32`.
pub open spec fn merge_fits(a: u32, b: u32) -> bool {
    a == b && a > 2 ==> a <= u32::MAX / 2
}

/// Some adjacent pair of `s` can merge.
pub open spec fn line_combinable(s: Seq<u32>) -> bool {
    exists|k: int| 0 <= k < s.len() - 1 && (#[trigger] combine(s[k], s[k + 1])) is Some
}

/// Position `j` of `s` starts a change: it is empty, or it merges with the
/// value after it.
pub open spec fn is_event(s: Seq<u32>, j: int) -> bool {
    s[j] == 0 || combine(s[j], s[j + 1]) is Some
}

/// The first position at or after `j` that starts a change, or the length of
/// `s` when there is none.
pub open spec fn first_event_from(s: Seq<u32>, j: int) -> int
    decreases s.len() - j,
{
    if j < 0 || j + 1 >= s.len() {
        s.len() as int
    } else if is_event(s, j) {
        j
    } else {
        first_event_from(s, j + 1)
    }
}

/// The first position of `s` that starts a change.
pub open spec fn first_event(s: Seq<u32>) -> int {
    first_event_from(s, 0)
}

/// Shifting `s` toward its start changes it.
pub open spec fn line_mutated(s: Seq<u32>) -> bool {
    let j = first_event(s);
    &&& j + 1 < s.len()
    &&& combine(s[j], s[j + 1]) is Some || tail_nonzero(s, j)
}

/// Some value after position `j` of `s` is not empty.
pub open spec fn tail_nonzero(s: Seq<u32>, j: int) -> bool {
    exists|k: int| j < k < s.len() && s[k] != 0
}

/// The pair at the first change of `s`, if it merges, does not overflow.
pub open spec fn first_merge_fits(s: Seq<u32>) -> bool {
    let j = first_event(s);
    j + 1 < s.len() ==> merge_fits(s[j], s[j + 1])
}

/// Shifting `s` toward its start merges a pair.
pub open spec fn line_combines(s: Seq<u32>) -> bool {
    line_mutated(s) && combine(s[first_event(s)], s[first_event(s) + 1]) is Some
}

/// One shift of `s` toward its start, with at most one merge.
///
/// Values before the first change are kept. A merge there replaces the pair
/// by its merged value and the rest is copied through; the vacated last cell
/// receives `tile`, or 0 when `inserted` says the tile went elsewhere. An
/// empty cell there is closed: the values after it move up one place and a 0
/// fills the last cell. When nothing merges and only empty cells follow the
/// first empty one, nothing moves and `s` is returned as it is.
/// The two flags tell whether the line changed and whether it merged.
pub open spec fn shift_line_spec(s: Seq<u32>, tile: u32, inserted: bool) -> (Seq<u32>, bool, bool) {
    let j = first_event(s);
    if !line_mutated(s) {
        (s, false, false)
    } else if line_combines(s) {
        let merged = combine(s[j], s[j + 1])->Some_0;
        (
            (s.take(j).push(merged) + s.skip(j + 2)).push(
                if inserted {
                    0
                } else {
                    tile
                },
            ),
            true,
            true,
        )
    } else {
        ((s.take(j) + s.skip(j + 1)).push(0), true, false)
    }
}

/// The sequence read in the order a move walks it.
pub open spec fn oriented(s: Seq<u32>, reverse: bool) -> Seq<u32> {
    if reverse {
        s.reverse()
    } else {
        s
    }
}

pub proof fn lemma_oriented_involution(s: Seq<u32>, reverse: bool)
    ensures
        oriented(oriented(s, reverse), reverse) == s,
        oriented(s, reverse).len() == s.len(),
{
    assert(oriented(oriented(s, reverse), reverse) =~= s);
}

/// A shift merges at most one pair of a line: when it merges, the values
/// before the pair are kept, the pair becomes its merged value, and every
/// value after the pair is copied through one place up, unchanged.
pub proof fn lemma_single_merge(s: Seq<u32>, tile: u32, inserted: bool)
    requires
        line_combines(s),
    ensures
        ({
            let j = first_event(s);
            let res = shift_line_spec(s, tile, inserted).0;
            &&& 0 <= j < s.len() - 1
            &&& res.len() == s.len()
            &&& res.take(j) == s.take(j)
            &&& combine(s[j], s[j + 1]) == Some(res[j])
            &&& res.subrange(j + 1, s.len() - 1) == s.skip(j + 2)
        }),
{
    lemma_first_event_from_bounds(s, 0);
    let j = first_event(s);
    let res = shift_line_spec(s, tile, inserted).0;
    assert(res.take(j) =~= s.take(j));
    assert(res.subrange(j + 1, s.len() - 1) =~= s.skip(j + 2));
}

/// The seeds 1 and 2 at the head of a line merge into 3 in either order, and
/// the rest of the line follows unchanged.
pub proof fn lemma_seed_pair_merges(a: u32, b: u32, x: u32, y: u32, tile: u32, inserted: bool)
    requires
        a + b == 3,
        a < 3,
        b < 3,
    ensures
        shift_line_spec(seq![a, b, x, y], tile, inserted) == (
            seq![3u32, x, y, if inserted { 0u32 } else { tile }],
            true,
            true,
        ),
        shift_line_spec(seq![b, a, x, y], tile, inserted) == (
            seq![3u32, x, y, if inserted { 0u32 } else { tile }],
            true,
            true,
        ),
{
    let s1 = seq![a, b, x, y];
    let s2 = seq![b, a, x, y];
    let t = if inserted { 0u32 } else { tile };
    assert(is_event(s1, 0) && is_event(s2, 0));
    assert((s1.take(0).push(3u32) + s1.skip(2)).push(t) =~= seq![3u32, x, y, t]);
    assert((s2.take(0).push(3u32) + s2.skip(2)).push(t) =~= seq![3u32, x, y, t]);
}

/// The merge rule does not depend on the order of the pair.
pub proof fn lemma_combine_symmetric(a: u32, b: u32)
    ensures
        combine(a, b) == combine(b, a),
{
}

/// A line with no empty cell and no pair that can merge is left unchanged by
/// a shift, whichever end the shift starts from.
pub proof fn lemma_blocked_line_unchanged(s: Seq<u32>, tile: u32, inserted: bool)
    requires
        forall|k: int| 0 <= k < s.len() ==> s[k] != 0,
        !line_combinable(s),
    ensures
        shift_line_spec(s, tile, inserted) == (s, false, false),
        shift_line_spec(s.reverse(), tile, inserted) == (s.reverse(), false, false),
{
    lemma_no_event(s, 0);
    let r = s.reverse();
    assert forall|k: int| 0 <= k < r.len() - 1 implies !(#[trigger] combine(r[k], r[k + 1]) is Some) by {
        let a = s.len() - 2 - k;
        assert(r[k] == s[a + 1] && r[k + 1] == s[a]);
        if combine(s[a], s[a + 1]) is Some {
            assert(line_combinable(s));
        }
    }
    lemma_no_event(r, 0);
}

proof fn lemma_no_event(s: Seq<u32>, j: int)
    requires
        0 <= j,
        forall|k: int| 0 <= k < s.len() ==> s[k] != 0,
        forall|k: int| 0 <= k < s.len() - 1 ==> !(#[trigger] combine(s[k], s[k + 1]) is Some),
    ensures
        first_event_from(s, j) == s.len(),
    decreases s.len() - j,
{
    if j + 1 < s.len() {
        assert(!(combine(s[j], s[j + 1]) is Some));
        lemma_no_event(s, j + 1);
    }
}

proof fn lemma_first_event_from_bounds(s: Seq<u32>, j: int)
    requires
        0 <= j,
    ensures
        0 <= first_event_from(s, j) <= s.len(),
        j <= s.len() ==> j <= first_event_from(s, j),
    decreases s.len() - j,
{
    if j + 1 < s.len() && !is_event(s, j) {
        lemma_first_event_from_bounds(s, j + 1);
    }
}

/// A shift keeps the length of the line.
pub proof fn lemma_shift_line_len(s: Seq<u32>, tile: u32, inserted: bool)
    ensures
        shift_line_spec(s, tile, inserted).0.len() == s.len(),
{
    lemma_first_event_from_bounds(s, 0);
}

/// Number of empty cells of `s` before position `k`.
pub open spec fn zeros_before(s: Seq<u32>, k: int) -> nat
    decreases k,
{
    if k <= 0 {
        0
    } else {
        zeros_before(s, k - 1) + if s[k - 1] == 0 {
            1nat
        } else {
            0nat
        }
    }
}

/// Number of empty cells of `s`.
pub open spec fn zero_count(s: Seq<u32>) -> nat {
    zeros_before(s, s.len() as int)
}

/// Position of the empty cell of `s` that has `n` empty cells before it.
pub open spec fn nth_zero(s: Seq<u32>, n: int) -> int {
    choose|k: int| 0 <= k < s.len() && s[k] == 0 && #[trigger] zeros_before(s, k) == n
}

proof fn lemma_zeros_before_monotone(s: Seq<u32>, a: int, b: int)
    requires
        0 <= a <= b,
    ensures
        zeros_before(s, a) <= zeros_before(s, b),
    decreases b,
{
    if a < b {
        lemma_zeros_before_monotone(s, a, b - 1);
    }
}

/// Only one empty cell has exactly `n` empty cells before it.
pub proof fn lemma_nth_zero_unique(s: Seq<u32>, k1: int, k2: int)
    requires
        0 <= k1 < s.len(),
        0 <= k2 < s.len(),
        s[k1] == 0,
        s[k2] == 0,
        zeros_before(s, k1) == zeros_before(s, k2),
    ensures
        k1 == k2,
{
    if k1 < k2 {
        lemma_zeros_before_monotone(s, k1 + 1, k2);
    } else if k2 < k1 {
        lemma_zeros_before_monotone(s, k2 + 1, k1);
    }
}

/// The `n`-th empty cell exists when fewer than `n + 1` come before `m`, and
/// lies before `m`.
pub proof fn lemma_nth_zero_exists(s: Seq<u32>, n: int, m: int)
    requires
        0 <= n < zeros_before(s, m),
        m <= s.len(),
    ensures
        exists|k: int| 0 <= k < m && s[k] == 0 && #[trigger] zeros_before(s, k) == n,
    decreases m,
{
    if m > 0 {
        if n < zeros_before(s, m - 1) {
            lemma_nth_zero_exists(s, n, m - 1);
        } else {
            assert(s[m - 1] == 0 && zeros_before(s, m - 1) == n);
        }
    }
}

/// A line has an empty cell exactly when its count of empty cells is positive.
pub proof fn lemma_zero_count_positive(s: Seq<u32>)
    ensures
        zero_count(s) > 0 <==> exists|k: int| 0 <= k < s.len() && s[k] == 0,
{
    if zero_count(s) > 0 {
        lemma_nth_zero_exists(s, 0, s.len() as int);
    }
    if exists|k: int| 0 <= k < s.len() && s[k] == 0 {
        let k = choose|k: int| 0 <= k < s.len() && s[k] == 0;
        lemma_zeros_before_monotone(s, k + 1, s.len() as int);
    }
}

} // verus!
