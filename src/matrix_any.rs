use vstd::prelude::*;

use crate::dimension::Dimension;
use crate::grid::{line_of, Grid};

verus! {

/// `f` answers `false` on some slice that reads `line`.
pub open spec fn refuses<T, F: Fn(&[T]) -> bool>(f: F, line: Seq<T>) -> bool {
    exists|s: &[T]| s@ == line && #[trigger] f.ensures((s,), false)
}

/// `f` answers `true` on some slice that reads `line`.
pub open spec fn accepts<T, F: Fn(&[T]) -> bool>(f: F, line: Seq<T>) -> bool {
    exists|s: &[T]| s@ == line && #[trigger] f.ensures((s,), true)
}

/// Asks a predicate of each row or each column of a matrix.
pub trait MatrixAny {
    type Item;

    /// Number of lines in `dim`.
    spec fn line_count(&self, dim: Dimension) -> int;

    /// Line `i` in `dim`.
    spec fn line(&self, i: int, dim: Dimension) -> Seq<Self::Item>;

    /// Whether `f` holds of some row.
    fn any_row<F: Fn(&[Self::Item]) -> bool>(&self, f: F) -> (r: bool)
        requires
            forall|s: &[Self::Item]| #[trigger] f.requires((s,)),
        ensures
            r ==> exists|i: int|
                0 <= i < self.line_count(Dimension::Row) && #[trigger] accepts(f, self.line(i, Dimension::Row)),
            !r ==> forall|i: int|
                0 <= i < self.line_count(Dimension::Row) ==> #[trigger] refuses(f, self.line(i, Dimension::Row)),
    ;

    /// Whether `f` holds of some column.
    fn any_col<F: Fn(&[Self::Item]) -> bool>(&self, f: F) -> (r: bool)
        requires
            forall|s: &[Self::Item]| #[trigger] f.requires((s,)),
        ensures
            r ==> exists|i: int|
                0 <= i < self.line_count(Dimension::Col) && #[trigger] accepts(f, self.line(i, Dimension::Col)),
            !r ==> forall|i: int|
                0 <= i < self.line_count(Dimension::Col) ==> #[trigger] refuses(f, self.line(i, Dimension::Col)),
    ;
}

impl Grid {
    /// Whether `f` holds of some line of the board in `dim`.
    fn any_line<F: Fn(&[u32]) -> bool>(&self, dim: Dimension, f: F) -> (r: bool)
        requires
            forall|s: &[u32]| #[trigger] f.requires((s,)),
        ensures
            r ==> exists|i: int| 0 <= i < 4 && #[trigger] accepts(f, line_of(self.matrix, i, dim)),
            !r ==> forall|i: int| 0 <= i < 4 ==> #[trigger] refuses(f, line_of(self.matrix, i, dim)),
    {
        let mut i: usize = 0;
        while i < 4
            invariant
                i <= 4,
                forall|s: &[u32]| #[trigger] f.requires((s,)),
                forall|k: int| 0 <= k < i ==> #[trigger] refuses(f, line_of(self.matrix, k, dim)),
            decreases 4 - i,
        {
            let line = match Grid::get_line(self.matrix, i, dim) {
                Some(v) => v,
                None => Vec::new(),
            };
            let s = line.as_slice();
            if f(s) {
                assert(accepts(f, line_of(self.matrix, i as int, dim)));
                return true;
            }
            assert(refuses(f, line_of(self.matrix, i as int, dim)));
            i = i + 1;
        }
        false
    }
}

impl MatrixAny for Grid {
    type Item = u32;

    open spec fn line_count(&self, dim: Dimension) -> int {
        4
    }

    open spec fn line(&self, i: int, dim: Dimension) -> Seq<u32> {
        line_of(self.matrix, i, dim)
    }

    fn any_row<F: Fn(&[u32]) -> bool>(&self, f: F) -> (r: bool) {
        let r = self.any_line(Dimension::Row, f);
        proof {
            if r {
                let i = choose|i: int| 0 <= i < 4 && #[trigger] accepts(f, line_of(self.matrix, i, Dimension::Row));
                assert(accepts(f, self.line(i, Dimension::Row)));
            }
            assert(forall|i: int| #[trigger] self.line(i, Dimension::Row) == line_of(self.matrix, i, Dimension::Row));
        }
        r
    }

    fn any_col<F: Fn(&[u32]) -> bool>(&self, f: F) -> (r: bool) {
        let r = self.any_line(Dimension::Col, f);
        proof {
            if r {
                let i = choose|i: int| 0 <= i < 4 && #[trigger] accepts(f, line_of(self.matrix, i, Dimension::Col));
                assert(accepts(f, self.line(i, Dimension::Col)));
            }
            assert(forall|i: int| #[trigger] self.line(i, Dimension::Col) == line_of(self.matrix, i, Dimension::Col));
        }
        r
    }
}

} // verus!
