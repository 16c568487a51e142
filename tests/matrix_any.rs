use threes::grid::Grid;
use threes::matrix_any::MatrixAny;

fn repeat(v: u32) -> Grid {
    Grid { matrix: [[v; 4]; 4] }
}

#[test]
fn any_col_satisfies_noop_predicate() {
    let m = repeat(1);
    assert!(!m.any_col(|_| false));
    assert!(m.any_col(|_| true));
}

#[test]
fn any_col_satisfies_predicate() {
    let m = repeat(1);
    assert!(!m.any_col(|c| c.contains(&0)));
    assert!(m.any_col(|c| c.contains(&1)));
}

#[test]
fn any_row_satisfies_noop_predicate() {
    let m = repeat(1);
    assert!(!m.any_row(|_| false));
    assert!(m.any_row(|_| true));
}

#[test]
fn any_row_satisfies_predicate() {
    let m = repeat(1);
    assert!(!m.any_row(|c| c.contains(&0)));
    assert!(m.any_row(|c| c.contains(&1)));
}

#[test]
fn any_row_and_any_col_see_different_lines() {
    let g = Grid { matrix: [[1, 2, 3, 4], [0, 0, 0, 0], [0, 0, 0, 0], [0, 0, 0, 0]] };
    assert!(g.any_row(|r| r == [1, 2, 3, 4]));
    assert!(!g.any_col(|c| c == [1, 2, 3, 4]));
    assert!(g.any_col(|c| c == [4, 0, 0, 0]));
}
