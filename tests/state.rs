use rand::rngs::StdRng;
use rand::SeedableRng;
use threes::direction::Direction;
use threes::grid::Grid;
use threes::series::Series;
use threes::state::State;

fn new_state(r: &mut StdRng, m: [[u32; 4]; 4]) -> State {
    let mut s = State::from_base_values(r, vec![4, 2, 2, 2]);
    s.grid = Grid { matrix: m };
    s.past_grid = s.grid;
    s
}

#[test]
fn score_is_0_if_no_gt_3() {
    let mut r = StdRng::seed_from_u64(1);
    for i in 0..3 {
        let s = new_state(&mut r, [[i; 4]; 4]);
        assert_eq!(s.score(), 0);
    }
}

#[test]
fn score_is_correct_if_gt_3() {
    let mut r = StdRng::seed_from_u64(2);
    let series = Series::new(1, 2, 2);
    let grid_size = 16;
    for i in 2..10 {
        let u_i = series.u_n(i);
        let m = [[u_i; 4]; 4];
        let s = new_state(&mut r, m);
        assert_eq!(s.score(), 3_u64.pow(i - 1) as u64 * grid_size);
    }
}

#[test]
fn score_of_largest_uniform_board() {
    let mut r = StdRng::seed_from_u64(3);
    let u = Series::new(1, 2, 2).u_n(32);
    let s = new_state(&mut r, [[u; 4]; 4]);
    assert_eq!(s.score(), 3_u64.pow(31) * 16);
}

#[test]
fn score_is_in_concordance_with_screenshot() {
    let mut r = StdRng::seed_from_u64(4);
    let m = [[2, 3, 1, 3], [3, 1, 3, 2], [6, 3, 24, 2], [3, 48, 192, 96]];
    let s = new_state(&mut r, m);
    assert_eq!(s.score(), 3267);
}

#[test]
fn from_base_values_starts_a_fresh_game() {
    let mut r = StdRng::seed_from_u64(5);
    let s = State::from_base_values(&mut r, vec![4, 2, 2, 2]);
    assert!(!s.game_over);
    assert!(s.tile.current() == 1 || s.tile.current() == 2);
    assert!(s.grid.matrix.iter().all(|row| row.iter().all(|c| *c < 4)));
    assert_eq!(s.past_grid, s.grid);
}

#[test]
fn shift_then_shift_back_restores_grid_and_tile() {
    let mut r = StdRng::seed_from_u64(6);
    let m = [[1, 2, 3, 3], [0, 6, 6, 1], [2, 2, 1, 0], [3, 0, 12, 12]];
    for dir in [Direction::Up, Direction::Down, Direction::Left, Direction::Right] {
        let mut s = new_state(&mut r, m);
        let grid_before = s.grid;
        let tile_before = s.tile.current();
        s.shift(&mut r, dir);
        assert_ne!(s.grid, grid_before);
        s.shift_back();
        assert_eq!(s.grid, grid_before);
        assert_eq!(s.tile.current(), tile_before);
        s.shift_back();
        assert_eq!(s.grid, grid_before);
        assert_eq!(s.tile.current(), tile_before);
    }
}

#[test]
fn shift_places_the_tile_and_draws_the_next() {
    let mut r = StdRng::seed_from_u64(7);
    let m = [[6, 6, 3, 9], [1, 2, 6, 3], [3, 6, 9, 12], [0, 0, 0, 0]];
    let mut s = new_state(&mut r, m);
    let tile = s.tile.current();
    s.shift(&mut r, Direction::Left);
    assert_eq!(s.grid.matrix[0], [12, 3, 9, tile]);
    assert_eq!(s.grid.matrix[1], [3, 6, 3, 0]);
    assert!(!s.game_over);
    assert!([1, 2, 3, 6, 12].contains(&s.tile.current()));
}

#[test]
fn shift_on_terminal_board_sets_game_over_and_keeps_tile() {
    let mut r = StdRng::seed_from_u64(8);
    let m = [[3, 6, 3, 6], [6, 3, 6, 3], [3, 6, 3, 6], [6, 3, 6, 3]];
    let mut s = new_state(&mut r, m);
    let tile = s.tile.current();
    s.shift(&mut r, Direction::Up);
    assert!(s.game_over);
    assert_eq!(s.grid.matrix, m);
    assert_eq!(s.tile.current(), tile);
}
