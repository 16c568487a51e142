use rand::rngs::StdRng;
use rand::SeedableRng;
use threes::distribution::Distribution;
use threes::tile::Tile;

#[test]
fn sample_test() {
    let d = Distribution::new(1, 2);
    let mut r = StdRng::seed_from_u64(3);
    let res = d.sample(&mut r);
    assert!(res < 10)
}

#[test]
fn sample_is_one_when_success_is_certain() {
    let d = Distribution::new(3, 3);
    let mut r = StdRng::seed_from_u64(4);
    for _ in 0..100 {
        assert_eq!(d.sample(&mut r), 1);
    }
    assert_eq!(d.p(), (3, 3));
}

#[test]
fn sample_is_positive_and_mostly_small() {
    let d = Distribution::new(1, 2);
    let mut r = StdRng::seed_from_u64(5);
    let samples: Vec<u32> = (0..1000).map(|_| d.sample(&mut r)).collect();
    assert!(samples.iter().all(|k| *k >= 1));
    let ones = samples.iter().filter(|k| **k == 1).count();
    assert!(ones > 400 && ones < 600);
}

#[test]
fn new_tile_is_a_seed() {
    let mut r = StdRng::seed_from_u64(6);
    for _ in 0..50 {
        let t = Tile::new(&mut r);
        assert!(t.current() == 1 || t.current() == 2);
    }
}

#[test]
fn next_is_less_than_or_equal_to_max() {
    let mut r = StdRng::seed_from_u64(7);
    let mut s = Tile::new(&mut r);
    let mut vec = Vec::new();
    let max = 12;
    for _ in 0..=1000 {
        let res = s.next(&mut r, max);
        vec.push(res);
    }
    assert!(vec.into_iter().all(|r| r <= 12));
}

#[test]
fn next_updates_current() {
    let mut r = StdRng::seed_from_u64(8);
    let mut s = Tile::new(&mut r);
    for _ in 0..100 {
        let v = s.next(&mut r, 96);
        assert_eq!(s.current(), v);
        assert!([1, 2, 3, 6, 12, 24, 48, 96].contains(&v));
    }
}

#[test]
fn tile_rank_0_or_1_if_max_1() {
    let mut r = StdRng::seed_from_u64(9);
    let mut s = Tile::new(&mut r);
    let mut vec = Vec::new();
    for _ in 0..=10 {
        let res = s.rank(&mut r, 1);
        vec.push(res);
    }
    assert!(vec.contains(&0));
    assert!(vec.contains(&1));
}

#[test]
fn tile_rank_0_or_1_if_max_2() {
    let mut r = StdRng::seed_from_u64(10);
    let mut s = Tile::new(&mut r);
    let mut vec = Vec::new();
    for _ in 0..=10 {
        let res = s.rank(&mut r, 2);
        vec.push(res);
    }
    assert!(vec.contains(&0));
    assert!(vec.contains(&1));
}

#[test]
fn tile_rank_possibly_2_if_max_3() {
    let mut r = StdRng::seed_from_u64(11);
    let mut s = Tile::new(&mut r);
    let mut vec = Vec::new();
    for _ in 0..=10 {
        let res = s.rank(&mut r, 3);
        vec.push(res);
    }
    assert!(vec.contains(&2));
}

#[test]
fn tile_rank_cant_have_more_than_max_rank() {
    let mut r = StdRng::seed_from_u64(12);
    let mut s = Tile::new(&mut r);
    let mut vec = Vec::new();
    for _ in 0..=1000 {
        let res = s.rank(&mut r, 12);
        vec.push(res);
    }
    // rank of 12 is 4
    assert!(vec.into_iter().all(|r| r <= 4));
}

#[test]
fn tile_rank_can_be_0_if_max_greater_than_2() {
    // the distribution is 1-based, our ranks are 0-based
    let mut r = StdRng::seed_from_u64(13);
    let mut s = Tile::new(&mut r);
    let mut vec = Vec::new();
    for _ in 0..=10 {
        let res = s.rank(&mut r, 12);
        vec.push(res);
    }
    assert!(vec.contains(&0));
}

#[test]
fn rank_from_sample_moves_to_zero_and_caps() {
    assert_eq!(Tile::rank_from_sample(4, 1), 0);
    assert_eq!(Tile::rank_from_sample(4, 3), 2);
    assert_eq!(Tile::rank_from_sample(4, 5), 4);
    assert_eq!(Tile::rank_from_sample(4, 9), 4);
    assert_eq!(Tile::rank_from_sample(2, u32::MAX), 2);
}

#[test]
fn seed_of_draw_maps_to_one_or_two() {
    assert_eq!(Tile::seed_of_draw(0), 1);
    assert_eq!(Tile::seed_of_draw(1), 2);
}

#[test]
fn rank_of_draw_halves_the_range_at_each_rank() {
    let d = Distribution::new(1, 2);
    assert_eq!(d.rank_of_draw(0), 1);
    assert_eq!(d.rank_of_draw((1 << 30) - 1), 1);
    assert_eq!(d.rank_of_draw(1 << 30), 2);
    assert_eq!(d.rank_of_draw((1 << 30) + (1 << 29)), 3);
    assert_eq!(d.rank_of_draw((1 << 31) - 1), 32);
    let certain = Distribution::new(5, 5);
    assert_eq!(certain.rank_of_draw((1 << 31) - 1), 1);
}
