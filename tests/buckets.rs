use rand::rngs::StdRng;
use rand::SeedableRng;
use threes::buckets::Buckets;

#[test]
fn draw_should_be_idempotent() {
    let mut rng = StdRng::seed_from_u64(7);
    let init: Vec<u32> = vec![4, 2, 2, 2];
    let desired_size = 16;
    let bs = Buckets::new(&mut rng, init.clone(), desired_size);
    let res1 = bs.draw(&mut rng);
    let res2 = bs.draw(&mut rng);
    assert_eq!(res1.len(), desired_size);
    assert_eq!(res2.len(), desired_size);
    assert_ne!(res1, res2);
    assert!(res1.iter().all(|a| *a < init.len() as u32));
    assert!(res2.iter().all(|a| *a < init.len() as u32));
}

#[test]
fn draw_should_construct_vec_with_desired_size() {
    let mut rng = StdRng::seed_from_u64(11);
    let init: Vec<u32> = vec![4, 2, 2, 2];
    let desired_size = 16;
    let bs = Buckets::new(&mut rng, init.clone(), desired_size);
    let res = bs.draw(&mut rng);
    assert!(res.iter().all(|a| *a < init.len() as u32));
}

#[test]
fn draw_should_construct_vec_between_0_and_len() {
    let mut rng = StdRng::seed_from_u64(13);
    let init: Vec<u32> = vec![4, 2, 2, 2];
    let desired_size = 16;
    let bs = Buckets::new(&mut rng, init.clone(), desired_size);
    let res = bs.draw(&mut rng);
    assert_eq!(res.len(), desired_size);
}

#[test]
fn new_copies_array_argument() {
    let mut rng = StdRng::seed_from_u64(17);
    let init: Vec<u32> = vec![4, 2, 2, 2];
    let desired_size = 16;
    Buckets::new(&mut rng, init.clone(), desired_size);
    assert_eq!(init[0], 4);
    assert_eq!(init[1], 2);
    assert_eq!(init[2], 2);
    assert_eq!(init[3], 2);
}

#[test]
fn new_generates_an_array_with_sum_desired_size() {
    let mut rng = StdRng::seed_from_u64(19);
    let init: Vec<u32> = vec![4, 2, 2, 2];
    let desired_size = 16;
    let bs = Buckets::new(&mut rng, init, desired_size);
    assert_eq!(bs.storage().iter().sum::<u32>(), desired_size as u32);
}

#[test]
fn new_has_same_length_as_init() {
    let mut rng = StdRng::seed_from_u64(23);
    let init: Vec<u32> = vec![4, 2, 2, 2];
    let desired_size = 16;
    let bs = Buckets::new(&mut rng, init.clone(), desired_size);
    assert_eq!(bs.storage().len(), init.len());
}

#[test]
fn new_adds_to_init() {
    let mut rng = StdRng::seed_from_u64(29);
    let init: Vec<u32> = vec![4, 2, 2, 2];
    let desired_size = 16;
    let bs = Buckets::new(&mut rng, init.clone(), desired_size);
    assert!(bs.storage().iter().zip(init.iter()).all(|(a, b)| a >= b));
}

#[test]
fn new_desired_size_is_arg() {
    let mut rng = StdRng::seed_from_u64(31);
    let init: Vec<u32> = vec![4, 2, 2, 2];
    let desired_size = 16;
    let bs = Buckets::new(&mut rng, init, desired_size);
    assert_eq!(bs.desired_size(), desired_size);
}

#[test]
fn draw_respects_the_weights() {
    let mut rng = StdRng::seed_from_u64(37);
    let bs = Buckets::new(&mut rng, vec![4, 2, 2, 2], 16);
    let counts = bs.storage().clone();
    for _ in 0..5 {
        let res = bs.draw(&mut rng);
        for (c, n) in counts.iter().enumerate() {
            assert_eq!(res.iter().filter(|x| **x == c as u32).count() as u32, *n);
        }
    }
}

#[test]
fn new_with_full_base_adds_nothing() {
    let mut rng = StdRng::seed_from_u64(41);
    let bs = Buckets::new(&mut rng, vec![10, 6], 16);
    assert_eq!(bs.storage().clone(), vec![10, 6]);
    let res = bs.draw(&mut rng);
    assert_eq!(res.iter().filter(|x| **x == 0).count(), 10);
    assert_eq!(res.iter().filter(|x| **x == 1).count(), 6);
}

#[test]
fn empty_buckets_draw_nothing() {
    let mut rng = StdRng::seed_from_u64(43);
    let bs = Buckets::new(&mut rng, vec![0, 0, 0], 0);
    assert_eq!(bs.draw(&mut rng), Vec::<u32>::new());
}

#[test]
fn fill_from_draws_adds_one_per_draw() {
    let mut counts = vec![4, 2, 2, 2];
    Buckets::fill_from_draws(&mut counts, &vec![0, 3, 3, 1, 3]);
    assert_eq!(counts, vec![5, 3, 2, 5]);
    let mut counts = vec![1, 1];
    Buckets::fill_from_draws(&mut counts, &vec![]);
    assert_eq!(counts, vec![1, 1]);
}
