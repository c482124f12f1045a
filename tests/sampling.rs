use x11hunter::error::HuntError;
use x11hunter::sampling::{sample, take_sample, target_size, SamplingConfig};

fn config(min: usize, max: usize, percent: usize) -> SamplingConfig {
    SamplingConfig::new(min, max, percent).unwrap()
}

#[test]
fn rounds_half_up() {
    assert_eq!(target_size(10, &config(0, 100, 25)), 3);
}

#[test]
fn rounds_down_below_half() {
    assert_eq!(target_size(9, &config(0, 100, 25)), 2);
}

#[test]
fn target_is_raised_to_min() {
    assert_eq!(target_size(8, &config(10, 50, 25)), 10);
}

#[test]
fn target_is_capped_by_max() {
    assert_eq!(target_size(1000, &config(10, 50, 25)), 50);
}

#[test]
fn target_for_large_pool() {
    assert_eq!(target_size(usize::MAX, &config(0, usize::MAX, 100)), usize::MAX);
    assert_eq!(target_size(199, &config(0, 1000, 50)), 100);
}

#[test]
fn config_rejects_max_below_min() {
    assert!(matches!(SamplingConfig::new(5, 4, 25), Err(HuntError::MaxBelowMin)));
}

#[test]
fn config_rejects_percent_over_hundred() {
    assert!(matches!(SamplingConfig::new(1, 4, 101), Err(HuntError::PercentOutOfRange)));
}

#[test]
fn config_accepts_bounds() {
    let c = config(3, 3, 100);
    assert_eq!((c.min, c.max, c.percent), (3, 3, 100));
}

#[test]
fn empty_pool_is_an_error() {
    let r = sample(Vec::<u32>::new(), &config(10, 50, 25));
    assert!(matches!(r, Err(HuntError::NoCandidates)));
}

#[test]
fn sample_has_target_size_without_duplicates() {
    let pool: Vec<u32> = (0..100).collect();
    let mut s = sample(pool, &config(10, 50, 25)).unwrap();
    assert_eq!(s.len(), 25);
    s.sort();
    s.dedup();
    assert_eq!(s.len(), 25);
    assert!(s.iter().all(|x| *x < 100));
}

#[test]
fn small_pool_is_taken_whole() {
    let pool: Vec<u32> = vec![7, 3, 5];
    let mut s = sample(pool, &config(10, 50, 25)).unwrap();
    s.sort();
    assert_eq!(s, vec![3, 5, 7]);
}

#[test]
fn sample_is_shuffled() {
    let pool: Vec<u32> = (0..40).collect();
    let mut moved = false;
    for _ in 0..5 {
        let s = sample(pool.clone(), &config(0, 40, 100)).unwrap();
        assert_eq!(s.len(), 40);
        if s != pool {
            moved = true;
        }
    }
    assert!(moved);
}

#[test]
fn take_sample_keeps_prefix() {
    assert_eq!(take_sample(vec![4, 1, 9, 2], 2), vec![4, 1]);
    assert_eq!(take_sample(vec![4, 1], 5), vec![4, 1]);
}
