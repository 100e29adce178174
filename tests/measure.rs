use stride_bench::measure::{
    aggregate, strides, throughput, Aggregate, CAPACITY, MAX_STRIDE, MIN_STRIDE, REPETITIONS,
};

#[test]
fn strides_cover_sixteen_to_five_hundred_twelve() {
    let s = strides();
    assert_eq!(s.len(), 497);
    assert_eq!(s[0], 16);
    assert_eq!(s[496], 512);
    assert!(s.windows(2).all(|w| w[1] == w[0] + 1));
    assert_eq!((MIN_STRIDE, MAX_STRIDE), (16, 512));
}

#[test]
fn experiment_constants() {
    assert_eq!(CAPACITY, 32 * 1024 * 1024);
    assert_eq!(REPETITIONS, 10);
}

#[test]
fn throughput_scales_nanoseconds_to_rate() {
    assert_eq!(throughput(1_000_000_000), 1);
    assert_eq!(throughput(1_000_000), 1000);
    assert_eq!(throughput(3), 333_333_333);
    assert_eq!(throughput(2_000_000_000), 0);
    assert_eq!(throughput(0), u64::MAX);
}

#[test]
fn aggregate_of_samples() {
    let a = aggregate(&vec![30, 10, 20, 45]).unwrap();
    assert_eq!(a, Aggregate { min: 10, avg: 26, max: 45 });
}

#[test]
fn aggregate_of_one_sample() {
    let a = aggregate(&vec![7]).unwrap();
    assert_eq!(a, Aggregate { min: 7, avg: 7, max: 7 });
}

#[test]
fn aggregate_of_equal_samples() {
    let a = aggregate(&vec![5; 10]).unwrap();
    assert_eq!(a, Aggregate { min: 5, avg: 5, max: 5 });
}

#[test]
fn aggregate_of_no_samples_is_none() {
    assert_eq!(aggregate(&Vec::new()), None);
}

#[test]
fn aggregate_of_largest_samples_does_not_overflow() {
    let a = aggregate(&vec![u64::MAX, u64::MAX, u64::MAX - 2]).unwrap();
    assert_eq!(a, Aggregate { min: u64::MAX - 2, avg: u64::MAX - 1, max: u64::MAX });
}

#[test]
fn aggregate_is_ordered() {
    let samples = vec![900, 1, 450, 77, 12_000, 3];
    let a = aggregate(&samples).unwrap();
    assert!(a.min <= a.avg && a.avg <= a.max);
    assert_eq!((a.min, a.max), (1, 12_000));
}
