use data_structures_and_algorithms::fibonacci::fibonacci_hof;

const FIBONACCI_SERIES: [u8; 14] = [0, 1, 1, 2, 3, 5, 8, 13, 21, 34, 55, 89, 144, 233];

#[test]
fn hof_should_calculate_series() {
    let mut f = fibonacci_hof();
    for i in FIBONACCI_SERIES {
        assert_eq!(f.next(), Some(i));
    }
    // max size of u8 is 255, should overflow here
    assert_eq!(f.next(), None);
}

#[test]
fn hof_stays_exhausted_after_overflow() {
    let mut f = fibonacci_hof();
    for _ in 0..14 {
        assert!(f.next().is_some());
    }
    for _ in 0..5 {
        assert_eq!(f.next(), None);
    }
}
