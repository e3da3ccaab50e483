use expr_tree::fib::{fib, rec_fib};

#[test]
fn first_two_numbers_are_one() {
    assert_eq!(fib(1), 1);
    assert_eq!(fib(2), 1);
}

#[test]
fn later_numbers_sum_the_two_before() {
    assert_eq!(fib(3), 2);
    assert_eq!(fib(4), 3);
    assert_eq!(fib(5), 5);
    assert_eq!(fib(10), 55);
    assert_eq!(fib(50), 12586269025);
}

#[test]
fn cache_grows_to_the_request() {
    let mut cache: Vec<u128> = vec![1, 1];
    assert_eq!(rec_fib(6, &mut cache), 8);
    assert_eq!(cache, vec![1, 1, 2, 3, 5, 8]);
}

#[test]
fn cached_values_are_reused_untouched() {
    let mut cache: Vec<u128> = vec![1, 1, 2, 3, 5];
    assert_eq!(rec_fib(4, &mut cache), 3);
    assert_eq!(cache, vec![1, 1, 2, 3, 5]);
}
