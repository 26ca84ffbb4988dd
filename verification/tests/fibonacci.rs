use algorithm_study::fibonacci::Fibonacci;

#[test]
fn fibonacci_leading_numbers() {
    let mut fib = Fibonacci::new();
    assert_eq!(fib.next(), Some(1));
    assert_eq!(fib.next(), Some(1));
    assert_eq!(fib.next(), Some(2));
    assert_eq!(fib.next(), Some(3));
    assert_eq!(fib.next(), Some(5));
    assert_eq!(fib.next(), Some(8));
    assert_eq!(fib.next(), Some(13));
}

#[test]
fn fibonacci_stops_at_overflow() {
    let mut fib = Fibonacci::new();
    let mut last = 0u128;
    let mut count = 0usize;
    while let Some(v) = fib.next() {
        assert!(v >= last);
        last = v;
        count += 1;
        assert!(count < 1000);
    }
    // The generator is exhausted for good once the sum overflows.
    assert_eq!(fib.next(), None);
    assert_eq!(count, 186);
}
