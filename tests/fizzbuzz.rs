use rust_test::fizzbuzz::fizzbuzz_output;
use rust_test::text::{decimal, signed_decimal};

#[test]
fn test_fizzbuzz_output() {
    assert_eq!(fizzbuzz_output(1), "1");
    assert_eq!(fizzbuzz_output(3), "3 Fizz");
    assert_eq!(fizzbuzz_output(5), "5 Buzz");
    assert_eq!(fizzbuzz_output(15), "15 FizzBuzz");
    assert_eq!(fizzbuzz_output(2), "2");
    assert_eq!(fizzbuzz_output(6), "6 Fizz");
    assert_eq!(fizzbuzz_output(10), "10 Buzz");
    assert_eq!(fizzbuzz_output(30), "30 FizzBuzz");
}

#[test]
fn test_fizzbuzz_output_edge_cases() {
    assert_eq!(fizzbuzz_output(0), "0 FizzBuzz");
    assert_eq!(fizzbuzz_output(-3), "-3 Fizz");
    assert_eq!(fizzbuzz_output(-5), "-5 Buzz");
    assert_eq!(fizzbuzz_output(-15), "-15 FizzBuzz");
}

#[test]
fn fizzbuzz_output_extremes() {
    assert_eq!(fizzbuzz_output(i32::MIN), "-2147483648");
    assert_eq!(fizzbuzz_output(i32::MAX), "2147483647");
    assert_eq!(fizzbuzz_output(-7), "-7");
}

#[test]
fn decimal_writes_digits() {
    assert_eq!(decimal(0), "0");
    assert_eq!(decimal(9), "9");
    assert_eq!(decimal(10), "10");
    assert_eq!(decimal(1204), "1204");
    assert_eq!(decimal(u64::MAX), "18446744073709551615");
    assert_eq!(signed_decimal(-42), "-42");
    assert_eq!(signed_decimal(i64::MAX), "9223372036854775807");
}
