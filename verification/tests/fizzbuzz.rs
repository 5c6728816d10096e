use sort_service::decimal::{i64_to_string, u64_to_string};
use sort_service::fizzbuzz::{FizzBuzz, FizzBuzzError, FIZZBUZZ_CAP};

#[test]
fn default_request_renders_the_first_hundred_numbers() {
    let request = FizzBuzz::default();
    let values = request.response().expect("the default range is within the cap");
    assert_eq!(values.len(), 100);
    assert_eq!(values[0], "FizzBuzz");
    assert_eq!(values[1], "1");
    assert_eq!(values[2], "2");
    assert_eq!(values[3], "Fizz");
    assert_eq!(values[5], "Buzz");
    assert_eq!(values[15], "FizzBuzz");
    assert_eq!(values[98], "98");
}

#[test]
fn inclusive_range_contains_its_upper_end() {
    let request = FizzBuzz { from: 0, to: 10, inclusive: true, ..FizzBuzz::default() };
    let values = request.response().expect("eleven values are within the cap");
    assert_eq!(values.len(), 11);
    assert_eq!(values[10], "Buzz");
}

#[test]
fn reversed_bounds_walk_the_same_range() {
    let forward = FizzBuzz { from: 3, to: 9, ..FizzBuzz::default() };
    let backward = FizzBuzz { from: 9, to: 3, ..FizzBuzz::default() };
    assert_eq!(forward.response().unwrap(), backward.response().unwrap());
}

#[test]
fn custom_words_and_divisors_are_honoured() {
    let request = FizzBuzz {
        from: 1,
        to: 7,
        inclusive: false,
        fizz: String::from("Ping"),
        buzz: String::from("Pong"),
        fizzer: 2,
        buzzer: 3,
    };
    let values = request.response().unwrap();
    assert_eq!(values, vec!["1", "Ping", "Pong", "Ping", "5", "PingPong"]);
}

#[test]
fn too_wide_a_range_is_refused_naming_the_cap() {
    let request = FizzBuzz { from: 0, to: 2000, ..FizzBuzz::default() };
    match request.response() {
        Err(FizzBuzzError::RangeTooWide { cap, span }) => {
            assert_eq!(cap, FIZZBUZZ_CAP);
            assert_eq!(cap, 1000);
            assert_eq!(span, 2000);
        }
        Ok(_) => panic!("a range of two thousand numbers must be refused"),
    }
}

#[test]
fn range_at_the_cap_is_served() {
    let request = FizzBuzz { from: 0, to: 1000, ..FizzBuzz::default() };
    let values = request.response().expect("a span of exactly the cap is allowed");
    assert_eq!(values.len(), 1000);
}

#[test]
fn a_point_range_is_empty_unless_inclusive() {
    let exclusive = FizzBuzz { from: 7, to: 7, ..FizzBuzz::default() };
    assert_eq!(exclusive.response().unwrap(), Vec::<String>::new());
    let inclusive = FizzBuzz { from: 7, to: 7, inclusive: true, ..FizzBuzz::default() };
    assert_eq!(inclusive.response().unwrap(), vec!["7"]);
}

#[test]
fn decimal_rendering_matches_the_standard_one() {
    assert_eq!(u64_to_string(0), "0");
    assert_eq!(u64_to_string(7), "7");
    assert_eq!(u64_to_string(10), "10");
    assert_eq!(u64_to_string(1234567890), "1234567890");
    assert_eq!(u64_to_string(u64::MAX), u64::MAX.to_string());
    assert_eq!(i64_to_string(0), "0");
    assert_eq!(i64_to_string(-1), "-1");
    assert_eq!(i64_to_string(-9876), "-9876");
    assert_eq!(i64_to_string(i64::MIN), i64::MIN.to_string());
    assert_eq!(i64_to_string(i64::MAX), i64::MAX.to_string());
}
