use speed_daemon::prices::PriceStore;
use speed_daemon::prime::{
    test_by_division, test_number, validate_request, RequestError, IS_PRIME, MAL_FORMAT,
    TEST_LIMIT,
};
use speed_daemon::proxy::{is_coin_address, own_address_bytes, replace_address};

const OWN: &str = "7YWHMfk9JZe0LM0g1ZauHuiSxhI";

fn rewrite(line: &str) -> String {
    String::from_utf8(replace_address(line.as_bytes())).unwrap()
}

fn rewrite_by_pattern(line: &str) -> String {
    let re = fancy_regex::Regex::new(r"(?<= |^)7[a-zA-Z0-9]{25,34}(?= |$)").unwrap();
    re.replace_all(line, OWN).to_string()
}

#[test]
fn primes_are_told_apart() {
    for n in [2u64, 3, 5, 7, 11, 13, 97, 7919, 1_000_000_007, 999_999_000_001] {
        assert_eq!(validate_request("isPrime", Some(n)), Ok(true), "{}", n);
    }
    for n in [0u64, 1, 4, 6, 9, 15, 25, 49, 7917, 1_000_000_007 * 3, 999_983 * 999_983] {
        assert_eq!(validate_request("isPrime", Some(n)), Ok(false), "{}", n);
    }
}

#[test]
fn number_that_is_no_whole_number_is_not_prime() {
    assert_eq!(validate_request("isPrime", None), Ok(false));
    assert_eq!(validate_request("other", None), Ok(false));
}

#[test]
fn unknown_method_is_refused() {
    assert_eq!(validate_request("isprime", Some(7)), Err(RequestError::UnknownMethod));
    assert_eq!(validate_request("", Some(7)), Err(RequestError::UnknownMethod));
    assert_eq!(validate_request("isPrime ", Some(7)), Err(RequestError::UnknownMethod));
    assert_eq!(IS_PRIME, "isPrime");
    assert_eq!(MAL_FORMAT, "}mal");
}

#[test]
fn numbers_from_the_limit_on_are_answered_too() {
    assert_eq!(TEST_LIMIT, 4294967295u64 * 4294967295);
    // Each has a factor that is found at once.
    assert_eq!(validate_request("isPrime", Some(TEST_LIMIT)), Ok(false));
    assert_eq!(validate_request("isPrime", Some(u64::MAX)), Ok(false));
    assert_eq!(validate_request("isPrime", Some(18446744073709551614)), Ok(false));
    assert_eq!(validate_request("isPrime", Some(18446744073709551607)), Ok(false));
    assert_eq!(validate_request("isPrime", Some(18446744073709551611)), Ok(false));
    // 1000003 * 18446688725071: the smallest factor is found after half a
    // million divisions.
    assert_eq!(validate_request("isPrime", Some(18446744065137175213)), Ok(false));
    assert_eq!(validate_request("isPrime", Some(TEST_LIMIT - 1)), Ok(false));
    // The method is still looked at first.
    assert_eq!(validate_request("other", Some(u64::MAX)), Err(RequestError::UnknownMethod));
}

#[test]
fn division_tells_primes_apart() {
    for n in [2u64, 3, 5, 7, 11, 13, 97, 7919, 65537, 1_000_000_007, 999_999_000_001] {
        assert!(test_by_division(n), "{}", n);
        assert!(test_number(n), "{}", n);
    }
    for n in [0u64, 1, 4, 6, 9, 15, 21, 25, 49, 121, 7917, 65535, 999_983 * 999_983] {
        assert!(!test_by_division(n), "{}", n);
        assert!(!test_number(n), "{}", n);
    }
    assert!(!test_by_division(18446744065137175213));
    assert!(!test_by_division(u64::MAX));
}

#[test]
fn division_agrees_with_the_crate() {
    for n in 0..20_000u64 {
        assert_eq!(test_by_division(n), primes::is_prime(n), "{}", n);
        assert_eq!(test_number(n), primes::is_prime(n), "{}", n);
    }
    for n in (4_000_000_000u64..4_000_002_000).chain(1_000_000_000_000..1_000_000_000_200) {
        assert_eq!(test_by_division(n), primes::is_prime(n), "{}", n);
    }
}

#[test]
fn mean_price_of_a_period() {
    let mut store = PriceStore::new();
    store.insert(12345, 101);
    store.insert(12346, 102);
    store.insert(12347, 100);
    store.insert(40960, 5);
    assert_eq!(store.mean(12288, 16384), 101);
    assert_eq!(store.mean(12345, 12345), 101);
    assert_eq!(store.mean(12346, 40960), 69);
    assert_eq!(store.mean(i32::MIN, i32::MAX), 77);
}

#[test]
fn mean_of_an_empty_period_is_zero() {
    let mut store = PriceStore::new();
    assert_eq!(store.mean(0, 100), 0);
    store.insert(5, 10);
    assert_eq!(store.mean(6, 100), 0);
    assert_eq!(store.mean(100, 0), 0);
    assert_eq!(store.mean(5, 4), 0);
}

#[test]
fn mean_is_rounded_towards_zero() {
    let mut store = PriceStore::new();
    store.insert(1, -3);
    store.insert(2, -4);
    assert_eq!(store.mean(1, 2), -3);
    store.insert(3, 10);
    assert_eq!(store.mean(1, 3), 1);
    store.insert(4, 4);
    store.insert(5, -8);
    assert_eq!(store.mean(1, 5), 0);
    assert_eq!(store.mean(4, 5), -2);
}

#[test]
fn mean_of_extreme_prices_does_not_overflow() {
    let mut store = PriceStore::new();
    store.insert(1, i32::MAX);
    store.insert(2, i32::MAX);
    store.insert(3, i32::MAX);
    assert_eq!(store.mean(1, 3), i32::MAX);
    store.insert(-1, i32::MIN);
    store.insert(-2, i32::MIN);
    assert_eq!(store.mean(-2, -1), i32::MIN);
    assert_eq!(store.mean(-1, 1), 0);
}

#[test]
fn later_price_replaces_the_earlier_one() {
    let mut store = PriceStore::new();
    store.insert(7, 100);
    store.insert(8, 200);
    store.insert(7, 400);
    assert_eq!(store.mean(7, 7), 400);
    assert_eq!(store.mean(7, 8), 300);
}

#[test]
fn addresses_are_replaced() {
    assert_eq!(
        rewrite("Hi alice, please send payment to 7iKDZEwPZSqIvDnHvVN2r0hUWXD5rHX"),
        format!("Hi alice, please send payment to {}", OWN)
    );
    assert_eq!(rewrite("7F1u3wSD5RbOHQmupo9nx4TnhQ3"), OWN);
    assert_eq!(
        rewrite("7F1u3wSD5RbOHQmupo9nx4TnhQ3 and 7LOrwbDlS8NujgjddyogWgIM93MV5N2VR x"),
        format!("{} and {} x", OWN, OWN)
    );
    assert_eq!(rewrite(OWN), OWN);
}

#[test]
fn words_that_are_no_address_stay() {
    for line in [
        "",
        " ",
        "  ",
        "hello world",
        "7",
        "7F1u3wSD5RbOHQmupo9nx4Tnh",
        "7F1u3wSD5RbOHQmupo9nx4TnhQ3F1u3wSD5RbO",
        "8F1u3wSD5RbOHQmupo9nx4TnhQ3",
        "7F1u3wSD5RbOHQmupo9nx4TnhQ3-1234",
        "x7F1u3wSD5RbOHQmupo9nx4TnhQ3",
        "7F1u3wSD5RbOHQmupo9nx4TnhQ3\t7F1u3wSD5RbOHQmupo9nx4TnhQ3",
        "7F1u3wSD5RbOHQmupo9nx4Tnhé3",
        "7F1u3wSD5RbOHQmupo9nx4_TnhQ3",
    ] {
        assert_eq!(rewrite(line), line);
    }
}

#[test]
fn address_lengths_from_26_to_35() {
    for n in 0..40usize {
        let mut word = String::from("7");
        while word.len() < n {
            word.push('a');
        }
        let is = (26..=35).contains(&word.len());
        assert_eq!(is_coin_address(word.as_bytes()), is, "{}", word);
        let line = format!("a {} b", word);
        let expected = if is { format!("a {} b", OWN) } else { line.clone() };
        assert_eq!(rewrite(&line), expected);
    }
    assert!(!is_coin_address(b""));
    assert_eq!(own_address_bytes(), OWN.as_bytes());
    assert!(is_coin_address(OWN.as_bytes()));
}

#[test]
fn rewriting_agrees_with_the_pattern() {
    let a = "7F1u3wSD5RbOHQmupo9nx4TnhQ3";
    let b = "7YWHMfk9JZe0LM0g1ZauHuiSxhI7YWHMf";
    let long = "7aaaaaaaaaaaaaaaaaaaaaaaaaaaaaaaaaaa";
    let lines = vec![
        String::new(),
        " ".to_string(),
        a.to_string(),
        format!(" {}", a),
        format!("{} ", a),
        format!(" {} ", a),
        format!("  {}  {}  ", a, b),
        format!("{} {}", a, a),
        format!("{}  {}", a, a),
        format!("{}-{} {}", a, a, b),
        format!("{}\n", a),
        format!("{}\n{}", a, a),
        format!("pay {} or {} now", long, &long[..35]),
        format!("{}{}", a, a),
        format!("[bob] {}", b),
        "7 7 7".to_string(),
        format!("é {} é", a),
    ];
    for line in lines.iter() {
        assert_eq!(rewrite(line), rewrite_by_pattern(line), "{:?}", line);
    }
}
