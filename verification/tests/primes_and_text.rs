use playground::primes::{is_prime, try_is_prime};
use playground::text::{format_u64, format_u64_padded, parse_u64};

#[test]
fn is_prime_small_numbers() {
    let expected = [
        (0u64, false),
        (1, false),
        (2, true),
        (3, true),
        (4, false),
        (9, false),
        (15, false),
        (17, true),
        (25, false),
        (49, false),
        (97, true),
        (561, false),
        (7919, true),
    ];
    for (n, answer) in expected {
        assert_eq!(is_prime(n), answer, "n = {}", n);
    }
}

#[test]
fn is_prime_matches_naive_primality_up_to_2000() {
    for n in 0u64..2000 {
        let naive = n >= 2 && (2..n).all(|d| n % d != 0);
        assert_eq!(is_prime(n), naive, "n = {}", n);
    }
}

#[test]
fn is_prime_large_composites_and_primes() {
    // 2^61 - 1 is a Mersenne prime, below the overflow limit.
    assert!(is_prime(2_305_843_009_213_693_951));
    // (2^32 - 1)^2 is composite and at the limit.
    assert!(!is_prime(0xFFFF_FFFE_0000_0001));
    // u64::MAX = 3 * 5 * 17 * 257 * 641 * 65537 * 6700417
    assert!(!is_prime(u64::MAX));
}

#[test]
fn try_is_prime_reports_overflow_on_largest_primes() {
    // 2^64 - 59 is the largest prime below 2^64.
    assert_eq!(try_is_prime(18_446_744_073_709_551_557), None);
    assert_eq!(try_is_prime(18_446_744_073_709_551_556), Some(false));
    assert_eq!(try_is_prime(13), Some(true));
}

#[test]
fn decimal_formatting() {
    assert_eq!(format_u64(0), "0");
    assert_eq!(format_u64(7), "7");
    assert_eq!(format_u64(1000), "1000");
    assert_eq!(format_u64(u64::MAX), "18446744073709551615");
    assert_eq!(format_u64_padded(12, 8), "      12");
    assert_eq!(format_u64_padded(123456789, 8), "123456789");
}

#[test]
fn decimal_parsing_follows_str_parse() {
    let cases = [
        "0", "42", "+42", "007", "", "+", "-1", "-0", " 1", "1 ", "12a",
        "18446744073709551615", "18446744073709551616", "99999999999999999999999", "++1",
    ];
    for case in cases {
        assert_eq!(parse_u64(case), case.parse::<u64>().ok(), "case {:?}", case);
    }
}

#[test]
fn decimal_round_trip() {
    for n in [0u64, 1, 9, 10, 99, 100, 65535, 1 << 40, u64::MAX] {
        assert_eq!(parse_u64(&format_u64(n)), Some(n));
    }
}
