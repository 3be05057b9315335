use protohackers::prime_time::{is_prime, normalize_request, respond, Number, PrimeReply};

#[test]
fn small_numbers() {
    let primes: Vec<u64> = (0..60).filter(|&n| is_prime(n)).collect();
    assert_eq!(primes, vec![2, 3, 5, 7, 11, 13, 17, 19, 23, 29, 31, 37, 41, 43, 47, 53, 59]);
}

#[test]
fn squares_and_large_values() {
    assert!(!is_prime(49));
    assert!(!is_prime(7919 * 7919));
    assert!(is_prime(7919));
    assert!(is_prime(1_000_000_007));
    assert!(!is_prime(u64::MAX));
    assert!(is_prime(4_294_967_291));
    assert!(!is_prime(4_294_967_291 * 3));
}

#[test]
fn normalizing_requests() {
    assert_eq!(normalize_request(b"null\n".to_vec()), "{}\n");
    assert_eq!(normalize_request(vec![0xff, 0xfe, b'\n']), "{}\n");
    assert_eq!(
        normalize_request(b"{\"method\":\"isPrime\",\"number\":7}\n".to_vec()),
        "{\"method\":\"isPrime\",\"number\":7}\n"
    );
    assert_eq!(normalize_request(b"null".to_vec()), "null");
}

#[test]
fn responding() {
    let method = Some(String::from("isPrime"));
    assert!(matches!(respond(&method, Number::Whole(7)), PrimeReply::Answer(true)));
    assert!(matches!(respond(&method, Number::Whole(8)), PrimeReply::Answer(false)));
    assert!(matches!(respond(&method, Number::Other), PrimeReply::Answer(false)));
    assert!(matches!(respond(&method, Number::Absent), PrimeReply::Malformed));
    assert!(matches!(respond(&None, Number::Whole(7)), PrimeReply::Malformed));
    let other = Some(String::from("isprime"));
    assert!(matches!(respond(&other, Number::Whole(7)), PrimeReply::Malformed));
}
