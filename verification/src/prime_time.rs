//! Primality, as answered by the primality service.
use vstd::prelude::*;
use vstd::utf8::{valid_utf8, decode_utf8};
use crate::tcp::string_from_utf8;

verus! {

/// `n` is a prime number: greater than one and divisible by no number
/// strictly between one and itself.
pub open spec fn is_prime_spec(n: nat) -> bool {
    &&& n > 1
    &&& forall|k: nat| 2 <= k < n ==> #[trigger] (n % k) != 0
}

/// If `k` divides `n` and `k` is at least `d`, with `d * d > n`, then the
/// cofactor `n / k` is a divisor of `n` smaller than `d`.
proof fn lemma_small_cofactor(n: nat, d: nat, k: nat)
    requires
        2 <= d,
        d <= k < n,
        n % k == 0,
        d * d > n,
    ensures
        2 <= n / k < d,
        n % (n / k) == 0,
{
    let m = n / k;
    assert(n == k * m) by (nonlinear_arith)
        requires k > 0, n % k == 0, m == n / k;
    assert(m >= 2) by (nonlinear_arith)
        requires n == k * m, k < n, k > 0;
    assert(m < d) by (nonlinear_arith)
        requires n == k * m, d <= k, d * d > n, m >= 0;
    assert(n % m == 0) by (nonlinear_arith)
        requires n == k * m, m > 0;
}

/// Decides whether `n` is prime by trial division up to its square root.
pub fn is_prime(n: u64) -> (res: bool)
    ensures
        res == is_prime_spec(n as nat),
{
    if n <= 1 {
        return false;
    }
    let mut d: u64 = 2;
    while d <= n / d
        invariant
            n > 1,
            2 <= d,
            d <= n || d * d > n,
            forall|k: nat| 2 <= k < d ==> #[trigger] (n as nat % k) != 0,
        decreases n - d,
    {
        if n % d == 0 {
            assert(d < n) by (nonlinear_arith)
                requires d <= n / d, d >= 2, n > 1;
            return false;
        }
        assert(d + 1 <= n) by (nonlinear_arith)
            requires d <= n / d, d >= 2, n > 1;
        d = d + 1;
    }
    assert(d * d > n) by (nonlinear_arith)
        requires d > n / d, d >= 2;
    assert forall|k: nat| 2 <= k < n implies #[trigger] (n as nat % k) != 0 by {
        if k >= d && n as nat % k == 0 {
            lemma_small_cofactor(n as nat, d as nat, k);
            let m = n as nat / k;
            assert(n as nat % m != 0);
        }
    }
    true
}


/// The number that a request carried, as far as primality is concerned.
pub enum Number {
    /// The request held no number.
    Absent,
    /// A number that is not a whole number greater than one.
    Other,
    /// A whole number greater than one, saturated to the range of `u64`.
    Whole(u64),
}

/// What the service answers to one well-formed or malformed request.
pub enum PrimeReply {
    /// The request is malformed: the service answers with a malformed
    /// line and closes the connection.
    Malformed,
    /// The request is well-formed; the answer says whether its number is
    /// prime.
    Answer(bool),
}

/// The request line as it is handed to the JSON parser: its text, except
/// that a line that is not valid UTF-8, and the line `null`, both become
/// the empty object `{}`.
pub fn normalize_request(line: Vec<u8>) -> (res: String)
    ensures
        res@ == if valid_utf8(line@) && decode_utf8(line@) != "null\n"@ {
            decode_utf8(line@)
        } else {
            "{}\n"@
        },
{
    match string_from_utf8(line) {
        Ok(text) => {
            if text == "null\n".to_owned() {
                "{}\n".to_owned()
            } else {
                text
            }
        },
        Err(_) => "{}\n".to_owned(),
    }
}

/// The method name that a well-formed request carries.
pub open spec fn is_prime_method(method: Option<String>) -> bool {
    method matches Some(m) && m@ == "isPrime"@
}

/// Answers a parsed request: it is malformed unless its method is
/// `isPrime` and it holds a number; a well-formed request is answered
/// whether its number is a prime.
pub fn respond(method: &Option<String>, number: Number) -> (res: PrimeReply)
    ensures
        !is_prime_method(*method) || number is Absent ==> res is Malformed,
        is_prime_method(*method) && !(number is Absent) ==> res == PrimeReply::Answer(
            number matches Number::Whole(n) && is_prime_spec(n as nat),
        ),
{
    let well_formed_method = match method {
        Some(m) => *m == "isPrime".to_owned(),
        None => false,
    };
    if !well_formed_method {
        return PrimeReply::Malformed;
    }
    match number {
        Number::Absent => PrimeReply::Malformed,
        Number::Other => PrimeReply::Answer(false),
        Number::Whole(n) => PrimeReply::Answer(is_prime(n)),
    }
}

/// A product of two factors, each at least two, is never prime; and a
/// number greater than one that is no such product is prime.
pub proof fn law_prime_iff_no_factorization(n: nat)
    ensures
        is_prime_spec(n) <==> (n > 1 && forall|a: nat, b: nat| a >= 2 && b >= 2 ==> #[trigger] (a * b) != n),
{
    if is_prime_spec(n) {
        assert forall|a: nat, b: nat| a >= 2 && b >= 2 implies #[trigger] (a * b) != n by {
            if a * b == n {
                assert(a < n && n % a == 0) by (nonlinear_arith)
                    requires a >= 2, b >= 2, a * b == n;
                assert(n % a != 0);
            }
        }
    }
    if n > 1 && forall|a: nat, b: nat| a >= 2 && b >= 2 ==> #[trigger] (a * b) != n {
        assert forall|k: nat| 2 <= k < n implies #[trigger] (n % k) != 0 by {
            if n % k == 0 {
                let b = n / k;
                assert(k * b == n && b >= 2) by (nonlinear_arith)
                    requires 2 <= k < n, n % k == 0, b == n / k;
                assert(k * b != n);
            }
        }
    }
}

/// No composite is called prime: for any factors `a, b` of at least two,
/// `is_prime` answers false on their product.
pub proof fn law_composite_not_prime(a: nat, b: nat)
    requires
        a >= 2,
        b >= 2,
    ensures
        !is_prime_spec(a * b),
{
    law_prime_iff_no_factorization(a * b);
}

} // verus!
