//! The prime service: a request names a method and a number, and the answer
//! says whether the number is prime.
//!
//! Primality is tested by the `primes` crate as far as its arithmetic
//! reaches, and by division, proved here, for the few numbers beyond.
use vstd::arithmetic::div_mod::{
    lemma_div_is_ordered_by_denominator, lemma_fundamental_div_mod, lemma_mod_multiples_basic,
};
use vstd::prelude::*;

verus! {

/// The one method that the service knows.
pub const IS_PRIME: &'static str = "isPrime";

/// What is sent back for a request that is refused.
pub const MAL_FORMAT: &'static str = "}mal";

/// Numbers from here on are not handed to the `primes` crate: its search
/// for a factor squares candidates of up to 32 bits and one more, and that
/// square no longer fits in 64 bits. They are tested by division instead.
pub const TEST_LIMIT: u64 = 0xFFFF_FFFE_0000_0001;

/// Whether `n` is prime: at least two, and divisible by nothing between one
/// and itself.
pub open spec fn is_prime(n: nat) -> bool {
    n >= 2 && forall|d: nat| 2 <= d < n ==> #[trigger] (n % d) != 0
}

/// `primes::is_prime`: whether `n` is prime. The function looks for the
/// smallest factor among two and the odd numbers whose square is at most `n`;
/// the squares are computed in 64 bits, so `n` has to stay below the square
/// of the largest 32-bit number.
#[verifier::external_body]
fn test_prime(n: u64) -> (prime: bool)
    requires
        n < TEST_LIMIT,
    ensures
        prime == is_prime(n as nat),
{
    primes::is_prime(n)
}

/// A product is divisible by both of its factors.
proof fn lemma_factors_divide(q: int, k: int)
    requires
        q > 0,
        k > 0,
    ensures
        (q * k) % k == 0,
        (q * k) % q == 0,
{
    lemma_mod_multiples_basic(q, k);
    lemma_mod_multiples_basic(k, q);
    assert(q * k == k * q) by (nonlinear_arith);
}

/// What an even number divides is even.
proof fn lemma_even_divisor(n: int, k: int)
    requires
        n >= 0,
        k > 0,
        k % 2 == 0,
        n % k == 0,
    ensures
        n % 2 == 0,
{
    let q = n / k;
    let h = k / 2;
    lemma_fundamental_div_mod(n, k);
    lemma_fundamental_div_mod(k, 2);
    assert(n == (h * q) * 2) by (nonlinear_arith)
        requires
            n == k * q,
            k == 2 * h,
    ;
    lemma_mod_multiples_basic(h * q, 2);
}

/// A divisor stands at most as often in a number as the quotient says: a
/// number divided by `d` at least `c` times is at least `c * d`.
proof fn lemma_quotient_bound(n: int, d: int, c: int)
    requires
        n >= 0,
        d > 0,
        n / d >= c,
        c >= 0,
    ensures
        n >= c * d,
{
    lemma_fundamental_div_mod(n, d);
    assert(n % d >= 0) by {
        vstd::arithmetic::div_mod::lemma_mod_bound(n, d);
    }
    assert(d * (n / d) >= c * d) by (nonlinear_arith)
        requires
            d > 0,
            n / d >= c,
            c >= 0,
    ;
}

/// A number that nothing from two up to `d` divides, where `d` times `d` is
/// more than the number, is prime: a larger divisor would come with a smaller
/// one.
proof fn lemma_prime_by_small_divisors(n: nat, d: nat)
    requires
        n >= 2,
        d >= 2,
        d > n / d,
        forall|k: nat| 2 <= k < d ==> #[trigger] (n % k) != 0,
    ensures
        is_prime(n),
{
    assert forall|k: nat| 2 <= k < n implies #[trigger] (n % k) != 0 by {
        if k >= d && n % k == 0 {
            let q = n / k;
            lemma_fundamental_div_mod(n as int, k as int);
            assert(n == k * q);
            assert(q >= 2) by (nonlinear_arith)
                requires
                    n == k * q,
                    k < n,
                    k >= 2,
            ;
            lemma_div_is_ordered_by_denominator(n as int, d as int, k as int);
            assert(q < d);
            lemma_factors_divide(k as int, q as int);
            assert(n % q == 0);
        }
    }
}

/// Whether `n` is prime, found by dividing by two and by the odd numbers
/// whose square is at most `n`.
pub fn test_by_division(n: u64) -> (prime: bool)
    ensures
        prime == is_prime(n as nat),
{
    if n < 2 {
        return false;
    }
    if n < 4 {
        assert(is_prime(n as nat)) by {
            assert forall|k: nat| 2 <= k < n implies #[trigger] ((n as nat) % k) != 0 by {
                assert(k == 2 && n == 3);
            }
        }
        return true;
    }
    if n % 2 == 0 {
        assert((n as nat) % 2nat == 0);
        return false;
    }
    let mut d: u64 = 3;
    while d <= n / d
        invariant
            n >= 4,
            n % 2 == 1,
            3 <= d <= 0x1_0000_0001,
            d % 2 == 1,
            forall|k: nat| 2 <= k < d ==> #[trigger] ((n as nat) % k) != 0,
        decreases 0x1_0000_0001 - d,
    {
        proof {
            if d >= 0x1_0000_0000 {
                lemma_div_is_ordered_by_denominator(n as int, 0x1_0000_0000, d as int);
            }
            lemma_quotient_bound(n as int, d as int, 3);
        }
        if n % d == 0 {
            assert(2 <= d < n && (n as nat) % (d as nat) == 0);
            return false;
        }
        proof {
            assert forall|k: nat| 2 <= k < d + 2 implies #[trigger] ((n as nat) % k) != 0 by {
                if k == d + 1 && (n as nat) % k == 0 {
                    lemma_even_divisor(n as int, k as int);
                }
            }
        }
        d = d + 2;
    }
    proof {
        lemma_prime_by_small_divisors(n as nat, d as nat);
    }
    true
}

/// Whether `n` is prime: asked of the `primes` crate below `TEST_LIMIT`, and
/// found by division from there on.
pub fn test_number(n: u64) -> (prime: bool)
    ensures
        prime == is_prime(n as nat),
{
    if n < TEST_LIMIT {
        test_prime(n)
    } else {
        test_by_division(n)
    }
}

/// Why a request is refused.
#[derive(Clone, Copy, Debug, PartialEq, Eq, Structural)]
pub enum RequestError {
    /// The method is not the one that the service knows.
    UnknownMethod,
}

/// What the answer to a request says. `number` is the request's number where
/// it is a whole number from 0 to 2^64 - 1, and nothing otherwise.
pub open spec fn verdict(method: Seq<char>, number: Option<u64>) -> Result<bool, RequestError> {
    match number {
        None => Ok(false),
        Some(n) => if method != IS_PRIME@ {
            Err(RequestError::UnknownMethod)
        } else {
            Ok(is_prime(n as nat))
        },
    }
}

/// Judges a request: a number that is no whole number of 64 bits is not
/// prime, whatever the method; otherwise the method has to be the known one,
/// and the answer says whether the number is prime, for every number of 64
/// bits.
pub fn validate_request(method: &str, number: Option<u64>) -> (r: Result<bool, RequestError>)
    ensures
        r == verdict(method@, number),
{
    match number {
        None => Ok(false),
        Some(n) => {
            if !same_text(method, IS_PRIME) {
                Err(RequestError::UnknownMethod)
            } else {
                Ok(test_number(n))
            }
        },
    }
}

/// Whether two strings are the same.
fn same_text(a: &str, b: &str) -> (same: bool)
    ensures
        same == (a@ == b@),
{
    let x = a.to_owned();
    let y = b.to_owned();
    x == y
}

} // verus!
