//! The primality service: request method check and the primality test.
use vstd::prelude::*;

verus! {

/// The validation error type of the `validator` crate, carried through
/// unchanged: the service reports its code back to the request validator.
#[verifier::external_type_specification]
#[verifier::external_body]
pub struct ExValidationError(validator::ValidationError);

/// Builds a `validator::ValidationError` with the given code through
/// `ValidationError::new`. Nothing is claimed of the value built: its fields
/// are only read by the validator crate.
#[verifier::external_body]
fn new_validation_error(code: &'static str) -> (e: validator::ValidationError) {
    validator::ValidationError::new(code)
}

/// The one method name the service answers.
pub open spec fn accepted_method() -> Seq<char> {
    seq!['i', 's', 'P', 'r', 'i', 'm', 'e']
}

/// Checks the `method` field of a request: only `isPrime` is accepted.
pub fn validate_method(method: &str) -> (r: Result<(), validator::ValidationError>)
    ensures
        r is Ok <==> method@ == accepted_method(),
{
    let expected = "isPrime";
    proof {
        reveal_strlit("isPrime");
        assert(expected@ =~= accepted_method());
    }
    if crate::text::str_equal(method, expected) {
        Ok(())
    } else {
        Err(new_validation_error("Method must be isPrime"))
    }
}

/// `d` divides `x` (for `d != 0`).
pub open spec fn divides(d: int, x: int) -> bool {
    x % d == 0
}

/// `x` is a prime number: greater than one and with no divisor strictly
/// between one and itself.
pub open spec fn is_prime_number(x: int) -> bool {
    &&& x > 1
    &&& forall|d: int| 2 <= d < x ==> !divides(d, x)
}

/// The least divisor of `x` that is at least two (for `x >= 2`).
pub open spec fn is_least_factor(x: int, f: int) -> bool {
    &&& 2 <= f <= x
    &&& divides(f, x)
    &&& forall|d: int| 2 <= d < f ==> !divides(d, x)
}

proof fn lemma_cofactor_small(x: int, n: int, d: int)
    requires
        3 <= n,
        n * n > x,
        n <= d < x,
        x % d == 0,
    ensures
        2 <= x / d < n,
        x % (x / d) == 0,
{
    let e = x / d;
    vstd::arithmetic::div_mod::lemma_fundamental_div_mod(x, d);
    assert(x == d * e);
    assert(e >= 2) by (nonlinear_arith)
        requires x == d * e, d < x, d > 0;
    assert(e < n) by (nonlinear_arith)
        requires x == d * e, n * n > x, d >= n, n > 0, e >= 0;
    assert(x % e == 0) by (nonlinear_arith)
        requires x == d * e, e > 0;
}

/// The smallest factor of `x`: for `x >= 2` it is the least divisor of
/// `x` that is at least two (so `x` itself when `x` is prime). Below two,
/// even numbers give two and odd numbers give themselves.
pub fn firstfac(x: i64) -> (f: i64)
    ensures
        x >= 2 ==> is_least_factor(x as int, f as int),
        x < 2 ==> f == (if x % 2 == 0 { 2 } else { x }),
{
    if x % 2 == 0 {
        return 2;
    }
    if x < 9 {
        // 3, 5 and 7 are prime; 1 and the negative odd numbers give themselves.
        proof {
            if x >= 2 {
                assert forall|d: int| 2 <= d < x implies !divides(d, x as int) by {
                    assert(d == 2 || d == 3 || d == 4 || d == 5 || d == 6);
                }
            }
        }
        return x;
    }
    let mut n: i64 = 3;
    while n <= x / n
        invariant
            9 <= x,
            x % 2 != 0,
            3 <= n,
            n % 2 == 1,
            (n - 2) * (n - 2) <= x,
            forall|d: int| 2 <= d < n ==> !divides(d, x as int),
        decreases x - n,
    {
        proof {
            assert(n * n <= x) by (nonlinear_arith)
                requires n <= x / n, n > 0, x >= 0;
            assert(n < x) by (nonlinear_arith)
                requires n * n <= x, n >= 3;
        }
        if x % n == 0 {
            return n;
        }
        proof {
            assert(n * n <= x) by (nonlinear_arith)
                requires n <= x / n, n > 0, x >= 0;
            assert forall|d: int| 2 <= d < n + 2 implies !divides(d, x as int) by {
                if d == n + 1 {
                    assert(d % 2 == 0);
                    if (x as int) % d == 0 {
                        let k = (x as int) / d;
                        vstd::arithmetic::div_mod::lemma_fundamental_div_mod(x as int, d);
                        vstd::arithmetic::div_mod::lemma_fundamental_div_mod(d, 2);
                        assert(x == 2 * ((d / 2) * k)) by (nonlinear_arith)
                            requires x == d * k, d == 2 * (d / 2);
                        vstd::arithmetic::div_mod::lemma_mod_multiples_basic((d / 2) * k, 2);
                        assert(x % 2 == 0);
                    }
                }
            }
        }
        n = n + 2;
    }
    proof {
        assert(n * n > x) by (nonlinear_arith)
            requires n > x / n, n > 0, x >= 0;
        assert forall|d: int| 2 <= d < x implies !divides(d, x as int) by {
            if d >= n && (x as int) % d == 0 {
                lemma_cofactor_small(x as int, n as int, d);
                assert(!divides((x as int) / d, x as int));
            }
        }
    }
    x
}

/// Whether `n` is a prime number.
pub fn is_prime(n: i64) -> (b: bool)
    ensures
        b == is_prime_number(n as int),
{
    if n <= 1 {
        return false;
    }
    firstfac(n) == n
}

} // verus!
