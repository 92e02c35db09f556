//! Standalone copies of the primality and factorization entry points.
use vstd::prelude::*;

verus! {

/// Primality by trial division; see `maths::is_prime`.
pub fn is_prime(n: u128) -> (r: bool)
    ensures
        r == (n < 2 || crate::maths::is_prime_spec(n as int)),
{
    crate::maths::is_prime(n)
}

/// Prime factorization, ascending with multiplicity; see
/// `maths::prime_factors`.
pub fn prime_factors(n: u128) -> (r: Vec<u128>)
    ensures
        1 <= n ==> crate::maths::product(r@) == n as int,
        n <= 1 ==> r@.len() == 0,
        forall|i: int| 0 <= i < r@.len() ==> crate::maths::is_prime_spec(r@[i] as int),
        forall|i: int, j: int| 0 <= i <= j < r@.len() ==> r@[i] <= r@[j],
{
    crate::maths::prime_factors(n)
}

} // verus!
