pub mod cards;
pub mod maths;
pub mod primes;
