//! Primality of unsigned integers up to 128 bits, and the nearest primes
//! below and above a number, by trial division or by a growing sieve.
pub mod big_prime;
pub mod laws;
pub mod oracle;
pub mod parse;
pub mod primes;
pub mod sieve;
