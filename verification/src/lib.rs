//! Prime generation and counting: a segmented sieve of Eratosthenes with
//! bounded working memory, a Legendre prime counter, and a bisection search
//! that locates the n-th prime without sieving the whole range below it.

pub mod bounds;
pub mod counting;
pub mod primality;
pub mod search;
pub mod sieve;

pub use bounds::lower_bound_for_nth_prime;
pub use bounds::nth_prime_lower_spec;
pub use bounds::nth_prime_upper_spec;
pub use bounds::upper_bound_for_nth_prime;
pub use counting::LegendrePrimeCounter;
pub use primality::int_seq;
pub use primality::is_prime;
pub use primality::prime_count;
pub use primality::primes_upto;
pub use primality::range_primes;
pub use search::count_items_in_range;
pub use search::nth_prime;
pub use sieve::block_sieve;
pub use sieve::isqrt;
pub use sieve::sieve_eratosthenes;
pub use sieve::sieve_segment;
