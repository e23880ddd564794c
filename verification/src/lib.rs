//! Reference computation engine and validation harness for a small set of
//! algorithmic benchmarking challenges: pairwise greatest common divisors,
//! whitespace-token reversal, and a recursive stone-expansion puzzle, together
//! with output validation and timing statistics for candidate programs.

pub mod gcd;
pub mod numfmt;
pub mod obelisk;
pub mod stats;
pub mod text;

pub use gcd::reference_gcd;
pub use gcd::reference_gcd_large_capacity;
pub use gcd::stein_gcd;
pub use gcd::stein_gcd_large_capacity;
pub use obelisk::reference_obelisk_count;
pub use text::reference_reverse;
pub use text::reference_reverse_old;
