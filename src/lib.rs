//! A fixed-capacity key/value cache with least-recently-used eviction,
//! together with two small number utilities: a compressor that turns a list
//! of integers into runs, and a counter of the Fibonacci numbers hidden in a
//! string of digits.

pub mod cache;
pub mod fibonacci;
pub mod range;

pub use cache::{CapacityError, DeleteError, LruCache, Node};
pub use fibonacci::{FibonacciCalc, FibonacciEmbed};
pub use range::{ParseFailure, Range, RangeError, Ranges};
