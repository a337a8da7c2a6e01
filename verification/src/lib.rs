//! Addressable minimum-priority queues keyed by dense integer identifiers.
//!
//! Priorities are IEEE-754 single-precision values held as their 32-bit
//! patterns; every comparison is numeric, carried out on the patterns.

pub mod priority;
pub mod min_finder;
pub mod slots;
pub mod heap;
pub mod binary_heap;
pub mod vectorized_heap;
pub mod vectorized_heap2;
