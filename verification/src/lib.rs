//! A collection of small verified calculators: interval merging, quicksort,
//! calendar-date facts, retirement-date projection, distinct-token counting,
//! numeric base conversion, greedy coin change, and odd-Fibonacci sums.

pub mod baseconv;
pub mod calendar;
pub mod coins;
pub mod intervals;
pub mod dates;
pub mod distinct;
pub mod fib;
pub mod retirement;
pub mod sorting;
pub mod strutil;
pub mod trading;
