//! Validation of a number stream in which every number past an initial
//! prefix has to be the sum of two of the numbers right before it.
//!
//! [`find_dangerous_number`] scans a sequence for the first number that is
//! not such a sum. [`calculate_sums`] and [`get_indexes`] build and address a
//! table of pair sums that answers the same question by lookup.
//! [`parse_numbers`] and [`parse_window_size`] read the input of a scan from
//! text.

pub mod decimal;
pub mod input;
pub mod pair_table;
pub mod validator;

pub use input::{parse_numbers, parse_window_size};
pub use pair_table::{calculate_sums, get_indexes};
pub use validator::find_dangerous_number;
