//! Settlement of a group's shared expenses.
//!
//! Given each participant's total spend, the library derives the naive
//! all-pairs debt graph, reduces it to a small set of transfers that leaves
//! every participant with the same net balance, and checks the result against
//! the even split within a fixed tolerance.

pub mod balance;
pub mod graphext;
pub mod laws;
pub mod money;
pub mod payment;
pub mod person;
pub mod text;
