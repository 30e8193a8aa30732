//! Time-of-use electricity tariffs: the bank-holiday and base-counter
//! mini-languages, and the table that gives each hour of the day its rate period.

pub mod calendar;
pub mod cli;
pub mod cmd;
pub mod error;
pub mod gather;
pub mod holidays;
pub mod text;
pub mod utils;
