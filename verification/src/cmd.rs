//! The operations that the command line offers.

pub mod dac;
pub mod generate;
pub mod mirror;
pub mod process;
pub mod repair;
