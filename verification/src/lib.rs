//! Finds the addresses in a process's memory that hold a value, and narrows
//! them down as the value changes.

pub mod filtered;
pub mod process;
pub mod scan;
pub mod text;
