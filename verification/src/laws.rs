//! What holds of the library's operations, stated over their inputs and their
//! results.

pub mod chart;
pub mod exits;
pub mod fields;
pub mod memory;
pub mod numbers;
pub mod records;
pub mod roots;
pub mod rows;
pub mod shift;
pub mod spans;
pub mod status;
pub mod timeline;
pub mod views;
