//! Cursors, ranges and counting.

pub mod count;
pub mod cursor;
pub mod laws;
pub mod range;
pub mod scan;
