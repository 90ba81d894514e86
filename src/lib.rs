//! Splits single-line SQL `INSERT INTO ... VALUES (...),(...);` statements so
//! that each value tuple stands on its own line.

pub mod prefix;
pub mod rejoin;
pub mod scanner;
pub mod split;

pub use prefix::{MatcherError, PrefixMatcher};
pub use scanner::{scan_tuples, ScanState};
pub use split::{emit_statement, split_line, SplitLine};
