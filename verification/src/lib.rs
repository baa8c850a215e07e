//! Time-ordered unique identifiers and cursor pagination over collections
//! that are keyed by them.
//!
//! [`generator::IdGenerator`] stamps new records with 64-bit identifiers that
//! grow with time. [`pagination::PaginationCursor`] walks a partition of such
//! records backward, one window at a time, and decides for each window
//! whether older records remain.

mod clock;
pub mod forms;
pub mod generator;
pub mod identifier;
pub mod pagination;
pub mod partition;
pub mod walk;
