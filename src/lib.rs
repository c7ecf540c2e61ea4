//! Reconstruction of a per-day work log from the revision history of work items.
//!
//! Each revision of a work item may carry a cumulative "completed work" value. The
//! library diffs consecutive values to recover the work that each change added, keeps
//! the changes made by one user inside a date window, and sums them per calendar day.
//! Amounts are integers in a fixed unit chosen by the caller (for instance thousandths
//! of an hour); dates are day numbers.

pub mod date;
pub mod totals;
pub mod revision;
pub mod aggregate;
pub mod laws;
