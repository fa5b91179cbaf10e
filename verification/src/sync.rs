//! Locks and once-only initialisation.

pub mod lazy;
pub mod mutex;
