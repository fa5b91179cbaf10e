//! Device drivers.

pub mod common;
