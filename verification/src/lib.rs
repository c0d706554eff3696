//! A verified work-breakdown-structure (WBS) tree engine.
//!
//! The crate models a project as a tree of tasks addressed by hierarchical
//! identifiers (`1.2.3`), keeps planned-value and actual-cost aggregates of
//! every summary task equal to the sum over its children, and computes
//! earned-value indicators as exact rationals.


pub mod digits;
pub mod error;
pub mod model;
pub mod store;
pub mod subsystem;
pub mod task;
pub mod task_id;
pub mod wsb;
