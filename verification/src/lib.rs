//! A time-tracking engine: projects hold named blocks, blocks collect dated
//! entries of minutes, reports aggregate them, and a sweeper drops entries
//! that have aged out of a project's refresh period.
//!
//! - [`period`] reads refresh periods such as `7d` and `2w`.
//! - [`date`] holds calendar days and their arithmetic.
//! - [`model`] says what a store holds and what each operation does to it.
//! - [`store`] keeps the tables of projects, blocks and entries.
//! - [`report`] computes the totals per block and per day.
//! - [`sweeper`] deletes what is older than a project's refresh period.
//! - [`engine`] is the facade with the six operations that callers see.
//! - [`codec`] and [`persist`] define the stored form and write and read it.
//! - [`laws`] states what holds of every store.
//! - [`text`] compares names, and [`error`] names the ways to fail.

pub mod error;
pub mod text;
pub mod date;
pub mod period;
pub mod model;
pub mod store;
pub mod report;
pub mod sweeper;
pub mod engine;
pub mod laws;
pub mod codec;
pub mod persist;
