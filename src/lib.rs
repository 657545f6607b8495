//! A repository of test results: a verified core for recording test runs, balancing
//! tests across workers and tracking the tests that currently fail.
//!
//! - `model`: test ids, statuses, results and runs.
//! - `stream`: reading and writing the binary event stream of test runners.
//! - `progress`: reading a live stream while reporting progress and test output.
//! - `partition`: splitting tests across workers by recorded duration.
//! - `grouping`: grouping tests by a pattern, and splitting whole groups.
//! - `failing`: the currently failing set and how runs change it.
//! - `store`: run numbering, the failing set and the duration history together.
//! - `orchestrator`: the decisions of a run: test selection, worker tags, merging and
//!   the outcome.
//! - `text`: test lists, command templates and display names.
//! - `isolation`: the search for the tests that make a target test fail.
//! - `commands`: the options that each command runs with.

pub mod model;
pub mod failing;
pub mod partition;
pub mod frame;
pub mod stream;
pub mod progress;
pub mod grouping;
pub mod store;
pub mod orchestrator;
pub mod commands;
pub mod text;
pub mod isolation;
