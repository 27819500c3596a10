//! A parallel task runner: task keys, configuration merging, dependency
//! trees with cycle detection, and the scheduling decisions of the executor.
pub mod digraph;
pub mod executor;
mod keyindex;
pub mod path;
pub mod rusk;
pub mod ruskfile;
pub mod taskkey;
pub mod text;
