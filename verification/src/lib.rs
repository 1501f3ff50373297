//! A directory profiler's model: the scanned directories indexed by path, the
//! aggregation of sizes, deep marking, the view tree derived for display,
//! and the decisions of the state actor and of the terminal front end.

pub mod actor;
pub mod cli;
pub mod laws;
pub mod model;
pub mod paths;
pub mod rows;
pub mod scan;
pub mod sorting;
pub mod state;
pub mod text;
pub mod tree;
pub mod types;
pub mod ui;
