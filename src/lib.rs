//! A task-list engine: a tree of tasks addressed by dotted positional ids.
use vstd::prelude::*;

pub mod args;
pub mod cli;
pub mod completions;
pub mod error;
pub mod id;
pub mod laws;
pub mod render;
pub mod task_file;
pub mod text;
pub mod tree;
