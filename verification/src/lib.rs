//! A test framework for shell scripts: every function named `test...` in a
//! script is a test, and every command in it is an assertion.

pub mod cgroup;
pub mod cli;
pub mod diagnostics;
pub mod diff;
pub mod discovery;
pub mod hierarchy;
pub mod isolation;
pub mod json;
pub mod mounts;
pub mod naming;
pub mod number;
pub mod offsets;
pub mod order;
pub mod output;
pub mod overlay;
pub mod parser;
pub mod path;
pub mod processes;
pub mod root;
pub mod runner;
pub mod scheduler;
pub mod selection;
pub mod setup;
pub mod shell;
pub mod snippet;
pub mod status;
pub mod submounts;
pub mod syntax;
pub mod text;
pub mod utf8;
pub mod words;
pub mod xtrace;
