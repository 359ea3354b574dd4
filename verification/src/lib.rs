//! Verified core of a small developer tool: a staged-file gate that blocks a
//! `git push` when disallowed paths (build artifacts, secrets, IDE folders)
//! are staged, plus the pure helpers of the surrounding scaffolding CLI.

pub mod cli;
pub mod git;
pub mod rules;
pub mod scaffold;
pub mod validation;
