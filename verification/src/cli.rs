//! The data carried by the command line, free of any argument-parsing
//! machinery: the binary's front end builds these values and hands them in.

pub mod create_go_app;
pub mod init;

use vstd::prelude::*;

use crate::cli::create_go_app::GoArgs;

verus! {

/// The parsed command line.
#[derive(Debug)]
pub struct Cli {
    pub command: Commands,
}

/// The available subcommands.
#[derive(Debug)]
pub enum Commands {
    /// Create a new Go application
    CreateGoApp(GoArgs),
}

} // verus!
