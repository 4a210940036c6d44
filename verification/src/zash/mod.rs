//! `zash`: the shell. It edits a line, remembers lines, expands variables and
//! starts programs.
pub mod characters;
pub mod edit;
pub mod expand;
pub mod row;
pub mod run;
pub mod session;
