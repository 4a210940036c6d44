//! The small programs: each does one thing to a file, a directory or the
//! clock, says what went wrong and ends with a status.
pub mod cat;
pub mod dirs;
pub mod echo;
pub mod ls;
pub mod rm;
pub mod sh;
pub mod sleep;
pub mod tail;
pub mod touch;
