//! The programs that try out the sockets, the screen and the keyboard: a
//! server, a client that it is tried with, and what the two say to each other.
pub mod bss;
pub mod comp;
pub mod frame;
pub mod gfx;
pub mod input;
pub mod poll;
pub mod sockc;
pub mod sockd;
