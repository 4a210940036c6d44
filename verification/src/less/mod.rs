//! `less`: shows a file by the screen.
pub mod doc;
pub mod opening;
pub mod pager;
pub mod picture;
pub mod session;
