//! `zi`: an editor in the manner of vi.
pub mod buffer;
pub mod characters;
pub mod draw;
pub mod editor;
pub mod memory;
pub mod opening;
pub mod picture;
pub mod session;
pub mod text;
pub mod turn;
