//! Verified core of the ZaytOS userland: the process loader and its tables, the
//! virtio block driver's bookkeeping, and the programs that run in Ring 3.
pub mod bytes;
pub mod chars;
pub mod decimal;
pub mod env;
pub mod le;
pub mod less;
pub mod line;
pub mod loader;
pub mod more;
pub mod peers;
pub mod screen;
pub mod spawn;
pub mod starter;
pub mod startup;
pub mod terminal;
pub mod tools;
pub mod userland;
pub mod userlib;
pub mod vfs;
pub mod virtio;
pub mod window;
pub mod zash;
pub mod zi;
