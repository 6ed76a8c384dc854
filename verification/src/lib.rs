//! Save-memory images of the LittleSoundDJ tracker: the block compression
//! codec, the song filesystem built on it, and the containers around them.

pub mod codec;
pub mod collect;
pub mod export;
pub mod fs;
pub mod import;
pub mod inspect;
pub mod io;
pub mod kit;
pub mod lsdsng;
pub mod name;
pub mod sav;
pub mod song;
pub mod sram;
