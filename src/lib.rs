//! The storage stack of a freestanding kernel: sector reads from the
//! primary ATA controller, byte streams over them, a read-only FAT16
//! driver, a registry of filesystem drivers and an `fopen`/`fread`/`fseek`
//! API over paths such as `"0:/dir/file.txt"`.
//!
//! The hardware sits behind [`disk::SectorDevice`]; everything above it is
//! stated against a model of the device's contents and proved.
use vstd::prelude::*;

pub mod disk;
pub mod fat16;
pub mod fat_blob;
pub mod fat_chain;
pub mod fat_lookup;
pub mod file;
pub mod idt;
pub mod path_parser;
pub mod streamer;
pub mod text;

verus! {

} // verus!
