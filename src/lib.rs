use vstd::prelude::*;

pub mod crc32;
pub mod cvec;
pub mod error;
pub mod gz;
pub mod gz_reader;
pub mod header;
pub mod huffman;
pub mod inflate;

verus! {

} // verus!
