//! LZ77 compression and decompression in the byte format used by some Konami
//! game-data containers: a 4 KiB sliding window, groups of eight tokens led
//! by a flag byte, and two-byte back-references.
pub mod frame;
pub mod greedy;
pub mod lz77;
