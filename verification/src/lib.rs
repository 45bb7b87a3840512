//! Codec for Prometheus' on-disk formats: XOR-compressed sample chunks, their
//! framing with a CRC-32C trailer, the chunks file that holds the frames, and
//! as much of the index file as leads from a series to its chunks.
//!
//! Every encoder is specified by the bytes or bits that it appends, every
//! decoder by a mathematical parse of its input, and the two are proved to be
//! inverse: see the `lemma_*_roundtrip` functions of each module.
//!
//! The value of a sample is the bit pattern of an IEEE-754 double, as
//! `f64::to_bits` gives it. Bits are written through `bitstream-io`,
//! checksums are those of the `crc32c` crate and hashes those of
//! `xxhash-rust`: what the library takes from them is stated, not proved,
//! at the functions that call them.

pub mod bit_writer;
pub mod bits;
pub mod bytes;
pub mod chunk;
pub mod chunks;
pub mod crc32c;
pub mod errors;
pub mod folder;
pub mod histogram;
pub mod index;
pub mod repeat;
pub mod series;
pub mod symbol_table;
pub mod toc;
pub mod uvarint;
pub mod uvarint_buffer;
pub mod varbit_ts;
pub mod varbit_xor;
pub mod varint;
pub mod xor;

pub use chunk::read_chunk;
pub use chunk::Chunk;
pub use chunks::read_chunks;
pub use chunks::ChunksDiskFormat;
pub use errors::ParseError;
pub use errors::RustyChunkEncError;
pub use errors::WriteError;
pub use xor::XORSample;
pub use bit_writer::BitBuffer;
pub use uvarint::read_uvarint;
pub use uvarint::write_uvarint;
pub use varint::read_varint;
pub use varint::write_varint;
