//! Bit- and byte-level readers and the bit writer used to build payloads.

pub mod bits;
mod bit_reader;
mod bit_writer;
mod byte_reader;

pub use bit_reader::BitReader;
pub use bit_writer::{lemma_uvarint_round_trip, ubitvar_bits, uvarint_bytes, BitWriter};
pub(crate) use bit_writer::lemma_push_zero;
pub use byte_reader::{byte_varint_matches, ByteReader};
