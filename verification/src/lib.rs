//! Game-neutral parsing infrastructure for Valve Source 2 demo files.
//!
//! The crate owns the PBDEMS2 container framing, the bit encodings used
//! inside packets, string tables, class information, and the neutral field
//! metadata dispatch. Its functions carry contracts that Verus proves; the
//! few calls into `std`, `snap` and `rustc-hash` that Verus cannot read
//! (Snappy decompression, the class indexes, lossy UTF-8 conversion, I/O
//! error text) sit behind small trusted wrappers whose contracts state what
//! those functions document.

pub mod alloc_probe;
pub mod capture;
pub mod chars;
pub mod demo;
pub mod entity;
pub mod error;
pub mod fixtures;
pub mod inspect;
pub mod io;
pub mod limits;
pub mod packet;
pub mod path_records;
pub mod playback;
pub mod render;
pub mod snappy;
pub mod sorted;
pub mod text;

pub use error::{Error, Result};
pub use limits::DecodeLimits;
pub use packet::{PacketMessageFrame, PacketMessageIter};
pub use playback::DemoParser;
