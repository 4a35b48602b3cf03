//! Game-neutral framing for messages carried inside Source 2 packets.
//!
//! A packet payload is a bit stream of messages, each a `ubitvar` message
//! type, a varint byte length and that many payload bytes, not necessarily
//! byte-aligned. Up to one final byte of padding is ignored.

use vstd::prelude::*;

use crate::error::{failure_is, Error, Failure};
use crate::io::bits::{
    bytes_at, lemma_bytes_at_aligned, lemma_varint_bound, low_u32, read_failure, stream_bits,
    ubitvar_read, varint_bits_read, varint_read, Decoded, VarintRead,
};
use crate::io::BitReader;
use crate::limits::{DecodeLimits, LimitsModel};
use crate::text::{digits, push_decimal};

verus! {

/// One framed message as values.
pub struct PacketFrameModel {
    pub index: usize,
    pub bit_offset: usize,
    pub payload_bit_offset: usize,
    pub end_bit_offset: usize,
    pub message_type: u32,
    pub encoded_size: usize,
    pub data: Seq<u8>,
}

/// What the message iterator yields.
pub enum PacketItem {
    /// A framed message.
    Frame(PacketFrameModel),
    /// The message at `bit_offset` could not be framed; its type is known
    /// when it was read.
    Fail { bit_offset: usize, message_type: Option<u32>, failure: Failure },
}

/// `e` is the error reported for the message at `bit_offset`.
pub open spec fn packet_error_is(e: Error, bit_offset: usize, message_type: Option<u32>, failure: Failure) -> bool {
    e matches Error::PacketMessage { bit_offset: b, message_type: t, source } && b == bit_offset
        && t == message_type && failure_is(*source, failure)
}

/// Message of a payload size whose bit length overflows.
pub open spec fn size_overflow_message(size: usize) -> Seq<char> {
    "inner packet message size "@ + digits(size as nat) + " overflows bit length"@
}

/// The next message of `data` from bit `pos`, and where it leaves the reader.
pub open spec fn next_message(data: Seq<u8>, pos: nat, index: nat, lim: LimitsModel) -> Option<(PacketItem, nat)> {
    let bits = stream_bits(data);
    if bits.len() - pos <= 8 {
        None
    } else {
        let at = pos as usize;
        match ubitvar_read(bits, pos as int) {
            Decoded::Value { value: t, len: l1 } => {
                let kind = t as u32;
                match varint_bits_read(bits, (pos + l1) as int, 5) {
                    Decoded::Value { value: v, len: l2 } => {
                        let size = low_u32(v) as usize;
                        let start = pos + l1 + l2;
                        if size > lim.max_packet_message_bytes {
                            Some(
                                (
                                    PacketItem::Fail {
                                        bit_offset: at,
                                        message_type: Some(kind),
                                        failure: Failure::Exact(
                                            Error::LimitExceeded {
                                                resource: "inner packet message",
                                                limit: lim.max_packet_message_bytes,
                                                actual: size,
                                            },
                                        ),
                                    },
                                    start,
                                ),
                            )
                        } else if 8 * size > usize::MAX {
                            Some(
                                (
                                    PacketItem::Fail {
                                        bit_offset: at,
                                        message_type: Some(kind),
                                        failure: Failure::Parse(size_overflow_message(size)),
                                    },
                                    start,
                                ),
                            )
                        } else if start + 8 * size > bits.len() {
                            Some(
                                (
                                    PacketItem::Fail {
                                        bit_offset: at,
                                        message_type: Some(kind),
                                        failure: Failure::Exact(
                                            Error::Overflow {
                                                needed: (8 * size) as usize,
                                                available: (bits.len() - start) as usize,
                                            },
                                        ),
                                    },
                                    start,
                                ),
                            )
                        } else {
                            Some(
                                (
                                    PacketItem::Frame(
                                        PacketFrameModel {
                                            index: index as usize,
                                            bit_offset: at,
                                            payload_bit_offset: start as usize,
                                            end_bit_offset: (start + 8 * size) as usize,
                                            message_type: kind,
                                            encoded_size: size,
                                            data,
                                        },
                                    ),
                                    (start + 8 * size) as nat,
                                ),
                            )
                        }
                    },
                    d => Some(
                        (
                            PacketItem::Fail {
                                bit_offset: at,
                                message_type: Some(kind),
                                failure: read_failure(d),
                            },
                            pos + l1,
                        ),
                    ),
                }
            },
            d => Some((PacketItem::Fail { bit_offset: at, message_type: None, failure: read_failure(d) }, pos)),
        }
    }
}

/// A message header takes bits and stays inside the stream.
pub proof fn lemma_message_len(data: Seq<u8>, pos: nat, index: nat, lim: LimitsModel)
    requires
        pos <= stream_bits(data).len(),
    ensures
        next_message(data, pos, index, lim) matches Some((PacketItem::Frame(_), next)) ==> pos < next
            <= stream_bits(data).len(),
{
    let bits = stream_bits(data);
    if let Decoded::Value { value: _, len: l1 } = ubitvar_read(bits, pos as int) {
        lemma_varint_bound(crate::io::bits::bytes_at(bits, (pos + l1) as int), 0, 5);
    }
}

/// Every message from bit `pos` on: frames until at most eight bits are
/// left, or up to and including the first failure.
pub open spec fn packet_items(data: Seq<u8>, pos: nat, index: nat, lim: LimitsModel) -> Seq<PacketItem>
    decreases stream_bits(data).len() - pos,
{
    if pos > stream_bits(data).len() {
        Seq::empty()
    } else {
        proof {
            lemma_message_len(data, pos, index, lim);
        }
        match next_message(data, pos, index, lim) {
            None => Seq::empty(),
            Some((PacketItem::Frame(f), next)) => seq![PacketItem::Frame(f)] + packet_items(
                data,
                next,
                index + 1,
                lim,
            ),
            Some((item, _)) => seq![item],
        }
    }
}

/// The failure of a packet of `n` bytes, too long for its bit offsets to
/// fit a `usize`.
pub open spec fn oversize_item(n: nat) -> PacketItem {
    PacketItem::Fail {
        bit_offset: 0,
        message_type: None,
        failure: Failure::Exact(
            Error::LimitExceeded { resource: "packet bytes", limit: (usize::MAX / 8) as usize, actual: n as usize },
        ),
    }
}

/// The messages of a packet: for a packet too long for its bit offsets to
/// fit a `usize`, one limit error; otherwise its framed messages.
pub open spec fn packet_messages(data: Seq<u8>, lim: LimitsModel) -> Seq<PacketItem> {
    if data.len() * 8 > usize::MAX {
        seq![oversize_item(data.len())]
    } else {
        packet_items(data, 0, 0, lim)
    }
}

/// Borrowed framing metadata for one inner packet message.
#[derive(Debug, Clone, Copy)]
pub struct PacketMessageFrame<'a> {
    index: usize,
    bit_offset: usize,
    payload_bit_offset: usize,
    end_bit_offset: usize,
    message_type: u32,
    encoded_size: usize,
    data: &'a [u8],
}

/// The payload of a message lies on a byte boundary and inside the data,
/// so it can be borrowed as it is.
pub open spec fn payload_borrowable(m: PacketFrameModel) -> bool {
    m.payload_bit_offset % 8 == 0 && m.payload_bit_offset / 8 + m.encoded_size <= m.data.len()
}

/// The payload bytes of a framed message.
pub open spec fn payload_bytes(m: PacketFrameModel) -> Seq<u8> {
    bytes_at(stream_bits(m.data), m.payload_bit_offset as int).take(m.encoded_size as int)
}

impl<'a> PacketMessageFrame<'a> {
    /// The frame as values.
    pub closed spec fn model(&self) -> PacketFrameModel {
        PacketFrameModel {
            index: self.index,
            bit_offset: self.bit_offset,
            payload_bit_offset: self.payload_bit_offset,
            end_bit_offset: self.end_bit_offset,
            message_type: self.message_type,
            encoded_size: self.encoded_size,
            data: self.data@,
        }
    }

    /// The payload lies inside the packet, whose bit length fits a `usize`.
    pub closed spec fn wf(&self) -> bool {
        &&& self.data@.len() * 8 <= usize::MAX
        &&& self.payload_bit_offset + 8 * self.encoded_size == self.end_bit_offset
        &&& self.end_bit_offset <= 8 * self.data@.len()
    }

    /// Zero-based message index in this packet.
    pub fn index(&self) -> (r: usize)
        ensures
            r == self.model().index,
    {
        self.index
    }

    /// Bit offset at which the message-type header begins.
    pub fn bit_offset(&self) -> (r: usize)
        ensures
            r == self.model().bit_offset,
    {
        self.bit_offset
    }

    /// Bit offset at which the encoded protobuf payload begins.
    pub fn payload_bit_offset(&self) -> (r: usize)
        ensures
            r == self.model().payload_bit_offset,
    {
        self.payload_bit_offset
    }

    /// Bit offset immediately after the payload.
    pub fn end_bit_offset(&self) -> (r: usize)
        ensures
            r == self.model().end_bit_offset,
    {
        self.end_bit_offset
    }

    /// Source 2 network-message identifier.
    pub fn message_type(&self) -> (r: u32)
        ensures
            r == self.model().message_type,
    {
        self.message_type
    }

    /// Encoded protobuf payload size in bytes.
    pub fn encoded_size(&self) -> (r: usize)
        ensures
            r == self.model().encoded_size,
    {
        self.encoded_size
    }

    /// Borrow the payload directly when it happens to be byte-aligned.
    pub fn payload(&self) -> (r: Option<&'a [u8]>)
        ensures
            payload_borrowable(self.model()) == r is Some,
            ({
                let m = self.model();
                let start = m.payload_bit_offset / 8;
                if m.payload_bit_offset % 8 == 0 && start + m.encoded_size <= m.data.len() {
                    r matches Some(p) && p@ == m.data.subrange(start as int, start + m.encoded_size)
                } else {
                    r is None
                }
            }),
    {
        if self.payload_bit_offset % 8 != 0 {
            return None;
        }
        let start = self.payload_bit_offset / 8;
        let len = self.data.len();
        let end = match start.checked_add(self.encoded_size) {
            Some(e) => e,
            None => {
                return None;
            },
        };
        if end > len {
            return None;
        }
        Some(vstd::slice::slice_subrange(self.data, start, end))
    }

    /// Copy the payload into a reusable, contiguous byte buffer. The buffer
    /// is cleared first.
    pub fn copy_payload(&self, output: &mut Vec<u8>) -> (r: Result<(), Error>)
        requires
            self.wf(),
        ensures
            r is Ok ==> final(output)@ == payload_bytes(self.model()),
            r is Err ==> final(output)@.len() == 0 && r == Err::<(), Error>(
                Error::PacketMessage {
                    bit_offset: self.model().bit_offset,
                    message_type: Some(self.model().message_type),
                    source: Box::new(
                        Error::Allocation {
                            resource: "inner packet message",
                            requested: self.model().encoded_size,
                        },
                    ),
                },
            ),
    {
        let ghost bits = stream_bits(self.data@);
        output.clear();
        if output.try_reserve(self.encoded_size).is_err() {
            return Err(
                Error::PacketMessage {
                    bit_offset: self.bit_offset,
                    message_type: Some(self.message_type),
                    source: Box::new(
                        Error::Allocation { resource: "inner packet message", requested: self.encoded_size },
                    ),
                },
            );
        }
        if let Some(payload) = self.payload() {
            let mut j: usize = 0;
            while j < payload.len()
                invariant
                    j <= payload@.len(),
                    output@ == payload@.take(j as int),
                decreases payload@.len() - j,
            {
                output.push(payload[j]);
                j = j + 1;
                proof {
                    assert(output@ =~= payload@.take(j as int));
                }
            }
            proof {
                let start = self.payload_bit_offset / 8;
                lemma_bytes_at_aligned(self.data@, start as int);
                assert(8 * start == self.payload_bit_offset);
                assert(payload@.take(j as int) =~= payload_bytes(self.model()));
            }
            return Ok(());
        }
        output.resize(self.encoded_size, 0);
        let mut reader = BitReader::new(self.data);
        let skipped = reader.skip_bits(self.payload_bit_offset);
        assert(skipped is Ok);
        let read = reader.read_bytes(output.as_mut_slice());
        assert(read is Ok);
        Ok(())
    }

    /// Borrow an aligned payload or reconstruct an unaligned one in `scratch`.
    ///
    /// The scratch buffer is left untouched when the payload can be
    /// borrowed directly.
    pub fn payload_or_copy<'scratch>(&'scratch self, scratch: &'scratch mut Vec<u8>) -> (r: Result<&'scratch [u8], Error>)
        requires
            self.wf(),
        ensures
            r matches Ok(p) ==> p@ == payload_bytes(self.model()),
            payload_borrowable(self.model()) ==> r is Ok && final(scratch)@ == old(scratch)@,
            !payload_borrowable(self.model()) ==> (r is Ok ==> final(scratch)@ == payload_bytes(self.model())),
            r is Err ==> final(scratch)@.len() == 0 && r == Err::<&[u8], Error>(
                Error::PacketMessage {
                    bit_offset: self.model().bit_offset,
                    message_type: Some(self.model().message_type),
                    source: Box::new(
                        Error::Allocation {
                            resource: "inner packet message",
                            requested: self.model().encoded_size,
                        },
                    ),
                },
            ),
    {
        if let Some(payload) = self.payload() {
            proof {
                let start = self.payload_bit_offset / 8;
                lemma_bytes_at_aligned(self.data@, start as int);
                assert(8 * start == self.payload_bit_offset);
                assert(payload@ =~= payload_bytes(self.model()));
            }
            return Ok(payload);
        }
        match self.copy_payload(scratch) {
            Ok(()) => Ok(scratch.as_slice()),
            Err(e) => Err(e),
        }
    }
}

/// Strict, allocation-free iterator over messages inside a packet payload.
pub struct PacketMessageIter<'a> {
    reader: BitReader<'a>,
    index: usize,
    limits: DecodeLimits,
    failed: bool,
    oversize: Option<usize>,
}

impl<'a> PacketMessageIter<'a> {
    /// The reader is sound and messages are counted.
    pub closed spec fn wf(&self) -> bool {
        &&& self.reader.wf()
        &&& self.index <= self.reader.spec_pos()
    }

    /// The messages this iterator has yet to yield.
    pub closed spec fn remaining(&self) -> Seq<PacketItem> {
        if self.failed {
            Seq::empty()
        } else {
            match self.oversize {
                Some(n) => seq![oversize_item(n as nat)],
                None => packet_items(self.reader.spec_data(), self.reader.spec_pos(), self.index as nat, self.limits@),
            }
        }
    }

    /// The limits in force.
    pub closed spec fn spec_limits(&self) -> LimitsModel {
        self.limits@
    }

    /// Iterate a packet using default decode limits.
    pub fn new(data: &'a [u8]) -> (r: Self)
        ensures
            r.wf(),
            r.remaining() == packet_messages(data@, crate::limits::default_limits()),
            r.spec_limits() == crate::limits::default_limits(),
    {
        Self::with_limits(data, DecodeLimits::default())
    }

    /// Iterate a packet using explicit decode limits.
    pub fn with_limits(data: &'a [u8], limits: DecodeLimits) -> (r: Self)
        ensures
            r.wf(),
            r.remaining() == packet_messages(data@, limits@),
            r.spec_limits() == limits@,
    {
        if data.len() > usize::MAX / 8 {
            let none = vstd::slice::slice_subrange(data, 0, 0);
            return PacketMessageIter { reader: BitReader::new(none), index: 0, limits, failed: false, oversize: Some(data.len()) };
        }
        PacketMessageIter { reader: BitReader::new(data), index: 0, limits, failed: false, oversize: None }
    }

    /// Limits applied to framed payload sizes.
    pub fn limits(&self) -> (r: DecodeLimits)
        ensures
            r@ == self.spec_limits(),
    {
        self.limits
    }

    /// Frame the next message, or `None` once at most eight bits remain or
    /// an error has been reported. An error ends the iteration.
    pub fn next(&mut self) -> (r: Option<Result<PacketMessageFrame<'a>, Error>>)
        requires
            old(self).wf(),
        ensures
            final(self).wf(),
            final(self).spec_limits() == old(self).spec_limits(),
            if old(self).remaining().len() == 0 {
                r is None && final(self).remaining().len() == 0
            } else {
                match old(self).remaining()[0] {
                    PacketItem::Frame(f) => (r matches Some(Ok(frame)) && frame.model() == f && frame.wf())
                        && final(self).remaining() == old(self).remaining().drop_first(),
                    PacketItem::Fail { bit_offset, message_type, failure } => (r matches Some(Err(e))
                        && packet_error_is(e, bit_offset, message_type, failure)) && final(self).remaining()
                        == Seq::<PacketItem>::empty(),
                }
            },
    {
        let ghost data = self.reader.spec_data();
        let ghost pos = self.reader.spec_pos();
        proof {
            self.reader.lemma_valid();
            lemma_message_len(data, pos, self.index as nat, self.limits@);
        }
        if self.failed {
            return None;
        }
        if let Some(n) = self.oversize {
            self.failed = true;
            return Some(
                Err(
                    Error::PacketMessage {
                        bit_offset: 0,
                        message_type: None,
                        source: Box::new(Error::LimitExceeded { resource: "packet bytes", limit: usize::MAX / 8, actual: n }),
                    },
                ),
            );
        }
        if self.reader.bits_remaining() <= 8 {
            return None;
        }
        let bit_offset = self.reader.position();
        let message_type = match self.reader.read_ubitvar() {
            Ok(v) => v,
            Err(error) => {
                self.failed = true;
                return Some(Err(Error::PacketMessage { bit_offset, message_type: None, source: Box::new(error) }));
            },
        };
        let encoded_size = match self.reader.read_uvarint32() {
            Ok(v) => v as usize,
            Err(error) => {
                self.failed = true;
                return Some(
                    Err(Error::PacketMessage { bit_offset, message_type: Some(message_type), source: Box::new(error) }),
                );
            },
        };
        let max = self.limits.max_packet_message_bytes();
        if encoded_size > max {
            self.failed = true;
            return Some(
                Err(
                    Error::PacketMessage {
                        bit_offset,
                        message_type: Some(message_type),
                        source: Box::new(Error::LimitExceeded { resource: "inner packet message", limit: max, actual: encoded_size }),
                    },
                ),
            );
        }
        let payload_bits = match encoded_size.checked_mul(8) {
            Some(v) => v,
            None => {
                self.failed = true;
                let mut context = String::from_str("inner packet message size ");
                push_decimal(&mut context, encoded_size as u64);
                context.append(" overflows bit length");
                return Some(
                    Err(
                        Error::PacketMessage {
                            bit_offset,
                            message_type: Some(message_type),
                            source: Box::new(Error::Parse { context }),
                        },
                    ),
                );
            },
        };
        let payload_bit_offset = self.reader.position();
        if let Err(error) = self.reader.skip_bits(payload_bits) {
            self.failed = true;
            return Some(
                Err(Error::PacketMessage { bit_offset, message_type: Some(message_type), source: Box::new(error) }),
            );
        }
        let frame = PacketMessageFrame {
            index: self.index,
            bit_offset,
            payload_bit_offset,
            end_bit_offset: self.reader.position(),
            message_type,
            encoded_size,
            data: self.reader.data(),
        };
        self.index = self.index + 1;
        Some(Ok(frame))
    }
}

} // verus!
