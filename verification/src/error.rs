//! Error and result types shared by every fallible operation in the crate.

use vstd::prelude::*;

use crate::text::{digits, push_decimal, push_signed, signed_digits};

verus! {

#[verifier::external_type_specification]
#[verifier::external_body]
pub struct ExIoError(std::io::Error);

/// Errors that can occur while parsing a demo file.
///
/// Malformed input produces an error rather than a panic, so a corrupt demo
/// can be reported and skipped instead of taking the process down.
#[derive(Debug)]
#[non_exhaustive]
pub enum Error {
    /// The underlying reader or file failed.
    Io(std::io::Error),
    /// The file does not begin with the `PBDEMS2\0` magic prefix.
    InvalidMagic {
        /// The eight bytes actually found at the start of the file.
        got: [u8; 8],
    },
    /// A read ran past the end of the available data.
    Overflow {
        /// Bits the read required.
        needed: usize,
        /// Bits still available in the stream.
        available: usize,
    },
    /// Snappy decompression of a command body or string-table payload failed.
    Decompress(String),
    /// A declared size exceeded the corresponding [`crate::DecodeLimits`] cap.
    LimitExceeded {
        /// Name of the limit that tripped.
        resource: &'static str,
        /// Configured ceiling for the resource.
        limit: usize,
        /// Size the demo asked for.
        actual: usize,
    },
    /// A within-limits allocation was still refused by the allocator.
    Allocation {
        /// Name of the buffer being reserved.
        resource: &'static str,
        /// Byte count that could not be reserved.
        requested: usize,
    },
    /// Wraps a failure with the position of the command that produced it.
    Command {
        /// Absolute byte offset of the command in the file.
        offset: usize,
        /// Command identifier, when the header was read far enough to know it.
        command: Option<i32>,
        /// Demo tick, when the header was read far enough to know it.
        tick: Option<i32>,
        /// The underlying failure.
        source: Box<Error>,
    },
    /// Wraps a failure with the position and type of an inner packet message.
    PacketMessage {
        /// Bit offset of the message-type header within its packet payload.
        bit_offset: usize,
        /// Message identifier, when framing was read far enough to know it.
        message_type: Option<u32>,
        /// The underlying framing, limit, allocation, or payload-copy failure.
        source: Box<Error>,
    },
    /// The bitstream was structurally valid but semantically inconsistent,
    /// which normally means an earlier decode desynced.
    Parse {
        /// Human-readable description of what did not line up.
        context: String,
    },
}

/// Lightweight error type for field value conversions.
#[derive(Debug, Clone, Copy, PartialEq, Eq, Structural)]
pub struct FieldValueConversionError;

/// Why decoding stopped.
pub enum Failure {
    /// Exactly this error, which holds no text.
    Exact(Error),
    /// A parse error with this message.
    Parse(Seq<char>),
    /// Some parse error.
    AnyParse,
    /// Some decompression error.
    AnyDecompress,
}

/// `e` is the error that `f` describes.
pub open spec fn failure_is(e: Error, f: Failure) -> bool {
    match f {
        Failure::Exact(x) => e == x,
        Failure::Parse(text) => e matches Error::Parse { context } && context@ == text,
        Failure::AnyParse => e is Parse,
        Failure::AnyDecompress => e is Decompress,
    }
}

/// Convenience alias used throughout the crate.
pub type Result<T> = std::result::Result<T, Error>;

/// The message of an I/O error.
///
/// Calls the `Display` implementation of `std::io::Error`; nothing is
/// claimed of the text, which for operating-system errors comes from the
/// platform.
#[verifier::external_body]
fn io_text(error: &std::io::Error) -> (r: String) {
    error.to_string()
}

/// The decimal values of `bytes`, separated by `", "`.
pub open spec fn joined_bytes(bytes: Seq<u8>) -> Seq<char>
    decreases bytes.len(),
{
    if bytes.len() == 0 {
        Seq::empty()
    } else if bytes.len() == 1 {
        digits(bytes[0] as nat)
    } else {
        joined_bytes(bytes.drop_last()) + ", "@ + digits(bytes.last() as nat)
    }
}

/// Debug text of a byte array, such as `[80, 66]`.
pub open spec fn bytes_debug(bytes: Seq<u8>) -> Seq<char> {
    "["@ + joined_bytes(bytes) + "]"@
}

/// Debug text of an optional signed value: `Some(5)` or `None`.
pub open spec fn option_debug(value: Option<i32>) -> Seq<char> {
    match value {
        Some(v) => "Some("@ + signed_digits(v as int) + ")"@,
        None => "None"@,
    }
}

/// Debug text of an optional unsigned value: `Some(5)` or `None`.
pub open spec fn option_u32_debug(value: Option<u32>) -> Seq<char> {
    match value {
        Some(v) => "Some("@ + digits(v as nat) + ")"@,
        None => "None"@,
    }
}

/// `text` begins with `prefix`, and what follows is `rest`.
pub open spec fn starts_with_then(text: Seq<char>, prefix: Seq<char>, rest: Seq<char>) -> bool {
    text == prefix + rest
}

/// The part of a command error's message that comes before its cause.
pub open spec fn command_prefix(offset: usize, command: Option<i32>, tick: Option<i32>) -> Seq<char> {
    "command at byte "@ + digits(offset as nat) + " (command "@ + option_debug(command) + ", tick "@
        + option_debug(tick) + "): "@
}

/// The part of a packet-message error's message that comes before its cause.
pub open spec fn packet_prefix(bit_offset: usize, message_type: Option<u32>) -> Seq<char> {
    "packet message at bit "@ + digits(bit_offset as nat) + " (type "@ + option_u32_debug(
        message_type,
    ) + "): "@
}

/// `text` is the message of `e`. The message of an I/O error is its
/// prefix followed by whatever the platform reports.
pub open spec fn renders(e: Error, text: Seq<char>) -> bool
    decreases e,
{
    match e {
        Error::Io(_) => text.len() >= "IO error: "@.len() && text.take("IO error: "@.len() as int)
            == "IO error: "@,
        Error::InvalidMagic { got } => text == "invalid demo file: magic bytes mismatch (expected PBDEMS2\\0, got "@
            + bytes_debug(got@) + ")"@,
        Error::Overflow { needed, available } => text == "unexpected end of data: needed "@ + digits(
            needed as nat,
        ) + " bits, have "@ + digits(available as nat),
        Error::Decompress(message) => text == "decompression error: "@ + message@,
        Error::LimitExceeded { resource, limit, actual } => text == resource@
            + " exceeds decode limit: "@ + digits(actual as nat) + " > "@ + digits(limit as nat),
        Error::Allocation { resource, requested } => text == "could not reserve "@ + digits(
            requested as nat,
        ) + " bytes for "@ + resource@,
        Error::Command { offset, command, tick, source } => {
            let p = command_prefix(offset, command, tick);
            text.len() >= p.len() && text.take(p.len() as int) == p && renders(
                *source,
                text.skip(p.len() as int),
            )
        },
        Error::PacketMessage { bit_offset, message_type, source } => {
            let p = packet_prefix(bit_offset, message_type);
            text.len() >= p.len() && text.take(p.len() as int) == p && renders(
                *source,
                text.skip(p.len() as int),
            )
        },
        Error::Parse { context } => text == "parse error: "@ + context@,
    }
}

fn push_option(out: &mut String, value: Option<i32>)
    ensures
        final(out)@ == old(out)@ + option_debug(value),
{
    match value {
        Some(v) => {
            out.append("Some(");
            push_signed(out, v as i64);
            out.append(")");
        },
        None => {
            out.append("None");
        },
    }
}

fn push_option_u32(out: &mut String, value: Option<u32>)
    ensures
        final(out)@ == old(out)@ + option_u32_debug(value),
{
    match value {
        Some(v) => {
            out.append("Some(");
            push_decimal(out, v as u64);
            out.append(")");
        },
        None => {
            out.append("None");
        },
    }
}

fn push_bytes_debug(out: &mut String, bytes: &[u8; 8])
    ensures
        final(out)@ == old(out)@ + bytes_debug(bytes@),
{
    let ghost start = out@;
    out.append("[");
    let mut i: usize = 0;
    while i < 8
        invariant
            i <= 8,
            bytes@.len() == 8,
            out@ == start + "["@ + joined_bytes(bytes@.take(i as int)),
        decreases 8 - i,
    {
        proof {
            assert(bytes@.take(i + 1).drop_last() =~= bytes@.take(i as int));
        }
        if i > 0 {
            out.append(", ");
        }
        push_decimal(out, bytes[i] as u64);
        i = i + 1;
        proof {
            if i == 1 {
                assert(joined_bytes(bytes@.take(1)) == digits(bytes@[0] as nat));
            }
        }
    }
    out.append("]");
    proof {
        assert(bytes@.take(8) =~= bytes@);
    }
}

impl Error {
    /// The message of this error, as a reader of a log would see it.
    pub fn to_string(&self) -> (r: String)
        ensures
            renders(*self, r@),
        decreases self,
    {
        match self {
            Error::Io(e) => {
                let mut out = String::from_str("IO error: ");
                let detail = io_text(e);
                out.append(detail.as_str());
                proof {
                    assert(out@.take("IO error: "@.len() as int) =~= "IO error: "@);
                }
                out
            },
            Error::InvalidMagic { got } => {
                let mut out = String::from_str(
                    "invalid demo file: magic bytes mismatch (expected PBDEMS2\\0, got ",
                );
                push_bytes_debug(&mut out, got);
                out.append(")");
                out
            },
            Error::Overflow { needed, available } => {
                let mut out = String::from_str("unexpected end of data: needed ");
                push_decimal(&mut out, *needed as u64);
                out.append(" bits, have ");
                push_decimal(&mut out, *available as u64);
                out
            },
            Error::Decompress(message) => {
                let mut out = String::from_str("decompression error: ");
                out.append(message.as_str());
                out
            },
            Error::LimitExceeded { resource, limit, actual } => {
                let mut out = String::from_str(resource);
                out.append(" exceeds decode limit: ");
                push_decimal(&mut out, *actual as u64);
                out.append(" > ");
                push_decimal(&mut out, *limit as u64);
                out
            },
            Error::Allocation { resource, requested } => {
                let mut out = String::from_str("could not reserve ");
                push_decimal(&mut out, *requested as u64);
                out.append(" bytes for ");
                out.append(resource);
                out
            },
            Error::Command { offset, command, tick, source } => {
                let mut out = String::from_str("command at byte ");
                push_decimal(&mut out, *offset as u64);
                out.append(" (command ");
                push_option(&mut out, *command);
                out.append(", tick ");
                push_option(&mut out, *tick);
                out.append("): ");
                let ghost p = out@;
                let inner = source.to_string();
                out.append(inner.as_str());
                proof {
                    assert(p == command_prefix(*offset, *command, *tick));
                    assert(out@.take(p.len() as int) =~= p);
                    assert(out@.skip(p.len() as int) =~= inner@);
                }
                out
            },
            Error::PacketMessage { bit_offset, message_type, source } => {
                let mut out = String::from_str("packet message at bit ");
                push_decimal(&mut out, *bit_offset as u64);
                out.append(" (type ");
                push_option_u32(&mut out, *message_type);
                out.append("): ");
                let ghost p = out@;
                let inner = source.to_string();
                out.append(inner.as_str());
                proof {
                    assert(p == packet_prefix(*bit_offset, *message_type));
                    assert(out@.take(p.len() as int) =~= p);
                    assert(out@.skip(p.len() as int) =~= inner@);
                }
                out
            },
            Error::Parse { context } => {
                let mut out = String::from_str("parse error: ");
                out.append(context.as_str());
                out
            },
        }
    }
}

impl FieldValueConversionError {
    /// The message of this error.
    pub fn to_string(&self) -> (r: String)
        ensures
            r@ == "incompatible types or out of range integer conversion attempted"@,
    {
        String::from_str("incompatible types or out of range integer conversion attempted")
    }
}

} // verus!
