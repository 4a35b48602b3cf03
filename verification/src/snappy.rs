//! Raw Snappy decompression, as provided by the `snap` crate.
//!
//! Command bodies and string-table payloads may be stored Snappy-compressed.
//! The crate reads the declared length first, checks it against the decode
//! limits, sizes an output buffer, and only then decompresses.

use snap::Error as SnapFailure;
use vstd::prelude::*;

use crate::error::Error;
use crate::io::bits::{varint_read, VarintRead};

verus! {

#[verifier::external_type_specification]
#[verifier::external_body]
pub struct ExSnapFailure(SnapFailure);

/// The length that a raw Snappy stream declares for its decompressed data:
/// 0 for empty input, otherwise its varint header of at most five bytes,
/// which must not exceed `u32::MAX`; `None` when that header is missing,
/// too long or too large.
pub open spec fn snappy_len(input: Seq<u8>) -> Option<usize> {
    if input.len() == 0 {
        Some(0)
    } else {
        match varint_read(input, 5) {
            VarintRead::Value { value, len } => if value <= u32::MAX {
                Some(value as usize)
            } else {
                None
            },
            _ => None,
        }
    }
}

/// The bytes that a raw Snappy stream decompresses to, or `None` when the
/// stream is not valid Snappy data.
pub uninterp spec fn snappy_decoded(input: Seq<u8>) -> Option<Seq<u8>>;

/// The decompressed length declared by a raw Snappy stream.
///
/// Calls `snap::raw::decompress_len`. Its source returns `Ok(0)` for an
/// empty input and otherwise reads the varint header (`bytes::read_varu64`),
/// refusing one that is unterminated, longer than five bytes or above
/// `u32::MAX`; the contract states that as [`snappy_len`].
#[verifier::external_body]
pub(crate) fn decompress_len(input: &[u8]) -> (r: Result<usize, SnapFailure>)
    ensures
        r is Ok <==> snappy_len(input@) is Some,
        r matches Ok(n) ==> snappy_len(input@) == Some(n),
{
    snap::raw::decompress_len(input)
}

/// Decompress a raw Snappy stream into `output`.
///
/// Calls `snap::raw::Decoder::decompress`. Its source rejects an empty
/// input, rejects an output shorter than the declared length, and on
/// success writes exactly the declared number of bytes at the start of
/// `output` and returns that number. The contract claims that success and
/// the decompressed bytes depend on the input alone once the output is long
/// enough, and that the declared length is the length of those bytes.
/// It leaves unsaid what an unsuccessful call leaves in `output`.
#[verifier::external_body]
pub(crate) fn decompress(input: &[u8], output: &mut [u8]) -> (r: Result<usize, SnapFailure>)
    ensures
        final(output)@.len() == old(output)@.len(),
        input@.len() == 0 ==> r is Err,
        snappy_len(input@) is None ==> r is Err,
        snappy_len(input@) matches Some(n) && n > old(output)@.len() ==> r is Err,
        snappy_len(input@) matches Some(n) && n <= old(output)@.len() && input@.len() > 0 ==> (r is Ok
            <==> snappy_decoded(input@) is Some),
        r matches Ok(n) ==> {
            &&& snappy_len(input@) == Some(n)
            &&& snappy_decoded(input@) matches Some(d)
            &&& d.len() == n
            &&& final(output)@.take(n as int) == d
            &&& final(output)@.skip(n as int) == old(output)@.skip(n as int)
        },
{
    snap::raw::Decoder::new().decompress(input, output)
}

/// The message that the `snap` crate gives for a decompression error.
///
/// Calls the `Display` implementation of `snap::Error`; nothing is claimed
/// of the text.
#[verifier::external_body]
pub(crate) fn error_text(error: &SnapFailure) -> (r: String) {
    error.to_string()
}

/// How decompressing a stream under a size limit ends.
pub enum Inflated {
    /// The decompressed bytes.
    Bytes(Seq<u8>),
    /// The declared length exceeds the limit.
    OverLimit { actual: usize },
    /// The output buffer could not be reserved.
    NoMemory { requested: usize },
    /// The stream is not valid Snappy data.
    Corrupt,
}

/// The outcome of decompressing `input` when the declared length may not
/// exceed `limit` and reserving the output `reserved` succeeds or not.
pub open spec fn inflate_outcome(input: Seq<u8>, limit: usize, reserved: bool) -> Inflated {
    match snappy_len(input) {
        None => Inflated::Corrupt,
        Some(n) => if n > limit {
            Inflated::OverLimit { actual: n }
        } else if !reserved {
            Inflated::NoMemory { requested: n }
        } else if input.len() == 0 {
            Inflated::Corrupt
        } else {
            match snappy_decoded(input) {
                Some(d) => Inflated::Bytes(d),
                None => Inflated::Corrupt,
            }
        },
    }
}

/// `r` is the result that `outcome` describes, with `resource` naming the
/// limit and the buffer in its errors.
pub open spec fn inflated_as(
    r: Result<Vec<u8>, Error>,
    outcome: Inflated,
    resource: &'static str,
    limit: usize,
) -> bool {
    match outcome {
        Inflated::Bytes(d) => r matches Ok(v) && v@ == d,
        Inflated::OverLimit { actual } => r == Err::<Vec<u8>, Error>(
            Error::LimitExceeded { resource, limit, actual },
        ),
        Inflated::NoMemory { requested } => r == Err::<Vec<u8>, Error>(
            Error::Allocation { resource, requested },
        ),
        Inflated::Corrupt => r matches Err(Error::Decompress(_)),
    }
}

/// Decompress `input`, refusing a declared length above `limit` before
/// reserving memory for it. The second result tells whether the
/// reservation, when one was made, succeeded.
pub(crate) fn inflate(input: &[u8], limit: usize, resource: &'static str) -> (r: (
    Result<Vec<u8>, Error>,
    Ghost<bool>,
))
    ensures
        inflated_as(r.0, inflate_outcome(input@, limit, r.1@), resource, limit),
{
    let n = match decompress_len(input) {
        Ok(n) => n,
        Err(e) => {
            return (Err(Error::Decompress(error_text(&e))), Ghost(true));
        },
    };
    if n > limit {
        return (Err(Error::LimitExceeded { resource, limit, actual: n }), Ghost(true));
    }
    let mut output: Vec<u8> = Vec::new();
    if output.try_reserve(n).is_err() {
        return (Err(Error::Allocation { resource, requested: n }), Ghost(false));
    }
    output.resize(n, 0);
    let written = decompress(input, output.as_mut_slice());
    match written {
        Ok(k) => {
            proof {
                assert(output@.take(k as int) =~= output@);
            }
            (Ok(output), Ghost(true))
        },
        Err(e) => (Err(Error::Decompress(error_text(&e))), Ghost(true)),
    }
}

/// How many bytes an unsuccessful decompression leaves in its buffer: the
/// declared length when one was read, since the buffer was already sized
/// for it, and none otherwise.
pub open spec fn corrupt_len(input: Seq<u8>) -> nat {
    match snappy_len(input) {
        Some(n) => n as nat,
        None => 0,
    }
}

/// Decompress `input` into the empty buffer `output`, refusing a declared
/// length above `limit` before reserving memory for it. The buffer is
/// sized to the declared length before the stream is decoded into it, so
/// corrupt data past a valid length leaves it at that length. The second
/// result tells whether the reservation, when one was made, succeeded.
pub(crate) fn inflate_into(input: &[u8], output: &mut Vec<u8>, limit: usize, resource: &'static str) -> (r: (
    Result<(), Error>,
    Ghost<bool>,
))
    requires
        old(output)@.len() == 0,
    ensures
        match inflate_outcome(input@, limit, r.1@) {
            Inflated::Bytes(d) => r.0 is Ok && final(output)@ == d,
            Inflated::OverLimit { actual } => r.0 == Err::<(), Error>(
                Error::LimitExceeded { resource, limit, actual },
            ) && final(output)@.len() == 0,
            Inflated::NoMemory { requested } => r.0 == Err::<(), Error>(
                Error::Allocation { resource, requested },
            ) && final(output)@.len() == 0,
            Inflated::Corrupt => (r.0 matches Err(Error::Decompress(_))) && final(output)@.len()
                == corrupt_len(input@),
        },
{
    let n = match decompress_len(input) {
        Ok(n) => n,
        Err(e) => {
            return (Err(Error::Decompress(error_text(&e))), Ghost(true));
        },
    };
    if n > limit {
        return (Err(Error::LimitExceeded { resource, limit, actual: n }), Ghost(true));
    }
    if output.try_reserve(n).is_err() {
        return (Err(Error::Allocation { resource, requested: n }), Ghost(false));
    }
    output.resize(n, 0);
    let written = decompress(input, output.as_mut_slice());
    match written {
        Ok(k) => {
            proof {
                assert(output@.take(k as int) =~= output@);
            }
            (Ok(()), Ghost(true))
        },
        Err(e) => (Err(Error::Decompress(error_text(&e))), Ghost(true)),
    }
}

} // verus!
