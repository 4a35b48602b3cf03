//! Selection of the wire decoder for each serializer field.
//!
//! A serializer names each field's type as text (`int32`, `Vector`,
//! `CHandle< CBaseEntity >`, `float32[3]`, ...), with optional encoder hints.
//! [`get_field_metadata`] maps that description to a [`Decoder`] and, for
//! arrays and pointers, a [`FieldSpecialDescriptor`].
//!
//! Floating-point hints (quantization bounds) are carried as the bit
//! patterns of their `f32` values.

use vstd::prelude::*;

use crate::chars::{
    chars_of, find_char, find_first, find_last, is_text, lemma_find_bounds,
    lemma_find_last_bounds, lemma_trim_len, parse_usize, parse_usize_chars, rfind_char, same_chars,
    sub_chars, trim, trimmed,
};
use crate::error::{failure_is, Error, Failure};
use crate::io::bits::{
    byte_bits_needed, bytes_at, cstring_from, field, fixed_read, varint_from, read_failure, ubitvar_read, varint_bits_read, zigzag, CStringRead, Decoded,
};
use crate::io::BitReader;
use crate::limits::{DecodeLimits, LimitsModel};
use vstd::arithmetic::power2::pow2;

verus! {

/// Wire representation used by an unadorned Source 2 `char` field.
#[derive(Debug, Clone, Copy, PartialEq, Eq, Structural)]
#[non_exhaustive]
pub enum BareCharEncoding {
    /// A null-terminated byte string.
    NullTerminatedString,
    /// An unsigned variable-length integer.
    UnsignedVarint,
}

/// Interpretation of the `qangle_precise` encoder.
#[derive(Debug, Clone, Copy, PartialEq, Eq, Structural)]
#[non_exhaustive]
pub enum PreciseQAngleMode {
    /// Recenter each encoded component from `[0, 360)` to `[-180, 180)`.
    Centered,
    /// Preserve each encoded component in its raw `[0, 360)` range.
    Raw,
}

/// Game-supplied policy for Source 2 wire conventions that vary by title.
///
/// The core deliberately does not provide title-named constants. A game
/// adapter defines its own profile and passes it to the serializer parser.
#[derive(Debug, Clone, Copy)]
pub struct DecodeProfile {
    bare_char: BareCharEncoding,
    ammo_field: Option<&'static str>,
    pitch_yaw_qangles: bool,
    precise_qangle: PreciseQAngleMode,
    symbolic_array_lengths: &'static [(&'static str, usize)],
    pointer_types: &'static [&'static str],
    dynamic_serializer_types: &'static [&'static str],
}

/// The settings of a [`DecodeProfile`], with names as character sequences.
pub struct ProfileModel {
    pub bare_char: BareCharEncoding,
    pub ammo_field: Option<Seq<char>>,
    pub pitch_yaw_qangles: bool,
    pub precise_qangle: PreciseQAngleMode,
    pub symbolic_array_lengths: Seq<(Seq<char>, usize)>,
    pub pointer_types: Seq<Seq<char>>,
    pub dynamic_serializer_types: Seq<Seq<char>>,
}

impl View for DecodeProfile {
    type V = ProfileModel;

    closed spec fn view(&self) -> ProfileModel {
        ProfileModel {
            bare_char: self.bare_char,
            ammo_field: match self.ammo_field {
                Some(name) => Some(name@),
                None => None,
            },
            pitch_yaw_qangles: self.pitch_yaw_qangles,
            precise_qangle: self.precise_qangle,
            symbolic_array_lengths: self.symbolic_array_lengths@.map_values(
                |entry: (&'static str, usize)| (entry.0@, entry.1),
            ),
            pointer_types: self.pointer_types@.map_values(|name: &'static str| name@),
            dynamic_serializer_types: self.dynamic_serializer_types@.map_values(
                |name: &'static str| name@,
            ),
        }
    }
}

impl DecodeProfile {
    /// Create a profile with no field-name overrides or two-component angles.
    pub fn new(bare_char: BareCharEncoding, precise_qangle: PreciseQAngleMode) -> (r: Self)
        ensures
            r@ == (ProfileModel {
                bare_char,
                ammo_field: None,
                pitch_yaw_qangles: false,
                precise_qangle,
                symbolic_array_lengths: Seq::empty(),
                pointer_types: Seq::empty(),
                dynamic_serializer_types: Seq::empty(),
            }),
    {
        let r = DecodeProfile {
            bare_char,
            ammo_field: None,
            pitch_yaw_qangles: false,
            precise_qangle,
            symbolic_array_lengths: &[],
            pointer_types: &[],
            dynamic_serializer_types: &[],
        };
        assert(r@.symbolic_array_lengths =~= Seq::empty());
        assert(r@.pointer_types =~= Seq::empty());
        assert(r@.dynamic_serializer_types =~= Seq::empty());
        r
    }

    /// Decode the named integer field as an `actual_value + 1` ammo value.
    pub fn with_ammo_field(self, field_name: &'static str) -> (r: Self)
        ensures
            r@ == (ProfileModel { ammo_field: Some(field_name@), ..self@ }),
    {
        DecodeProfile { ammo_field: Some(field_name), ..self }
    }

    /// Enable the `qangle_pitch_yaw` two-component angle encoder.
    pub fn with_pitch_yaw_qangles(self) -> (r: Self)
        ensures
            r@ == (ProfileModel { pitch_yaw_qangles: true, ..self@ }),
    {
        DecodeProfile { pitch_yaw_qangles: true, ..self }
    }

    /// Resolve game-defined symbolic fixed-array lengths.
    pub fn with_symbolic_array_lengths(self, lengths: &'static [(&'static str, usize)]) -> (r: Self)
        ensures
            r@ == (ProfileModel {
                symbolic_array_lengths: lengths@.map_values(
                    |entry: (&'static str, usize)| (entry.0@, entry.1),
                ),
                ..self@
            }),
    {
        DecodeProfile { symbolic_array_lengths: lengths, ..self }
    }

    /// Treat additional game-defined field types as pointer-presence values.
    pub fn with_pointer_types(self, types: &'static [&'static str]) -> (r: Self)
        ensures
            r@ == (ProfileModel { pointer_types: types@.map_values(|name: &'static str| name@), ..self@ }),
    {
        DecodeProfile { pointer_types: types, ..self }
    }

    /// Treat additional game-defined field types as dynamic serializer arrays.
    pub fn with_dynamic_serializer_types(self, types: &'static [&'static str]) -> (r: Self)
        ensures
            r@ == (ProfileModel {
                dynamic_serializer_types: types@.map_values(|name: &'static str| name@),
                ..self@
            }),
    {
        DecodeProfile { dynamic_serializer_types: types, ..self }
    }
}

/// Parameters of a quantized float: its bit width, encoding flags and the
/// bit patterns of the `f32` bounds of its range.
#[derive(Debug, Clone, Copy, PartialEq, Eq, Structural)]
pub struct QuantizedFloatParams {
    /// Bits per transmitted value.
    pub bit_count: i32,
    /// Encoding flags from the serializer.
    pub encode_flags: i32,
    /// Bit pattern of the `f32` low bound.
    pub low_value: u32,
    /// Bit pattern of the `f32` high bound.
    pub high_value: u32,
}

/// Describes how to read a single field value from a bit stream.
///
/// Each variant corresponds to a Source 2 wire encoding. The variant is
/// chosen at parse time by [`get_field_metadata`].
#[derive(Debug)]
#[non_exhaustive]
pub enum Decoder {
    /// Single bit.
    Bool,
    /// Zigzag varint, read as signed.
    I64,
    /// Unsigned varint.
    U64,
    /// Fixed-width little-endian `u64`.
    U64Fixed64,
    /// Raw 32-bit float, transmitted bit for bit.
    F32NoScale,
    /// Simulation time: a tick count scaled by the tick interval.
    F32SimulationTime,
    /// World coordinate in Source 2's variable-precision `bitcoord` encoding.
    F32Coord,
    /// Unit-normal component: a sign bit plus an 11-bit fraction.
    F32Normal,
    /// Float quantized into a fixed bit width across a bounded range.
    F32Quantized(QuantizedFloatParams),
    /// A configured ammo field transmitted as `actual_ammo + 1`.
    Ammo,
    /// Length-prefixed byte string, kept as raw bytes.
    String,
    /// Two components, each read with the inner decoder.
    Vector2(Box<Decoder>),
    /// Three components, each read with the inner decoder.
    Vector3(Box<Decoder>),
    /// Three-component unit normal: two components plus a reconstructed third.
    Vector3Normal,
    /// Four components, each read with the inner decoder.
    Vector4(Box<Decoder>),
    /// Fixed-count float vector for types wider than four components.
    FloatVecN {
        /// Number of components to read.
        count: usize,
        /// Decoder applied to each component.
        inner: Box<Decoder>,
    },
    /// Length-prefixed byte blob: a varint byte count and that many bytes.
    BinaryBlock,
    /// Polymorphic pointer leaf: a presence bool plus a sub-serializer selector.
    Poly,
    /// Euler angles at full precision, recentred per the decode profile.
    QAnglePrecise,
    /// Euler angles at full precision with no recentring applied.
    QAnglePreciseRaw,
    /// Pitch and yaw only, each at `bit_count` bits; roll is zero.
    QAnglePitchYaw {
        /// Bits per transmitted component.
        bit_count: usize,
    },
    /// All three angles at `bit_count` bits each.
    QAngleBitCount {
        /// Bits per component.
        bit_count: usize,
    },
    /// Angles carried in the coordinate encoding rather than a bit count.
    QAngleCoord,
    /// Used as a placeholder/invalid decoder.
    Default,
}

impl Decoder {
    /// An identical decoder.
    fn duplicate(&self) -> (r: Decoder)
        ensures
            r == *self,
        decreases self,
    {
        match self {
            Decoder::Bool => Decoder::Bool,
            Decoder::I64 => Decoder::I64,
            Decoder::U64 => Decoder::U64,
            Decoder::U64Fixed64 => Decoder::U64Fixed64,
            Decoder::F32NoScale => Decoder::F32NoScale,
            Decoder::F32SimulationTime => Decoder::F32SimulationTime,
            Decoder::F32Coord => Decoder::F32Coord,
            Decoder::F32Normal => Decoder::F32Normal,
            Decoder::F32Quantized(q) => Decoder::F32Quantized(*q),
            Decoder::Ammo => Decoder::Ammo,
            Decoder::String => Decoder::String,
            Decoder::Vector2(inner) => Decoder::Vector2(Box::new(inner.duplicate())),
            Decoder::Vector3(inner) => Decoder::Vector3(Box::new(inner.duplicate())),
            Decoder::Vector3Normal => Decoder::Vector3Normal,
            Decoder::Vector4(inner) => Decoder::Vector4(Box::new(inner.duplicate())),
            Decoder::FloatVecN { count, inner } => Decoder::FloatVecN {
                count: *count,
                inner: Box::new(inner.duplicate()),
            },
            Decoder::BinaryBlock => Decoder::BinaryBlock,
            Decoder::Poly => Decoder::Poly,
            Decoder::QAnglePrecise => Decoder::QAnglePrecise,
            Decoder::QAnglePreciseRaw => Decoder::QAnglePreciseRaw,
            Decoder::QAnglePitchYaw { bit_count } => Decoder::QAnglePitchYaw { bit_count: *bit_count },
            Decoder::QAngleBitCount { bit_count } => Decoder::QAngleBitCount { bit_count: *bit_count },
            Decoder::QAngleCoord => Decoder::QAngleCoord,
            Decoder::Default => Decoder::Default,
        }
    }
}

/// A field value whose wire form holds no floating-point number.
#[derive(Debug, Clone, PartialEq, Eq)]
pub enum PlainFieldValue {
    Bool(bool),
    I32(i32),
    I64(i64),
    U64(u64),
    /// Raw bytes of a string or binary block.
    String(Vec<u8>),
}

/// A plain field value as values.
pub enum PlainModel {
    Bool(bool),
    I32(i32),
    I64(i64),
    U64(u64),
    Bytes(Seq<u8>),
}

impl View for PlainFieldValue {
    type V = PlainModel;

    open spec fn view(&self) -> PlainModel {
        match self {
            PlainFieldValue::Bool(b) => PlainModel::Bool(*b),
            PlainFieldValue::I32(v) => PlainModel::I32(*v),
            PlainFieldValue::I64(v) => PlainModel::I64(*v),
            PlainFieldValue::U64(v) => PlainModel::U64(*v),
            PlainFieldValue::String(b) => PlainModel::Bytes(b@),
        }
    }
}

/// Decoders whose value is read without floating-point arithmetic:
/// booleans, integers, ammo counts, strings, binary blocks, polymorphic
/// markers and the fallback decoder, which reads an unsigned varint.
pub open spec fn plain_decoder(d: Decoder) -> bool {
    match d {
        Decoder::Bool | Decoder::I64 | Decoder::U64 | Decoder::U64Fixed64 | Decoder::Ammo
        | Decoder::String | Decoder::BinaryBlock | Decoder::Poly | Decoder::Default => true,
        _ => false,
    }
}

/// What reading a plain field gives: a value and the bits it took, or why
/// it failed and the bits read before the failure.
pub enum PlainRead {
    Value { value: PlainModel, len: nat },
    Failed { failure: Failure, len: nat },
}

/// A failed primitive read, none of whose bits count.
pub open spec fn failed_at(d: Decoded, len: nat) -> PlainRead {
    PlainRead::Failed { failure: read_failure(d), len }
}

/// Reading a plain field of decoder `d` from `bits` at `pos`. A string is
/// null-terminated and holds at most the field-string limit of bytes; a
/// longer one is refused with a limit error one byte over the limit. An ammo
/// count is sent one above its value, with 0 kept as 0; a binary block is
/// a byte length, checked against the field-string limit, and that many
/// bytes; a polymorphic marker is a presence bit and a type index, of
/// which the presence bit is the value.
pub open spec fn plain_read(d: Decoder, bits: Seq<bool>, pos: int, lim: LimitsModel) -> PlainRead {
    match d {
        Decoder::Bool => match fixed_read(bits, pos, 1) {
            Decoded::Value { value, len } => PlainRead::Value { value: PlainModel::Bool(value == 1), len },
            other => failed_at(other, 0),
        },
        Decoder::I64 => match varint_bits_read(bits, pos, 10) {
            Decoded::Value { value, len } => PlainRead::Value {
                value: PlainModel::I64(zigzag(value % pow2(64)) as i64),
                len,
            },
            other => failed_at(other, 0),
        },
        Decoder::String => {
            let bytes = bytes_at(bits, pos);
            match cstring_from(bytes, 0, lim.max_field_string_bytes as nat) {
                CStringRead::Done { len } => PlainRead::Value {
                    value: PlainModel::Bytes(bytes.take(len as int)),
                    len: 8 * (len + 1),
                },
                CStringRead::Truncated { at } => PlainRead::Failed {
                    failure: Failure::Exact(
                        Error::Overflow { needed: 8, available: (bits.len() - pos - 8 * at) as usize },
                    ),
                    len: 0,
                },
                CStringRead::TooLong => PlainRead::Failed {
                    failure: Failure::Exact(
                        Error::LimitExceeded {
                            resource: "decoded field string",
                            limit: lim.max_field_string_bytes,
                            actual: (lim.max_field_string_bytes + 1) as usize,
                        },
                    ),
                    len: 0,
                },
            }
        },
        Decoder::U64 | Decoder::Default => match varint_bits_read(bits, pos, 10) {
            Decoded::Value { value, len } => PlainRead::Value { value: PlainModel::U64((value % pow2(64)) as u64), len },
            other => failed_at(other, 0),
        },
        Decoder::U64Fixed64 => match fixed_read(bits, pos, 64) {
            Decoded::Value { value, len } => PlainRead::Value { value: PlainModel::U64(value as u64), len },
            other => failed_at(other, 0),
        },
        Decoder::Ammo => match varint_bits_read(bits, pos, 5) {
            Decoded::Value { value, len } => {
                let raw = (value % pow2(32)) as u32;
                PlainRead::Value {
                    value: PlainModel::I32(
                        if raw > 0 {
                            (raw - 1) as i32
                        } else {
                            0
                        },
                    ),
                    len,
                }
            },
            other => failed_at(other, 0),
        },
        Decoder::BinaryBlock => match varint_bits_read(bits, pos, 5) {
            Decoded::Value { value, len } => {
                let n = ((value % pow2(32)) as u32) as usize;
                let at = pos + len;
                if n > lim.max_field_string_bytes {
                    PlainRead::Failed {
                        failure: Failure::Exact(
                            Error::LimitExceeded {
                                resource: "decoded field binary block",
                                limit: lim.max_field_string_bytes,
                                actual: n,
                            },
                        ),
                        len,
                    }
                } else if 8 * n > bits.len() - at {
                    PlainRead::Failed {
                        failure: Failure::Exact(
                            Error::Overflow {
                                needed: byte_bits_needed(n as nat) as usize,
                                available: (bits.len() - at) as usize,
                            },
                        ),
                        len,
                    }
                } else {
                    PlainRead::Value { value: PlainModel::Bytes(bytes_at(bits, at).take(n as int)), len: (len + 8 * n) as nat }
                }
            },
            other => failed_at(other, 0),
        },
        Decoder::Poly => match fixed_read(bits, pos, 1) {
            Decoded::Value { value: present, len: l1 } => match ubitvar_read(bits, pos + l1) {
                Decoded::Value { value: _, len: l2 } => PlainRead::Value {
                    value: PlainModel::Bool(present == 1),
                    len: l1 + l2,
                },
                other => failed_at(other, l1),
            },
            other => failed_at(other, 0),
        },
        _ => PlainRead::Failed { failure: Failure::AnyParse, len: 0 },
    }
}

impl Decoder {
    /// Whether this decoder reads its value without floating-point
    /// arithmetic, so that [`Decoder::decode_plain`] can read it.
    pub fn is_plain(&self) -> (r: bool)
        ensures
            r == plain_decoder(*self),
    {
        match self {
            Decoder::Bool | Decoder::I64 | Decoder::U64 | Decoder::U64Fixed64 | Decoder::Ammo
            | Decoder::String | Decoder::BinaryBlock | Decoder::Poly | Decoder::Default => true,
            _ => false,
        }
    }

    /// Read one field value of a decoder that needs no floating-point
    /// arithmetic (see [`plain_decoder`]) from the bit stream.
    pub fn decode_plain(&self, br: &mut BitReader, limits: &DecodeLimits) -> (r: Result<PlainFieldValue, Error>)
        requires
            old(br).wf(),
            plain_decoder(*self),
        ensures
            final(br).wf(),
            final(br).spec_data() == old(br).spec_data(),
            match plain_read(*self, old(br).spec_bits(), old(br).spec_pos() as int, limits@) {
                PlainRead::Value { value, len } => (r matches Ok(v) && v@ == value) && final(br).spec_pos()
                    == old(br).spec_pos() + len,
                PlainRead::Failed { failure, len } => (r matches Err(e) && failure_is(e, failure))
                    && final(br).spec_pos() == old(br).spec_pos() + len,
            },
    {
        match self {
            Decoder::Bool => match br.read_bool() {
                Ok(b) => Ok(PlainFieldValue::Bool(b)),
                Err(e) => Err(e),
            },
            Decoder::I64 => match br.read_varint64() {
                Ok(v) => Ok(PlainFieldValue::I64(v)),
                Err(e) => Err(e),
            },
            Decoder::String => match br.read_string_limited(
                limits.max_field_string_bytes(),
                "decoded field string",
            ) {
                Ok(bytes) => Ok(PlainFieldValue::String(bytes)),
                Err(e) => Err(e),
            },
            Decoder::U64 | Decoder::Default => match br.read_uvarint64() {
                Ok(v) => Ok(PlainFieldValue::U64(v)),
                Err(e) => Err(e),
            },
            Decoder::U64Fixed64 => match br.read_u64() {
                Ok(v) => Ok(PlainFieldValue::U64(v)),
                Err(e) => Err(e),
            },
            Decoder::Ammo => match br.read_uvarint32() {
                Ok(raw) => Ok(
                    PlainFieldValue::I32(
                        if raw > 0 {
                            (raw - 1) as i32
                        } else {
                            0
                        },
                    ),
                ),
                Err(e) => Err(e),
            },
            Decoder::BinaryBlock => {
                let n = match br.read_uvarint32() {
                    Ok(raw) => raw as usize,
                    Err(e) => return Err(e),
                };
                match limits.ensure("decoded field binary block", n, limits.max_field_string_bytes()) {
                    Ok(()) => {},
                    Err(e) => return Err(e),
                }
                let mut buf: Vec<u8> = Vec::new();
                buf.resize(n, 0u8);
                match br.read_bytes(buf.as_mut_slice()) {
                    Ok(()) => Ok(PlainFieldValue::String(buf)),
                    Err(e) => Err(e),
                }
            },
            Decoder::Poly => {
                let present = match br.read_bool() {
                    Ok(b) => b,
                    Err(e) => return Err(e),
                };
                match br.read_ubitvar() {
                    Ok(_) => Ok(PlainFieldValue::Bool(present)),
                    Err(e) => Err(e),
                }
            },
            _ => Err(Error::Parse { context: String::new() }),
        }
    }
}

/// Decoders that [`Decoder::skip`] can pass over: every decoder except a
/// quantized float, whose wire layout follows from flags and bounds that
/// are only settled with floating-point arithmetic, alone or inside a
/// vector; the angle widths must fit in a `usize`.
pub open spec fn skippable(d: Decoder) -> bool
    decreases d,
{
    match d {
        Decoder::F32Quantized(_) => false,
        Decoder::QAnglePitchYaw { bit_count } => 2 * bit_count <= usize::MAX,
        Decoder::QAngleBitCount { bit_count } => 3 * bit_count <= usize::MAX,
        Decoder::Vector2(inner) => skippable(*inner),
        Decoder::Vector3(inner) => skippable(*inner),
        Decoder::Vector4(inner) => skippable(*inner),
        Decoder::FloatVecN { count: _, inner } => skippable(*inner),
        _ => true,
    }
}

/// What skipping a field gives: the bits passed over, or why it failed
/// and the bits passed over before the failure.
pub enum Skipped {
    Done { len: nat },
    Failed { failure: Failure, len: nat },
}

/// A primitive read taken as a skip, after `before` bits already passed.
pub open spec fn skip_step(d: Decoded, before: nat) -> Skipped {
    match d {
        Decoded::Value { value: _, len } => Skipped::Done { len: before + len },
        other => Skipped::Failed { failure: read_failure(other), len: before },
    }
}

/// `s` preceded by `before` bits.
pub open spec fn skip_after(before: nat, s: Skipped) -> Skipped {
    match s {
        Skipped::Done { len } => Skipped::Done { len: before + len },
        Skipped::Failed { failure, len } => Skipped::Failed { failure, len: before + len },
    }
}

/// Passing over 20 bits for each set flag, in order, from `p`, with
/// `before` bits already passed.
pub open spec fn skip_flagged(flags: Seq<bool>, bits: Seq<bool>, p: int, before: nat) -> Skipped
    decreases flags.len(),
{
    if flags.len() == 0 {
        Skipped::Done { len: before }
    } else if flags[0] {
        match fixed_read(bits, p, 20) {
            Decoded::Value { value: _, len: _ } => skip_flagged(flags.drop_first(), bits, p + 20, before + 20),
            other => Skipped::Failed { failure: read_failure(other), len: before },
        }
    } else {
        skip_flagged(flags.drop_first(), bits, p, before)
    }
}

/// Whether the bit at `p` is set.
pub open spec fn bit_set(bits: Seq<bool>, p: int) -> bool {
    field(bits, p, 1) == 1
}

/// Skipping a precise angle: three presence bits, then 20 bits for each
/// component present.
pub open spec fn precise_skip(bits: Seq<bool>, pos: int) -> Skipped {
    let rem = bits.len() - pos;
    if rem < 3 {
        Skipped::Failed {
            failure: Failure::Exact(Error::Overflow { needed: 1, available: 0 }),
            len: rem as nat,
        }
    } else {
        skip_flagged(
            seq![bit_set(bits, pos), bit_set(bits, pos + 1), bit_set(bits, pos + 2)],
            bits,
            pos + 3,
            3,
        )
    }
}

/// Skipping a length-prefixed block: a byte count, then that many bytes
/// (a width past the largest `usize` is asked for as the largest `usize`).
pub open spec fn block_skip(bits: Seq<bool>, pos: int) -> Skipped {
    match varint_bits_read(bits, pos, 5) {
        Decoded::Value { value, len } => {
            let n = ((value % pow2(32)) as u32) as nat;
            skip_step(fixed_read(bits, pos + len, byte_bits_needed(n)), len)
        },
        other => skip_step(other, 0),
    }
}

/// Skipping a null-terminated string and its terminator.
pub open spec fn string_skip(bits: Seq<bool>, pos: int) -> Skipped {
    let bytes = bytes_at(bits, pos);
    match cstring_from(bytes, 0, bytes.len()) {
        CStringRead::Done { len } => Skipped::Done { len: 8 * (len + 1) },
        CStringRead::Truncated { at } => Skipped::Failed {
            failure: Failure::Exact(Error::Overflow { needed: 8, available: (bits.len() - pos - 8 * at) as usize }),
            len: 0,
        },
        CStringRead::TooLong => Skipped::Failed { failure: Failure::AnyParse, len: 0 },
    }
}

/// Flag bits read one at a time from `pos`, with fewer left than there
/// are flags: the read of the first missing one fails.
pub open spec fn short_flags(bits: Seq<bool>, pos: int) -> Skipped {
    Skipped::Failed {
        failure: Failure::Exact(Error::Overflow { needed: 1, available: 0 }),
        len: (bits.len() - pos) as nat,
    }
}

/// Skipping a world coordinate: an integer flag and a fraction flag, then,
/// when either is set, a sign bit, 14 integer bits if the first is set and
/// 5 fraction bits if the second is.
pub open spec fn coord_skip(bits: Seq<bool>, pos: int) -> Skipped {
    if bits.len() - pos < 2 {
        short_flags(bits, pos)
    } else {
        let i = bit_set(bits, pos);
        let f = bit_set(bits, pos + 1);
        if !i && !f {
            Skipped::Done { len: 2 }
        } else {
            skip_step(
                fixed_read(bits, pos + 2, 1 + (if i { 14nat } else { 0nat }) + (if f { 5nat } else { 0nat })),
                2,
            )
        }
    }
}

/// Skipping a unit normal vector: two presence flags, a 12-bit component
/// for each present one, and the sign bit of the third.
pub open spec fn vec3_normal_skip(bits: Seq<bool>, pos: int) -> Skipped {
    if bits.len() - pos < 2 {
        short_flags(bits, pos)
    } else {
        let x = bit_set(bits, pos);
        let y = bit_set(bits, pos + 1);
        skip_step(
            fixed_read(bits, pos + 2, (if x { 12nat } else { 0nat }) + (if y { 12nat } else { 0nat }) + 1),
            2,
        )
    }
}

/// Passing over a coordinate for each set flag, in order, from `p`, with
/// `before` bits already passed.
pub open spec fn coords_flagged(flags: Seq<bool>, bits: Seq<bool>, p: int, before: nat) -> Skipped
    decreases flags.len(),
{
    if flags.len() == 0 {
        Skipped::Done { len: before }
    } else if flags[0] {
        match coord_skip(bits, p) {
            Skipped::Done { len } => coords_flagged(flags.drop_first(), bits, p + len, before + len),
            Skipped::Failed { failure, len } => Skipped::Failed { failure, len: before + len },
        }
    } else {
        coords_flagged(flags.drop_first(), bits, p, before)
    }
}

/// Skipping a coordinate vector: three presence flags, then a coordinate
/// for each present component.
pub open spec fn vec3_coord_skip(bits: Seq<bool>, pos: int) -> Skipped {
    if bits.len() - pos < 3 {
        short_flags(bits, pos)
    } else {
        coords_flagged(
            seq![bit_set(bits, pos), bit_set(bits, pos + 1), bit_set(bits, pos + 2)],
            bits,
            pos + 3,
            3,
        )
    }
}

/// Skipping one field of decoder `d` from `bits` at `pos`.
pub open spec fn skip_read(d: Decoder, bits: Seq<bool>, pos: int) -> Skipped
    decreases d, 0nat,
{
    match d {
        Decoder::Bool => skip_step(fixed_read(bits, pos, 1), 0),
        Decoder::I64 | Decoder::U64 | Decoder::F32SimulationTime | Decoder::Ammo | Decoder::Default =>
            skip_step(varint_bits_read(bits, pos, 10), 0),
        Decoder::String => string_skip(bits, pos),
        Decoder::F32Coord => coord_skip(bits, pos),
        Decoder::F32Normal => skip_step(fixed_read(bits, pos, 12), 0),
        Decoder::Vector3Normal => vec3_normal_skip(bits, pos),
        Decoder::QAngleCoord => vec3_coord_skip(bits, pos),
        Decoder::U64Fixed64 => skip_step(fixed_read(bits, pos, 64), 0),
        Decoder::F32NoScale => skip_step(fixed_read(bits, pos, 32), 0),
        Decoder::BinaryBlock => block_skip(bits, pos),
        Decoder::Poly => match fixed_read(bits, pos, 1) {
            Decoded::Value { value: _, len } => skip_step(ubitvar_read(bits, pos + len), len),
            other => skip_step(other, 0),
        },
        Decoder::QAnglePrecise | Decoder::QAnglePreciseRaw => precise_skip(bits, pos),
        Decoder::QAnglePitchYaw { bit_count } => skip_step(fixed_read(bits, pos, (2 * bit_count) as nat), 0),
        Decoder::QAngleBitCount { bit_count } => skip_step(fixed_read(bits, pos, (3 * bit_count) as nat), 0),
        Decoder::Vector2(inner) => skip_repeat(*inner, bits, pos, 2),
        Decoder::Vector3(inner) => skip_repeat(*inner, bits, pos, 3),
        Decoder::Vector4(inner) => skip_repeat(*inner, bits, pos, 4),
        Decoder::FloatVecN { count, inner } => skip_repeat(*inner, bits, pos, count as nat),
        _ => Skipped::Failed { failure: Failure::AnyParse, len: 0 },
    }
}

/// Skipping `k` fields of decoder `d` in a row, stopping at the first
/// failure.
pub open spec fn skip_repeat(d: Decoder, bits: Seq<bool>, pos: int, k: nat) -> Skipped
    decreases d, k + 1,
{
    if k == 0 {
        Skipped::Done { len: 0 }
    } else {
        match skip_repeat(d, bits, pos, (k - 1) as nat) {
            Skipped::Done { len } => skip_after(len, skip_read(d, bits, pos + len)),
            failed => failed,
        }
    }
}

/// The reader moved and the result came as `s` says.
pub open spec fn skip_matches(s: Skipped, r: Result<(), Error>, pos0: nat, pos1: nat) -> bool {
    match s {
        Skipped::Done { len } => r is Ok && pos1 == pos0 + len,
        Skipped::Failed { failure, len } => (r matches Err(e) && failure_is(e, failure)) && pos1
            == pos0 + len,
    }
}

/// Once `k` repeats have failed, more repeats fail in the same way.
proof fn lemma_repeat_failed_stays(d: Decoder, bits: Seq<bool>, pos: int, k: nat, m: nat)
    requires
        k <= m,
        skip_repeat(d, bits, pos, k) is Failed,
    ensures
        skip_repeat(d, bits, pos, m) == skip_repeat(d, bits, pos, k),
    decreases m - k,
{
    if k < m {
        lemma_repeat_failed_stays(d, bits, pos, k, (m - 1) as nat);
    }
}

/// Skipping normals and precise angles, stated against their flag bits: a
/// unit-normal component takes 12 bits; a normal vector takes its two
/// flags, 12 bits for each set flag and one sign bit; a precise angle
/// takes its three flags and 20 bits for each set flag.
pub proof fn lemma_normal_and_angle_skip_widths(bits: Seq<bool>, pos: int)
    requires
        0 <= pos,
        pos + 3 <= bits.len(),
    ensures
        pos + 12 <= bits.len() ==> skip_read(Decoder::F32Normal, bits, pos) == (Skipped::Done { len: 12 }),
        ({
            let n = 2 + (if bits[pos] { 12int } else { 0 }) + (if bits[pos + 1] { 12int } else { 0 }) + 1;
            pos + n <= bits.len() ==> skip_read(Decoder::Vector3Normal, bits, pos) == (Skipped::Done { len: n as nat })
        }),
        ({
            let n = 3 + (if bits[pos] { 20int } else { 0 }) + (if bits[pos + 1] { 20int } else { 0 }) + (if bits[pos + 2] {
                20int
            } else {
                0
            });
            pos + n <= bits.len() ==> skip_read(Decoder::QAnglePrecise, bits, pos) == (Skipped::Done { len: n as nat })
                && skip_read(Decoder::QAnglePreciseRaw, bits, pos) == (Skipped::Done { len: n as nat })
        }),
{
    lemma_single_bit(bits, pos);
    lemma_single_bit(bits, pos + 1);
    lemma_single_bit(bits, pos + 2);
    reveal_with_fuel(skip_flagged, 4);
    let flags = seq![bit_set(bits, pos), bit_set(bits, pos + 1), bit_set(bits, pos + 2)];
    assert(flags.drop_first() == seq![bit_set(bits, pos + 1), bit_set(bits, pos + 2)]);
    assert(flags.drop_first().drop_first() == seq![bit_set(bits, pos + 2)]);
    assert(flags.drop_first().drop_first().drop_first() == Seq::<bool>::empty());
}

/// A type name made of letters and digits is dispatched as a plain type:
/// trimming keeps it, and it is neither a pointer, an array nor a template.
proof fn lemma_plain_type_name(p: ProfileModel, t: Seq<char>, name: Seq<char>, hints: FloatHints, encoder: Option<Seq<char>>, has_serializer: bool)
    requires
        t.len() > 0,
        forall|i: int| 0 <= i < t.len() ==> ('a' <= #[trigger] t[i] <= 'z' || '0' <= t[i] <= '9'),
        p.ammo_field != Some(name),
        !p.pointer_types.contains(t),
    ensures
        field_metadata(p, t, name, hints, encoder, has_serializer) == base_type_metadata(p, t, name, hints, encoder),
{
    assert(!crate::chars::is_white(t[0]));
    assert(!crate::chars::is_white(t.last()));
    assert(crate::chars::trim_start(t) == t);
    assert(crate::chars::trim_end(t) == t);
    assert(trim(t) == t);
    lemma_find_bounds(t, '<', 0);
    lemma_find_bounds(t, '[', 0);
    assert(!is_template_type(t));
    assert(!is_array_type(t));
}

/// Every signed integer type is read as a zigzag signed varint: a field of
/// type `int8`, `int16`, `int32` or `int64` gets the `I64` decoder and no
/// special handling, whatever its name, hints and encoder, unless the
/// profile makes it an ammo field or a pointer type.
pub proof fn lemma_signed_integers_are_zigzag(
    p: ProfileModel,
    t: Seq<char>,
    name: Seq<char>,
    hints: FloatHints,
    encoder: Option<Seq<char>>,
    has_serializer: bool,
)
    requires
        t == "int8"@ || t == "int16"@ || t == "int32"@ || t == "int64"@,
        p.ammo_field != Some(name),
        !p.pointer_types.contains(t),
    ensures
        field_metadata(p, t, name, hints, encoder, has_serializer).decoder is I64,
        field_metadata(p, t, name, hints, encoder, has_serializer).special is None,
{
    reveal_strlit("int8");
    reveal_strlit("int16");
    reveal_strlit("int32");
    reveal_strlit("int64");
    assert forall|i: int| 0 <= i < t.len() implies ('a' <= #[trigger] t[i] <= 'z' || '0' <= t[i] <= '9') by {}
    lemma_plain_type_name(p, t, name, hints, encoder, has_serializer);
}

/// A `bool` field is one bit, and an unsigned integer field is an unsigned
/// varint unless its encoder asks for eight fixed bytes or the profile
/// gives it a serializer, whatever its name and hints, unless the profile
/// makes it an ammo field or a pointer type.
pub proof fn lemma_bools_and_unsigned_integers(
    p: ProfileModel,
    t: Seq<char>,
    name: Seq<char>,
    hints: FloatHints,
    encoder: Option<Seq<char>>,
    has_serializer: bool,
)
    requires
        t == "bool"@ || t == "uint8"@ || t == "uint16"@ || t == "uint32"@ || t == "uint64"@,
        p.ammo_field != Some(name),
        !p.pointer_types.contains(t),
    ensures
        t == "bool"@ ==> field_metadata(p, t, name, hints, encoder, has_serializer).decoder is Bool
            && field_metadata(p, t, name, hints, encoder, has_serializer).special is None,
        t != "bool"@ && encoder != Some("fixed64"@) && !p.dynamic_serializer_types.contains(t)
            ==> field_metadata(p, t, name, hints, encoder, has_serializer).decoder is U64
            && field_metadata(p, t, name, hints, encoder, has_serializer).special is None,
        t != "bool"@ && encoder == Some("fixed64"@) && !p.dynamic_serializer_types.contains(t)
            ==> field_metadata(p, t, name, hints, encoder, has_serializer).decoder is U64Fixed64,
{
    reveal_strlit("bool");
    reveal_strlit("uint8");
    reveal_strlit("uint16");
    reveal_strlit("uint32");
    reveal_strlit("uint64");
    reveal_strlit("int8");
    reveal_strlit("int16");
    reveal_strlit("int32");
    reveal_strlit("int64");
    reveal_strlit("float32");
    reveal_strlit("CNetworkedQuantizedFloat");
    reveal_strlit("GameTime_t");
    reveal_strlit("CUtlSymbolLarge");
    reveal_strlit("CUtlString");
    reveal_strlit("CGlobalSymbol");
    reveal_strlit("char");
    reveal_strlit("CUtlBinaryBlock");
    reveal_strlit("Quaternion");
    reveal_strlit("CTransform");
    reveal_strlit("QAngle");
    reveal_strlit("Vector");
    reveal_strlit("VectorWS");
    reveal_strlit("Vector2D");
    reveal_strlit("Vector4D");
    assert forall|i: int| 0 <= i < t.len() implies ('a' <= #[trigger] t[i] <= 'z' || '0' <= t[i] <= '9') by {}
    lemma_plain_type_name(p, t, name, hints, encoder, has_serializer);
    if t != "bool"@ {
        assert(!is_component_pointer(t)) by {
            reveal_strlit("CBodyComponent");
            reveal_strlit("CBodyComponentBaseAnimGraph");
            reveal_strlit("CBodyComponentBaseModelEntity");
            reveal_strlit("CBodyComponentPoint");
            reveal_strlit("CBodyComponentBaseAnimating");
            reveal_strlit("CBodyComponentBaseAnimatingOverlay");
            reveal_strlit("CBodyComponentSkeletonInstance");
            reveal_strlit("CLightComponent");
            reveal_strlit("CRenderComponent");
            reveal_strlit("C_BodyComponentBaseAnimating");
            reveal_strlit("C_BodyComponentBaseAnimatingOverlay");
            reveal_strlit("CPhysicsComponent");
        }
    }
}

/// One bit's value is whether the bit is set.
proof fn lemma_single_bit(bits: Seq<bool>, p: int)
    requires
        0 <= p < bits.len(),
    ensures
        field(bits, p, 1) == (if bits[p] {
            1nat
        } else {
            0nat
        }),
{
    let s = bits.subrange(p, p + 1);
    assert(s.drop_last() =~= Seq::<bool>::empty());
    vstd::arithmetic::power2::lemma2_to64();
    reveal_with_fuel(crate::io::bits::bits_value, 2);
}

/// Skipping a world coordinate, stated against its two flag bits: with
/// neither flag set it takes the two flags alone; otherwise a sign bit
/// follows, then 14 integer bits when the first flag is set and 5
/// fraction bits when the second is, so a whole-number coordinate takes
/// 17 bits, a fraction-only one 8 and one with both 22.
pub proof fn lemma_coord_skip_widths(bits: Seq<bool>, pos: int)
    requires
        0 <= pos,
        pos + 2 <= bits.len(),
    ensures
        !bits[pos] && !bits[pos + 1] ==> skip_read(Decoder::F32Coord, bits, pos) == (Skipped::Done { len: 2 }),
        bits[pos] && !bits[pos + 1] && pos + 17 <= bits.len() ==> skip_read(Decoder::F32Coord, bits, pos)
            == (Skipped::Done { len: 17 }),
        !bits[pos] && bits[pos + 1] && pos + 8 <= bits.len() ==> skip_read(Decoder::F32Coord, bits, pos)
            == (Skipped::Done { len: 8 }),
        bits[pos] && bits[pos + 1] && pos + 22 <= bits.len() ==> skip_read(Decoder::F32Coord, bits, pos)
            == (Skipped::Done { len: 22 }),
{
    lemma_single_bit(bits, pos);
    lemma_single_bit(bits, pos + 1);
}

/// A varint that fits in `m1` bytes reads the same under any larger cap;
/// so does a read that runs out of data first.
proof fn lemma_varint_cap(bytes: Seq<u8>, i: nat, m1: nat, m2: nat)
    requires
        m1 <= m2,
        !(varint_from(bytes, i, m1) is TooLong),
    ensures
        varint_from(bytes, i, m2) == varint_from(bytes, i, m1),
    decreases m1 - i,
{
    if i < m1 && i < bytes.len() && bytes[i as int] >= 128 {
        lemma_varint_cap(bytes, i + 1, m1, m2);
    }
}

/// A string found from byte `j` ends at a terminator at or after `j`.
proof fn lemma_cstring_done(bytes: Seq<u8>, j: nat, c: nat)
    ensures
        cstring_from(bytes, j, c) matches CStringRead::Done { len } ==> j <= len < bytes.len() && bytes[len as int]
            == 0,
    decreases c - j,
{
    if j < bytes.len() && bytes[j as int] != 0 && j < c {
        lemma_cstring_done(bytes, j + 1, c);
    }
}

/// A string found within one cap is found the same way under any cap
/// that leaves room for it.
proof fn lemma_cstring_cap(bytes: Seq<u8>, j: nat, c1: nat, c2: nat, len: nat)
    requires
        cstring_from(bytes, j, c1) == (CStringRead::Done { len }),
        len <= c2,
    ensures
        cstring_from(bytes, j, c2) == (CStringRead::Done { len }),
    decreases c1 - j,
{
    lemma_cstring_done(bytes, j, c1);
    if j < bytes.len() && bytes[j as int] != 0 && j < c1 {
        lemma_cstring_cap(bytes, j + 1, c1, c2, len);
    }
}

/// Skipping a field passes over exactly the bits that decoding it reads:
/// wherever a plain decoder that can also be skipped reads a value, skipping
/// succeeds and ends at the same position.
pub proof fn lemma_skip_agrees_with_decode(d: Decoder, bits: Seq<bool>, pos: int, lim: LimitsModel)
    requires
        plain_decoder(d),
        skippable(d),
        0 <= pos <= bits.len(),
        bits.len() <= usize::MAX,
        plain_read(d, bits, pos, lim) is Value,
    ensures
        skip_read(d, bits, pos) == (Skipped::Done { len: plain_read(d, bits, pos, lim)->Value_len }),
{
    let bytes = bytes_at(bits, pos);
    match d {
        Decoder::Ammo => {
            lemma_varint_cap(bytes, 0, 5, 10);
        },
        Decoder::String => {
            if let CStringRead::Done { len } = cstring_from(bytes, 0, lim.max_field_string_bytes as nat) {
                lemma_cstring_done(bytes, 0, lim.max_field_string_bytes as nat);
                lemma_cstring_cap(bytes, 0, lim.max_field_string_bytes as nat, bytes.len(), len);
            }
        },
        _ => {},
    }
}

impl Decoder {
    /// Whether [`Decoder::skip`] can pass over a field of this decoder.
    pub fn is_skippable(&self) -> (r: bool)
        ensures
            r == skippable(*self),
        decreases *self,
    {
        match self {
            Decoder::F32Quantized(_) => false,
            Decoder::QAnglePitchYaw { bit_count } => *bit_count <= usize::MAX / 2,
            Decoder::QAngleBitCount { bit_count } => *bit_count <= usize::MAX / 3,
            Decoder::Vector2(inner) => inner.is_skippable(),
            Decoder::Vector3(inner) => inner.is_skippable(),
            Decoder::Vector4(inner) => inner.is_skippable(),
            Decoder::FloatVecN { count: _, inner } => inner.is_skippable(),
            _ => true,
        }
    }

    /// Pass over one field value without decoding it: varints, strings,
    /// coordinates, normals and fixed-width values are stepped over by their
    /// lengths alone. Quantized floats are the one exception (see
    /// [`skippable`]).
    pub fn skip(&self, br: &mut BitReader) -> (r: Result<(), Error>)
        requires
            old(br).wf(),
            skippable(*self),
        ensures
            final(br).wf(),
            final(br).spec_data() == old(br).spec_data(),
            skip_matches(skip_read(*self, old(br).spec_bits(), old(br).spec_pos() as int), r, old(br).spec_pos(), final(br).spec_pos()),
        decreases *self, 0nat,
    {
        proof {
            br.lemma_valid();
        }
        match self {
            Decoder::Bool => br.skip_bits(1),
            Decoder::I64 | Decoder::U64 | Decoder::F32SimulationTime | Decoder::Ammo | Decoder::Default => {
                match br.read_uvarint64() {
                    Ok(_) => Ok(()),
                    Err(e) => Err(e),
                }
            },
            Decoder::String => br.skip_string(),
            Decoder::F32Coord => Self::skip_coord(br),
            Decoder::F32Normal => br.skip_bits(12),
            Decoder::Vector3Normal => Self::skip_vec3_normal(br),
            Decoder::QAngleCoord => Self::skip_vec3_coord(br),
            Decoder::U64Fixed64 => br.skip_bits(64),
            Decoder::F32NoScale => br.skip_bits(32),
            Decoder::BinaryBlock => Self::skip_block(br),
            Decoder::Poly => Self::skip_poly(br),
            Decoder::QAnglePrecise | Decoder::QAnglePreciseRaw => Self::skip_precise(br),
            Decoder::QAnglePitchYaw { bit_count } => br.skip_bits(*bit_count * 2),
            Decoder::QAngleBitCount { bit_count } => br.skip_bits(*bit_count * 3),
            Decoder::Vector2(inner) => inner.skip_many(br, 2),
            Decoder::Vector3(inner) => inner.skip_many(br, 3),
            Decoder::Vector4(inner) => inner.skip_many(br, 4),
            Decoder::FloatVecN { count, inner } => inner.skip_many(br, *count),
            _ => Err(Error::Parse { context: String::new() }),
        }
    }

    /// Pass over `k` fields of this decoder in a row.
    fn skip_many(&self, br: &mut BitReader, k: usize) -> (r: Result<(), Error>)
        requires
            old(br).wf(),
            skippable(*self),
        ensures
            final(br).wf(),
            final(br).spec_data() == old(br).spec_data(),
            skip_matches(skip_repeat(*self, old(br).spec_bits(), old(br).spec_pos() as int, k as nat), r, old(br).spec_pos(), final(br).spec_pos()),
        decreases *self, 1nat,
    {
        let ghost bits = br.spec_bits();
        let ghost pos = br.spec_pos();
        let mut i: usize = 0;
        while i < k
            invariant
                br.wf(),
                br.spec_data() == old(br).spec_data(),
                bits == br.spec_bits(),
                pos == old(br).spec_pos(),
                skippable(*self),
                i <= k,
                skip_repeat(*self, bits, pos as int, i as nat) matches Skipped::Done { len } && br.spec_pos()
                    == pos + len,
            decreases k - i,
        {
            let ghost before = br.spec_pos();
            let res = self.skip(br);
            proof {
                assert(skip_repeat(*self, bits, pos as int, (i + 1) as nat) == skip_after(
                    (before - pos) as nat,
                    skip_read(*self, bits, before as int),
                ));
            }
            match res {
                Ok(()) => {},
                Err(e) => {
                    proof {
                        lemma_repeat_failed_stays(*self, bits, pos as int, (i + 1) as nat, k as nat);
                    }
                    return Err(e);
                },
            }
            i = i + 1;
        }
        Ok(())
    }

    /// Pass over a length-prefixed block.
    fn skip_block(br: &mut BitReader) -> (r: Result<(), Error>)
        requires
            old(br).wf(),
        ensures
            final(br).wf(),
            final(br).spec_data() == old(br).spec_data(),
            skip_matches(block_skip(old(br).spec_bits(), old(br).spec_pos() as int), r, old(br).spec_pos(), final(br).spec_pos()),
    {
        proof {
            br.lemma_valid();
        }
        let n = match br.read_uvarint32() {
            Ok(raw) => raw as usize,
            Err(e) => return Err(e),
        };
        let count = if n <= usize::MAX / 8 {
            n * 8
        } else {
            usize::MAX
        };
        proof {
            br.lemma_valid();
            assert(count == byte_bits_needed(n as nat));
        }
        br.skip_bits(count)
    }

    /// Pass over a polymorphic marker: a presence bit and a type index.
    fn skip_poly(br: &mut BitReader) -> (r: Result<(), Error>)
        requires
            old(br).wf(),
        ensures
            final(br).wf(),
            final(br).spec_data() == old(br).spec_data(),
            skip_matches(skip_read(Decoder::Poly, old(br).spec_bits(), old(br).spec_pos() as int), r, old(br).spec_pos(), final(br).spec_pos()),
    {
        proof {
            br.lemma_valid();
        }
        match br.skip_bits(1) {
            Ok(()) => {},
            Err(e) => return Err(e),
        }
        match br.read_ubitvar() {
            Ok(_) => Ok(()),
            Err(e) => Err(e),
        }
    }

    /// Pass over a world coordinate.
    fn skip_coord(br: &mut BitReader) -> (r: Result<(), Error>)
        requires
            old(br).wf(),
        ensures
            final(br).wf(),
            final(br).spec_data() == old(br).spec_data(),
            skip_matches(coord_skip(old(br).spec_bits(), old(br).spec_pos() as int), r, old(br).spec_pos(), final(br).spec_pos()),
    {
        proof {
            br.lemma_valid();
        }
        let has_int = match br.read_bool() {
            Ok(b) => b,
            Err(e) => return Err(e),
        };
        proof {
            br.lemma_valid();
        }
        let has_frac = match br.read_bool() {
            Ok(b) => b,
            Err(e) => return Err(e),
        };
        proof {
            br.lemma_valid();
        }
        if !has_int && !has_frac {
            return Ok(());
        }
        let count: usize = 1 + if has_int { 14 } else { 0 } + if has_frac { 5 } else { 0 };
        br.skip_bits(count)
    }

    /// Pass over a unit normal vector.
    fn skip_vec3_normal(br: &mut BitReader) -> (r: Result<(), Error>)
        requires
            old(br).wf(),
        ensures
            final(br).wf(),
            final(br).spec_data() == old(br).spec_data(),
            skip_matches(vec3_normal_skip(old(br).spec_bits(), old(br).spec_pos() as int), r, old(br).spec_pos(), final(br).spec_pos()),
    {
        proof {
            br.lemma_valid();
        }
        let has_x = match br.read_bool() {
            Ok(b) => b,
            Err(e) => return Err(e),
        };
        proof {
            br.lemma_valid();
        }
        let has_y = match br.read_bool() {
            Ok(b) => b,
            Err(e) => return Err(e),
        };
        proof {
            br.lemma_valid();
        }
        let count: usize = if has_x { 12 } else { 0 } + if has_y { 12 } else { 0 } + 1;
        br.skip_bits(count)
    }

    /// Pass over a coordinate vector.
    #[verifier::rlimit(50)]
    fn skip_vec3_coord(br: &mut BitReader) -> (r: Result<(), Error>)
        requires
            old(br).wf(),
        ensures
            final(br).wf(),
            final(br).spec_data() == old(br).spec_data(),
            skip_matches(vec3_coord_skip(old(br).spec_bits(), old(br).spec_pos() as int), r, old(br).spec_pos(), final(br).spec_pos()),
    {
        let ghost bits = br.spec_bits();
        let ghost pos = br.spec_pos();
        proof {
            reveal_with_fuel(coords_flagged, 4);
            br.lemma_valid();
        }
        let has_x = match br.read_bool() {
            Ok(b) => b,
            Err(e) => return Err(e),
        };
        proof {
            br.lemma_valid();
        }
        let has_y = match br.read_bool() {
            Ok(b) => b,
            Err(e) => return Err(e),
        };
        proof {
            br.lemma_valid();
        }
        let has_z = match br.read_bool() {
            Ok(b) => b,
            Err(e) => return Err(e),
        };
        let ghost flags = seq![has_x, has_y, has_z];
        proof {
            assert(flags == seq![bit_set(bits, pos as int), bit_set(bits, pos + 1int), bit_set(bits, pos + 2int)]);
            assert(flags.drop_first() == seq![has_y, has_z]);
            assert(flags.drop_first().drop_first() == seq![has_z]);
            assert(flags.drop_first().drop_first().drop_first() == Seq::<bool>::empty());
        }
        if has_x {
            match Self::skip_coord(br) {
                Ok(()) => {},
                Err(e) => return Err(e),
            }
        }
        if has_y {
            match Self::skip_coord(br) {
                Ok(()) => {},
                Err(e) => return Err(e),
            }
        }
        if has_z {
            match Self::skip_coord(br) {
                Ok(()) => {},
                Err(e) => return Err(e),
            }
        }
        Ok(())
    }

    /// Pass over a precise angle: three presence bits, then 20 bits for
    /// each component present.
    fn skip_precise(br: &mut BitReader) -> (r: Result<(), Error>)
        requires
            old(br).wf(),
        ensures
            final(br).wf(),
            final(br).spec_data() == old(br).spec_data(),
            skip_matches(precise_skip(old(br).spec_bits(), old(br).spec_pos() as int), r, old(br).spec_pos(), final(br).spec_pos()),
    {
        proof {
            reveal_with_fuel(skip_flagged, 4);
            br.lemma_valid();
        }
        let rx = match br.read_bool() {
            Ok(b) => b,
            Err(e) => return Err(e),
        };
        proof {
            br.lemma_valid();
        }
        let ry = match br.read_bool() {
            Ok(b) => b,
            Err(e) => return Err(e),
        };
        proof {
            br.lemma_valid();
        }
        let rz = match br.read_bool() {
            Ok(b) => b,
            Err(e) => return Err(e),
        };
        if rx {
            match br.skip_bits(20) {
                Ok(()) => {},
                Err(e) => return Err(e),
            }
        }
        if ry {
            match br.skip_bits(20) {
                Ok(()) => {},
                Err(e) => return Err(e),
            }
        }
        if rz {
            match br.skip_bits(20) {
                Ok(()) => {},
                Err(e) => return Err(e),
            }
        }
        Ok(())
    }
}

impl Clone for Decoder {
    fn clone(&self) -> (r: Self)
        ensures
            r == *self,
    {
        self.duplicate()
    }
}

/// Special descriptor for fields that need non-standard handling
/// (arrays, pointers, or nested serializers).
#[derive(Debug, Clone)]
#[non_exhaustive]
pub enum FieldSpecialDescriptor {
    /// Fixed-length array (e.g. `int32[4]`).
    FixedArray {
        /// Element count declared by the schema.
        length: usize,
    },
    /// Variable-length array of a primitive type.
    DynamicArray {
        /// Decoder applied to each element.
        inner_decoder: Decoder,
    },
    /// Variable-length array whose elements have a nested serializer.
    DynamicSerializerArray,
    /// Pointer / entity handle (encoded as a single boolean "present" flag).
    Pointer,
}

/// Metadata about how to decode a field.
#[derive(Debug, Clone)]
#[non_exhaustive]
pub struct FieldMetadata {
    /// Decoder selected for the field's wire encoding.
    pub decoder: Decoder,
    /// Array or pointer shape layered on top of `decoder`, if any.
    pub special: Option<FieldSpecialDescriptor>,
}

/// Metadata with the placeholder decoder and no special shape.
pub open spec fn default_metadata() -> FieldMetadata {
    FieldMetadata { decoder: Decoder::Default, special: None }
}

impl Default for FieldMetadata {
    fn default() -> (r: Self)
        ensures
            r == default_metadata(),
    {
        FieldMetadata { decoder: Decoder::Default, special: None }
    }
}

impl FieldMetadata {
    /// Returns `true` for variable-length arrays of either element kind.
    pub fn is_dynamic_array(&self) -> (r: bool)
        ensures
            r == (self.special matches Some(FieldSpecialDescriptor::DynamicArray { .. })
                || self.special matches Some(FieldSpecialDescriptor::DynamicSerializerArray)),
    {
        match &self.special {
            Some(FieldSpecialDescriptor::DynamicArray { .. }) => true,
            Some(FieldSpecialDescriptor::DynamicSerializerArray) => true,
            _ => false,
        }
    }

    /// Returns `true` for arrays with a length fixed by the schema.
    pub fn is_fixed_array(&self) -> (r: bool)
        ensures
            r == (self.special matches Some(FieldSpecialDescriptor::FixedArray { .. })),
    {
        match &self.special {
            Some(FieldSpecialDescriptor::FixedArray { .. }) => true,
            _ => false,
        }
    }

    /// Element count for a fixed-length array, or `None` for other shapes.
    pub fn fixed_array_length(&self) -> (r: Option<usize>)
        ensures
            r == (match self.special {
                Some(FieldSpecialDescriptor::FixedArray { length }) => Some(length),
                _ => None,
            }),
    {
        match &self.special {
            Some(FieldSpecialDescriptor::FixedArray { length }) => Some(*length),
            _ => None,
        }
    }

    /// Returns `true` for variable-length arrays whose elements have their
    /// own nested serializer rather than a primitive decoder.
    pub fn is_dynamic_serializer_array(&self) -> (r: bool)
        ensures
            r == (self.special matches Some(FieldSpecialDescriptor::DynamicSerializerArray)),
    {
        match &self.special {
            Some(FieldSpecialDescriptor::DynamicSerializerArray) => true,
            _ => false,
        }
    }

    /// Returns `true` for pointer fields, which encode only a presence bit.
    pub fn is_pointer(&self) -> (r: bool)
        ensures
            r == (self.special matches Some(FieldSpecialDescriptor::Pointer)),
    {
        match &self.special {
            Some(FieldSpecialDescriptor::Pointer) => true,
            _ => false,
        }
    }

    /// Metadata for one element of a dynamic array.
    ///
    /// Returns the default metadata when this field is not a dynamic array.
    pub fn dynamic_array_inner_metadata(&self) -> (r: FieldMetadata)
        ensures
            r == (match self.special {
                Some(FieldSpecialDescriptor::DynamicArray { inner_decoder }) => FieldMetadata {
                    decoder: inner_decoder,
                    special: None,
                },
                _ => default_metadata(),
            }),
    {
        match &self.special {
            Some(FieldSpecialDescriptor::DynamicArray { inner_decoder }) => FieldMetadata {
                decoder: inner_decoder.duplicate(),
                special: None,
            },
            _ => FieldMetadata::default(),
        }
    }
}

/// The numeric hints a serializer may attach to a float field.
#[derive(Debug, Clone, Copy, PartialEq, Eq, Structural)]
pub struct FloatHints {
    /// Declared bit width.
    pub bit_count: Option<i32>,
    /// Bit pattern of the declared `f32` low bound.
    pub low_value: Option<u32>,
    /// Bit pattern of the declared `f32` high bound.
    pub high_value: Option<u32>,
    /// Declared encoding flags.
    pub encode_flags: Option<i32>,
}

/// The value inside `o`, or `d` when there is none.
pub open spec fn or_i32(o: Option<i32>, d: i32) -> i32 {
    match o {
        Some(v) => v,
        None => d,
    }
}

/// The value inside `o`, or `d` when there is none.
pub open spec fn or_u32(o: Option<u32>, d: u32) -> u32 {
    match o {
        Some(v) => v,
        None => d,
    }
}

/// The float decoder chosen from a field's name, hints and encoder.
pub open spec fn float_decoder(name: Seq<char>, hints: FloatHints, encoder: Option<Seq<char>>) -> Decoder {
    if name == "m_flSimulationTime"@ || name == "m_flAnimTime"@ {
        Decoder::F32SimulationTime
    } else if encoder == Some("coord"@) {
        Decoder::F32Coord
    } else if encoder == Some("normal"@) {
        Decoder::F32Normal
    } else {
        let bits = or_i32(hints.bit_count, 0);
        if bits == 0 || bits == 32 {
            Decoder::F32NoScale
        } else {
            Decoder::F32Quantized(
                QuantizedFloatParams {
                    bit_count: bits,
                    encode_flags: or_i32(hints.encode_flags, 0),
                    low_value: or_u32(hints.low_value, 0),
                    high_value: or_u32(hints.high_value, 0),
                },
            )
        }
    }
}

/// Metadata with the given decoder and shape.
pub open spec fn meta(decoder: Decoder, special: Option<FieldSpecialDescriptor>) -> FieldMetadata {
    FieldMetadata { decoder, special }
}

/// Base type names of dynamic arrays.
pub open spec fn is_vector_base(base: Seq<char>) -> bool {
    base == "CNetworkUtlVectorBase"@ || base == "CUtlVectorEmbeddedNetworkVar"@ || base
        == "CUtlVector"@
}

/// Component types transmitted as a single presence bit.
pub open spec fn is_component_pointer(t: Seq<char>) -> bool {
    ||| t == "CBodyComponentBaseAnimating"@
    ||| t == "CBodyComponentBaseAnimatingOverlay"@
    ||| t == "CBodyComponentBaseModelEntity"@
    ||| t == "CBodyComponent"@
    ||| t == "CBodyComponentSkeletonInstance"@
    ||| t == "CBodyComponentPoint"@
    ||| t == "CLightComponent"@
    ||| t == "CRenderComponent"@
    ||| t == "C_BodyComponentBaseAnimating"@
    ||| t == "C_BodyComponentBaseAnimatingOverlay"@
    ||| t == "CPhysicsComponent"@
}

/// The decoder of a plain (non-array, non-template) type name.
pub open spec fn base_type_metadata(
    p: ProfileModel,
    t: Seq<char>,
    name: Seq<char>,
    hints: FloatHints,
    encoder: Option<Seq<char>>,
) -> FieldMetadata {
    if t == "int8"@ || t == "int16"@ || t == "int32"@ || t == "int64"@ {
        meta(Decoder::I64, None)
    } else if t == "bool"@ {
        meta(Decoder::Bool, None)
    } else if t == "float32"@ || t == "CNetworkedQuantizedFloat"@ || t == "GameTime_t"@ {
        meta(float_decoder(name, hints, encoder), None)
    } else if is_component_pointer(t) {
        meta(Decoder::Bool, Some(FieldSpecialDescriptor::Pointer))
    } else if t == "CUtlSymbolLarge"@ || t == "CUtlString"@ || t == "CGlobalSymbol"@ {
        meta(Decoder::String, None)
    } else if t == "char"@ {
        meta(
            match p.bare_char {
                BareCharEncoding::NullTerminatedString => Decoder::String,
                BareCharEncoding::UnsignedVarint => Decoder::U64,
            },
            None,
        )
    } else if t == "CUtlBinaryBlock"@ {
        meta(Decoder::BinaryBlock, None)
    } else if t == "Quaternion"@ || t == "CTransform"@ {
        meta(
            Decoder::FloatVecN {
                count: if t == "CTransform"@ {
                    6
                } else {
                    4
                },
                inner: Box::new(float_decoder(name, hints, encoder)),
            },
            None,
        )
    } else if t == "QAngle"@ {
        let bit_count = or_i32(hints.bit_count, 0) as usize;
        meta(
            if encoder == Some("qangle_pitch_yaw"@) && p.pitch_yaw_qangles {
                Decoder::QAnglePitchYaw { bit_count }
            } else if encoder == Some("qangle_precise"@) {
                match p.precise_qangle {
                    PreciseQAngleMode::Centered => Decoder::QAnglePrecise,
                    PreciseQAngleMode::Raw => Decoder::QAnglePreciseRaw,
                }
            } else if bit_count != 0 {
                Decoder::QAngleBitCount { bit_count }
            } else {
                Decoder::QAngleCoord
            },
            None,
        )
    } else if t == "Vector"@ || t == "VectorWS"@ {
        if encoder == Some("normal"@) {
            meta(Decoder::Vector3Normal, None)
        } else {
            meta(Decoder::Vector3(Box::new(float_decoder(name, hints, encoder))), None)
        }
    } else if t == "Vector2D"@ {
        meta(Decoder::Vector2(Box::new(float_decoder(name, hints, encoder))), None)
    } else if t == "Vector4D"@ {
        meta(Decoder::Vector4(Box::new(float_decoder(name, hints, encoder))), None)
    } else if p.dynamic_serializer_types.contains(t) {
        meta(Decoder::U64, Some(FieldSpecialDescriptor::DynamicSerializerArray))
    } else if encoder == Some("fixed64"@) {
        meta(Decoder::U64Fixed64, None)
    } else {
        meta(Decoder::U64, None)
    }
}

/// Length bound to a symbolic array size by the profile; 64 when the
/// symbol is unknown.
pub open spec fn symbol_length(symbols: Seq<(Seq<char>, usize)>, key: Seq<char>) -> usize
    decreases symbols.len(),
{
    if symbols.len() == 0 {
        64
    } else if symbols[0].0 == key {
        symbols[0].1
    } else {
        symbol_length(symbols.drop_first(), key)
    }
}

/// The type between the start and the first `[`, trimmed.
pub open spec fn array_base(t: Seq<char>) -> Seq<char> {
    trim(t.subrange(0, find_first(t, '[')->0 as int))
}

/// The text between the first `[` and the closing `]`, trimmed.
pub open spec fn array_length_text(t: Seq<char>) -> Seq<char> {
    trim(t.subrange((find_first(t, '[')->0 + 1) as int, t.len() - 1))
}

/// `t` has the shape `base[length]`.
pub open spec fn is_array_type(t: Seq<char>) -> bool {
    find_first(t, '[') is Some && t.len() > 0 && t.last() == ']'
}

/// `t` holds a `<` and a `>`.
pub open spec fn is_template_type(t: Seq<char>) -> bool {
    find_first(t, '<') is Some && find_last(t, '>') is Some
}

/// The type before the first `<`, trimmed.
pub open spec fn template_base(t: Seq<char>) -> Seq<char> {
    trim(t.subrange(0, find_first(t, '<')->0 as int))
}

/// The text between the first `<` and the last `>`, trimmed.
pub open spec fn template_argument(t: Seq<char>) -> Seq<char> {
    trim(t.subrange((find_first(t, '<')->0 + 1) as int, find_last(t, '>')->0 as int))
}

/// The last `>` comes after the first `<`, so the argument can be cut out.
pub open spec fn template_well_formed(t: Seq<char>) -> bool {
    find_last(t, '>')->0 > find_first(t, '<')->0
}

/// The pieces that a type name is cut into are shorter than the name.
pub proof fn lemma_type_pieces(t: Seq<char>)
    ensures
        is_array_type(t) ==> array_base(t).len() < t.len(),
        is_template_type(t) ==> template_base(t).len() < t.len(),
        is_template_type(t) && template_well_formed(t) ==> template_argument(t).len() < t.len(),
{
    lemma_find_bounds(t, '[', 0);
    lemma_find_bounds(t, '<', 0);
    lemma_find_last_bounds(t, '>', t.len() as int);
    if is_array_type(t) {
        lemma_trim_len(t.subrange(0, find_first(t, '[')->0 as int));
    }
    if is_template_type(t) {
        lemma_trim_len(t.subrange(0, find_first(t, '<')->0 as int));
        if template_well_formed(t) {
            lemma_trim_len(t.subrange((find_first(t, '<')->0 + 1) as int, find_last(t, '>')->0 as int));
        }
    }
}

/// The metadata that the dispatch chooses for a field: its type name
/// `ty`, its name, its float hints, its encoder hint, and whether it has
/// a nested serializer.
pub open spec fn field_metadata(
    p: ProfileModel,
    ty: Seq<char>,
    name: Seq<char>,
    hints: FloatHints,
    encoder: Option<Seq<char>>,
    has_serializer: bool,
) -> FieldMetadata
    decreases ty.len(),
{
    let t = trim(ty);
    proof {
        lemma_trim_len(ty);
        lemma_type_pieces(t);
    }
    if p.ammo_field == Some(name) {
        meta(Decoder::Ammo, None)
    } else if t.len() > 0 && t.last() == '*' {
        meta(Decoder::Bool, Some(FieldSpecialDescriptor::Pointer))
    } else if is_array_type(t) {
        let base = array_base(t);
        if base == "char"@ {
            meta(Decoder::String, None)
        } else {
            let text = array_length_text(t);
            let length = match parse_usize(text) {
                Some(n) => n,
                None => symbol_length(p.symbolic_array_lengths, text),
            };
            meta(
                field_metadata(p, base, name, hints, encoder, has_serializer).decoder,
                Some(FieldSpecialDescriptor::FixedArray { length }),
            )
        }
    } else if is_template_type(t) {
        let base = template_base(t);
        if !template_well_formed(t) {
            default_metadata()
        } else if is_vector_base(base) {
            if has_serializer {
                meta(Decoder::U64, Some(FieldSpecialDescriptor::DynamicSerializerArray))
            } else {
                meta(
                    Decoder::U64,
                    Some(
                        FieldSpecialDescriptor::DynamicArray {
                            inner_decoder: field_metadata(
                                p,
                                template_argument(t),
                                name,
                                hints,
                                encoder,
                                has_serializer,
                            ).decoder,
                        },
                    ),
                )
            }
        } else {
            field_metadata(p, base, name, hints, encoder, has_serializer)
        }
    } else if p.pointer_types.contains(t) {
        meta(Decoder::Bool, Some(FieldSpecialDescriptor::Pointer))
    } else {
        base_type_metadata(p, t, name, hints, encoder)
    }
}

/// Whether choosing the metadata of `ty` stays clear of a template whose
/// last `>` comes before its first `<`, which the dispatch cannot cut apart.
pub open spec fn metadata_defined(p: ProfileModel, ty: Seq<char>, name: Seq<char>, has_serializer: bool) -> bool
    decreases ty.len(),
{
    let t = trim(ty);
    proof {
        lemma_trim_len(ty);
        lemma_type_pieces(t);
    }
    if p.ammo_field == Some(name) {
        true
    } else if t.len() > 0 && t.last() == '*' {
        true
    } else if is_array_type(t) {
        array_base(t) == "char"@ || metadata_defined(p, array_base(t), name, has_serializer)
    } else if is_template_type(t) {
        template_well_formed(t) && if is_vector_base(template_base(t)) {
            has_serializer || metadata_defined(p, template_argument(t), name, has_serializer)
        } else {
            metadata_defined(p, template_base(t), name, has_serializer)
        }
    } else {
        true
    }
}

/// Whether the optional hint spells `text`.
fn hint_is(encoder: &Option<Vec<char>>, text: &str) -> (r: bool)
    ensures
        r == (hint_view(encoder) == Some(text@)),
{
    match encoder {
        Some(e) => is_text(e.as_slice(), text),
        None => false,
    }
}

/// The characters of an optional hint.
pub open spec fn hint_view(encoder: &Option<Vec<char>>) -> Option<Seq<char>> {
    match encoder {
        Some(e) => Some(e@),
        None => None,
    }
}

fn float_decoder_of(name: &[char], hints: FloatHints, encoder: &Option<Vec<char>>) -> (r: Decoder)
    ensures
        r == float_decoder(name@, hints, hint_view(encoder)),
{
    if is_text(name, "m_flSimulationTime") || is_text(name, "m_flAnimTime") {
        return Decoder::F32SimulationTime;
    }
    if hint_is(encoder, "coord") {
        return Decoder::F32Coord;
    }
    if hint_is(encoder, "normal") {
        return Decoder::F32Normal;
    }
    let bits = match hints.bit_count {
        Some(b) => b,
        None => 0,
    };
    if bits == 0 || bits == 32 {
        return Decoder::F32NoScale;
    }
    Decoder::F32Quantized(
        QuantizedFloatParams {
            bit_count: bits,
            encode_flags: match hints.encode_flags {
                Some(f) => f,
                None => 0,
            },
            low_value: match hints.low_value {
                Some(v) => v,
                None => 0,
            },
            high_value: match hints.high_value {
                Some(v) => v,
                None => 0,
            },
        },
    )
}

/// Whether `t` is one of `names`.
fn listed(names: &'static [&'static str], t: &[char]) -> (r: bool)
    ensures
        r == names@.map_values(|name: &'static str| name@).contains(t@),
{
    let ghost all = names@.map_values(|name: &'static str| name@);
    let mut i: usize = 0;
    while i < names.len()
        invariant
            i <= names@.len(),
            all == names@.map_values(|name: &'static str| name@),
            forall|k: int| 0 <= k < i ==> all[k] != t@,
        decreases names@.len() - i,
    {
        if is_text(t, names[i]) {
            assert(all[i as int] == t@);
            return true;
        }
        i = i + 1;
    }
    false
}

/// The length bound to a symbolic array size.
fn symbolic_length(symbols: &'static [(&'static str, usize)], key: &[char]) -> (r: usize)
    ensures
        r == symbol_length(
            symbols@.map_values(|entry: (&'static str, usize)| (entry.0@, entry.1)),
            key@,
        ),
{
    let ghost all = symbols@.map_values(|entry: (&'static str, usize)| (entry.0@, entry.1));
    let mut i: usize = 0;
    proof {
        assert(all.skip(0) =~= all);
    }
    while i < symbols.len()
        invariant
            i <= symbols@.len(),
            all == symbols@.map_values(|entry: (&'static str, usize)| (entry.0@, entry.1)),
            symbol_length(all, key@) == symbol_length(all.skip(i as int), key@),
        decreases symbols@.len() - i,
    {
        let (symbol, length) = symbols[i];
        proof {
            assert(all.skip(i as int)[0] == all[i as int]);
            assert(all.skip(i as int).drop_first() =~= all.skip(i + 1));
        }
        if is_text(key, symbol) {
            return length;
        }
        i = i + 1;
    }
    64
}

fn base_type_metadata_of(
    profile: &DecodeProfile,
    t: &[char],
    name: &[char],
    hints: FloatHints,
    encoder: &Option<Vec<char>>,
) -> (r: FieldMetadata)
    ensures
        r == base_type_metadata(profile@, t@, name@, hints, hint_view(encoder)),
{
    if is_text(t, "int8") || is_text(t, "int16") || is_text(t, "int32") || is_text(t, "int64") {
        return FieldMetadata { decoder: Decoder::I64, special: None };
    }
    if is_text(t, "bool") {
        return FieldMetadata { decoder: Decoder::Bool, special: None };
    }
    if is_text(t, "float32") || is_text(t, "CNetworkedQuantizedFloat") || is_text(t, "GameTime_t") {
        return FieldMetadata { decoder: float_decoder_of(name, hints, encoder), special: None };
    }
    if is_text(t, "CBodyComponentBaseAnimating") || is_text(t, "CBodyComponentBaseAnimatingOverlay")
        || is_text(t, "CBodyComponentBaseModelEntity") || is_text(t, "CBodyComponent") || is_text(
        t,
        "CBodyComponentSkeletonInstance",
    ) || is_text(t, "CBodyComponentPoint") || is_text(t, "CLightComponent") || is_text(
        t,
        "CRenderComponent",
    ) || is_text(t, "C_BodyComponentBaseAnimating") || is_text(
        t,
        "C_BodyComponentBaseAnimatingOverlay",
    ) || is_text(t, "CPhysicsComponent") {
        return FieldMetadata { decoder: Decoder::Bool, special: Some(FieldSpecialDescriptor::Pointer) };
    }
    if is_text(t, "CUtlSymbolLarge") || is_text(t, "CUtlString") || is_text(t, "CGlobalSymbol") {
        return FieldMetadata { decoder: Decoder::String, special: None };
    }
    if is_text(t, "char") {
        let decoder = match profile.bare_char {
            BareCharEncoding::NullTerminatedString => Decoder::String,
            BareCharEncoding::UnsignedVarint => Decoder::U64,
        };
        return FieldMetadata { decoder, special: None };
    }
    if is_text(t, "CUtlBinaryBlock") {
        return FieldMetadata { decoder: Decoder::BinaryBlock, special: None };
    }
    let transform = is_text(t, "CTransform");
    if is_text(t, "Quaternion") || transform {
        let count: usize = if transform {
            6
        } else {
            4
        };
        let inner = float_decoder_of(name, hints, encoder);
        return FieldMetadata {
            decoder: Decoder::FloatVecN { count, inner: Box::new(inner) },
            special: None,
        };
    }
    if is_text(t, "QAngle") {
        let bit_count = match hints.bit_count {
            Some(b) => b,
            None => 0,
        } as usize;
        let decoder = if hint_is(encoder, "qangle_pitch_yaw") && profile.pitch_yaw_qangles {
            Decoder::QAnglePitchYaw { bit_count }
        } else if hint_is(encoder, "qangle_precise") {
            match profile.precise_qangle {
                PreciseQAngleMode::Centered => Decoder::QAnglePrecise,
                PreciseQAngleMode::Raw => Decoder::QAnglePreciseRaw,
            }
        } else if bit_count != 0 {
            Decoder::QAngleBitCount { bit_count }
        } else {
            Decoder::QAngleCoord
        };
        return FieldMetadata { decoder, special: None };
    }
    if is_text(t, "Vector") || is_text(t, "VectorWS") {
        if hint_is(encoder, "normal") {
            return FieldMetadata { decoder: Decoder::Vector3Normal, special: None };
        }
        let inner = float_decoder_of(name, hints, encoder);
        return FieldMetadata { decoder: Decoder::Vector3(Box::new(inner)), special: None };
    }
    if is_text(t, "Vector2D") {
        let inner = float_decoder_of(name, hints, encoder);
        return FieldMetadata { decoder: Decoder::Vector2(Box::new(inner)), special: None };
    }
    if is_text(t, "Vector4D") {
        let inner = float_decoder_of(name, hints, encoder);
        return FieldMetadata { decoder: Decoder::Vector4(Box::new(inner)), special: None };
    }
    if listed(profile.dynamic_serializer_types, t) {
        return FieldMetadata {
            decoder: Decoder::U64,
            special: Some(FieldSpecialDescriptor::DynamicSerializerArray),
        };
    }
    if hint_is(encoder, "fixed64") {
        FieldMetadata { decoder: Decoder::U64Fixed64, special: None }
    } else {
        FieldMetadata { decoder: Decoder::U64, special: None }
    }
}

fn metadata_of(
    profile: &DecodeProfile,
    ty: &[char],
    name: &[char],
    hints: FloatHints,
    encoder: &Option<Vec<char>>,
    has_serializer: bool,
) -> (r: FieldMetadata)
    requires
        metadata_defined(profile@, ty@, name@, has_serializer),
    ensures
        r == field_metadata(profile@, ty@, name@, hints, hint_view(encoder), has_serializer),
    decreases ty@.len(),
{
    let ammo = match profile.ammo_field {
        Some(field) => is_text(name, field),
        None => false,
    };
    if ammo {
        return FieldMetadata { decoder: Decoder::Ammo, special: None };
    }
    let t = trimmed(ty);
    proof {
        lemma_trim_len(ty@);
        lemma_type_pieces(t@);
    }
    let n = t.len();
    if n > 0 && t[n - 1] == '*' {
        return FieldMetadata { decoder: Decoder::Bool, special: Some(FieldSpecialDescriptor::Pointer) };
    }
    let bracket = find_char(t.as_slice(), '[');
    if let Some(bp) = bracket {
        if n > 0 && t[n - 1] == ']' {
            let head = sub_chars(t.as_slice(), 0, bp);
            let base = trimmed(head.as_slice());
            if is_text(base.as_slice(), "char") {
                return FieldMetadata { decoder: Decoder::String, special: None };
            }
            let inside = sub_chars(t.as_slice(), bp + 1, n - 1);
            let text = trimmed(inside.as_slice());
            let length = match parse_usize_chars(text.as_slice()) {
                Some(v) => v,
                None => symbolic_length(profile.symbolic_array_lengths, text.as_slice()),
            };
            let inner = metadata_of(profile, base.as_slice(), name, hints, encoder, has_serializer);
            return FieldMetadata {
                decoder: inner.decoder,
                special: Some(FieldSpecialDescriptor::FixedArray { length }),
            };
        }
    }
    let open = find_char(t.as_slice(), '<');
    let close = rfind_char(t.as_slice(), '>');
    if let Some(ap) = open {
        if let Some(cp) = close {
            let head = sub_chars(t.as_slice(), 0, ap);
            let base = trimmed(head.as_slice());
            let vector_base = is_text(base.as_slice(), "CNetworkUtlVectorBase") || is_text(
                base.as_slice(),
                "CUtlVectorEmbeddedNetworkVar",
            ) || is_text(base.as_slice(), "CUtlVector");
            if vector_base {
                if has_serializer {
                    return FieldMetadata {
                        decoder: Decoder::U64,
                        special: Some(FieldSpecialDescriptor::DynamicSerializerArray),
                    };
                }
                let inside = sub_chars(t.as_slice(), ap + 1, cp);
                let argument = trimmed(inside.as_slice());
                let inner = metadata_of(profile, argument.as_slice(), name, hints, encoder, has_serializer);
                return FieldMetadata {
                    decoder: Decoder::U64,
                    special: Some(FieldSpecialDescriptor::DynamicArray { inner_decoder: inner.decoder }),
                };
            }
            return metadata_of(profile, base.as_slice(), name, hints, encoder, has_serializer);
        }
    }
    if listed(profile.pointer_types, t.as_slice()) {
        return FieldMetadata { decoder: Decoder::Bool, special: Some(FieldSpecialDescriptor::Pointer) };
    }
    base_type_metadata_of(profile, t.as_slice(), name, hints, encoder)
}

/// Determine the [`FieldMetadata`] (decoder and special descriptor) for a
/// serializer field.
///
/// Inspects the type string (pointer suffix `*`, array brackets `[N]` and
/// template brackets `< T >` included), the field name, and the encoder
/// hint. `low_value` and `high_value` are the bit patterns of the `f32`
/// range bounds of a quantized float.
pub fn get_field_metadata(
    profile: DecodeProfile,
    var_type: &str,
    var_name: &str,
    bit_count: Option<i32>,
    low_value: Option<u32>,
    high_value: Option<u32>,
    encode_flags: Option<i32>,
    var_encoder: Option<&str>,
    has_field_serializer: bool,
) -> (r: FieldMetadata)
    requires
        metadata_defined(profile@, var_type@, var_name@, has_field_serializer),
    ensures
        r == field_metadata(
            profile@,
            var_type@,
            var_name@,
            FloatHints { bit_count, low_value, high_value, encode_flags },
            match var_encoder {
                Some(e) => Some(e@),
                None => None,
            },
            has_field_serializer,
        ),
{
    let ty = chars_of(var_type);
    let name = chars_of(var_name);
    let encoder = match var_encoder {
        Some(e) => Some(chars_of(e)),
        None => None,
    };
    let hints = FloatHints { bit_count, low_value, high_value, encode_flags };
    metadata_of(&profile, ty.as_slice(), name.as_slice(), hints, &encoder, has_field_serializer)
}

} // verus!
