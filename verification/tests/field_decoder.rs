use pbdems2::entity::{
    get_field_metadata, BareCharEncoding, DecodeProfile, Decoder, FieldMetadata,
    FieldSpecialDescriptor, PlainFieldValue, PreciseQAngleMode,
};
use pbdems2::io::BitReader;
use pbdems2::{DecodeLimits, Error};

fn test_profile() -> DecodeProfile {
    DecodeProfile::new(
        BareCharEncoding::NullTerminatedString,
        PreciseQAngleMode::Centered,
    )
    .with_ammo_field("m_ammo")
}

fn scalar_profile() -> DecodeProfile {
    DecodeProfile::new(BareCharEncoding::UnsignedVarint, PreciseQAngleMode::Raw)
        .with_pitch_yaw_qangles()
}

fn meta(var_type: &str, var_name: &str) -> FieldMetadata {
    get_field_metadata(
        test_profile(),
        var_type,
        var_name,
        None,
        None,
        None,
        None,
        None,
        false,
    )
}

#[allow(clippy::too_many_arguments)]
fn meta_full(
    var_type: &str,
    var_name: &str,
    bit_count: Option<i32>,
    low: Option<f32>,
    high: Option<f32>,
    encode_flags: Option<i32>,
    var_encoder: Option<&str>,
    has_fs: bool,
) -> FieldMetadata {
    get_field_metadata(
        test_profile(),
        var_type,
        var_name,
        bit_count,
        low.map(f32::to_bits),
        high.map(f32::to_bits),
        encode_flags,
        var_encoder,
        has_fs,
    )
}

fn decoder_name(
    profile: DecodeProfile,
    var_type: &str,
    var_name: &str,
    bit_count: Option<i32>,
    encoder: Option<&str>,
) -> String {
    format!(
        "{:?}",
        get_field_metadata(profile, var_type, var_name, bit_count, None, None, None, encoder, false)
            .decoder
    )
}

#[test]
fn pointer_type() {
    let m = meta("CBaseEntity*", "m_hOwner");
    assert!(matches!(m.decoder, Decoder::Bool));
    assert!(m.is_pointer());
}

#[test]
fn bool_type() {
    let m = meta("bool", "m_bActive");
    assert!(matches!(m.decoder, Decoder::Bool));
    assert!(m.special.is_none());
}

#[test]
fn int32_type() {
    let m = meta("int32", "m_iHealth");
    assert!(matches!(m.decoder, Decoder::I64));
}

#[test]
fn float32_no_scale() {
    let m = meta("float32", "m_flValue");
    assert!(matches!(m.decoder, Decoder::F32NoScale));
}

#[test]
fn simulation_time() {
    let m = meta("float32", "m_flSimulationTime");
    assert!(matches!(m.decoder, Decoder::F32SimulationTime));
}

#[test]
fn coord_encoder() {
    let m = meta_full(
        "float32",
        "m_x",
        None,
        None,
        None,
        None,
        Some("coord"),
        false,
    );
    assert!(matches!(m.decoder, Decoder::F32Coord));
}

#[test]
fn quantized_float() {
    let m = meta_full(
        "float32",
        "m_val",
        Some(8),
        Some(0.0),
        Some(255.0),
        None,
        None,
        false,
    );
    assert!(matches!(m.decoder, Decoder::F32Quantized(_)));
}

#[test]
fn string_utl_symbol() {
    let m = meta("CUtlSymbolLarge", "m_iszName");
    assert!(matches!(m.decoder, Decoder::String));
}

#[test]
fn char_array_is_string() {
    let m = meta("char[256]", "m_szName");
    assert!(matches!(m.decoder, Decoder::String));
    assert!(!m.is_fixed_array());
}

#[test]
fn int32_array_is_fixed_array() {
    let m = meta("int32[4]", "m_values");
    assert!(m.is_fixed_array());
    assert_eq!(m.fixed_array_length(), Some(4));
}

#[test]
fn dynamic_array_without_serializer() {
    let m = meta("CNetworkUtlVectorBase< int32 >", "m_items");
    assert!(m.is_dynamic_array());
    assert!(!m.is_dynamic_serializer_array());
}

#[test]
fn dynamic_serializer_array() {
    let m = meta_full(
        "CNetworkUtlVectorBase< SomeType >",
        "m_items",
        None,
        None,
        None,
        None,
        None,
        true,
    );
    assert!(m.is_dynamic_serializer_array());
}

#[test]
fn qangle_no_encoder_no_bits() {
    let m = meta("QAngle", "m_angle");
    assert!(matches!(m.decoder, Decoder::QAngleCoord));
}

#[test]
fn qangle_with_bitcount() {
    let m = meta_full("QAngle", "m_angle", Some(16), None, None, None, None, false);
    assert!(matches!(
        m.decoder,
        Decoder::QAngleBitCount { bit_count: 16 }
    ));
}

#[test]
fn qangle_precise() {
    let m = meta_full(
        "QAngle",
        "m_angle",
        Some(10),
        None,
        None,
        None,
        Some("qangle_precise"),
        false,
    );
    assert!(matches!(m.decoder, Decoder::QAnglePrecise));
}

#[test]
fn configured_ammo_field_uses_ammo_decoder() {
    let m = meta("uint16", "m_ammo");
    assert!(matches!(m.decoder, Decoder::Ammo));
    assert!(m.special.is_none());
}

#[test]
fn binary_block_type() {
    let m = meta("CUtlBinaryBlock", "m_topology");
    assert!(matches!(m.decoder, Decoder::BinaryBlock));
}

#[test]
fn quaternion_and_transform_are_float_vectors() {
    assert!(matches!(
        meta("Quaternion", "m_q").decoder,
        Decoder::FloatVecN { count: 4, .. }
    ));
    assert!(matches!(
        meta("CTransform", "m_t").decoder,
        Decoder::FloatVecN { count: 6, .. }
    ));
}

#[test]
fn bare_char_is_string() {
    assert!(matches!(meta("char", "m_c").decoder, Decoder::String));
}

#[test]
fn field_metadata_helpers() {
    let mut dyn_arr = FieldMetadata::default();
    dyn_arr.decoder = Decoder::U64;
    dyn_arr.special = Some(FieldSpecialDescriptor::DynamicArray {
        inner_decoder: Decoder::I64,
    });
    assert!(dyn_arr.is_dynamic_array());
    assert!(!dyn_arr.is_fixed_array());
    assert!(!dyn_arr.is_pointer());

    let mut fixed = FieldMetadata::default();
    fixed.decoder = Decoder::I64;
    fixed.special = Some(FieldSpecialDescriptor::FixedArray { length: 8 });
    assert!(fixed.is_fixed_array());
    assert_eq!(fixed.fixed_array_length(), Some(8));

    let mut ptr = FieldMetadata::default();
    ptr.decoder = Decoder::Bool;
    ptr.special = Some(FieldSpecialDescriptor::Pointer);
    assert!(ptr.is_pointer());
}

#[test]
fn profile_selects_the_bare_char_wire_form() {
    assert_eq!(
        decoder_name(test_profile(), "char", "m_value", None, None),
        "String"
    );
    assert_eq!(
        decoder_name(scalar_profile(), "char", "m_value", None, None),
        "U64"
    );
}

#[test]
fn profile_ammo_field_is_an_explicit_override() {
    assert_eq!(
        decoder_name(test_profile(), "uint16", "m_ammo", None, None),
        "Ammo"
    );
    assert_eq!(
        decoder_name(scalar_profile(), "uint16", "m_ammo", None, None),
        "U64"
    );
}

#[test]
fn profile_angle_conventions() {
    assert_eq!(
        decoder_name(
            scalar_profile(),
            "QAngle",
            "m_angle",
            Some(10),
            Some("qangle_pitch_yaw"),
        ),
        "QAnglePitchYaw { bit_count: 10 }"
    );
    assert_eq!(
        decoder_name(
            scalar_profile(),
            "QAngle",
            "m_angle",
            Some(20),
            Some("qangle_precise"),
        ),
        "QAnglePreciseRaw"
    );
    assert_eq!(
        decoder_name(
            test_profile(),
            "QAngle",
            "m_angle",
            Some(20),
            Some("qangle_precise"),
        ),
        "QAnglePrecise"
    );
}

#[test]
fn profile_type_overrides_are_data_driven() {
    let profile = DecodeProfile::new(
        BareCharEncoding::NullTerminatedString,
        PreciseQAngleMode::Centered,
    )
    .with_symbolic_array_lengths(&[("GAME_COUNT", 7)])
    .with_pointer_types(&["CGamePointer"])
    .with_dynamic_serializer_types(&["CGameDynamicArray"]);
    let fixed = get_field_metadata(
        profile, "uint32[GAME_COUNT]", "m_fixed", None, None, None, None, None, false,
    );
    assert_eq!(fixed.fixed_array_length(), Some(7));
    let pointer = get_field_metadata(
        profile, "CGamePointer", "m_pointer", None, None, None, None, None, false,
    );
    assert!(pointer.is_pointer());
    let dynamic = get_field_metadata(
        profile, "CGameDynamicArray", "m_dynamic", None, None, None, None, None, false,
    );
    assert!(dynamic.is_dynamic_serializer_array());
}

#[test]
fn dynamic_array_inner_metadata_uses_the_element_decoder() {
    let m = meta("CNetworkUtlVectorBase< int32 >", "m_items");
    let inner = m.dynamic_array_inner_metadata();
    assert!(matches!(inner.decoder, Decoder::I64));
    assert!(inner.special.is_none());
    let other = meta("bool", "m_b").dynamic_array_inner_metadata();
    assert!(matches!(other.decoder, Decoder::Default));
    assert!(other.special.is_none());
}

#[test]
fn decode_ammo_subtracts_one() {
    // Ammo transmits `actual + 1` as a varint; value 6 gives 5.
    let data = [0x06];
    let mut br = BitReader::new(&data);
    let val = Decoder::Ammo.decode_plain(&mut br, &DecodeLimits::default()).unwrap();
    assert_eq!(val, PlainFieldValue::I32(5));
}

#[test]
fn decode_ammo_zero_stays_zero() {
    let data = [0x00];
    let mut br = BitReader::new(&data);
    let val = Decoder::Ammo.decode_plain(&mut br, &DecodeLimits::default()).unwrap();
    assert_eq!(val, PlainFieldValue::I32(0));
}

#[test]
fn decode_binary_block_reads_len_then_bytes() {
    // varint length 3, then 3 bytes "abc", then a trailing byte.
    let data = [0x03, b'a', b'b', b'c', 0xFF];
    let mut br = BitReader::new(&data);
    let val = Decoder::BinaryBlock.decode_plain(&mut br, &DecodeLimits::default()).unwrap();
    match val {
        PlainFieldValue::String(bytes) => assert_eq!(&bytes, b"abc"),
        other => panic!("expected String, got {other:?}"),
    }
    // The cursor sits exactly on the trailing byte (32 bits consumed).
    assert_eq!(br.position(), 32);
}

#[test]
fn decode_poly_reads_bool_and_ubitvar() {
    // presence bit 1, then a 6-bit ubitvar (top two bits 00, so a 6-bit value).
    let data = [0b0000_0011];
    let mut br = BitReader::new(&data);
    let val = Decoder::Poly.decode_plain(&mut br, &DecodeLimits::default()).unwrap();
    assert_eq!(val, PlainFieldValue::Bool(true));
    // 1 bit (bool) + 6 bits (ubitvar) consumed.
    assert_eq!(br.position(), 7);
}

#[test]
fn decode_bool_from_1bit() {
    let data = [0x01];
    let mut br = BitReader::new(&data);
    let val = Decoder::Bool.decode_plain(&mut br, &DecodeLimits::default()).unwrap();
    assert_eq!(val, PlainFieldValue::Bool(true));
}

#[test]
fn decode_plain_integers() {
    // zigzag varint 3 is -2; plain varint 300 is [0xAC, 0x02].
    let data = [0x03];
    let mut br = BitReader::new(&data);
    assert_eq!(
        Decoder::I64.decode_plain(&mut br, &DecodeLimits::default()).unwrap(),
        PlainFieldValue::I64(-2)
    );
    let data = [0xAC, 0x02];
    let mut br = BitReader::new(&data);
    assert_eq!(
        Decoder::U64.decode_plain(&mut br, &DecodeLimits::default()).unwrap(),
        PlainFieldValue::U64(300)
    );
    assert_eq!(br.position(), 16);
    let data = 0x0102_0304_0506_0708u64.to_le_bytes();
    let mut br = BitReader::new(&data);
    assert_eq!(
        Decoder::U64Fixed64.decode_plain(&mut br, &DecodeLimits::default()).unwrap(),
        PlainFieldValue::U64(0x0102_0304_0506_0708)
    );
}

#[test]
fn decode_binary_block_over_limit_is_refused() {
    let data = [0x03, b'a', b'b', b'c'];
    let mut br = BitReader::new(&data);
    let limits = DecodeLimits::default().with_max_field_string_bytes(2);
    match Decoder::BinaryBlock.decode_plain(&mut br, &limits) {
        Err(Error::LimitExceeded { limit, actual, .. }) => {
            assert_eq!((limit, actual), (2, 3));
        }
        other => panic!("expected a limit error, got {other:?}"),
    }
    assert_eq!(br.position(), 8);
}

#[test]
fn decode_binary_block_truncated_overflows() {
    let data = [0x05, b'a'];
    let mut br = BitReader::new(&data);
    assert!(matches!(
        Decoder::BinaryBlock.decode_plain(&mut br, &DecodeLimits::default()),
        Err(Error::Overflow { .. })
    ));
    assert_eq!(br.position(), 8);
}

#[test]
fn only_decoders_without_floats_are_plain() {
    assert!(Decoder::Ammo.is_plain());
    assert!(Decoder::BinaryBlock.is_plain());
    assert!(Decoder::String.is_plain());
    assert!(Decoder::Default.is_plain());
    assert!(!Decoder::F32NoScale.is_plain());
    assert!(!Decoder::F32Coord.is_plain());
}

#[test]
fn skip_passes_over_the_bits_decode_reads() {
    let data = [0x03, b'a', b'b', b'c', 0xFF];
    let mut skipped = BitReader::new(&data);
    Decoder::BinaryBlock.skip(&mut skipped).unwrap();
    let mut decoded = BitReader::new(&data);
    Decoder::BinaryBlock
        .decode_plain(&mut decoded, &DecodeLimits::default())
        .unwrap();
    assert_eq!(skipped.position(), 32);
    assert_eq!(skipped.position(), decoded.position());

    let data = [0b0000_0011];
    let mut br = BitReader::new(&data);
    Decoder::Poly.skip(&mut br).unwrap();
    assert_eq!(br.position(), 7);
}

#[test]
fn skip_fixed_widths_and_vectors() {
    let data = [0u8; 40];
    let mut br = BitReader::new(&data);
    Decoder::Vector3(Box::new(Decoder::F32NoScale)).skip(&mut br).unwrap();
    assert_eq!(br.position(), 96);
    Decoder::QAngleBitCount { bit_count: 10 }.skip(&mut br).unwrap();
    assert_eq!(br.position(), 126);
    Decoder::QAnglePitchYaw { bit_count: 5 }.skip(&mut br).unwrap();
    assert_eq!(br.position(), 136);
    Decoder::FloatVecN { count: 2, inner: Box::new(Decoder::U64Fixed64) }
        .skip(&mut br)
        .unwrap();
    assert_eq!(br.position(), 264);
}

#[test]
fn skip_precise_angle_reads_presence_bits() {
    // presence bits 1, 0, 1: two 20-bit components follow.
    let data = [0b0000_0101, 0, 0, 0, 0, 0];
    let mut br = BitReader::new(&data);
    Decoder::QAnglePrecise.skip(&mut br).unwrap();
    assert_eq!(br.position(), 43);
}

#[test]
fn skip_stops_at_the_first_short_read() {
    // The second of three 32-bit components runs past the end.
    let data = [0u8; 6];
    let mut br = BitReader::new(&data);
    match Decoder::Vector3(Box::new(Decoder::F32NoScale)).skip(&mut br) {
        Err(Error::Overflow { needed, available }) => assert_eq!((needed, available), (32, 16)),
        other => panic!("expected an overflow, got {other:?}"),
    }
    assert_eq!(br.position(), 32);
}

#[test]
fn every_decoder_but_a_quantized_float_is_skippable() {
    assert!(Decoder::Vector2(Box::new(Decoder::Bool)).is_skippable());
    assert!(Decoder::Vector2(Box::new(Decoder::F32Coord)).is_skippable());
    assert!(Decoder::U64.is_skippable());
    assert!(Decoder::String.is_skippable());
    assert!(Decoder::Default.is_skippable());
}

#[test]
fn decode_string_null_terminated() {
    let data = b"hello\0";
    let mut br = BitReader::new(data);
    let val = Decoder::String.decode_plain(&mut br, &DecodeLimits::default()).unwrap();
    assert_eq!(val, PlainFieldValue::String(b"hello".to_vec()));
    assert_eq!(br.position(), 48);
}

#[test]
fn decode_string_over_the_field_limit_is_refused() {
    let data = b"hello\0";
    let mut br = BitReader::new(data);
    let limits = DecodeLimits::default().with_max_field_string_bytes(4);
    match Decoder::String.decode_plain(&mut br, &limits) {
        Err(Error::LimitExceeded { resource, limit, actual }) => {
            assert_eq!((resource, limit, actual), ("decoded field string", 4, 5));
        }
        other => panic!("expected a limit error, got {other:?}"),
    }
    assert_eq!(br.position(), 0);
    let mut br = BitReader::new(data);
    let limits = DecodeLimits::default().with_max_field_string_bytes(5);
    assert!(Decoder::String.decode_plain(&mut br, &limits).is_ok());
}

#[test]
fn decode_string_without_terminator_overflows() {
    let data = b"abc";
    let mut br = BitReader::new(data);
    assert!(matches!(
        Decoder::String.decode_plain(&mut br, &DecodeLimits::default()),
        Err(Error::Overflow { needed: 8, available: 0 })
    ));
    assert_eq!(br.position(), 0);
}

#[test]
fn default_decoder_reads_an_unsigned_varint() {
    let data = [0xAC, 0x02];
    let mut br = BitReader::new(&data);
    assert_eq!(
        Decoder::Default.decode_plain(&mut br, &DecodeLimits::default()).unwrap(),
        PlainFieldValue::U64(300)
    );
}

#[test]
fn skip_varints_and_strings() {
    let data = [0xAC, 0x02, b'h', b'i', 0, 0x05];
    let mut br = BitReader::new(&data);
    Decoder::U64.skip(&mut br).unwrap();
    assert_eq!(br.position(), 16);
    Decoder::String.skip(&mut br).unwrap();
    assert_eq!(br.position(), 40);
    Decoder::Ammo.skip(&mut br).unwrap();
    assert_eq!(br.position(), 48);
    assert!(matches!(Decoder::Default.skip(&mut br), Err(Error::Overflow { .. })));
}

#[test]
fn skip_coordinates_and_normals() {
    // Coordinate with no flags: two bits.
    let data = [0u8; 16];
    let mut br = BitReader::new(&data);
    Decoder::F32Coord.skip(&mut br).unwrap();
    assert_eq!(br.position(), 2);
    // Integer and fraction flags set: 2 + 1 + 14 + 5 bits.
    let data = [0b11u8, 0, 0, 0];
    let mut br = BitReader::new(&data);
    Decoder::F32Coord.skip(&mut br).unwrap();
    assert_eq!(br.position(), 22);
    let mut br = BitReader::new(&data);
    Decoder::F32Normal.skip(&mut br).unwrap();
    assert_eq!(br.position(), 12);
    // Normal vector with both flags: 2 + 12 + 12 + 1 bits.
    let mut br = BitReader::new(&data);
    Decoder::Vector3Normal.skip(&mut br).unwrap();
    assert_eq!(br.position(), 27);
    // Coordinate vector with only the x flag, whose coordinate has no flags.
    let data = [0b001u8, 0];
    let mut br = BitReader::new(&data);
    Decoder::QAngleCoord.skip(&mut br).unwrap();
    assert_eq!(br.position(), 5);
}
