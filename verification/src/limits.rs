//! Resource limits used while decoding untrusted demo data.

use vstd::prelude::*;

use crate::error::Error;

verus! {

/// Conservative upper bounds for allocations and repeated decode work.
///
/// The defaults are intentionally much larger than ordinary Source 2 data,
/// while still preventing a corrupt length field from requesting effectively
/// unbounded memory. Callers parsing known-large captures can raise individual
/// limits with the builder methods.
#[derive(Debug, Clone, Copy, PartialEq, Eq, Structural)]
#[non_exhaustive]
pub struct DecodeLimits {
    max_command_body_bytes: usize,
    max_decompressed_command_bytes: usize,
    max_packet_message_bytes: usize,
    max_string_table_data_bytes: usize,
    max_decompressed_string_table_bytes: usize,
    max_string_table_entries: usize,
    max_string_table_user_data_bytes: usize,
    max_field_string_bytes: usize,
    max_classes: usize,
    max_class_id: usize,
    max_serializers: usize,
    max_serializer_fields: usize,
    max_symbols: usize,
    max_fixed_array_length: usize,
    max_packet_entity_updates: usize,
    max_field_paths: usize,
}

/// The abstract value of a [`DecodeLimits`]: one ceiling per resource.
pub struct LimitsModel {
    /// Maximum encoded bytes in one outer demo command.
    pub max_command_body_bytes: usize,
    /// Maximum bytes after decompressing one outer demo command.
    pub max_decompressed_command_bytes: usize,
    /// Maximum bytes in one inner packet message.
    pub max_packet_message_bytes: usize,
    /// Maximum encoded bytes carried by one string-table message.
    pub max_string_table_data_bytes: usize,
    /// Maximum bytes after decompressing string-table data.
    pub max_decompressed_string_table_bytes: usize,
    /// Maximum number of entries in one string table.
    pub max_string_table_entries: usize,
    /// Maximum decompressed user-data bytes in one string-table entry.
    pub max_string_table_user_data_bytes: usize,
    /// Maximum bytes in a decoded entity string or binary block.
    pub max_field_string_bytes: usize,
    /// Maximum number of network classes.
    pub max_classes: usize,
    /// Maximum accepted numeric class identifier.
    pub max_class_id: usize,
    /// Maximum number of flattened serializers.
    pub max_serializers: usize,
    /// Maximum total number of flattened fields.
    pub max_serializer_fields: usize,
    /// Maximum number of flattened-serializer symbols.
    pub max_symbols: usize,
    /// Maximum element count accepted from a fixed-array type declaration.
    pub max_fixed_array_length: usize,
    /// Maximum entity deltas in one packet-entities message.
    pub max_packet_entity_updates: usize,
    /// Maximum field paths in one entity update.
    pub max_field_paths: usize,
}

impl View for DecodeLimits {
    type V = LimitsModel;

    closed spec fn view(&self) -> LimitsModel {
        LimitsModel {
            max_command_body_bytes: self.max_command_body_bytes,
            max_decompressed_command_bytes: self.max_decompressed_command_bytes,
            max_packet_message_bytes: self.max_packet_message_bytes,
            max_string_table_data_bytes: self.max_string_table_data_bytes,
            max_decompressed_string_table_bytes: self.max_decompressed_string_table_bytes,
            max_string_table_entries: self.max_string_table_entries,
            max_string_table_user_data_bytes: self.max_string_table_user_data_bytes,
            max_field_string_bytes: self.max_field_string_bytes,
            max_classes: self.max_classes,
            max_class_id: self.max_class_id,
            max_serializers: self.max_serializers,
            max_serializer_fields: self.max_serializer_fields,
            max_symbols: self.max_symbols,
            max_fixed_array_length: self.max_fixed_array_length,
            max_packet_entity_updates: self.max_packet_entity_updates,
            max_field_paths: self.max_field_paths,
        }
    }
}

/// The limits that [`DecodeLimits::default`] produces.
pub open spec fn default_limits() -> LimitsModel {
    LimitsModel {
        max_command_body_bytes: 67_108_864,
        max_decompressed_command_bytes: 268_435_456,
        max_packet_message_bytes: 67_108_864,
        max_string_table_data_bytes: 67_108_864,
        max_decompressed_string_table_bytes: 268_435_456,
        max_string_table_entries: 1_048_576,
        max_string_table_user_data_bytes: 8_388_608,
        max_field_string_bytes: 1_048_576,
        max_classes: 65_536,
        max_class_id: 65_535,
        max_serializers: 65_536,
        max_serializer_fields: 1_048_576,
        max_symbols: 1_048_576,
        max_fixed_array_length: 65_536,
        max_packet_entity_updates: 16_384,
        max_field_paths: 65_536,
    }
}

/// The default limits, in the units they are chosen in: 64 MiB of
/// encoded command, packet message or string-table data, 256 MiB
/// decompressed, 8 MiB of user data per entry, 1 MiB per field string,
/// 2^20 entries, fields or symbols, 2^16 classes, serializers, array
/// elements or field paths with IDs below 2^16, and 2^14 entity updates.
pub proof fn lemma_default_limit_values()
    ensures
        default_limits().max_command_body_bytes == 64 * 1024 * 1024,
        default_limits().max_decompressed_command_bytes == 256 * 1024 * 1024,
        default_limits().max_packet_message_bytes == 64 * 1024 * 1024,
        default_limits().max_string_table_data_bytes == 64 * 1024 * 1024,
        default_limits().max_decompressed_string_table_bytes == 256 * 1024 * 1024,
        default_limits().max_string_table_entries == 1024 * 1024,
        default_limits().max_string_table_user_data_bytes == 8 * 1024 * 1024,
        default_limits().max_field_string_bytes == 1024 * 1024,
        default_limits().max_classes == 64 * 1024,
        default_limits().max_class_id == 64 * 1024 - 1,
        default_limits().max_serializers == 64 * 1024,
        default_limits().max_serializer_fields == 1024 * 1024,
        default_limits().max_symbols == 1024 * 1024,
        default_limits().max_fixed_array_length == 64 * 1024,
        default_limits().max_packet_entity_updates == 16 * 1024,
        default_limits().max_field_paths == 64 * 1024,
{
}

/// The outcome of checking `actual` against `limit` for `resource`.
pub open spec fn limit_check(resource: &'static str, actual: usize, limit: usize) -> Result<(), Error> {
    if actual > limit {
        Err(Error::LimitExceeded { resource, limit, actual })
    } else {
        Ok(())
    }
}

impl DecodeLimits {
    /// Maximum encoded bytes in one outer demo command.
    pub fn max_command_body_bytes(&self) -> (r: usize)
        ensures
            r == self@.max_command_body_bytes,
    {
        self.max_command_body_bytes
    }

    /// Maximum bytes after decompressing one outer demo command.
    pub fn max_decompressed_command_bytes(&self) -> (r: usize)
        ensures
            r == self@.max_decompressed_command_bytes,
    {
        self.max_decompressed_command_bytes
    }

    /// Maximum bytes in one inner packet message.
    pub fn max_packet_message_bytes(&self) -> (r: usize)
        ensures
            r == self@.max_packet_message_bytes,
    {
        self.max_packet_message_bytes
    }

    /// Maximum encoded bytes carried by one string-table message.
    pub fn max_string_table_data_bytes(&self) -> (r: usize)
        ensures
            r == self@.max_string_table_data_bytes,
    {
        self.max_string_table_data_bytes
    }

    /// Maximum bytes after decompressing string-table data.
    pub fn max_decompressed_string_table_bytes(&self) -> (r: usize)
        ensures
            r == self@.max_decompressed_string_table_bytes,
    {
        self.max_decompressed_string_table_bytes
    }

    /// Maximum number of entries in one string table.
    pub fn max_string_table_entries(&self) -> (r: usize)
        ensures
            r == self@.max_string_table_entries,
    {
        self.max_string_table_entries
    }

    /// Maximum decompressed user-data bytes in one string-table entry.
    pub fn max_string_table_user_data_bytes(&self) -> (r: usize)
        ensures
            r == self@.max_string_table_user_data_bytes,
    {
        self.max_string_table_user_data_bytes
    }

    /// Maximum bytes in a decoded entity string or binary block.
    pub fn max_field_string_bytes(&self) -> (r: usize)
        ensures
            r == self@.max_field_string_bytes,
    {
        self.max_field_string_bytes
    }

    /// Maximum number of network classes.
    pub fn max_classes(&self) -> (r: usize)
        ensures
            r == self@.max_classes,
    {
        self.max_classes
    }

    /// Maximum accepted numeric class identifier.
    pub fn max_class_id(&self) -> (r: usize)
        ensures
            r == self@.max_class_id,
    {
        self.max_class_id
    }

    /// Maximum number of flattened serializers.
    pub fn max_serializers(&self) -> (r: usize)
        ensures
            r == self@.max_serializers,
    {
        self.max_serializers
    }

    /// Maximum total number of flattened fields.
    pub fn max_serializer_fields(&self) -> (r: usize)
        ensures
            r == self@.max_serializer_fields,
    {
        self.max_serializer_fields
    }

    /// Maximum number of flattened-serializer symbols.
    pub fn max_symbols(&self) -> (r: usize)
        ensures
            r == self@.max_symbols,
    {
        self.max_symbols
    }

    /// Maximum element count accepted from a fixed-array type declaration.
    pub fn max_fixed_array_length(&self) -> (r: usize)
        ensures
            r == self@.max_fixed_array_length,
    {
        self.max_fixed_array_length
    }

    /// Maximum entity deltas in one packet-entities message.
    pub fn max_packet_entity_updates(&self) -> (r: usize)
        ensures
            r == self@.max_packet_entity_updates,
    {
        self.max_packet_entity_updates
    }

    /// Maximum field paths in one entity update.
    pub fn max_field_paths(&self) -> (r: usize)
        ensures
            r == self@.max_field_paths,
    {
        self.max_field_paths
    }

    /// Set the encoded outer-command body limit.
    #[must_use]
    pub fn with_max_command_body_bytes(self, value: usize) -> (r: Self)
        ensures
            r@ == (LimitsModel { max_command_body_bytes: value, ..self@ }),
    {
        let mut r = self;
        r.max_command_body_bytes = value;
        r
    }

    /// Set the decompressed outer-command body limit.
    #[must_use]
    pub fn with_max_decompressed_command_bytes(self, value: usize) -> (r: Self)
        ensures
            r@ == (LimitsModel { max_decompressed_command_bytes: value, ..self@ }),
    {
        let mut r = self;
        r.max_decompressed_command_bytes = value;
        r
    }

    /// Set the inner packet-message size limit.
    #[must_use]
    pub fn with_max_packet_message_bytes(self, value: usize) -> (r: Self)
        ensures
            r@ == (LimitsModel { max_packet_message_bytes: value, ..self@ }),
    {
        let mut r = self;
        r.max_packet_message_bytes = value;
        r
    }

    /// Set the maximum entry count for one string table.
    #[must_use]
    pub fn with_max_string_table_entries(self, value: usize) -> (r: Self)
        ensures
            r@ == (LimitsModel { max_string_table_entries: value, ..self@ }),
    {
        let mut r = self;
        r.max_string_table_entries = value;
        r
    }

    /// Set the maximum decompressed user-data size for one table entry.
    #[must_use]
    pub fn with_max_string_table_user_data_bytes(self, value: usize) -> (r: Self)
        ensures
            r@ == (LimitsModel { max_string_table_user_data_bytes: value, ..self@ }),
    {
        let mut r = self;
        r.max_string_table_user_data_bytes = value;
        r
    }

    /// Set the decoded entity string and binary-block limit.
    #[must_use]
    pub fn with_max_field_string_bytes(self, value: usize) -> (r: Self)
        ensures
            r@ == (LimitsModel { max_field_string_bytes: value, ..self@ }),
    {
        let mut r = self;
        r.max_field_string_bytes = value;
        r
    }

    /// Set the maximum fixed-array element count.
    #[must_use]
    pub fn with_max_fixed_array_length(self, value: usize) -> (r: Self)
        ensures
            r@ == (LimitsModel { max_fixed_array_length: value, ..self@ }),
    {
        let mut r = self;
        r.max_fixed_array_length = value;
        r
    }

    /// Set the packet-entity update limit.
    #[must_use]
    pub fn with_max_packet_entity_updates(self, value: usize) -> (r: Self)
        ensures
            r@ == (LimitsModel { max_packet_entity_updates: value, ..self@ }),
    {
        let mut r = self;
        r.max_packet_entity_updates = value;
        r
    }

    /// Set the field-path count limit for one entity update.
    #[must_use]
    pub fn with_max_field_paths(self, value: usize) -> (r: Self)
        ensures
            r@ == (LimitsModel { max_field_paths: value, ..self@ }),
    {
        let mut r = self;
        r.max_field_paths = value;
        r
    }

    /// Set both encoded and decompressed string-table data limits.
    #[must_use]
    pub fn with_max_string_table_bytes(self, encoded: usize, decompressed: usize) -> (r: Self)
        ensures
            r@ == (LimitsModel {
                max_string_table_data_bytes: encoded,
                max_decompressed_string_table_bytes: decompressed,
                ..self@
            }),
    {
        let mut r = self;
        r.max_string_table_data_bytes = encoded;
        r.max_decompressed_string_table_bytes = decompressed;
        r
    }

    /// Set network-class count and numeric-ID limits.
    #[must_use]
    pub fn with_class_limits(self, count: usize, max_id: usize) -> (r: Self)
        ensures
            r@ == (LimitsModel { max_classes: count, max_class_id: max_id, ..self@ }),
    {
        let mut r = self;
        r.max_classes = count;
        r.max_class_id = max_id;
        r
    }

    /// Set flattened serializer, field, and symbol count limits.
    #[must_use]
    pub fn with_serializer_limits(self, serializers: usize, fields: usize, symbols: usize) -> (r: Self)
        ensures
            r@ == (LimitsModel {
                max_serializers: serializers,
                max_serializer_fields: fields,
                max_symbols: symbols,
                ..self@
            }),
    {
        let mut r = self;
        r.max_serializers = serializers;
        r.max_serializer_fields = fields;
        r.max_symbols = symbols;
        r
    }

    /// Check a requested size against a limit, naming the resource on failure.
    ///
    /// The check happens before any allocation, so a hostile length field can
    /// never turn into an unbounded reservation.
    pub fn ensure(&self, resource: &'static str, actual: usize, limit: usize) -> (r: Result<(), Error>)
        ensures
            r == limit_check(resource, actual, limit),
    {
        if actual > limit {
            return Err(Error::LimitExceeded { resource, limit, actual });
        }
        Ok(())
    }
}

impl Default for DecodeLimits {
    fn default() -> (r: Self)
        ensures
            r@ == default_limits(),
    {
        DecodeLimits {
            max_command_body_bytes: 67_108_864,
            max_decompressed_command_bytes: 268_435_456,
            max_packet_message_bytes: 67_108_864,
            max_string_table_data_bytes: 67_108_864,
            max_decompressed_string_table_bytes: 268_435_456,
            max_string_table_entries: 1_048_576,
            max_string_table_user_data_bytes: 8_388_608,
            max_field_string_bytes: 1_048_576,
            max_classes: 65_536,
            max_class_id: 65_535,
            max_serializers: 65_536,
            max_serializer_fields: 1_048_576,
            max_symbols: 1_048_576,
            max_fixed_array_length: 65_536,
            max_packet_entity_updates: 16_384,
            max_field_paths: 65_536,
        }
    }
}

} // verus!
