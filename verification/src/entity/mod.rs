//! Game-neutral pieces of the entity system: field decoder selection,
//! string tables and network class information.

mod class_info;
mod field_decoder;
mod string_tables;

pub use class_info::{
    ClassEntry, ClassInfo, ClassModel, bit_length, class_id_bits, class_info_result,
    lemma_bit_length_bounds, lemma_class_id_width,
    first_class_error,
};
pub use field_decoder::{
    BareCharEncoding, DecodeProfile, Decoder, FieldMetadata, FieldSpecialDescriptor, FloatHints,
    PlainFieldValue, PlainModel, PlainRead, PreciseQAngleMode, ProfileModel, QuantizedFloatParams,
    Skipped, bit_set, block_skip, default_metadata, failed_at, field_metadata, float_decoder,
    get_field_metadata, lemma_skip_agrees_with_decode, metadata_defined, plain_decoder,
    plain_read, precise_skip, skip_after, skip_flagged, skip_matches, skip_read, skip_repeat,
    skip_step, skippable, lemma_bools_and_unsigned_integers, lemma_coord_skip_widths,
    lemma_normal_and_angle_skip_widths, lemma_signed_integers_are_zigzag,
};
pub use string_tables::{
    ContainerModel, CreateStringTable, EntryModel, INSTANCE_BASELINE_TABLE_NAME, StringTable,
    StringTableContainer, StringTableEntry, TableConfig, TableModel, UpdateStringTable,
    baselines_from, create_result, first_named, lemma_snapshot_grows, lemma_update_marks_grow,
    run_entries, snapshot_entries, snapshot_result, update_result, UpdateProgress,
    update_table_result, lemma_entry_index, lemma_history_reference, lemma_store_history_slot,
    store_history, string_step,
};
