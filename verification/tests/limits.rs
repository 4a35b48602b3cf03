use pbdems2::{DecodeLimits, Error};

#[test]
fn builder_changes_only_the_selected_limit() {
    let default = DecodeLimits::default();
    let limits = default.with_max_command_body_bytes(1234);
    assert_eq!(limits.max_command_body_bytes(), 1234);
    assert_eq!(
        limits.max_decompressed_command_bytes(),
        default.max_decompressed_command_bytes()
    );
}

#[test]
fn ensure_reports_the_resource_and_sizes() {
    let limits = DecodeLimits::default();
    assert!(limits.ensure("fixture", 4, 4).is_ok());
    assert!(matches!(
        limits.ensure("fixture", 5, 4),
        Err(Error::LimitExceeded {
            resource: "fixture",
            limit: 4,
            actual: 5,
        })
    ));
}

#[test]
fn class_limits_set_both_class_caps() {
    let limits = DecodeLimits::default().with_class_limits(8, 3);
    assert_eq!(limits.max_classes(), 8);
    assert_eq!(limits.max_class_id(), 3);
    assert_eq!(
        limits.max_command_body_bytes(),
        DecodeLimits::default().max_command_body_bytes()
    );
}

#[test]
fn string_table_byte_limits_set_encoded_and_decompressed_caps() {
    let limits = DecodeLimits::default().with_max_string_table_bytes(10, 20);
    assert_eq!(limits.max_string_table_data_bytes(), 10);
    assert_eq!(limits.max_decompressed_string_table_bytes(), 20);
}
