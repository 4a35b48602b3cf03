use pbdems2::entity::{ClassEntry, ClassInfo};
use pbdems2::{DecodeLimits, Error, Result};

fn class_info(ids: &[(i32, &str)]) -> Result<ClassInfo> {
    ClassInfo::try_from_entries(
        ids.iter()
            .map(|(class_id, network_name)| ClassEntry::new(*class_id, network_name, ""))
            .collect(),
    )
}

#[test]
fn computes_class_id_width() {
    assert_eq!(class_info(&[]).expect("valid").bits(), 1);
    assert_eq!(class_info(&[(0, "A")]).expect("valid").bits(), 1);
    assert_eq!(class_info(&[(10, "B")]).expect("valid").bits(), 4);
    assert_eq!(class_info(&[(255, "C")]).expect("valid").bits(), 8);
}

#[test]
fn looks_up_sparse_ids_and_names() {
    let info = class_info(&[(5, "Hero"), (10, "Creep")]).expect("valid");
    assert_eq!(info.name_by_id(10), Some("Creep"));
    assert_eq!(info.name_by_id(6), None);
    assert_eq!(info.id_of("Hero"), Some(5));
}

#[test]
fn rejects_negative_ids() {
    assert!(class_info(&[(-1, "Invalid"), (2, "Valid")]).is_err());
}

#[test]
fn rejects_duplicate_ids_and_names() {
    assert!(class_info(&[(1, "A"), (1, "B")]).is_err());
    assert!(class_info(&[(1, "A"), (2, "A")]).is_err());
}

#[test]
fn applies_configured_class_id_limit() {
    let limits = DecodeLimits::default().with_class_limits(8, 3);
    let result =
        ClassInfo::try_from_entries_with_limits(vec![ClassEntry::new(4, "TooLarge", "")], &limits);
    assert!(matches!(result, Err(Error::LimitExceeded { .. })));
}

#[test]
fn id_width_covers_the_largest_id() {
    assert_eq!(class_info(&[(256, "D")]).expect("valid").bits(), 9);
    assert_eq!(class_info(&[(1, "E"), (2, "F")]).expect("valid").bits(), 2);
}

#[test]
fn lookups_agree_with_the_entries() {
    let info = class_info(&[(3, "Tower"), (1, "Shop")]).expect("valid");
    assert_eq!(info.len(), 2);
    assert!(!info.is_empty());
    let entry = info.by_id(1).expect("listed id");
    assert_eq!(entry.network_name, "Shop");
    assert_eq!(info.id_of("Tower"), Some(3));
    assert_eq!(info.id_of("Missing"), None);
    assert!(info.by_id(2).is_none());
    assert!(ClassInfo::empty().is_empty());
}

#[test]
fn class_count_limit_is_reported() {
    let limits = DecodeLimits::default().with_class_limits(1, 100);
    let result = ClassInfo::try_from_entries_with_limits(
        vec![ClassEntry::new(0, "A", ""), ClassEntry::new(1, "B", "")],
        &limits,
    );
    assert!(matches!(
        result,
        Err(Error::LimitExceeded {
            limit: 1,
            actual: 2,
            ..
        })
    ));
}
