use lithos_core::identifier::{PathKey, PropertyName, SchemaId, SchemaName};

#[test]
fn schema_id_new_creates_unique_ids() {
    let id1 = SchemaId::new().unwrap();
    let id2 = SchemaId::new().unwrap();
    assert_ne!(id1, id2);
}

#[test]
fn schema_id_exposes_uuid_v7_view() {
    let id = SchemaId::new().unwrap();
    assert_eq!((id.as_uuid_v7() >> 76) & 0xf, 7);
    assert_eq!(uuid::Uuid::from_u128(id.as_uuid_v7()).get_version(), Some(uuid::Version::SortRand));
}

#[test]
fn schema_name_try_from_path() {
    let path = PathKey::try_new("schemas/daily-note.toml").unwrap();
    let name = SchemaName::try_from_path(&path).unwrap();
    assert_eq!(name.as_str(), "daily-note");
}

#[test]
fn schema_name_try_from_invalid_path_fails() {
    let path = PathKey::try_new("schemas/.json").unwrap();
    let result = SchemaName::try_from_path(&path);
    result.unwrap_err();
}

#[test]
fn schema_name_rejects_bad_names() {
    assert!(SchemaName::try_new("").is_err());
    assert!(SchemaName::try_new("Upper").is_err());
    assert!(SchemaName::try_new(&"a".repeat(65)).is_err());
    assert!(SchemaName::try_new(&"a".repeat(64)).is_ok());
    assert!(PropertyName::try_new("snake_case-1").is_ok());
}

#[test]
fn schema_id_text_is_hyphenated_uuid() {
    let id = SchemaId::from_u128(0x018C_0000_0000_7000_8000_0000_0000_0E01);
    assert_eq!(id.to_text(), "018c0000-0000-7000-8000-000000000e01");
}

#[test]
fn fresh_ids_carry_the_v7_version_and_variant() {
    let a = SchemaId::new().unwrap();
    let b = SchemaId::new().unwrap();
    assert_ne!(a, b);
    assert_eq!((a.as_u128() >> 76) & 0xf, 7);
    assert_eq!((a.as_u128() >> 62) & 0x3, 2);
    assert_eq!(uuid::Uuid::from_u128(a.as_u128()).get_variant(), uuid::Variant::RFC4122);
}
