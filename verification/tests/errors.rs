use lithos_core::error::{
    DateSpecError, DbError, PropertyNameError, PropertySpecError, SchemaInheritanceError, PropertyRefError, SchemaError, SchemaIngestionError, SchemaLoaderError,
    SchemaNameError, SchemaParseError, SchemaReadError, SchemaRepositoryError, SchemaVersionError,
};

#[test]
fn schema_read_io_exposes_source() {
    let error = SchemaReadError::Read { path: "schemas/bad.json".into(), reason: "disk failed".into() };
    let source = error.source_message();
    assert!(source.is_some(), "Expected source for SchemaReadError::Read");
    if let Some(source) = source {
        assert!(source.contains("disk failed"));
    }
}

#[test]
fn schema_read_filesystem_has_no_source() {
    let error = SchemaReadError::FileSystem { reason: "vault unavailable".into() };
    assert!(error.source_message().is_none(), "Expected no source for SchemaReadError::FileSystem");
}

fn assert_send_sync<T: Send + Sync>() {}

#[test]
fn errors_are_send_and_sync() {
    assert_send_sync::<SchemaError>();
    assert_send_sync::<SchemaIngestionError>();
    assert_send_sync::<SchemaRepositoryError>();
    assert_send_sync::<SchemaLoaderError>();
    assert_send_sync::<SchemaReadError>();
    assert_send_sync::<SchemaParseError>();
    assert_send_sync::<SchemaVersionError>();
    assert_send_sync::<SchemaNameError>();
    assert_send_sync::<PropertyNameError>();
    assert_send_sync::<PropertyRefError>();
}

#[test]
fn ingestion_schema_exposes_source() {
    let error = SchemaIngestionError::Schema {
        path: "schemas/bad.json".into(),
        source: SchemaError::PropertyRef(PropertyRefError::TargetPropertyNotFoundInBank {
            reference: "#property_bank/title".into(),
        }),
    };
    let source = error.schema_source();
    assert!(source.is_some(), "Expected source for SchemaIngestionError::Schema");
    assert!(matches!(
        source,
        Some(SchemaError::PropertyRef(PropertyRefError::TargetPropertyNotFoundInBank { .. }))
    ));
    let read = SchemaIngestionError::Read(SchemaReadError::FileSystem { reason: "x".into() });
    assert!(read.schema_source().is_none());
}

#[test]
fn schema_error_equality_compares_variants() {
    let left = SchemaError::PropertyRef(PropertyRefError::TargetPropertyNotFoundInBank {
        reference: "#property_bank/title".into(),
    });
    let right = SchemaError::PropertyRef(PropertyRefError::TargetPropertyNotFoundInBank {
        reference: "#property_bank/title".into(),
    });
    assert_eq!(left, right, "Expected identical property reference errors to be equal");
}

#[test]
fn schema_error_equality_distinguishes_variants() {
    let left = SchemaError::PropertyRef(PropertyRefError::TargetPropertyNotFoundInBank {
        reference: "#property_bank/title".into(),
    });
    let right = SchemaError::PropertyRef(PropertyRefError::TargetPropertyNotFoundInBank {
        reference: "#property_bank/status".into(),
    });
    assert!(left != right, "Expected different references to be unequal: {left:?} vs {right:?}");
}

#[test]
fn schema_name_error_converts_into_schema_error() {
    let error: SchemaError = SchemaNameError::NameIsEmpty.into();
    assert!(matches!(error, SchemaError::SchemaName(SchemaNameError::NameIsEmpty)));
}

#[test]
fn property_name_error_converts_into_schema_error() {
    let error: SchemaError = PropertyNameError::NameIsEmpty.into();
    assert!(matches!(error, SchemaError::PropertyName(PropertyNameError::NameIsEmpty)));
}

#[test]
fn db_error_converts_into_schema_repository_error() {
    let db_error = DbError::Serialization("test".into());
    let repo_error: SchemaRepositoryError = db_error.into();
    assert!(matches!(repo_error, SchemaRepositoryError::Storage(DbError::Serialization(_))));
}

#[test]
fn name_errors_have_text() {
    assert_eq!(SchemaNameError::NameIsEmpty.to_text(), "schema name cannot be empty");
    assert_eq!(PropertyNameError::NameIsEmpty.to_text(), "property name cannot be empty");
    assert_eq!(
        SchemaNameError::NameExceedsMaxLength { len: 65, max: 64 }.to_text(),
        "schema name too long: 65 (max 64)"
    );
}

#[test]
fn error_conversions_wrap_in_the_matching_variant() {
    assert_eq!(
        SchemaLoaderError::from(SchemaInheritanceError::NotDirected),
        SchemaLoaderError::Resolution(SchemaError::Inheritance(SchemaInheritanceError::NotDirected))
    );
    assert_eq!(
        SchemaError::from(PropertySpecError::from(DateSpecError::MissingFormatString)),
        SchemaError::PropertySpec(PropertySpecError::Date(DateSpecError::MissingFormatString))
    );
    assert_eq!(
        SchemaLoaderError::from(SchemaRepositoryError::PropertyBankNotFound),
        SchemaLoaderError::Repository(SchemaRepositoryError::PropertyBankNotFound)
    );
}
