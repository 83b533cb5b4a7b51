use lithos_core::error::{SchemaError, SchemaNameError};
use lithos_core::events::{
    staleness_reason_str, EventCollector, Events, LogLevel, LoggingHandler, MetricsHandler, PropertyBankEvent,
    PropertyBankLoaded, PropertyRegistered, SchemaCreated, SchemaDeleted, SchemaEvent,
    SchemaResolved, StalenessReason,
};
use lithos_core::identifier::{PropertyId, PropertyName, SchemaId, SchemaName};

const NOW: u64 = 1_717_171_717;

fn fields(record: &lithos_core::events::LogRecord) -> Vec<(String, String)> {
    record.fields.iter().map(|(k, v)| (k.to_string(), v.clone())).collect()
}

#[test]
fn schema_created_captures_payload() {
    let id = SchemaId::new().unwrap();
    let name = SchemaName::try_new("schema").expect("Valid schema name");
    let timestamp = NOW;
    let event = SchemaCreated::new(id, &name, timestamp);

    assert_eq!(event.id, id);
    assert_eq!(event.name, name);
    assert_eq!(event.timestamp, timestamp);
}

#[test]
fn schema_resolved_captures_payload() {
    let id = SchemaId::new().unwrap();
    let name = SchemaName::try_new("schema").expect("Valid schema name");
    let timestamp = NOW;
    let event = SchemaResolved::new(id, &name, timestamp);

    assert_eq!(event.id, id);
    assert_eq!(event.name, name);
    assert_eq!(event.timestamp, timestamp);
}

#[test]
fn schema_deleted_captures_payload() {
    let id = SchemaId::new().unwrap();
    let name = SchemaName::try_new("schema").expect("Valid schema name");
    let timestamp = NOW;
    let event = SchemaDeleted::new(id, &name, timestamp);

    assert_eq!(event.id, id);
    assert_eq!(event.name, name);
    assert_eq!(event.timestamp, timestamp);
}

#[test]
fn property_registered_captures_payload() {
    let id = PropertyId::new().unwrap();
    let name = PropertyName::try_new("status").expect("Valid property name");
    let timestamp = NOW;
    let event = PropertyRegistered::new(id, &name, timestamp);

    assert_eq!(event.id, id);
    assert_eq!(event.name, name);
    assert_eq!(event.timestamp, timestamp);
}

#[test]
fn property_bank_loaded_captures_payload() {
    let timestamp = NOW;
    let event = PropertyBankLoaded::new(42, timestamp);

    assert_eq!(event.property_count, 42);
    assert_eq!(event.timestamp, timestamp);
}

#[test]
fn events_wrap_domain_payloads() {
    let id = SchemaId::new().unwrap();
    let name = SchemaName::try_new("schema").expect("Valid schema name");
    let event = Events::SchemaCreated(SchemaCreated::new(id, &name, NOW));
    assert!(matches!(event, Events::SchemaCreated(ref e) if e.id == id));
}

#[test]
fn schema_event_scan_started() {
    let event = SchemaEvent::ScanStarted { directory: "/vault/schemas".to_string() };
    assert!(matches!(event, SchemaEvent::ScanStarted { .. }));
}

#[test]
fn schema_event_file_discovered() {
    let event = SchemaEvent::FileDiscovered {
        path: "/vault/schemas/task.json".to_string(),
        name: "task".into(),
    };
    assert!(matches!(event, SchemaEvent::FileDiscovered { .. }));
}

#[test]
fn schema_event_stale_with_reason() {
    let event = SchemaEvent::SchemaStale { name: "task".into(), reason: StalenessReason::Modified };
    assert!(
        matches!(event, SchemaEvent::SchemaStale { reason: StalenessReason::Modified, .. }),
        "Expected SchemaStale event with Modified reason"
    );
}

#[test]
fn property_bank_event_fresh() {
    let event = PropertyBankEvent::Fresh;
    assert!(matches!(event, PropertyBankEvent::Fresh));
}

#[test]
fn logging_handler_new() {
    let handler = LoggingHandler::new();
    let record = handler.schema_record(&SchemaEvent::ScanStarted { directory: "/test".to_string() });
    assert_eq!(record.level, LogLevel::Info);
    assert_eq!(record.message, "Schema scan started");
    assert_eq!(fields(&record), vec![("directory".to_string(), "/test".to_string())]);
}

#[test]
fn logging_handler_handles_all_schema_events() {
    let handler = LoggingHandler::new();
    let id = SchemaId::from_u128(0x018c_0000_0000_7000_8000_0000_0000_0101);
    let id_text = "018c0000-0000-7000-8000-000000000101".to_string();

    let cases: Vec<(SchemaEvent, LogLevel, &str, Vec<(&str, String)>)> = vec![
        (
            SchemaEvent::ScanStarted { directory: "/test".into() },
            LogLevel::Info,
            "Schema scan started",
            vec![("directory", "/test".into())],
        ),
        (
            SchemaEvent::FileDiscovered { path: "/test/task.json".into(), name: "task".into() },
            LogLevel::Debug,
            "Schema file discovered",
            vec![("path", "/test/task.json".into()), ("schema_name", "task".into())],
        ),
        (
            SchemaEvent::ScanCompleted { file_count: 5 },
            LogLevel::Info,
            "Schema scan completed",
            vec![("file_count", "5".into())],
        ),
        (
            SchemaEvent::SchemaFresh { name: "task".into() },
            LogLevel::Debug,
            "Schema is fresh",
            vec![("schema_name", "task".into())],
        ),
        (
            SchemaEvent::SchemaStale { name: "task".into(), reason: StalenessReason::Modified },
            LogLevel::Warn,
            "Schema is stale",
            vec![("schema_name", "task".into()), ("reason", "modified".into())],
        ),
        (
            SchemaEvent::SchemaResolutionStarted { name: "task".into() },
            LogLevel::Debug,
            "Schema resolution started",
            vec![("schema_name", "task".into())],
        ),
        (
            SchemaEvent::SchemaResolved { name: "task".into(), id },
            LogLevel::Debug,
            "Schema resolved",
            vec![("schema_name", "task".into()), ("schema_id", id_text.clone())],
        ),
        (
            SchemaEvent::SchemaResolutionCompleted { schema_count: 3 },
            LogLevel::Info,
            "Schema resolution completed",
            vec![("schema_count", "3".into())],
        ),
        (
            SchemaEvent::RawFileCached { name: "task".into() },
            LogLevel::Debug,
            "Raw file cached",
            vec![("schema_name", "task".into())],
        ),
        (
            SchemaEvent::SchemaPersisted { name: "task".into(), id },
            LogLevel::Debug,
            "Schema persisted",
            vec![("schema_name", "task".into()), ("schema_id", id_text.clone())],
        ),
        (
            SchemaEvent::ParseError { path: "/test/bad.json".into(), error: "syntax error".into() },
            LogLevel::Error,
            "Schema parse error",
            vec![("path", "/test/bad.json".into()), ("error", "syntax error".into())],
        ),
        (
            SchemaEvent::ValidationError {
                name: "bad".into(),
                error: SchemaError::SchemaName(SchemaNameError::NameIsEmpty),
            },
            LogLevel::Error,
            "Schema validation error",
            vec![("schema_name", "bad".into())],
        ),
        (
            SchemaEvent::ResolutionError {
                name: "bad".into(),
                error: SchemaError::SchemaName(SchemaNameError::NameIsEmpty),
            },
            LogLevel::Error,
            "Schema resolution error",
            vec![("schema_name", "bad".into())],
        ),
    ];

    for (event, level, message, expected) in cases {
        let record = handler.schema_record(&event);
        assert_eq!(record.level, level, "{message}");
        assert_eq!(record.message, message);
        let expected: Vec<(String, String)> =
            expected.into_iter().map(|(k, v)| (k.to_string(), v)).collect();
        assert_eq!(fields(&record), expected, "{message}");
    }
}

#[test]
fn events_logging_handler_handles_all_property_bank_events() {
    let handler = LoggingHandler::new();

    let r = handler.property_bank_record(&PropertyBankEvent::Fresh);
    assert_eq!((r.level, r.message), (LogLevel::Debug, "Property bank is fresh"));
    assert!(r.fields.is_empty());

    let r = handler.property_bank_record(&PropertyBankEvent::Stale { reason: StalenessReason::Modified });
    assert_eq!((r.level, r.message), (LogLevel::Warn, "Property bank is stale"));
    assert_eq!(fields(&r), vec![("reason".to_string(), "modified".to_string())]);

    let r = handler.property_bank_record(&PropertyBankEvent::ResolutionStarted);
    assert_eq!((r.level, r.message), (LogLevel::Debug, "Property bank resolution started"));
    assert!(r.fields.is_empty());

    let r = handler.property_bank_record(&PropertyBankEvent::Resolved { property_count: 10 });
    assert_eq!((r.level, r.message), (LogLevel::Info, "Property bank resolved"));
    assert_eq!(fields(&r), vec![("property_count".to_string(), "10".to_string())]);

    let r = handler.property_bank_record(&PropertyBankEvent::Persisted);
    assert_eq!((r.level, r.message), (LogLevel::Debug, "Property bank persisted"));
    assert!(r.fields.is_empty());

    let r = handler.property_bank_record(&PropertyBankEvent::TriggeredCascade { affected_schema_count: 5 });
    assert_eq!(
        (r.level, r.message),
        (LogLevel::Info, "Property bank change triggered schema cascade")
    );
    assert_eq!(fields(&r), vec![("affected_schema_count".to_string(), "5".to_string())]);
}

#[test]
fn staleness_reasons_have_labels() {
    assert_eq!(staleness_reason_str(StalenessReason::New), "new");
    assert_eq!(staleness_reason_str(StalenessReason::Modified), "modified");
    assert_eq!(staleness_reason_str(StalenessReason::ContentChanged), "content_changed");
    assert_eq!(staleness_reason_str(StalenessReason::PropertyBankChanged), "property_bank_changed");
}

#[test]
fn metrics_handler_new() {
    let handler = MetricsHandler::new();
    assert_eq!(handler, MetricsHandler::new());
}

#[test]
fn event_collector_keeps_events_in_order_until_cleared() {
    let mut collector = EventCollector::new();
    collector.handle_schema(SchemaEvent::ScanCompleted { file_count: 2 });
    collector.handle_property_bank(PropertyBankEvent::Fresh);
    collector.handle_schema(SchemaEvent::SchemaFresh { name: "task".into() });

    assert_eq!(collector.schema_event_count(), 2);
    assert_eq!(collector.property_bank_event_count(), 1);
    assert_eq!(
        collector.schema_events(),
        &vec![
            SchemaEvent::ScanCompleted { file_count: 2 },
            SchemaEvent::SchemaFresh { name: "task".into() }
        ]
    );
    assert_eq!(collector.property_bank_events(), &vec![PropertyBankEvent::Fresh]);

    collector.clear();
    assert_eq!(collector.schema_event_count(), 0);
    assert_eq!(collector.property_bank_event_count(), 0);
}
