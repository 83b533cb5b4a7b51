use lithos_core::events::{PropertyBankEvent, StalenessReason};
use lithos_core::handlers::{LogLevel, LoggingHandler};

#[test]
fn handlers_logging_handler_handles_all_property_bank_events() {
    let handler = LoggingHandler::new();

    let levels: Vec<LogLevel> = [
        PropertyBankEvent::Fresh,
        PropertyBankEvent::Stale { reason: StalenessReason::Modified },
        PropertyBankEvent::ResolutionStarted,
        PropertyBankEvent::Resolved { property_count: 10 },
        PropertyBankEvent::Persisted,
        PropertyBankEvent::TriggeredCascade { affected_schema_count: 5 },
    ]
    .iter()
    .map(|event| handler.property_bank_record(event).level)
    .collect();

    assert_eq!(
        levels,
        vec![
            LogLevel::Debug,
            LogLevel::Warn,
            LogLevel::Debug,
            LogLevel::Info,
            LogLevel::Debug,
            LogLevel::Info
        ]
    );
}
