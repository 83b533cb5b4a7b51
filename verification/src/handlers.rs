//! Handlers that describe pipeline events: the logging handler, which turns
//! each event into a structured log record, and the metrics handler.

pub use crate::events::{LogLevel, LogRecord, LoggingHandler, MetricsHandler};
