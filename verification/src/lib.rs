pub mod aggregate;
pub mod bank;
pub mod base;
pub mod base_processor;
pub mod builder;
pub mod clock;
pub mod command;
pub mod compression;
pub mod delta;
pub mod dereferencer;
pub mod discovery;
pub mod error;
pub mod events;
pub mod handlers;
pub mod expander;
pub mod extender;
pub mod formats;
pub mod graph;
pub mod hash;
pub mod identifier;
pub mod index;
pub mod ingestor;
pub mod inheritance;
pub mod loader;
pub mod merger;
pub mod idmap;
pub mod property;
pub mod query;
pub mod resolver;
pub mod raw;
pub mod sort;
pub mod stored;
pub mod text;
pub mod textmap;
