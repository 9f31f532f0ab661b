//! Watches FedRAMP's machine-readable sources and decides what changed.
pub mod bundle;
pub mod canon;
pub mod commands;
pub mod diff;
pub mod error;
pub mod json;
pub mod mcp;
pub mod obligations;
pub mod outside;
pub mod plan;
pub mod receipt;
pub mod report;
pub mod severity;
pub mod sources;
pub mod table;
pub mod text;
pub mod validate;
