//! A phone-directory pipeline: resolves a tabular roster into records,
//! flags extensions that are reachable per a host registry snapshot,
//! derives display names, orders the records, and renders the XML
//! directory document.

pub mod builder;
pub mod exporter;
pub mod record;
pub mod strutil;
pub mod sysinfo;
