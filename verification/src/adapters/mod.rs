//! Adapters' verified parts: report text builders, the JSON envelope
//! metadata, configuration comment blocks, and the source-enumeration
//! vocabulary.
pub mod config_doc_gen;
pub mod reporters;
pub mod source;
