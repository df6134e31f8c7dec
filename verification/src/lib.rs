//! A verified codec and aggregation engine for line-oriented,
//! section-structured proxy descriptor documents.
//!
//! The codec parses a descriptor text into a structured document
//! (proxies, proxy groups, directive sections) and serializes it back;
//! the aggregation engine merges the proxies of several sub-documents
//! with locally configured directives and synthesized groups into one
//! output document.
pub mod configuration;
pub mod document;
pub mod group;
pub mod params;
pub mod proxy;
pub mod text;
