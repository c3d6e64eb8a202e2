//! Build-time compiler for embedded translation tables.
//!
//! A resource text maps message keys to per-locale strings.  The library
//! parses it, validates and normalizes it into a canonical table, and packs
//! the table into an immutable artifact whose pure lookup functions answer
//! `translate(key, locale)` queries with locale normalization and fallback
//! semantics, without touching the resource text again.

pub mod artifact;
pub mod errors;
pub mod locale;
pub mod raw;
pub mod table;
