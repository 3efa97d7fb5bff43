//! Format-preserving anonymization of sensitive values in text log lines.
//!
//! The engine detects IPv4 addresses, IPv6 addresses and query-string
//! parameter values in a line of bytes, validates them strictly, and rewrites
//! each one in place with a replacement of identical length that keeps the
//! value's own separators. Replacements are drawn from a seeded generator and
//! cached per category, so one original always maps to one replacement for
//! the life of an engine instance.

pub mod cache;
pub mod digits;
pub mod laws;
pub mod scan;
pub mod transformer;
pub mod util;
pub mod validate;
