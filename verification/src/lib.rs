//! Redaction of source-location metadata in a binary profiler trace.
//!
//! The trace begins with a fixed-size header (signature and version), then a
//! table of length-prefixed source-location records, then an opaque tail.
//! Records whose `function` or `file` field contains a secrecy marker are
//! rewritten with a fixed token; every other byte passes through unchanged.

use vstd::prelude::*;

pub mod pipeline;
pub mod policy;
pub mod record;
pub mod utf8;
pub mod wire;

verus! {

/// Why a trace could not be processed.
#[derive(Clone, Copy, Debug, PartialEq, Eq, Structural)]
pub enum RedactError {
    /// The 8-byte signature at the start of the header is not the expected magic value.
    BadSignature,
    /// The 4-byte version field does not hold the single supported version.
    UnsupportedVersion,
    /// The input ended before a fixed-size region or a declared string length was satisfied.
    TruncatedInput,
    /// A length-prefixed string payload is not valid UTF-8.
    InvalidEncoding,
}

} // verus!
