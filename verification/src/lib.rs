//! Versioned binary codec for "building" structures: rigid-body roots that
//! group typed blocks with packed transforms, colors, links and metadata.
use vstd::prelude::*;

pub mod catalog;
pub mod decode;
pub mod encode;
pub mod model;
pub mod parse;
pub mod parse2;
pub mod parse3;
pub mod primitives;
pub mod registry;
pub mod roundtrip;
pub mod wire;

verus! {

/// Highest wire-format revision this codec understands.
pub const MAX_VERSION: u8 = 6;

/// What can go wrong in a codec pass.
///
/// A dangling graph reference is never an error: encoding drops it
/// silently.  When encoding fails partway, the caller must discard any
/// bytes already produced; no partial result is usable.
#[derive(Clone, Copy, Debug, PartialEq, Eq, Structural)]
pub enum Error {
    /// The version byte names no known layout; nothing of the body is
    /// touched.
    UnsupportedVersion { version: u8 },
    /// A count exceeds the field width of the active version; encoding
    /// fails rather than truncate.
    TooManyValues,
    /// The bytes handed to the decoder are not a well-formed stream:
    /// truncated, mis-counted, not valid text where text is owed, or
    /// inconsistent with their own flags.
    InvalidData,
}

/// Returns whether `version` names a known wire layout.
pub fn version_supported(version: u8) -> (r: bool)
    ensures
        r == (version <= MAX_VERSION),
{
    version <= MAX_VERSION
}

} // verus!
