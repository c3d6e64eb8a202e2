//! The failures of compilation and of lookup.

use vstd::prelude::*;

verus! {

/// A failure of the compilation stage.  No partial artifact survives one.
#[derive(Clone, Copy, Debug, PartialEq, Eq)]
pub enum CompileError {
    /// The resource text is not valid in the expected nested-mapping grammar.
    MalformedResource,
    /// The text parsed, but its top-level node is not a mapping.
    TopLevelShapeError,
}

/// A failure of a lookup against a compiled artifact.
#[derive(Clone, Debug, PartialEq, Eq)]
pub enum LookupError {
    /// The requested key is not in the table at all, whatever the locale.
    UnknownKey { key: String },
    /// The key is in the table, but neither the normalized locale nor the
    /// fallback locale has an entry for it.
    TranslationMissing { key: String, locale: String, fallback: String },
}

} // verus!
