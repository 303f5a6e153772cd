use vstd::prelude::*;

verus! {

/// Why a merge, or the construction of a schema, failed.
#[derive(Debug, PartialEq, Eq)]
pub enum MergeError {
    /// A map-shaped document presented the field with this primary name twice.
    DuplicateField(String),
    /// The field with this name makes its schema ambiguous or inconsistent.
    SchemaConfiguration(String),
    /// The document does not have the form that the declared shape reads.
    InvalidType,
    /// A numeric key outside the range of field ordinals.
    InvalidKeyIdentifier(u64),
    /// A field names a custom hook that the supplied hooks do not provide.
    UnknownHook(usize),
    /// A failure reported by a custom hook or by the reader of the document.
    Custom(String),
}

} // verus!
