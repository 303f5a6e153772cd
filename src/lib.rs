//! Merge deserialization: update an existing, already populated value in
//! place from a self-describing document, touching only what the document
//! mentions.
use vstd::prelude::*;

pub mod doc;
pub mod engine;
pub mod error;
pub mod hooks;
pub mod laws;
pub mod schema;
pub mod value;
pub mod wrapper;

verus! {

pub use crate::doc::{Doc, Key, KeyModel};
pub use crate::error::MergeError;
pub use crate::hooks::{FieldHooks, NoHooks};
pub use crate::schema::{FieldDescriptor, RecordSchema, Resolution, Shape, Strategy};
pub use crate::value::{Value, ValueModel};
pub use crate::wrapper::{DeserializeOverWrapper, DeserializeWrapper};
pub use crate::engine::{fresh_value, merge_value};

} // verus!
