use vstd::prelude::*;
use crate::doc::Doc;
use crate::error::MergeError;
use crate::schema::Shape;
use crate::value::{Value, ValueModel, conforms};

verus! {

/// The custom routines that fields of a schema name by number: a producer
/// builds a fresh value in place of default deserialization, a merger
/// updates an existing value in place of the recursive protocol.
///
/// Each routine is a function of its arguments: `produced` and `merged` say
/// what it does, and the routines return what they say. An implementation
/// that provides routines states them by giving `produced` and `merged`
/// its own definitions.
pub trait FieldHooks {
    /// What producer `id` builds from the document for a field of `shape`:
    /// unless an implementation says otherwise, that it has no such producer.
    open spec fn produced(&self, id: usize, shape: Shape, doc: Doc) -> Result<ValueModel, MergeError> {
        Err(MergeError::UnknownHook(id))
    }

    /// What merger `id` leaves in a field of `shape` that held `current`,
    /// and whether it succeeded: unless an implementation says otherwise,
    /// that it has no such merger.
    open spec fn merged(&self, id: usize, shape: Shape, current: ValueModel, doc: Doc) -> (
        ValueModel,
        Result<(), MergeError>,
    ) {
        (current, Err(MergeError::UnknownHook(id)))
    }

    fn produce(&self, id: usize, shape: &Shape, doc: &Doc) -> (r: Result<Value, MergeError>)
        ensures
            match r {
                Ok(v) => self.produced(id, *shape, *doc) == Ok::<ValueModel, MergeError>(v@)
                    && conforms(*shape, v@),
                Err(e) => self.produced(id, *shape, *doc) == Err::<ValueModel, MergeError>(e),
            },
    ;

    fn merge(&self, id: usize, shape: &Shape, target: &mut Value, doc: &Doc) -> (r: Result<
        (),
        MergeError,
    >)
        requires
            conforms(*shape, old(target)@),
        ensures
            self.merged(id, *shape, old(target)@, *doc) == (final(target)@, r),
            conforms(*shape, final(target)@),
    ;
}

/// The absence of custom routines: a field that names one fails with
/// [`MergeError::UnknownHook`] and keeps its value.
pub struct NoHooks;

impl FieldHooks for NoHooks {
    fn produce(&self, id: usize, shape: &Shape, doc: &Doc) -> (r: Result<Value, MergeError>) {
        Err(MergeError::UnknownHook(id))
    }

    fn merge(&self, id: usize, shape: &Shape, target: &mut Value, doc: &Doc) -> (r: Result<
        (),
        MergeError,
    >) {
        Err(MergeError::UnknownHook(id))
    }
}

} // verus!
