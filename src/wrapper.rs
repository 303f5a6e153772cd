use vstd::prelude::*;
use crate::doc::Doc;
use crate::engine::{fresh_model, fresh_value, merge_model, merge_value};
use crate::error::MergeError;
use crate::hooks::FieldHooks;
use crate::schema::Shape;
use crate::value::{Value, conforms};

verus! {

/// Merges the next document onto the value it borrows.
pub struct DeserializeOverWrapper<'a>(pub &'a mut Value);

/// Replaces the value it borrows by one deserialized from scratch from the
/// next document.
pub struct DeserializeWrapper<'a>(pub &'a mut Value);

impl<'a> DeserializeOverWrapper<'a> {
    pub fn deserialize<H: FieldHooks>(self, hooks: &H, shape: &Shape, doc: &Doc) -> (r: Result<
        (),
        MergeError,
    >)
        requires
            conforms(*shape, (*old(self.0))@),
        ensures
            merge_model(*hooks, *shape, (*old(self.0))@, *doc) == ((*final(self.0))@, r),
            conforms(*shape, (*final(self.0))@),
    {
        merge_value(hooks, shape, self.0, doc)
    }
}

impl<'a> DeserializeWrapper<'a> {
    pub fn deserialize<H: FieldHooks>(self, hooks: &H, shape: &Shape, doc: &Doc) -> (r: Result<
        (),
        MergeError,
    >)
        ensures
            match fresh_model(*hooks, *shape, *doc) {
                Ok(v) => r is Ok && (*final(self.0))@ == v,
                Err(e) => r == Err::<(), MergeError>(e) && *final(self.0) == *old(self.0),
            },
            fresh_model(*hooks, *shape, *doc) is Ok ==> conforms(*shape, (*final(self.0))@),
    {
        match fresh_value(hooks, shape, doc) {
            Ok(v) => {
                *self.0 = v;
                Ok(())
            },
            Err(e) => Err(e),
        }
    }
}

} // verus!
