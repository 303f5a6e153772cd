use vstd::prelude::*;
use crate::doc::{Doc, Key};
use crate::error::MergeError;
use crate::engine::{
    apply_field, element_shape, find_key, lemma_find_key, fresh_model, merge_dict, merge_elements, merge_entries,
    merge_model, merge_positional, with_element, with_field,
};
use crate::hooks::FieldHooks;
use crate::schema::{
    FieldDescriptor, RecordSchema, Resolution, Shape, Strategy, lemma_first_accepting,
    resolve_key,
};
use crate::value::{ValueModel, conforms, default_model, lemma_default_conforms};

verus! {

/// A key that resolves to a field resolves to one of the schema's ordinals.
pub proof fn lemma_resolve_in_range(fields: Seq<FieldDescriptor>, k: crate::doc::KeyModel)
    ensures
        resolve_key(fields, k) matches Resolution::Field(f) ==> f < fields.len(),
{
    lemma_first_accepting(fields, k, 0);
}

/// No entry of `es` from position `i` on resolves to field `f`.
pub open spec fn unmentioned_from(
    fields: Seq<FieldDescriptor>,
    es: Seq<(Key, Doc)>,
    i: int,
    f: usize,
) -> bool {
    forall|k: int|
        i <= k < es.len() ==> resolve_key(fields, (#[trigger] es[k]).0@) != Resolution::Field(
            f,
        )
}

/// Map-shaped traversal writes no field that is already presented or that no
/// remaining entry names, and keeps the record's length.
proof fn lemma_entries_frame<H: FieldHooks>(
    h: H,
    schema: RecordSchema,
    cur: ValueModel,
    es: Vec<(Key, Doc)>,
    i: int,
    seen: Set<int>,
    f: usize,
)
    requires
        cur is Record,
        cur->Record_0.len() == schema.fields@.len(),
        0 <= i,
        f < cur->Record_0.len(),
        seen.contains(f as int) || unmentioned_from(schema.fields@, es@, i, f),
    ensures
        ({
            let out = merge_entries(h, Shape::Record(schema), cur, Doc::Entries(es), i, seen).0;
            out is Record && out->Record_0.len() == cur->Record_0.len() && out->Record_0[f as int]
                == cur->Record_0[f as int]
        }),
    decreases es@.len() - i,
{
    let shape = Shape::Record(schema);
    let doc = Doc::Entries(es);
    if i < es@.len() {
        lemma_resolve_in_range(schema.fields@, es@[i].0@);
        match resolve_key(schema.fields@, es@[i].0@) {
            Resolution::Unknown => {
                lemma_entries_frame(h, schema, cur, es, i + 1, seen, f);
            },
            Resolution::Invalid(_) => {},
            Resolution::Field(g) => {
                if !seen.contains(g as int) {
                    let (v, r) = apply_field(
                        h,
                        schema.fields@[g as int],
                        cur->Record_0[g as int],
                        es@[i].1,
                    );
                    let next = with_field(cur, g as int, v);
                    assert(g != f);
                    if r is Ok {
                        lemma_entries_frame(h, schema, next, es, i + 1, seen.insert(g as int), f);
                    }
                }
            },
        }
    }
}

/// Absence preserves: a field that no key of a map-shaped document resolves
/// to leaves the merge with the value it had.
pub proof fn law_absent_field_unchanged<H: FieldHooks>(
    h: H,
    schema: RecordSchema,
    cur: ValueModel,
    es: Vec<(Key, Doc)>,
    f: usize,
)
    requires
        conforms(Shape::Record(schema), cur),
        f < schema.fields@.len(),
        unmentioned_from(schema.fields@, es@, 0, f),
    ensures
        merge_model(h, Shape::Record(schema), cur, Doc::Entries(es)).0->Record_0[f as int]
            == cur->Record_0[f as int],
{
    lemma_entries_frame(h, schema, cur, es, 0, Set::empty(), f);
}

/// Absence preserves, for a sequence-shaped document: a field whose ordinal
/// the sequence does not reach leaves the merge with the value it had.
pub proof fn law_unreached_field_unchanged<H: FieldHooks>(
    h: H,
    schema: RecordSchema,
    cur: ValueModel,
    items: Vec<Doc>,
    f: int,
)
    requires
        conforms(Shape::Record(schema), cur),
        items@.len() <= f < schema.fields@.len(),
    ensures
        merge_model(h, Shape::Record(schema), cur, Doc::List(items)).0->Record_0[f] == cur->Record_0[f],
{
    lemma_positional_frame(h, schema, cur, items, 0, f);
}

/// What a `Replace` field becomes when the document presents `d` for it.
pub open spec fn replacement<H: FieldHooks>(h: H, fd: FieldDescriptor, d: Doc) -> Result<
    ValueModel,
    MergeError,
> {
    match fd.producer {
        Some(id) => h.produced(id, fd.shape, d),
        None => fresh_model(h, fd.shape, d),
    }
}

/// Induction for the replace law: from entry `j` on, the entry `i` that
/// names the `Replace` field `f` leaves the replacement in it.
proof fn lemma_replace_from<H: FieldHooks>(
    h: H,
    schema: RecordSchema,
    cur: ValueModel,
    es: Vec<(Key, Doc)>,
    j: int,
    seen: Set<int>,
    i: int,
    f: usize,
)
    requires
        cur is Record,
        cur->Record_0.len() == schema.fields@.len(),
        0 <= j <= i < es@.len(),
        resolve_key(schema.fields@, es@[i].0@) == Resolution::Field(f),
        schema.fields@[f as int].strategy == Strategy::Replace,
        merge_entries(h, Shape::Record(schema), cur, Doc::Entries(es), j, seen).1 is Ok,
    ensures
        replacement(h, schema.fields@[f as int], es@[i].1) is Ok,
        merge_entries(h, Shape::Record(schema), cur, Doc::Entries(es), j, seen).0->Record_0[f as int]
            == replacement(h, schema.fields@[f as int], es@[i].1)->Ok_0,
    decreases i - j,
{
    lemma_resolve_in_range(schema.fields@, es@[j].0@);
    lemma_resolve_in_range(schema.fields@, es@[i].0@);
    match resolve_key(schema.fields@, es@[j].0@) {
        Resolution::Unknown => {
            lemma_replace_from(h, schema, cur, es, j + 1, seen, i, f);
        },
        Resolution::Invalid(_) => {},
        Resolution::Field(g) => {
            let (v, r) = apply_field(h, schema.fields@[g as int], cur->Record_0[g as int], es@[j].1);
            let next = with_field(cur, g as int, v);
            if j == i {
                lemma_entries_frame(h, schema, next, es, j + 1, seen.insert(g as int), f);
            } else {
                lemma_replace_from(h, schema, next, es, j + 1, seen.insert(g as int), i, f);
            }
        },
    }
}

/// Replace overwrites: when a merge of a map-shaped document succeeds, a
/// `Replace` field that the document presents holds a value deserialized from
/// scratch from what was presented (or built by the field's producer),
/// whatever it held before.
pub proof fn law_replace_overwrites<H: FieldHooks>(
    h: H,
    schema: RecordSchema,
    cur: ValueModel,
    es: Vec<(Key, Doc)>,
    i: int,
    f: usize,
)
    requires
        conforms(Shape::Record(schema), cur),
        0 <= i < es@.len(),
        resolve_key(schema.fields@, es@[i].0@) == Resolution::Field(f),
        schema.fields@[f as int].strategy == Strategy::Replace,
        merge_model(h, Shape::Record(schema), cur, Doc::Entries(es)).1 is Ok,
    ensures
        replacement(h, schema.fields@[f as int], es@[i].1) is Ok,
        merge_model(h, Shape::Record(schema), cur, Doc::Entries(es)).0->Record_0[f as int] == replacement(
            h,
            schema.fields@[f as int],
            es@[i].1,
        )->Ok_0,
{
    lemma_replace_from(h, schema, cur, es, 0, Set::empty(), i, f);
}

/// Induction for the duplicate law: from entry `k` on, with the field of
/// entries `i` and `j` presented already or still ahead, the merge fails.
proof fn lemma_duplicate_from<H: FieldHooks>(
    h: H,
    schema: RecordSchema,
    cur: ValueModel,
    es: Vec<(Key, Doc)>,
    k: int,
    seen: Set<int>,
    i: int,
    j: int,
    f: usize,
)
    requires
        0 <= k <= j,
        0 <= i < j < es@.len(),
        k <= i || seen.contains(f as int),
        resolve_key(schema.fields@, es@[i].0@) == Resolution::Field(f),
        resolve_key(schema.fields@, es@[j].0@) == Resolution::Field(f),
    ensures
        merge_entries(h, Shape::Record(schema), cur, Doc::Entries(es), k, seen).1 is Err,
    decreases j - k,
{
    match resolve_key(schema.fields@, es@[k].0@) {
        Resolution::Unknown => {
            lemma_duplicate_from(h, schema, cur, es, k + 1, seen, i, j, f);
        },
        Resolution::Invalid(_) => {},
        Resolution::Field(g) => {
            if !seen.contains(g as int) {
                let (v, r) = apply_field(
                    h,
                    schema.fields@[g as int],
                    cur->Record_0[g as int],
                    es@[k].1,
                );
                if r is Ok {
                    let next = with_field(cur, g as int, v);
                    lemma_duplicate_from(h, schema, next, es, k + 1, seen.insert(g as int), i, j, f);
                }
            }
        },
    }
}

/// Duplicate key fails: a map-shaped document that presents the same field
/// twice (by one key or by two of its keys) makes the merge fail.
pub proof fn law_duplicate_field_fails<H: FieldHooks>(
    h: H,
    schema: RecordSchema,
    cur: ValueModel,
    es: Vec<(Key, Doc)>,
    i: int,
    j: int,
    f: usize,
)
    requires
        0 <= i < j < es@.len(),
        resolve_key(schema.fields@, es@[i].0@) == Resolution::Field(f),
        resolve_key(schema.fields@, es@[j].0@) == Resolution::Field(f),
    ensures
        merge_model(h, Shape::Record(schema), cur, Doc::Entries(es)).1 is Err,
{
    lemma_duplicate_from(h, schema, cur, es, 0, Set::empty(), i, j, f);
}

/// The value of an entry is smaller than the document that holds it.
proof fn lemma_entry_smaller(es: Vec<(Key, Doc)>, i: int)
    requires
        0 <= i < es@.len(),
    ensures
        decreases_to!(Doc::Entries(es) => es@[i].1),
{
    let d = Doc::Entries(es);
    assert(decreases_to!(d => d->Entries_0));
    assert(decreases_to!(es => es@));
    assert(decreases_to!(es@ => es@[i]));
    assert(decreases_to!(es@[i] => es@[i].1));
}

/// An element is smaller than the sequence-shaped document that holds it.
proof fn lemma_item_smaller(items: Vec<Doc>, i: int)
    requires
        0 <= i < items@.len(),
    ensures
        decreases_to!(Doc::List(items) => items@[i]),
{
    let d = Doc::List(items);
    assert(decreases_to!(d => d->List_0));
    assert(decreases_to!(items => items@));
    assert(decreases_to!(items@ => items@[i]));
}

/// Induction for the stopping half of the duplicate law: from entry `k` on,
/// a field that no entry before `j` names keeps its value.
proof fn lemma_duplicate_stops_from<H: FieldHooks>(
    h: H,
    schema: RecordSchema,
    cur: ValueModel,
    es: Vec<(Key, Doc)>,
    k: int,
    seen: Set<int>,
    i: int,
    j: int,
    f: usize,
    g: usize,
)
    requires
        cur is Record,
        cur->Record_0.len() == schema.fields@.len(),
        0 <= k <= j,
        0 <= i < j < es@.len(),
        k <= i || seen.contains(f as int),
        g < schema.fields@.len(),
        resolve_key(schema.fields@, es@[i].0@) == Resolution::Field(f),
        resolve_key(schema.fields@, es@[j].0@) == Resolution::Field(f),
        forall|m: int| k <= m < j ==> resolve_key(schema.fields@, (#[trigger] es@[m]).0@) != Resolution::Field(g),
    ensures
        merge_entries(h, Shape::Record(schema), cur, Doc::Entries(es), k, seen).0->Record_0[g as int]
            == cur->Record_0[g as int],
    decreases j - k,
{
    lemma_resolve_in_range(schema.fields@, es@[k].0@);
    match resolve_key(schema.fields@, es@[k].0@) {
        Resolution::Unknown => {
            lemma_duplicate_stops_from(h, schema, cur, es, k + 1, seen, i, j, f, g);
        },
        Resolution::Invalid(_) => {},
        Resolution::Field(e) => {
            if !seen.contains(e as int) {
                let (v, r) = apply_field(
                    h,
                    schema.fields@[e as int],
                    cur->Record_0[e as int],
                    es@[k].1,
                );
                if r is Ok {
                    let next = with_field(cur, e as int, v);
                    lemma_duplicate_stops_from(
                        h,
                        schema,
                        next,
                        es,
                        k + 1,
                        seen.insert(e as int),
                        i,
                        j,
                        f,
                        g,
                    );
                }
            }
        },
    }
}

/// Duplicate key fails, and stops: when entries `i` and `j` present the
/// same field, a field that no entry before `j` presents keeps its value,
/// whatever the entries after `j` say of it.
pub proof fn law_duplicate_field_stops<H: FieldHooks>(
    h: H,
    schema: RecordSchema,
    cur: ValueModel,
    es: Vec<(Key, Doc)>,
    i: int,
    j: int,
    f: usize,
    g: usize,
)
    requires
        conforms(Shape::Record(schema), cur),
        0 <= i < j < es@.len(),
        g < schema.fields@.len(),
        resolve_key(schema.fields@, es@[i].0@) == Resolution::Field(f),
        resolve_key(schema.fields@, es@[j].0@) == Resolution::Field(f),
        forall|m: int| 0 <= m < j ==> resolve_key(schema.fields@, (#[trigger] es@[m]).0@) != Resolution::Field(g),
    ensures
        merge_model(h, Shape::Record(schema), cur, Doc::Entries(es)).0->Record_0[g as int]
            == cur->Record_0[g as int],
{
    lemma_duplicate_stops_from(h, schema, cur, es, 0, Set::empty(), i, j, f, g);
}

/// The custom routines keep values well-formed, and a merger applied twice
/// with one document leaves what it left the first time.
pub open spec fn hooks_idempotent<H: FieldHooks>(h: H) -> bool {
    &&& forall|id: usize, shape: Shape, d: Doc|
        (#[trigger] h.produced(id, shape, d)) matches Ok(v) ==> conforms(shape, v)
    &&& forall|id: usize, shape: Shape, cur: ValueModel, d: Doc|
        conforms(shape, cur) ==> conforms(shape, (#[trigger] h.merged(id, shape, cur, d)).0)
    &&& forall|id: usize, shape: Shape, cur: ValueModel, d: Doc|
        conforms(shape, cur) ==> h.merged(id, shape, (#[trigger] h.merged(id, shape, cur, d)).0, d)
            == h.merged(id, shape, cur, d)
}

/// No map-shaped part of the document presents one key twice.
pub open spec fn distinct_keys(doc: Doc) -> bool
    decreases doc,
{
    match doc {
        Doc::List(items) => forall|i: int|
            0 <= i < items@.len() ==> distinct_keys(#[trigger] items@[i]),
        Doc::Entries(es) => {
            &&& forall|a: int, b: int|
                0 <= a < b < es@.len() ==> (#[trigger] es@[a]).0@ != (#[trigger] es@[b]).0@
            &&& forall|i: int| 0 <= i < es@.len() ==> distinct_keys((#[trigger] es@[i]).1)
        },
        _ => true,
    }
}

/// Setting a field of a well-formed record to a well-formed value keeps it
/// well-formed.
proof fn lemma_with_field_conforms(schema: RecordSchema, cur: ValueModel, f: int, v: ValueModel)
    requires
        conforms(Shape::Record(schema), cur),
        0 <= f < schema.fields@.len(),
        conforms(schema.fields@[f].shape, v),
    ensures
        conforms(Shape::Record(schema), with_field(cur, f, v)),
{
    let fs = with_field(cur, f, v)->Record_0;
    assert forall|j: int| 0 <= j < fs.len() implies conforms(
        schema.fields@[j].shape,
        #[trigger] fs[j],
    ) by {}
}

/// Setting an element of a well-formed array or tuple to a well-formed value
/// keeps it well-formed.
proof fn lemma_with_element_conforms(shape: Shape, cur: ValueModel, i: int, v: ValueModel)
    requires
        shape is Array || shape is Tuple,
        conforms(shape, cur),
        0 <= i < cur->List_0.len(),
        conforms(element_shape(shape, i), v),
    ensures
        conforms(shape, with_element(cur, i, v)),
{
    let xs = with_element(cur, i, v)->List_0;
    assert forall|j: int| 0 <= j < xs.len() implies conforms(
        element_shape(shape, j),
        #[trigger] xs[j],
    ) by {}
}

/// An element of a well-formed array or tuple has its position's shape.
proof fn lemma_element_conforms(shape: Shape, cur: ValueModel, i: int)
    requires
        shape is Array || shape is Tuple,
        conforms(shape, cur),
        0 <= i < cur->List_0.len(),
    ensures
        conforms(element_shape(shape, i), cur->List_0[i]),
{
}

/// A fresh value is well-formed.
proof fn lemma_cp_fresh<H: FieldHooks>(h: H, shape: Shape, doc: Doc)
    requires
        hooks_idempotent(h),
    ensures
        fresh_model(h, shape, doc) matches Ok(v) ==> conforms(shape, v),
    decreases doc, shape, 3int, 0int,
{
    lemma_default_conforms(shape);
    lemma_cp_merge(h, shape, default_model(shape), doc);
}

/// Applying a field's strategy keeps the field well-formed.
proof fn lemma_cp_apply<H: FieldHooks>(h: H, fd: FieldDescriptor, cur: ValueModel, doc: Doc)
    requires
        hooks_idempotent(h),
        conforms(fd.shape, cur),
    ensures
        conforms(fd.shape, apply_field(h, fd, cur, doc).0),
    decreases doc, fd.shape, 4int, 0int,
{
    match fd.strategy {
        Strategy::Replace => match fd.producer {
            Some(id) => {
                let _ = h.produced(id, fd.shape, doc);
            },
            None => lemma_cp_fresh(h, fd.shape, doc),
        },
        Strategy::MergeRecursive => match fd.merger {
            Some(id) => {
                let _ = h.merged(id, fd.shape, cur, doc);
            },
            None => lemma_cp_merge(h, fd.shape, cur, doc),
        },
    }
}

/// Map-shaped traversal keeps a record well-formed.
proof fn lemma_cp_entries<H: FieldHooks>(
    h: H,
    schema: RecordSchema,
    cur: ValueModel,
    es: Vec<(Key, Doc)>,
    i: int,
    seen: Set<int>,
)
    requires
        hooks_idempotent(h),
        conforms(Shape::Record(schema), cur),
    ensures
        conforms(
            Shape::Record(schema),
            merge_entries(h, Shape::Record(schema), cur, Doc::Entries(es), i, seen).0,
        ),
    decreases Doc::Entries(es), Shape::Record(schema), 1int, es@.len() - i,
{
    if 0 <= i < es@.len() {
        lemma_resolve_in_range(schema.fields@, es@[i].0@);
        match resolve_key(schema.fields@, es@[i].0@) {
            Resolution::Unknown => lemma_cp_entries(h, schema, cur, es, i + 1, seen),
            Resolution::Invalid(_) => {},
            Resolution::Field(f) => {
                if !seen.contains(f as int) {
                    let fd = schema.fields@[f as int];
                    let (v, r) = apply_field(h, fd, cur->Record_0[f as int], es@[i].1);
                    lemma_entry_smaller(es, i);
                    lemma_cp_apply(h, fd, cur->Record_0[f as int], es@[i].1);
                    lemma_with_field_conforms(schema, cur, f as int, v);
                    if r is Ok {
                        lemma_cp_entries(
                            h,
                            schema,
                            with_field(cur, f as int, v),
                            es,
                            i + 1,
                            seen.insert(f as int),
                        );
                    }
                }
            },
        }
    }
}

/// Sequence-shaped traversal keeps a record well-formed.
proof fn lemma_cp_positional<H: FieldHooks>(
    h: H,
    schema: RecordSchema,
    cur: ValueModel,
    items: Vec<Doc>,
    i: int,
)
    requires
        hooks_idempotent(h),
        conforms(Shape::Record(schema), cur),
    ensures
        conforms(
            Shape::Record(schema),
            merge_positional(h, Shape::Record(schema), cur, Doc::List(items), i).0,
        ),
    decreases Doc::List(items), Shape::Record(schema), 1int, items@.len() - i,
{
    if 0 <= i < items@.len() && i < schema.fields@.len() {
        let fd = schema.fields@[i];
        let (v, r) = apply_field(h, fd, cur->Record_0[i], items@[i]);
        lemma_item_smaller(items, i);
        lemma_cp_apply(h, fd, cur->Record_0[i], items@[i]);
        lemma_with_field_conforms(schema, cur, i, v);
        if r is Ok {
            lemma_cp_positional(h, schema, with_field(cur, i, v), items, i + 1);
        }
    }
}

/// Element-wise merge keeps an array or a tuple well-formed.
proof fn lemma_cp_elements<H: FieldHooks>(
    h: H,
    shape: Shape,
    cur: ValueModel,
    items: Vec<Doc>,
    i: int,
)
    requires
        hooks_idempotent(h),
        shape is Array || shape is Tuple,
        conforms(shape, cur),
    ensures
        conforms(shape, merge_elements(h, shape, cur, Doc::List(items), i).0),
    decreases Doc::List(items), shape, 1int, items@.len() - i,
{
    if 0 <= i < items@.len() && i < cur->List_0.len() {
        let es = element_shape(shape, i);
        let (v, r) = merge_model(h, es, cur->List_0[i], items@[i]);
        lemma_item_smaller(items, i);
        lemma_element_conforms(shape, cur, i);
        lemma_cp_merge(h, es, cur->List_0[i], items@[i]);
        lemma_with_element_conforms(shape, cur, i, v);
        if r is Ok {
            lemma_cp_elements(h, shape, with_element(cur, i, v), items, i + 1);
        }
    }
}

/// Merging into an associative map keeps it well-formed: its keys stay
/// distinct.
proof fn lemma_cp_dict<H: FieldHooks>(
    h: H,
    vs: Shape,
    cur: ValueModel,
    es: Vec<(Key, Doc)>,
    i: int,
)
    requires
        hooks_idempotent(h),
        conforms(Shape::Dict(Box::new(vs)), cur),
    ensures
        conforms(
            Shape::Dict(Box::new(vs)),
            merge_dict(h, Shape::Dict(Box::new(vs)), cur, Doc::Entries(es), i).0,
        ),
    decreases Doc::Entries(es), Shape::Dict(Box::new(vs)), 1int, es@.len() - i,
{
    let shape = Shape::Dict(Box::new(vs));
    if 0 <= i < es@.len() {
        let k = es@[i].0@;
        let entries = cur->Dict_0;
        lemma_entry_smaller(es, i);
        lemma_find_key(entries, k, 0);
        match find_key(entries, k, 0) {
            Some(j) => {
                let (v, r) = merge_model(h, vs, entries[j].1, es@[i].1);
                lemma_cp_merge(h, vs, entries[j].1, es@[i].1);
                let next = ValueModel::Dict(entries.update(j, (k, v)));
                assert(conforms(shape, next)) by {
                    let n = next->Dict_0;
                    assert forall|a: int, b: int|
                        0 <= a < n.len() && 0 <= b < n.len() && a != b implies n[a].0 != n[b].0 by {
                        assert(entries[a].0 != entries[b].0);
                    }
                    assert forall|m: int| 0 <= m < n.len() implies conforms(vs, #[trigger] n[m].1) by {
                        if m != j {
                            assert(conforms(vs, entries[m].1));
                        }
                    }
                }
                if r is Ok {
                    lemma_cp_dict(h, vs, next, es, i + 1);
                }
            },
            None => {
                lemma_cp_fresh(h, vs, es@[i].1);
                if let Ok(v) = fresh_model(h, vs, es@[i].1) {
                    let next = ValueModel::Dict(entries.push((k, v)));
                    assert(conforms(shape, next)) by {
                        let n = next->Dict_0;
                        assert forall|a: int, b: int|
                            0 <= a < n.len() && 0 <= b < n.len() && a != b implies n[a].0
                            != n[b].0 by {
                            if a < entries.len() && b < entries.len() {
                                assert(entries[a].0 != entries[b].0);
                            }
                        }
                        assert forall|m: int| 0 <= m < n.len() implies conforms(
                            vs,
                            #[trigger] n[m].1,
                        ) by {
                            if m < entries.len() {
                                assert(conforms(vs, entries[m].1));
                            }
                        }
                    }
                    lemma_cp_dict(h, vs, next, es, i + 1);
                }
            },
        }
    }
}

/// A merge keeps a well-formed value well-formed.
proof fn lemma_cp_merge<H: FieldHooks>(h: H, shape: Shape, cur: ValueModel, doc: Doc)
    requires
        hooks_idempotent(h),
        conforms(shape, cur),
    ensures
        conforms(shape, merge_model(h, shape, cur, doc).0),
    decreases doc, shape, 2int, 0int,
{
    match shape {
        Shape::Record(schema) => match doc {
            Doc::Entries(es) => lemma_cp_entries(h, schema, cur, es, 0, Set::empty()),
            Doc::List(items) => lemma_cp_positional(h, schema, cur, items, 0),
            _ => {},
        },
        Shape::Optional(inner) => match doc {
            Doc::Null => {},
            _ => match cur {
                ValueModel::Opt(Some(x)) => lemma_cp_merge(h, *inner, *x, doc),
                _ => lemma_cp_fresh(h, *inner, doc),
            },
        },
        Shape::Array(_, _) | Shape::Tuple(_) => match doc {
            Doc::List(items) => lemma_cp_elements(h, shape, cur, items, 0),
            _ => {},
        },
        Shape::Dict(vs) => match doc {
            Doc::Entries(es) => {
                assert(shape == Shape::Dict(Box::new(*vs)));
                lemma_cp_dict(h, *vs, cur, es, 0);
            },
            _ => {},
        },
        _ => {},
    }
}

/// `find_key` finds the first entry with the key.
proof fn lemma_find_key_first(es: Seq<(crate::doc::KeyModel, ValueModel)>, k: crate::doc::KeyModel, x: int, j: int)
    requires
        0 <= x <= j < es.len(),
        es[j].0 == k,
        forall|m: int| x <= m < j ==> es[m].0 != k,
    ensures
        find_key(es, k, x) == Some(j),
    decreases j - x,
{
    if x < j {
        lemma_find_key_first(es, k, x + 1, j);
    }
}

/// Sequence-shaped traversal from ordinal `i` on writes no field before `i`
/// and none that the sequence does not reach.
proof fn lemma_positional_frame<H: FieldHooks>(
    h: H,
    schema: RecordSchema,
    cur: ValueModel,
    items: Vec<Doc>,
    i: int,
    p: int,
)
    requires
        cur is Record,
        cur->Record_0.len() == schema.fields@.len(),
        0 <= i,
        0 <= p < i || items@.len() <= p < cur->Record_0.len(),
    ensures
        ({
            let out = merge_positional(h, Shape::Record(schema), cur, Doc::List(items), i).0;
            out is Record && out->Record_0.len() == cur->Record_0.len() && out->Record_0[p]
                == cur->Record_0[p]
        }),
    decreases items@.len() - i,
{
    if i < items@.len() && i < schema.fields@.len() {
        let (v, r) = apply_field(h, schema.fields@[i], cur->Record_0[i], items@[i]);
        if r is Ok {
            lemma_positional_frame(h, schema, with_field(cur, i, v), items, i + 1, p);
        }
    }
}

/// Element-wise merge from position `i` on writes no element before `i`.
proof fn lemma_elements_frame<H: FieldHooks>(
    h: H,
    shape: Shape,
    cur: ValueModel,
    items: Vec<Doc>,
    i: int,
    p: int,
)
    requires
        cur is List,
        0 <= p < i,
        p < cur->List_0.len(),
    ensures
        ({
            let out = merge_elements(h, shape, cur, Doc::List(items), i).0;
            out is List && out->List_0.len() == cur->List_0.len() && out->List_0[p]
                == cur->List_0[p]
        }),
    decreases items@.len() - i,
{
    if i < items@.len() && i < cur->List_0.len() {
        let (v, r) = merge_model(h, element_shape(shape, i), cur->List_0[i], items@[i]);
        if r is Ok {
            lemma_elements_frame(h, shape, with_element(cur, i, v), items, i + 1, p);
        }
    }
}

/// Merging into an associative map from entry `i` on keeps the keys at
/// their positions, only appends, and leaves alone every entry whose key no
/// remaining entry of the document presents.
proof fn lemma_dict_frame<H: FieldHooks>(
    h: H,
    vs: Shape,
    cur: ValueModel,
    es: Vec<(Key, Doc)>,
    i: int,
)
    requires
        cur is Dict,
        0 <= i,
    ensures
        ({
            let out = merge_dict(h, Shape::Dict(Box::new(vs)), cur, Doc::Entries(es), i).0;
            &&& out is Dict
            &&& out->Dict_0.len() >= cur->Dict_0.len()
            &&& forall|p: int|
                0 <= p < cur->Dict_0.len() ==> (#[trigger] out->Dict_0[p]).0 == cur->Dict_0[p].0
            &&& forall|p: int|
                0 <= p < cur->Dict_0.len() && (forall|m: int|
                    i <= m < es@.len() ==> (#[trigger] es@[m]).0@ != cur->Dict_0[p].0)
                    ==> #[trigger] out->Dict_0[p] == cur->Dict_0[p]
        }),
    decreases es@.len() - i,
{
    let shape = Shape::Dict(Box::new(vs));
    if i < es@.len() {
        let k = es@[i].0@;
        let entries = cur->Dict_0;
        lemma_find_key(entries, k, 0);
        match find_key(entries, k, 0) {
            Some(j) => {
                let (v, r) = merge_model(h, vs, entries[j].1, es@[i].1);
                let next = ValueModel::Dict(entries.update(j, (k, v)));
                if r is Ok {
                    lemma_dict_frame(h, vs, next, es, i + 1);
                    let out = merge_dict(h, shape, next, Doc::Entries(es), i + 1).0;
                    assert forall|p: int|
                        0 <= p < entries.len() && (forall|m: int|
                            i <= m < es@.len() ==> (#[trigger] es@[m]).0@ != entries[p].0)
                            implies #[trigger] out->Dict_0[p] == entries[p] by {
                        assert(es@[i].0@ != entries[p].0);
                        assert(next->Dict_0[p] == entries[p]);
                        assert(forall|m: int|
                            i + 1 <= m < es@.len() ==> (#[trigger] es@[m]).0@ != next->Dict_0[p].0);
                    }
                } else {
                    assert forall|p: int|
                        0 <= p < entries.len() && (forall|m: int|
                            i <= m < es@.len() ==> (#[trigger] es@[m]).0@ != entries[p].0)
                            implies #[trigger] next->Dict_0[p] == entries[p] by {
                        assert(es@[i].0@ != entries[p].0);
                    }
                }
            },
            None => {
                if let Ok(v) = fresh_model(h, vs, es@[i].1) {
                    let next = ValueModel::Dict(entries.push((k, v)));
                    lemma_dict_frame(h, vs, next, es, i + 1);
                    let out = merge_dict(h, shape, next, Doc::Entries(es), i + 1).0;
                    assert forall|p: int|
                        0 <= p < entries.len() && (forall|m: int|
                            i <= m < es@.len() ==> (#[trigger] es@[m]).0@ != entries[p].0)
                            implies #[trigger] out->Dict_0[p] == entries[p] by {
                        assert(next->Dict_0[p] == entries[p]);
                        assert(forall|m: int|
                            i + 1 <= m < es@.len() ==> (#[trigger] es@[m]).0@ != next->Dict_0[p].0);
                    }
                    assert forall|p: int| 0 <= p < entries.len() implies (
                    #[trigger] out->Dict_0[p]).0 == entries[p].0 by {
                        assert(next->Dict_0[p] == entries[p]);
                    }
                }
            },
        }
    }
}

/// Applying a field's strategy twice with one document leaves what applying
/// it once left.
proof fn lemma_id_apply<H: FieldHooks>(h: H, fd: FieldDescriptor, cur: ValueModel, doc: Doc)
    requires
        hooks_idempotent(h),
        conforms(fd.shape, cur),
        distinct_keys(doc),
    ensures
        apply_field(h, fd, apply_field(h, fd, cur, doc).0, doc) == apply_field(h, fd, cur, doc),
    decreases doc, fd.shape, 4int, 0int,
{
    match fd.strategy {
        Strategy::Replace => {},
        Strategy::MergeRecursive => match fd.merger {
            Some(id) => {
                let _ = h.merged(id, fd.shape, cur, doc);
            },
            None => lemma_id_merge(h, fd.shape, cur, doc),
        },
    }
}

/// Map-shaped traversal of a record, repeated from the same entry with the
/// same fields presented, leaves what it left the first time.
proof fn lemma_id_entries<H: FieldHooks>(
    h: H,
    schema: RecordSchema,
    cur: ValueModel,
    es: Vec<(Key, Doc)>,
    i: int,
    seen: Set<int>,
)
    requires
        hooks_idempotent(h),
        conforms(Shape::Record(schema), cur),
        distinct_keys(Doc::Entries(es)),
        0 <= i,
    ensures
        ({
            let shape = Shape::Record(schema);
            let doc = Doc::Entries(es);
            let first = merge_entries(h, shape, cur, doc, i, seen);
            merge_entries(h, shape, first.0, doc, i, seen) == first
        }),
    decreases Doc::Entries(es), Shape::Record(schema), 1int, es@.len() - i,
{
    let shape = Shape::Record(schema);
    let doc = Doc::Entries(es);
    if i < es@.len() {
        lemma_resolve_in_range(schema.fields@, es@[i].0@);
        match resolve_key(schema.fields@, es@[i].0@) {
            Resolution::Unknown => lemma_id_entries(h, schema, cur, es, i + 1, seen),
            Resolution::Invalid(_) => {},
            Resolution::Field(f) => {
                if !seen.contains(f as int) {
                    let fd = schema.fields@[f as int];
                    let d = es@[i].1;
                    let (v, r) = apply_field(h, fd, cur->Record_0[f as int], d);
                    let next = with_field(cur, f as int, v);
                    lemma_entry_smaller(es, i);
                    lemma_id_apply(h, fd, cur->Record_0[f as int], d);
                    lemma_cp_apply(h, fd, cur->Record_0[f as int], d);
                    lemma_with_field_conforms(schema, cur, f as int, v);
                    if r is Ok {
                        let seen2 = seen.insert(f as int);
                        let fin = merge_entries(h, shape, next, doc, i + 1, seen2).0;
                        lemma_entries_frame(h, schema, next, es, i + 1, seen2, f);
                        lemma_id_entries(h, schema, next, es, i + 1, seen2);
                        assert(with_field(fin, f as int, v)->Record_0 =~= fin->Record_0);
                    } else {
                        assert(with_field(next, f as int, v)->Record_0 =~= next->Record_0);
                    }
                }
            },
        }
    }
}

/// Sequence-shaped traversal of a record, repeated from the same ordinal,
/// leaves what it left the first time.
proof fn lemma_id_positional<H: FieldHooks>(
    h: H,
    schema: RecordSchema,
    cur: ValueModel,
    items: Vec<Doc>,
    i: int,
)
    requires
        hooks_idempotent(h),
        conforms(Shape::Record(schema), cur),
        distinct_keys(Doc::List(items)),
        0 <= i,
    ensures
        ({
            let shape = Shape::Record(schema);
            let doc = Doc::List(items);
            let first = merge_positional(h, shape, cur, doc, i);
            merge_positional(h, shape, first.0, doc, i) == first
        }),
    decreases Doc::List(items), Shape::Record(schema), 1int, items@.len() - i,
{
    let shape = Shape::Record(schema);
    let doc = Doc::List(items);
    if i < items@.len() && i < schema.fields@.len() {
        let fd = schema.fields@[i];
        let d = items@[i];
        let (v, r) = apply_field(h, fd, cur->Record_0[i], d);
        let next = with_field(cur, i, v);
        lemma_item_smaller(items, i);
        lemma_id_apply(h, fd, cur->Record_0[i], d);
        lemma_cp_apply(h, fd, cur->Record_0[i], d);
        lemma_with_field_conforms(schema, cur, i, v);
        if r is Ok {
            let fin = merge_positional(h, shape, next, doc, i + 1).0;
            lemma_positional_frame(h, schema, next, items, i + 1, i);
            lemma_id_positional(h, schema, next, items, i + 1);
            assert(with_field(fin, i, v)->Record_0 =~= fin->Record_0);
        } else {
            assert(with_field(next, i, v)->Record_0 =~= next->Record_0);
        }
    }
}

/// Element-wise merge, repeated from the same position, leaves what it left
/// the first time.
proof fn lemma_id_elements<H: FieldHooks>(
    h: H,
    shape: Shape,
    cur: ValueModel,
    items: Vec<Doc>,
    i: int,
)
    requires
        hooks_idempotent(h),
        shape is Array || shape is Tuple,
        conforms(shape, cur),
        distinct_keys(Doc::List(items)),
        0 <= i,
    ensures
        ({
            let doc = Doc::List(items);
            let first = merge_elements(h, shape, cur, doc, i);
            merge_elements(h, shape, first.0, doc, i) == first
        }),
    decreases Doc::List(items), shape, 1int, items@.len() - i,
{
    let doc = Doc::List(items);
    if i < items@.len() && i < cur->List_0.len() {
        let es = element_shape(shape, i);
        let d = items@[i];
        let (v, r) = merge_model(h, es, cur->List_0[i], d);
        let next = with_element(cur, i, v);
        lemma_item_smaller(items, i);
        lemma_element_conforms(shape, cur, i);
        lemma_id_merge(h, es, cur->List_0[i], d);
        lemma_cp_merge(h, es, cur->List_0[i], d);
        lemma_with_element_conforms(shape, cur, i, v);
        if r is Ok {
            let fin = merge_elements(h, shape, next, doc, i + 1).0;
            lemma_elements_frame(h, shape, next, items, i + 1, i);
            lemma_id_elements(h, shape, next, items, i + 1);
            assert(with_element(fin, i, v)->List_0 =~= fin->List_0);
        } else {
            assert(with_element(next, i, v)->List_0 =~= next->List_0);
        }
    }
}

/// Merging into an associative map, repeated from the same entry of a
/// document that presents each key once, leaves what it left the first time.
proof fn lemma_id_dict<H: FieldHooks>(h: H, vs: Shape, cur: ValueModel, es: Vec<(Key, Doc)>, i: int)
    requires
        hooks_idempotent(h),
        conforms(Shape::Dict(Box::new(vs)), cur),
        distinct_keys(Doc::Entries(es)),
        0 <= i,
    ensures
        ({
            let shape = Shape::Dict(Box::new(vs));
            let doc = Doc::Entries(es);
            let first = merge_dict(h, shape, cur, doc, i);
            merge_dict(h, shape, first.0, doc, i) == first
        }),
    decreases Doc::Entries(es), Shape::Dict(Box::new(vs)), 1int, es@.len() - i,
{
    let shape = Shape::Dict(Box::new(vs));
    let doc = Doc::Entries(es);
    if i < es@.len() {
        let k = es@[i].0@;
        let d = es@[i].1;
        let entries = cur->Dict_0;
        lemma_entry_smaller(es, i);
        lemma_find_key(entries, k, 0);
        lemma_cp_dict(h, vs, cur, es, i);
        match find_key(entries, k, 0) {
            Some(j) => {
                let (v, r) = merge_model(h, vs, entries[j].1, d);
                let next = ValueModel::Dict(entries.update(j, (k, v)));
                let n = next->Dict_0;
                lemma_id_merge(h, vs, entries[j].1, d);
                lemma_cp_merge(h, vs, entries[j].1, d);
                assert(conforms(shape, next)) by {
                    assert forall|a: int, b: int|
                        0 <= a < n.len() && 0 <= b < n.len() && a != b implies n[a].0 != n[b].0 by {
                        assert(entries[a].0 != entries[b].0);
                    }
                    assert forall|m: int| 0 <= m < n.len() implies conforms(vs, #[trigger] n[m].1) by {
                        if m != j {
                            assert(conforms(vs, entries[m].1));
                        }
                    }
                }
                if r is Ok {
                    let fin = merge_dict(h, shape, next, doc, i + 1).0;
                    lemma_dict_frame(h, vs, next, es, i + 1);
                    assert(forall|m: int|
                        i + 1 <= m < es@.len() ==> (#[trigger] es@[m]).0@ != n[j].0);
                    assert(fin->Dict_0[j] == n[j]);
                    assert forall|m: int| 0 <= m < j implies fin->Dict_0[m].0 != k by {
                        assert(fin->Dict_0[m].0 == n[m].0);
                    }
                    lemma_find_key_first(fin->Dict_0, k, 0, j);
                    lemma_id_dict(h, vs, next, es, i + 1);
                    assert(fin->Dict_0.update(j, (k, v)) =~= fin->Dict_0);
                } else {
                    assert forall|m: int| 0 <= m < j implies n[m].0 != k by {
                        assert(n[m] == entries[m]);
                    }
                    lemma_find_key_first(n, k, 0, j);
                    assert(n.update(j, (k, v)) =~= n);
                }
            },
            None => {
                lemma_cp_fresh(h, vs, d);
                if let Ok(v) = fresh_model(h, vs, d) {
                    let next = ValueModel::Dict(entries.push((k, v)));
                    let n = next->Dict_0;
                    let last = entries.len() as int;
                    lemma_default_conforms(vs);
                    lemma_id_merge(h, vs, default_model(vs), d);
                    assert(conforms(shape, next)) by {
                        assert forall|a: int, b: int|
                            0 <= a < n.len() && 0 <= b < n.len() && a != b implies n[a].0
                            != n[b].0 by {
                            if a < entries.len() && b < entries.len() {
                                assert(entries[a].0 != entries[b].0);
                            }
                        }
                        assert forall|m: int| 0 <= m < n.len() implies conforms(
                            vs,
                            #[trigger] n[m].1,
                        ) by {
                            if m < entries.len() {
                                assert(conforms(vs, entries[m].1));
                            }
                        }
                    }
                    let fin = merge_dict(h, shape, next, doc, i + 1).0;
                    lemma_dict_frame(h, vs, next, es, i + 1);
                    assert(forall|m: int|
                        i + 1 <= m < es@.len() ==> (#[trigger] es@[m]).0@ != n[last].0);
                    assert(fin->Dict_0[last] == n[last]);
                    assert forall|m: int| 0 <= m < last implies fin->Dict_0[m].0 != k by {
                        assert(fin->Dict_0[m].0 == n[m].0);
                        assert(n[m] == entries[m]);
                    }
                    lemma_find_key_first(fin->Dict_0, k, 0, last);
                    lemma_id_dict(h, vs, next, es, i + 1);
                    assert(fin->Dict_0.update(last, (k, v)) =~= fin->Dict_0);
                }
            },
        }
    }
}

/// Merging twice with one document leaves what merging once left.
proof fn lemma_id_merge<H: FieldHooks>(h: H, shape: Shape, cur: ValueModel, doc: Doc)
    requires
        hooks_idempotent(h),
        conforms(shape, cur),
        distinct_keys(doc),
    ensures
        merge_model(h, shape, merge_model(h, shape, cur, doc).0, doc) == merge_model(
            h,
            shape,
            cur,
            doc,
        ),
    decreases doc, shape, 2int, 0int,
{
    match shape {
        Shape::Record(schema) => match doc {
            Doc::Entries(es) => lemma_id_entries(h, schema, cur, es, 0, Set::empty()),
            Doc::List(items) => lemma_id_positional(h, schema, cur, items, 0),
            _ => {},
        },
        Shape::Optional(inner) => match doc {
            Doc::Null => {},
            _ => match cur {
                ValueModel::Opt(Some(x)) => lemma_id_merge(h, *inner, *x, doc),
                _ => {
                    lemma_default_conforms(*inner);
                    lemma_id_merge(h, *inner, default_model(*inner), doc);
                    let dm = merge_model(h, *inner, default_model(*inner), doc);
                    if let Ok(v) = fresh_model(h, *inner, doc) {
                        let u: () = dm.1->Ok_0;
                        assert(u == ());
                        assert(dm == (v, Ok::<(), MergeError>(())));
                        assert(merge_model(h, *inner, v, doc) == (v, Ok::<(), MergeError>(())));
                    }
                },
            },
        },
        Shape::Array(_, _) | Shape::Tuple(_) => match doc {
            Doc::List(items) => lemma_id_elements(h, shape, cur, items, 0),
            _ => {},
        },
        Shape::Dict(vs) => match doc {
            Doc::Entries(es) => {
                assert(shape == Shape::Dict(Box::new(*vs)));
                lemma_id_dict(h, *vs, cur, es, 0);
            },
            _ => {},
        },
        _ => {},
    }
}

/// Idempotence: merging a document twice onto a value leaves what merging it
/// once left, and ends the same way, when no map-shaped part of the document
/// presents a key twice and the custom routines are idempotent themselves.
pub proof fn law_merge_idempotent<H: FieldHooks>(h: H, shape: Shape, cur: ValueModel, doc: Doc)
    requires
        hooks_idempotent(h),
        conforms(shape, cur),
        distinct_keys(doc),
    ensures
        merge_model(h, shape, merge_model(h, shape, cur, doc).0, doc) == merge_model(
            h,
            shape,
            cur,
            doc,
        ),
{
    lemma_id_merge(h, shape, cur, doc);
}

} // verus!
