use vstd::prelude::*;
use crate::doc::{Doc, Key, KeyModel, doc_len, copy_key, keys_equal};
use crate::error::MergeError;
use crate::hooks::FieldHooks;
use crate::schema::{FieldDescriptor, RecordSchema, Resolution, Shape, Strategy, resolve_key};
use crate::value::{
    Value, ValueModel, conforms, default_model, lemma_default_conforms,
    lemma_models_of, lemma_entry_models_of, value_model, models_of, entry_models_of,
};

verus! {

broadcast use {lemma_models_of, lemma_entry_models_of};

/// The value left behind by a merge and whether it succeeded. A failed merge
/// leaves what it had updated before the failure.
pub type Outcome = (ValueModel, Result<(), MergeError>);

/// A record with field `f` set to `v`.
pub open spec fn with_field(cur: ValueModel, f: int, v: ValueModel) -> ValueModel {
    ValueModel::Record(cur->Record_0.update(f, v))
}

/// A list with element `i` set to `v`.
pub open spec fn with_element(cur: ValueModel, i: int, v: ValueModel) -> ValueModel {
    ValueModel::List(cur->List_0.update(i, v))
}

/// The first entry, from position `j` on, whose key is `k`.
pub open spec fn find_key(es: Seq<(KeyModel, ValueModel)>, k: KeyModel, j: int) -> Option<int>
    decreases es.len() - j,
{
    if j < 0 || j >= es.len() {
        None
    } else if es[j].0 == k {
        Some(j)
    } else {
        find_key(es, k, j + 1)
    }
}

/// The shape of position `i` of an array or a tuple.
pub open spec fn element_shape(shape: Shape, i: int) -> Shape {
    match shape {
        Shape::Array(_, elem) => *elem,
        Shape::Tuple(shapes) => shapes@[i],
        _ => shape,
    }
}

/// A from-scratch deserialization: the document merged onto the shape's
/// default value, adopted only if the merge succeeds.
pub open spec fn fresh_model<H: FieldHooks>(h: H, shape: Shape, doc: Doc) -> Result<
    ValueModel,
    MergeError,
>
    decreases doc, shape, 3int, 0int,
{
    let (v, r) = merge_model(h, shape, default_model(shape), doc);
    match r {
        Ok(_) => Ok(v),
        Err(e) => Err(e),
    }
}

/// Applies one field's strategy to the field's current value.
pub open spec fn apply_field<H: FieldHooks>(
    h: H,
    fd: FieldDescriptor,
    cur: ValueModel,
    doc: Doc,
) -> Outcome
    decreases doc, fd.shape, 4int, 0int,
{
    match fd.strategy {
        Strategy::Replace => {
            let fresh = match fd.producer {
                Some(id) => h.produced(id, fd.shape, doc),
                None => fresh_model(h, fd.shape, doc),
            };
            match fresh {
                Ok(v) => (v, Ok(())),
                Err(e) => (cur, Err(e)),
            }
        },
        Strategy::MergeRecursive => match fd.merger {
            Some(id) => h.merged(id, fd.shape, cur, doc),
            None => merge_model(h, fd.shape, cur, doc),
        },
    }
}

/// Map-shaped traversal of a record, from entry `i` on, with the fields in
/// `seen` already presented.
pub open spec fn merge_entries<H: FieldHooks>(
    h: H,
    shape: Shape,
    cur: ValueModel,
    doc: Doc,
    i: int,
    seen: Set<int>,
) -> Outcome
    decreases doc, shape, 1int, doc_len(doc) - i,
{
    match shape {
        Shape::Record(schema) => match doc {
            Doc::Entries(es) => if 0 <= i < es@.len() {
                match resolve_key(schema.fields@, es@[i].0@) {
                    Resolution::Unknown => merge_entries(h, shape, cur, doc, i + 1, seen),
                    Resolution::Invalid(n) => (cur, Err(MergeError::InvalidKeyIdentifier(n))),
                    Resolution::Field(f) => if seen.contains(f as int) {
                        (cur, Err(MergeError::DuplicateField(schema.fields@[f as int].name)))
                    } else {
                        let (v, r) = apply_field(
                            h,
                            schema.fields@[f as int],
                            cur->Record_0[f as int],
                            es@[i].1,
                        );
                        let next = with_field(cur, f as int, v);
                        match r {
                            Ok(_) => merge_entries(h, shape, next, doc, i + 1, seen.insert(f as int)),
                            Err(e) => (next, Err(e)),
                        }
                    },
                }
            } else {
                (cur, Ok(()))
            },
            _ => (cur, Ok(())),
        },
        _ => (cur, Ok(())),
    }
}

/// Sequence-shaped traversal of a record, from ordinal `i` on.
pub open spec fn merge_positional<H: FieldHooks>(
    h: H,
    shape: Shape,
    cur: ValueModel,
    doc: Doc,
    i: int,
) -> Outcome
    decreases doc, shape, 1int, doc_len(doc) - i,
{
    match shape {
        Shape::Record(schema) => match doc {
            Doc::List(items) => if 0 <= i < items@.len() && i < schema.fields@.len() {
                let (v, r) = apply_field(h, schema.fields@[i], cur->Record_0[i], items@[i]);
                let next = with_field(cur, i, v);
                match r {
                    Ok(_) => merge_positional(h, shape, next, doc, i + 1),
                    Err(e) => (next, Err(e)),
                }
            } else {
                (cur, Ok(()))
            },
            _ => (cur, Ok(())),
        },
        _ => (cur, Ok(())),
    }
}

/// Element-wise merge of an array or a tuple, from position `i` on, up to
/// the shorter of the sequence and the value.
pub open spec fn merge_elements<H: FieldHooks>(
    h: H,
    shape: Shape,
    cur: ValueModel,
    doc: Doc,
    i: int,
) -> Outcome
    decreases doc, shape, 1int, doc_len(doc) - i,
{
    match doc {
        Doc::List(items) => if 0 <= i < items@.len() && i < cur->List_0.len() {
            let (v, r) = merge_model(h, element_shape(shape, i), cur->List_0[i], items@[i]);
            let next = with_element(cur, i, v);
            match r {
                Ok(_) => merge_elements(h, shape, next, doc, i + 1),
                Err(e) => (next, Err(e)),
            }
        } else {
            (cur, Ok(()))
        },
        _ => (cur, Ok(())),
    }
}

/// Merge of a map-shaped document into an associative map, from entry `i`
/// on: a present key is merged onto, a new key is inserted fresh.
pub open spec fn merge_dict<H: FieldHooks>(
    h: H,
    shape: Shape,
    cur: ValueModel,
    doc: Doc,
    i: int,
) -> Outcome
    decreases doc, shape, 1int, doc_len(doc) - i,
{
    match shape {
        Shape::Dict(vs) => match doc {
            Doc::Entries(es) => if 0 <= i < es@.len() {
                let k = es@[i].0@;
                let entries = cur->Dict_0;
                match find_key(entries, k, 0) {
                    Some(j) => {
                        let (v, r) = merge_model(h, *vs, entries[j].1, es@[i].1);
                        let next = ValueModel::Dict(entries.update(j, (k, v)));
                        match r {
                            Ok(_) => merge_dict(h, shape, next, doc, i + 1),
                            Err(e) => (next, Err(e)),
                        }
                    },
                    None => match fresh_model(h, *vs, es@[i].1) {
                        Ok(v) => merge_dict(
                            h,
                            shape,
                            ValueModel::Dict(entries.push((k, v))),
                            doc,
                            i + 1,
                        ),
                        Err(e) => (cur, Err(e)),
                    },
                }
            } else {
                (cur, Ok(()))
            },
            _ => (cur, Ok(())),
        },
        _ => (cur, Ok(())),
    }
}

/// Merges a document onto a value of the given shape.
///
/// Scalars are replaced. A record reads a map-shaped document by key or a
/// sequence-shaped one by position. An optional value ignores an explicit
/// null, merges onto a present value and adopts a fresh one otherwise.
/// Arrays and tuples merge element by element; an associative map merges
/// onto present keys and inserts new ones. Any other document is of the
/// wrong type.
pub open spec fn merge_model<H: FieldHooks>(
    h: H,
    shape: Shape,
    cur: ValueModel,
    doc: Doc,
) -> Outcome
    decreases doc, shape, 2int, 0int,
{
    let mismatch = (cur, Err(MergeError::InvalidType));
    match shape {
        Shape::Unit => match doc {
            Doc::Null => (ValueModel::Unit, Ok(())),
            _ => mismatch,
        },
        Shape::Bool => match doc {
            Doc::Bool(b) => (ValueModel::Bool(b), Ok(())),
            _ => mismatch,
        },
        Shape::Int => match doc {
            Doc::Int(n) => (ValueModel::Int(n), Ok(())),
            _ => mismatch,
        },
        Shape::Text => match doc {
            Doc::Text(s) => (ValueModel::Text(s@), Ok(())),
            _ => mismatch,
        },
        Shape::Record(_) => match doc {
            Doc::Entries(_) => merge_entries(h, shape, cur, doc, 0, Set::empty()),
            Doc::List(_) => merge_positional(h, shape, cur, doc, 0),
            _ => mismatch,
        },
        Shape::Optional(inner) => match doc {
            Doc::Null => (cur, Ok(())),
            _ => match cur {
                ValueModel::Opt(Some(x)) => {
                    let (v, r) = merge_model(h, *inner, *x, doc);
                    (ValueModel::Opt(Some(Box::new(v))), r)
                },
                _ => match fresh_model(h, *inner, doc) {
                    Ok(v) => (ValueModel::Opt(Some(Box::new(v))), Ok(())),
                    Err(e) => (cur, Err(e)),
                },
            },
        },
        Shape::Array(_, _) | Shape::Tuple(_) => match doc {
            Doc::List(_) => merge_elements(h, shape, cur, doc, 0),
            _ => mismatch,
        },
        Shape::Dict(_) => match doc {
            Doc::Entries(_) => merge_dict(h, shape, cur, doc, 0),
            _ => mismatch,
        },
    }
}

/// The model of a record holds the models of its fields.
proof fn lemma_record_view(fs: Vec<Value>)
    ensures
        Value::Record(fs)@ is Record,
        Value::Record(fs)@->Record_0.len() == fs@.len(),
        forall|j: int| 0 <= j < fs@.len() ==> Value::Record(fs)@->Record_0[j] == (#[trigger] fs@[j])@,
{
    assert(value_model(Value::Record(fs)) == ValueModel::Record(models_of(fs@)));
}

/// The model of a list holds the models of its elements.
proof fn lemma_list_view(xs: Vec<Value>)
    ensures
        Value::List(xs)@ is List,
        Value::List(xs)@->List_0.len() == xs@.len(),
        forall|j: int| 0 <= j < xs@.len() ==> Value::List(xs)@->List_0[j] == (#[trigger] xs@[j])@,
{
    assert(value_model(Value::List(xs)) == ValueModel::List(models_of(xs@)));
}

/// The fields of `Record(b)` are those of `Record(a)` with field `f` replaced.
proof fn lemma_record_update(a: Vec<Value>, b: Vec<Value>, f: int)
    requires
        0 <= f < a@.len(),
        b@ == a@.update(f, b@[f]),
    ensures
        Value::Record(b)@ == with_field(Value::Record(a)@, f, b@[f]@),
{
    lemma_record_view(a);
    lemma_record_view(b);
    assert(models_of(b@) =~= models_of(a@).update(f, b@[f]@));
}

/// The elements of `List(b)` are those of `List(a)` with element `i` replaced.
proof fn lemma_list_update(a: Vec<Value>, b: Vec<Value>, i: int)
    requires
        0 <= i < a@.len(),
        b@ == a@.update(i, b@[i]),
    ensures
        Value::List(b)@ == with_element(Value::List(a)@, i, b@[i]@),
{
    lemma_list_view(a);
    lemma_list_view(b);
    assert(models_of(b@) =~= models_of(a@).update(i, b@[i]@));
}

/// The set of ordinals marked in `seen`.
pub open spec fn seen_set(seen: Seq<bool>) -> Set<int> {
    Set::new(|j: int| 0 <= j < seen.len() && seen[j])
}

/// Deserializes a fresh value of the shape from the document: the shape's
/// default value with the document merged onto it.
pub fn fresh_value<H: FieldHooks>(h: &H, shape: &Shape, doc: &Doc) -> (r: Result<Value, MergeError>)
    ensures
        match r {
            Ok(v) => fresh_model(*h, *shape, *doc) == Ok::<ValueModel, MergeError>(v@) && conforms(
                *shape,
                v@,
            ),
            Err(e) => fresh_model(*h, *shape, *doc) == Err::<ValueModel, MergeError>(e),
        },
    decreases *doc, *shape, 3int, 0int,
{
    let mut v = Value::default_for(shape);
    proof {
        lemma_default_conforms(*shape);
    }
    match merge_value(h, shape, &mut v, doc) {
        Ok(()) => Ok(v),
        Err(e) => Err(e),
    }
}

/// Applies a field's strategy: replace the field by a fresh or produced
/// value, or merge onto it recursively or through its merger.
fn apply_field_exec<H: FieldHooks>(
    h: &H,
    fd: &FieldDescriptor,
    target: &mut Value,
    doc: &Doc,
) -> (r: Result<(), MergeError>)
    requires
        conforms(fd.shape, old(target)@),
    ensures
        apply_field(*h, *fd, old(target)@, *doc) == (final(target)@, r),
        conforms(fd.shape, final(target)@),
    decreases *doc, fd.shape, 4int, 0int,
{
    match fd.strategy {
        Strategy::Replace => {
            let fresh = match fd.producer {
                Some(id) => h.produce(id, &fd.shape, doc),
                None => fresh_value(h, &fd.shape, doc),
            };
            match fresh {
                Ok(v) => {
                    *target = v;
                    Ok(())
                },
                Err(e) => Err(e),
            }
        },
        Strategy::MergeRecursive => match fd.merger {
            Some(id) => h.merge(id, &fd.shape, target, doc),
            None => merge_value(h, &fd.shape, target, doc),
        },
    }
}

/// Map-shaped traversal of a record.
fn merge_entries_exec<H: FieldHooks>(
    h: &H,
    shape: &Shape,
    schema: &RecordSchema,
    target: &mut Value,
    doc: &Doc,
    es: &Vec<(Key, Doc)>,
) -> (r: Result<(), MergeError>)
    requires
        *shape == Shape::Record(*schema),
        *doc == Doc::Entries(*es),
        conforms(*shape, old(target)@),
    ensures
        merge_entries(*h, *shape, old(target)@, *doc, 0, Set::empty()) == (final(target)@, r),
        conforms(*shape, final(target)@),
    decreases *doc, *shape, 1int, doc_len(*doc),
{
    let ghost start = old(target)@;
    let mut taken = Value::Unit;
    std::mem::swap(target, &mut taken);
    let mut fs = match taken {
        Value::Record(fs) => fs,
        other => {
            *target = other;
            return Ok(());
        },
    };
    proof {
        lemma_record_view(fs);
    }
    let n = schema.fields.len();
    let mut seen: Vec<bool> = Vec::new();
    while seen.len() < n
        invariant
            seen@.len() <= n,
            n == schema.fields@.len(),
            forall|j: int| 0 <= j < seen@.len() ==> !(#[trigger] seen@[j]),
        decreases n - seen.len(),
    {
        seen.push(false);
    }
    assert(seen_set(seen@) =~= Set::<int>::empty());
    let mut i: usize = 0;
    while i < es.len()
        invariant
            *shape == Shape::Record(*schema),
            *doc == Doc::Entries(*es),
            start == old(target)@,
            i <= es@.len(),
            n == schema.fields@.len(),
            seen@.len() == n,
            fs@.len() == n,
            conforms(*shape, Value::Record(fs)@),
            merge_entries(*h, *shape, start, *doc, 0, Set::empty()) == merge_entries(
                *h,
                *shape,
                Value::Record(fs)@,
                *doc,
                i as int,
                seen_set(seen@),
            ),
        decreases es.len() - i,
    {
        let entry = &es[i];
        match schema.resolve(&entry.0) {
            Resolution::Unknown => {},
            Resolution::Invalid(k) => {
                *target = Value::Record(fs);
                return Err(MergeError::InvalidKeyIdentifier(k));
            },
            Resolution::Field(f) => {
                if seen[f] {
                    *target = Value::Record(fs);
                    return Err(MergeError::DuplicateField(schema.fields[f].name.clone()));
                }
                let ghost before = fs;
                let ghost seen_before = seen@;
                seen.set(f, true);
                assert(seen_set(seen@) =~= seen_set(seen_before).insert(f as int));
                proof {
                    assert(decreases_to!(*doc => doc->Entries_0));
                    lemma_record_view(fs);
                }
                let r = apply_field_exec(h, &schema.fields[f], &mut fs[f], &entry.1);
                proof {
                    lemma_record_update(before, fs, f as int);
                }
                if r.is_err() {
                    *target = Value::Record(fs);
                    return r;
                }
            },
        }
        i += 1;
    }
    *target = Value::Record(fs);
    Ok(())
}

/// Where `find_key` lands: at the first entry from `j` on with the key, or
/// nowhere when no entry from `j` on has it.
pub proof fn lemma_find_key(es: Seq<(KeyModel, ValueModel)>, k: KeyModel, j: int)
    requires
        0 <= j,
    ensures
        find_key(es, k, j) matches Some(x) ==> j <= x < es.len() && es[x].0 == k && forall|m: int|
            j <= m < x ==> es[m].0 != k,
        find_key(es, k, j) is None ==> forall|m: int| j <= m < es.len() ==> es[m].0 != k,
    decreases es.len() - j,
{
    if j < es.len() && es[j].0 != k {
        lemma_find_key(es, k, j + 1);
    }
}

/// The position of the entry with key `k`, if any.
fn find_entry(entries: &Vec<(Key, Value)>, k: &Key) -> (r: Option<usize>)
    ensures
        match r {
            Some(j) => find_key(entry_models_of(entries@), k@, 0) == Some(j as int),
            None => find_key(entry_models_of(entries@), k@, 0) is None,
        },
{
    let ghost es = entry_models_of(entries@);
    let mut j: usize = 0;
    while j < entries.len()
        invariant
            j <= entries@.len(),
            es == entry_models_of(entries@),
            find_key(es, k@, 0) == find_key(es, k@, j as int),
        decreases entries.len() - j,
    {
        if keys_equal(&entries[j].0, k) {
            return Some(j);
        }
        j += 1;
    }
    None
}

/// The shape of position `i` of an array or a tuple.
fn element_shape_exec(shape: &Shape, i: usize) -> (r: &Shape)
    requires
        shape is Tuple ==> i < shape->Tuple_0@.len(),
    ensures
        *r == element_shape(*shape, i as int),
{
    match shape {
        Shape::Array(_, elem) => elem,
        Shape::Tuple(shapes) => &shapes[i],
        _ => shape,
    }
}

/// Sequence-shaped traversal of a record.
fn merge_positional_exec<H: FieldHooks>(
    h: &H,
    shape: &Shape,
    schema: &RecordSchema,
    target: &mut Value,
    doc: &Doc,
    items: &Vec<Doc>,
) -> (r: Result<(), MergeError>)
    requires
        *shape == Shape::Record(*schema),
        *doc == Doc::List(*items),
        conforms(*shape, old(target)@),
    ensures
        merge_positional(*h, *shape, old(target)@, *doc, 0) == (final(target)@, r),
        conforms(*shape, final(target)@),
    decreases *doc, *shape, 1int, doc_len(*doc),
{
    let ghost start = old(target)@;
    let mut taken = Value::Unit;
    std::mem::swap(target, &mut taken);
    let mut fs = match taken {
        Value::Record(fs) => fs,
        other => {
            *target = other;
            return Ok(());
        },
    };
    proof {
        lemma_record_view(fs);
    }
    let mut i: usize = 0;
    while i < items.len() && i < schema.fields.len()
        invariant
            *shape == Shape::Record(*schema),
            *doc == Doc::List(*items),
            start == old(target)@,
            fs@.len() == schema.fields@.len(),
            conforms(*shape, Value::Record(fs)@),
            merge_positional(*h, *shape, start, *doc, 0) == merge_positional(
                *h,
                *shape,
                Value::Record(fs)@,
                *doc,
                i as int,
            ),
        decreases items.len() - i,
    {
        let ghost before = fs;
        proof {
            assert(decreases_to!(*doc => doc->List_0));
            lemma_record_view(fs);
        }
        let r = apply_field_exec(h, &schema.fields[i], &mut fs[i], &items[i]);
        proof {
            lemma_record_update(before, fs, i as int);
        }
        if r.is_err() {
            *target = Value::Record(fs);
            return r;
        }
        i += 1;
    }
    *target = Value::Record(fs);
    Ok(())
}

/// Element-wise merge of an array or a tuple.
fn merge_elements_exec<H: FieldHooks>(
    h: &H,
    shape: &Shape,
    target: &mut Value,
    doc: &Doc,
    items: &Vec<Doc>,
) -> (r: Result<(), MergeError>)
    requires
        shape is Array || shape is Tuple,
        *doc == Doc::List(*items),
        conforms(*shape, old(target)@),
    ensures
        merge_elements(*h, *shape, old(target)@, *doc, 0) == (final(target)@, r),
        conforms(*shape, final(target)@),
    decreases *doc, *shape, 1int, doc_len(*doc),
{
    let ghost start = old(target)@;
    let mut taken = Value::Unit;
    std::mem::swap(target, &mut taken);
    let mut xs = match taken {
        Value::List(xs) => xs,
        other => {
            *target = other;
            return Ok(());
        },
    };
    proof {
        lemma_list_view(xs);
    }
    let ghost n = xs@.len();
    let mut i: usize = 0;
    while i < items.len() && i < xs.len()
        invariant
            shape is Array || shape is Tuple,
            *doc == Doc::List(*items),
            start == old(target)@,
            xs@.len() == n,
            shape is Tuple ==> n == shape->Tuple_0@.len(),
            conforms(*shape, Value::List(xs)@),
            merge_elements(*h, *shape, start, *doc, 0) == merge_elements(
                *h,
                *shape,
                Value::List(xs)@,
                *doc,
                i as int,
            ),
        decreases items.len() - i,
    {
        let ghost before = xs;
        proof {
            assert(decreases_to!(*doc => doc->List_0));
            lemma_list_view(xs);
        }
        let es = element_shape_exec(shape, i);
        let r = merge_value(h, es, &mut xs[i], &items[i]);
        proof {
            lemma_list_update(before, xs, i as int);
            lemma_list_view(xs);
            let m = Value::List(xs)@->List_0;
            assert forall|j: int| 0 <= j < m.len() implies conforms(
                element_shape(*shape, j),
                #[trigger] m[j],
            ) by {
                lemma_list_view(before);
            }
        }
        if r.is_err() {
            *target = Value::List(xs);
            return r;
        }
        i += 1;
    }
    *target = Value::List(xs);
    Ok(())
}

/// Merge of a map-shaped document into an associative map.
fn merge_dict_exec<H: FieldHooks>(
    h: &H,
    shape: &Shape,
    vs: &Shape,
    target: &mut Value,
    doc: &Doc,
    es: &Vec<(Key, Doc)>,
) -> (r: Result<(), MergeError>)
    requires
        *shape == Shape::Dict(Box::new(*vs)),
        *doc == Doc::Entries(*es),
        conforms(*shape, old(target)@),
    ensures
        merge_dict(*h, *shape, old(target)@, *doc, 0) == (final(target)@, r),
        conforms(*shape, final(target)@),
    decreases *doc, *shape, 1int, doc_len(*doc),
{
    let ghost start = old(target)@;
    let mut taken = Value::Unit;
    std::mem::swap(target, &mut taken);
    let mut entries = match taken {
        Value::Dict(entries) => entries,
        other => {
            *target = other;
            return Ok(());
        },
    };
    proof {
        assert(value_model(Value::Dict(entries)) == ValueModel::Dict(entry_models_of(entries@)));
    }
    let mut i: usize = 0;
    while i < es.len()
        invariant
            *shape == Shape::Dict(Box::new(*vs)),
            *doc == Doc::Entries(*es),
            start == old(target)@,
            Value::Dict(entries)@ == ValueModel::Dict(entry_models_of(entries@)),
            conforms(*shape, Value::Dict(entries)@),
            merge_dict(*h, *shape, start, *doc, 0) == merge_dict(
                *h,
                *shape,
                Value::Dict(entries)@,
                *doc,
                i as int,
            ),
        decreases es.len() - i,
    {
        let entry = &es[i];
        let ghost before = entries;
        let ghost old_models = entry_models_of(entries@);
        proof {
            assert(decreases_to!(*doc => doc->Entries_0));
            lemma_find_key(old_models, entry.0@, 0);
        }
        match find_entry(&entries, &entry.0) {
            Some(j) => {
                let r = merge_value(h, vs, &mut entries[j].1, &entry.1);
                proof {
                    let new_models = entry_models_of(entries@);
                    assert(new_models =~= old_models.update(
                        j as int,
                        (entry.0@, entries@[j as int].1@),
                    ));
                    assert(value_model(Value::Dict(entries)) == ValueModel::Dict(new_models));
                }
                if r.is_err() {
                    *target = Value::Dict(entries);
                    return r;
                }
            },
            None => {
                match fresh_value(h, vs, &entry.1) {
                    Ok(v) => {
                        entries.push((copy_key(&entry.0), v));
                        proof {
                            let new_models = entry_models_of(entries@);
                            assert(new_models =~= old_models.push((entry.0@, entries@.last().1@)));
                            assert(value_model(Value::Dict(entries)) == ValueModel::Dict(new_models));
                        }
                    },
                    Err(e) => {
                        *target = Value::Dict(entries);
                        return Err(e);
                    },
                }
            },
        }
        i += 1;
    }
    *target = Value::Dict(entries);
    Ok(())
}

/// Merges a document onto a value of the given shape, in place.
pub fn merge_value<H: FieldHooks>(h: &H, shape: &Shape, target: &mut Value, doc: &Doc) -> (r: Result<
    (),
    MergeError,
>)
    requires
        conforms(*shape, old(target)@),
    ensures
        merge_model(*h, *shape, old(target)@, *doc) == (final(target)@, r),
        conforms(*shape, final(target)@),
    decreases *doc, *shape, 2int, 0int,
{
    match shape {
        Shape::Unit => match doc {
            Doc::Null => {
                *target = Value::Unit;
                Ok(())
            },
            _ => Err(MergeError::InvalidType),
        },
        Shape::Bool => match doc {
            Doc::Bool(b) => {
                *target = Value::Bool(*b);
                Ok(())
            },
            _ => Err(MergeError::InvalidType),
        },
        Shape::Int => match doc {
            Doc::Int(n) => {
                *target = Value::Int(*n);
                Ok(())
            },
            _ => Err(MergeError::InvalidType),
        },
        Shape::Text => match doc {
            Doc::Text(s) => {
                *target = Value::Text(s.clone());
                Ok(())
            },
            _ => Err(MergeError::InvalidType),
        },
        Shape::Record(schema) => match doc {
            Doc::Entries(es) => merge_entries_exec(h, shape, schema, target, doc, es),
            Doc::List(items) => merge_positional_exec(h, shape, schema, target, doc, items),
            _ => Err(MergeError::InvalidType),
        },
        Shape::Optional(inner) => match doc {
            Doc::Null => Ok(()),
            _ => {
                let mut taken = Value::Unit;
                std::mem::swap(target, &mut taken);
                match taken {
                    Value::Opt(Some(b)) => {
                        let mut x = *b;
                        let r = merge_value(h, inner, &mut x, doc);
                        *target = Value::Opt(Some(Box::new(x)));
                        r
                    },
                    other => match fresh_value(h, inner, doc) {
                        Ok(v) => {
                            *target = Value::Opt(Some(Box::new(v)));
                            Ok(())
                        },
                        Err(e) => {
                            *target = other;
                            Err(e)
                        },
                    },
                }
            },
        },
        Shape::Array(_, _) | Shape::Tuple(_) => match doc {
            Doc::List(items) => merge_elements_exec(h, shape, target, doc, items),
            _ => Err(MergeError::InvalidType),
        },
        Shape::Dict(vs) => match doc {
            Doc::Entries(es) => merge_dict_exec(h, shape, vs, target, doc, es),
            _ => Err(MergeError::InvalidType),
        },
    }
}

impl Value {
    /// Merges a document onto this value in place: fields the document does
    /// not mention keep their values. A failed merge leaves what it updated
    /// before the failure.
    pub fn deserialize_over<H: FieldHooks>(&mut self, shape: &Shape, hooks: &H, doc: &Doc) -> (r:
        Result<(), MergeError>)
        requires
            conforms(*shape, old(self)@),
        ensures
            merge_model(*hooks, *shape, old(self)@, *doc) == (final(self)@, r),
            conforms(*shape, final(self)@),
    {
        merge_value(hooks, shape, self, doc)
    }
}

impl Doc {
    /// Merges this document onto `target`: [`Value::deserialize_over`] with
    /// the operands the other way round.
    pub fn deserialize_into<H: FieldHooks>(&self, target: &mut Value, shape: &Shape, hooks: &H) -> (r:
        Result<(), MergeError>)
        requires
            conforms(*shape, old(target)@),
        ensures
            merge_model(*hooks, *shape, old(target)@, *self) == (final(target)@, r),
            conforms(*shape, final(target)@),
    {
        target.deserialize_over(shape, hooks, self)
    }
}

} // verus!
