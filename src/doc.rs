use vstd::prelude::*;

verus! {

/// A key presented by a map-shaped document: text, raw bytes (for
/// binary-biased formats) or a compact numeric field identifier.
#[derive(Debug, PartialEq, Eq)]
pub enum Key {
    Text(String),
    Bytes(Vec<u8>),
    Index(u64),
}

/// The mathematical value of a [`Key`].
pub enum KeyModel {
    Text(Seq<char>),
    Bytes(Seq<u8>),
    Index(u64),
}

impl View for Key {
    type V = KeyModel;

    open spec fn view(&self) -> KeyModel {
        match self {
            Key::Text(s) => KeyModel::Text(s@),
            Key::Bytes(b) => KeyModel::Bytes(b@),
            Key::Index(n) => KeyModel::Index(*n),
        }
    }
}

/// A self-describing input document, already read by a format-specific
/// reader: a scalar, an ordered sequence, or an ordered list of key/value
/// entries (a map-shaped document, which may repeat a key).
#[derive(Debug, PartialEq, Eq)]
pub enum Doc {
    Null,
    Bool(bool),
    Int(i64),
    Text(String),
    List(Vec<Doc>),
    Entries(Vec<(Key, Doc)>),
}

/// Number of elements of a sequence-shaped document, or of entries of a
/// map-shaped one; zero for a scalar.
pub open spec fn doc_len(doc: Doc) -> int {
    match doc {
        Doc::List(items) => items.len() as int,
        Doc::Entries(es) => es.len() as int,
        _ => 0,
    }
}

/// A byte-for-byte copy of a byte string.
pub fn copy_bytes(b: &Vec<u8>) -> (r: Vec<u8>)
    ensures
        r@ == b@,
{
    let mut r: Vec<u8> = Vec::new();
    let mut i: usize = 0;
    while i < b.len()
        invariant
            i <= b.len(),
            r@ == b@.subrange(0, i as int),
        decreases b.len() - i,
    {
        r.push(b[i]);
        i += 1;
        assert(r@ =~= b@.subrange(0, i as int));
    }
    assert(r@ =~= b@);
    r
}

/// A copy of a key with the same model.
pub fn copy_key(k: &Key) -> (r: Key)
    ensures
        r@ == k@,
{
    match k {
        Key::Text(s) => Key::Text(s.clone()),
        Key::Bytes(b) => Key::Bytes(copy_bytes(b)),
        Key::Index(n) => Key::Index(*n),
    }
}

/// Decides whether two keys have the same model.
pub fn keys_equal(a: &Key, b: &Key) -> (r: bool)
    ensures
        r == (a@ == b@),
{
    match (a, b) {
        (Key::Text(x), Key::Text(y)) => *x == *y,
        (Key::Bytes(x), Key::Bytes(y)) => bytes_equal(x.as_slice(), y.as_slice()),
        (Key::Index(x), Key::Index(y)) => *x == *y,
        _ => false,
    }
}

/// Decides whether two byte strings are equal.
pub fn bytes_equal(a: &[u8], b: &[u8]) -> (r: bool)
    ensures
        r == (a@ == b@),
{
    if a.len() != b.len() {
        return false;
    }
    let mut i: usize = 0;
    while i < a.len()
        invariant
            i <= a.len(),
            a@.len() == b@.len(),
            forall|j: int| 0 <= j < i ==> a@[j] == b@[j],
        decreases a.len() - i,
    {
        if a[i] != b[i] {
            return false;
        }
        i += 1;
    }
    assert(a@ =~= b@);
    true
}

} // verus!
