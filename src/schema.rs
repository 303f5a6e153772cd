use vstd::prelude::*;
use vstd::utf8::encode_utf8;
use crate::doc::{Key, KeyModel, bytes_equal};
use crate::error::MergeError;

verus! {

/// How a field present in a document is applied to the existing value.
#[derive(Debug, Clone, Copy, PartialEq, Eq, Structural)]
pub enum Strategy {
    /// Discard the old value and deserialize a fresh one.
    Replace,
    /// Deserialize onto the existing value through the same protocol.
    MergeRecursive,
}

/// The declared type of a value, as far as merge deserialization reads it.
#[derive(Debug)]
pub enum Shape {
    Unit,
    Bool,
    Int,
    Text,
    Record(RecordSchema),
    /// An optional value.
    Optional(Box<Shape>),
    /// A fixed-size array of elements of one shape.
    Array(usize, Box<Shape>),
    /// A heterogeneous tuple: one shape per position.
    Tuple(Vec<Shape>),
    /// An associative map from keys to values of one shape.
    Dict(Box<Shape>),
}

/// Static metadata of one field of a record: its keys, its strategy, its
/// declared shape and the custom hooks it names. Its ordinal is its
/// position within the record schema.
#[derive(Debug)]
pub struct FieldDescriptor {
    pub name: String,
    pub aliases: Vec<String>,
    pub strategy: Strategy,
    pub shape: Shape,
    /// Hook that produces a fresh value in place of default deserialization.
    pub producer: Option<usize>,
    /// Hook that merges onto the existing value in place of the recursive
    /// protocol.
    pub merger: Option<usize>,
}

/// An ordered sequence of field descriptors for one record type.
#[derive(Debug)]
pub struct RecordSchema {
    pub fields: Vec<FieldDescriptor>,
}

/// What a presented key resolves to within a record schema.
#[derive(Debug, Clone, Copy, PartialEq, Eq, Structural)]
pub enum Resolution {
    /// The field with this ordinal.
    Field(usize),
    /// No field: the value is skipped.
    Unknown,
    /// A numeric identifier outside the range of ordinals.
    Invalid(u64),
}

/// Whether the field accepts the textual key `t`, as its name or an alias.
pub open spec fn has_text_key(f: FieldDescriptor, t: Seq<char>) -> bool {
    f.name@ == t || exists|a: int| 0 <= a < f.aliases@.len() && (#[trigger] f.aliases@[a])@ == t
}

/// Whether the field accepts the byte key `b`: the UTF-8 form of its name or
/// of an alias.
pub open spec fn has_byte_key(f: FieldDescriptor, b: Seq<u8>) -> bool {
    encode_utf8(f.name@) == b || exists|a: int|
        0 <= a < f.aliases@.len() && encode_utf8((#[trigger] f.aliases@[a])@) == b
}

pub open spec fn accepts(f: FieldDescriptor, k: KeyModel) -> bool {
    match k {
        KeyModel::Text(t) => has_text_key(f, t),
        KeyModel::Bytes(b) => has_byte_key(f, b),
        KeyModel::Index(_) => false,
    }
}

/// The first field, from ordinal `j` on, that accepts the key.
pub open spec fn first_accepting(fields: Seq<FieldDescriptor>, k: KeyModel, j: int) -> Option<int>
    decreases fields.len() - j,
{
    if j < 0 || j >= fields.len() {
        None
    } else if accepts(fields[j], k) {
        Some(j)
    } else {
        first_accepting(fields, k, j + 1)
    }
}

/// The first accepting field lies within the schema and accepts the key.
pub proof fn lemma_first_accepting(fields: Seq<FieldDescriptor>, k: KeyModel, j: int)
    ensures
        first_accepting(fields, k, j) matches Some(x) ==> j <= x < fields.len() && accepts(
            fields[x],
            k,
        ),
    decreases fields.len() - j,
{
    if 0 <= j < fields.len() && !accepts(fields[j], k) {
        lemma_first_accepting(fields, k, j + 1);
    }
}

/// What a key resolves to: a numeric key is an ordinal, a text or byte key
/// names the first field that accepts it.
pub open spec fn resolve_key(fields: Seq<FieldDescriptor>, k: KeyModel) -> Resolution {
    match k {
        KeyModel::Index(n) => if (n as int) < fields.len() {
            Resolution::Field(n as usize)
        } else {
            Resolution::Invalid(n)
        },
        _ => match first_accepting(fields, k, 0) {
            Some(j) => Resolution::Field(j as usize),
            None => Resolution::Unknown,
        },
    }
}

/// No key is accepted by two different fields.
pub open spec fn keys_distinct(fields: Seq<FieldDescriptor>) -> bool {
    &&& forall|i: int, j: int, t: Seq<char>|
        0 <= i < fields.len() && 0 <= j < fields.len() && i != j && #[trigger] has_text_key(
            fields[i],
            t,
        ) ==> !#[trigger] has_text_key(fields[j], t)
}

/// A field that merges recursively and overrides fresh construction must
/// also name the routine that merges onto an existing value.
pub open spec fn hooks_consistent(f: FieldDescriptor) -> bool {
    !(f.strategy == Strategy::MergeRecursive && f.producer.is_some() && f.merger.is_none())
}

pub open spec fn schema_valid(fields: Seq<FieldDescriptor>) -> bool {
    &&& keys_distinct(fields)
    &&& forall|i: int| 0 <= i < fields.len() ==> hooks_consistent(#[trigger] fields[i])
}

/// Decides whether the field accepts the textual key `t`.
fn accepts_text(f: &FieldDescriptor, t: &String) -> (r: bool)
    ensures
        r == has_text_key(*f, t@),
{
    if f.name == *t {
        return true;
    }
    let mut a: usize = 0;
    while a < f.aliases.len()
        invariant
            a <= f.aliases@.len(),
            f.name@ != t@,
            forall|b: int| 0 <= b < a ==> (#[trigger] f.aliases@[b])@ != t@,
        decreases f.aliases.len() - a,
    {
        if f.aliases[a] == *t {
            return true;
        }
        a += 1;
    }
    false
}

/// Decides whether the field accepts the byte key `b`.
fn accepts_bytes(f: &FieldDescriptor, b: &Vec<u8>) -> (r: bool)
    ensures
        r == has_byte_key(*f, b@),
{
    if bytes_equal(f.name.as_str().as_bytes(), b.as_slice()) {
        return true;
    }
    let mut a: usize = 0;
    while a < f.aliases.len()
        invariant
            a <= f.aliases@.len(),
            encode_utf8(f.name@) != b@,
            forall|c: int| 0 <= c < a ==> encode_utf8((#[trigger] f.aliases@[c])@) != b@,
        decreases f.aliases.len() - a,
    {
        if bytes_equal(f.aliases[a].as_str().as_bytes(), b.as_slice()) {
            return true;
        }
        a += 1;
    }
    false
}

impl RecordSchema {
    /// Builds a schema, rejecting a key shared by two fields and a field that
    /// merges recursively with a custom producer but no custom merger.
    pub fn new(fields: Vec<FieldDescriptor>) -> (r: Result<RecordSchema, MergeError>)
        ensures
            schema_valid(fields@) <==> r is Ok,
            r is Ok ==> r->Ok_0.fields@ == fields@,
            r is Err ==> exists|j: int|
                0 <= j < fields@.len() && r == Err::<RecordSchema, MergeError>(
                    MergeError::SchemaConfiguration(fields@[j].name),
                ),
    {
        let mut i: usize = 0;
        while i < fields.len()
            invariant
                i <= fields@.len(),
                forall|j: int| 0 <= j < i ==> hooks_consistent(#[trigger] fields@[j]),
                forall|j: int, k: int, t: Seq<char>|
                    0 <= j < i && 0 <= k < fields@.len() && j != k && #[trigger] has_text_key(
                        fields@[j],
                        t,
                    ) ==> !#[trigger] has_text_key(fields@[k], t),
            decreases fields.len() - i,
        {
            let f = &fields[i];
            if f.strategy == Strategy::MergeRecursive && f.producer.is_some()
                && f.merger.is_none() {
                return Err(MergeError::SchemaConfiguration(f.name.clone()));
            }
            let mut k: usize = 0;
            while k < fields.len()
                invariant
                    i < fields@.len(),
                    k <= fields@.len(),
                    forall|m: int, t: Seq<char>|
                        0 <= m < k && m != i && #[trigger] has_text_key(fields@[i as int], t)
                            ==> !#[trigger] has_text_key(fields@[m], t),
                decreases fields.len() - k,
            {
                if k != i && Self::shares_key(&fields[i], &fields[k]) {
                    return Err(MergeError::SchemaConfiguration(fields[i].name.clone()));
                }
                k += 1;
            }
            i += 1;
        }
        Ok(RecordSchema { fields })
    }

    /// Decides whether some key of `f` is also accepted by `g`.
    fn shares_key(f: &FieldDescriptor, g: &FieldDescriptor) -> (r: bool)
        ensures
            r == exists|t: Seq<char>| has_text_key(*f, t) && has_text_key(*g, t),
    {
        if accepts_text(g, &f.name) {
            return true;
        }
        let mut a: usize = 0;
        while a < f.aliases.len()
            invariant
                a <= f.aliases@.len(),
                !has_text_key(*g, f.name@),
                forall|c: int| 0 <= c < a ==> !has_text_key(*g, (#[trigger] f.aliases@[c])@),
            decreases f.aliases.len() - a,
        {
            if accepts_text(g, &f.aliases[a]) {
                return true;
            }
            a += 1;
        }
        assert forall|t: Seq<char>| has_text_key(*f, t) implies !has_text_key(*g, t) by {
            if f.name@ != t {
                let c = choose|c: int| 0 <= c < f.aliases@.len() && (#[trigger] f.aliases@[c])@ == t;
                assert(!has_text_key(*g, f.aliases@[c]@));
            }
        }
        false
    }

    /// Resolves a presented key to a field ordinal, to the unknown sentinel,
    /// or to an invalid numeric identifier.
    pub fn resolve(&self, key: &Key) -> (r: Resolution)
        ensures
            r == resolve_key(self.fields@, key@),
            r matches Resolution::Field(f) ==> f < self.fields@.len(),
    {
        proof {
            lemma_first_accepting(self.fields@, key@, 0);
        }
        match key {
            Key::Index(n) => {
                if (*n as u128) < (self.fields.len() as u128) {
                    Resolution::Field(*n as usize)
                } else {
                    Resolution::Invalid(*n)
                }
            },
            _ => {
                let mut j: usize = 0;
                while j < self.fields.len()
                    invariant
                        j <= self.fields@.len(),
                        key@ !is Index,
                        first_accepting(self.fields@, key@, 0) == first_accepting(
                            self.fields@,
                            key@,
                            j as int,
                        ),
                    decreases self.fields.len() - j,
                {
                    let hit = match key {
                        Key::Text(t) => accepts_text(&self.fields[j], t),
                        Key::Bytes(b) => accepts_bytes(&self.fields[j], b),
                        Key::Index(_) => false,
                    };
                    if hit {
                        return Resolution::Field(j);
                    }
                    j += 1;
                }
                Resolution::Unknown
            },
        }
    }

    /// The number of fields.
    pub fn len(&self) -> (r: usize)
        ensures
            r == self.fields@.len(),
    {
        self.fields.len()
    }
}

} // verus!
