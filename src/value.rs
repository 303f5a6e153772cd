use vstd::prelude::*;
use crate::doc::{Key, KeyModel, keys_equal};
use crate::schema::Shape;

verus! {

/// An existing, populated instance: the value that merge deserialization
/// updates in place.
#[derive(Debug, PartialEq, Eq)]
pub enum Value {
    Unit,
    Bool(bool),
    Int(i64),
    Text(String),
    /// The fields of a record, by ordinal.
    Record(Vec<Value>),
    Opt(Option<Box<Value>>),
    /// The elements of a fixed-size array or of a tuple.
    List(Vec<Value>),
    /// The entries of an associative map, each key once.
    Dict(Vec<(Key, Value)>),
}

/// The mathematical value of a [`Value`].
pub enum ValueModel {
    Unit,
    Bool(bool),
    Int(i64),
    Text(Seq<char>),
    Record(Seq<ValueModel>),
    Opt(Option<Box<ValueModel>>),
    List(Seq<ValueModel>),
    Dict(Seq<(KeyModel, ValueModel)>),
}

/// The model of a value.
pub open spec fn value_model(v: Value) -> ValueModel
    decreases v,
{
    match v {
        Value::Unit => ValueModel::Unit,
        Value::Bool(b) => ValueModel::Bool(b),
        Value::Int(n) => ValueModel::Int(n),
        Value::Text(s) => ValueModel::Text(s@),
        Value::Record(fs) => ValueModel::Record(models_of(fs@)),
        Value::Opt(o) => match o {
            Some(b) => ValueModel::Opt(Some(Box::new(value_model(*b)))),
            None => ValueModel::Opt(None),
        },
        Value::List(xs) => ValueModel::List(models_of(xs@)),
        Value::Dict(es) => ValueModel::Dict(entry_models_of(es@)),
    }
}

/// The models of a sequence of values, in order.
pub open spec fn models_of(s: Seq<Value>) -> Seq<ValueModel>
    decreases s,
{
    if s.len() == 0 {
        Seq::empty()
    } else {
        models_of(s.drop_last()).push(value_model(s.last()))
    }
}

/// The models of a sequence of map entries, in order.
pub open spec fn entry_models_of(s: Seq<(Key, Value)>) -> Seq<(KeyModel, ValueModel)>
    decreases s,
{
    if s.len() == 0 {
        Seq::empty()
    } else {
        entry_models_of(s.drop_last()).push((s.last().0@, value_model(s.last().1)))
    }
}

impl View for Value {
    type V = ValueModel;

    open spec fn view(&self) -> ValueModel {
        value_model(*self)
    }
}

/// `models_of` maps each value to its model.
pub broadcast proof fn lemma_models_of(s: Seq<Value>)
    ensures
        #[trigger] models_of(s).len() == s.len(),
        forall|j: int| 0 <= j < s.len() ==> #[trigger] models_of(s)[j] == s[j]@,
    decreases s.len(),
{
    if s.len() > 0 {
        lemma_models_of(s.drop_last());
    }
}

/// `entry_models_of` maps each entry to the models of its key and value.
pub broadcast proof fn lemma_entry_models_of(s: Seq<(Key, Value)>)
    ensures
        #[trigger] entry_models_of(s).len() == s.len(),
        forall|j: int|
            0 <= j < s.len() ==> #[trigger] entry_models_of(s)[j] == (s[j].0@, s[j].1@),
    decreases s.len(),
{
    if s.len() > 0 {
        lemma_entry_models_of(s.drop_last());
    }
}

/// No key occurs twice among the entries.
pub open spec fn keys_unique(es: Seq<(KeyModel, ValueModel)>) -> bool {
    forall|i: int, j: int| 0 <= i < es.len() && 0 <= j < es.len() && i != j ==> es[i].0 != es[j].0
}

/// Whether a value has the form that the shape declares.
pub open spec fn conforms(shape: Shape, v: ValueModel) -> bool
    decreases shape,
{
    match shape {
        Shape::Unit => v is Unit,
        Shape::Bool => v is Bool,
        Shape::Int => v is Int,
        Shape::Text => v is Text,
        Shape::Record(schema) => match v {
            ValueModel::Record(fs) => fs.len() == schema.fields@.len() && forall|j: int|
                0 <= j < fs.len() ==> conforms(schema.fields@[j].shape, #[trigger] fs[j]),
            _ => false,
        },
        Shape::Optional(inner) => match v {
            ValueModel::Opt(Some(x)) => conforms(*inner, *x),
            ValueModel::Opt(None) => true,
            _ => false,
        },
        Shape::Array(n, elem) => match v {
            ValueModel::List(xs) => xs.len() == n && forall|j: int|
                0 <= j < xs.len() ==> conforms(*elem, #[trigger] xs[j]),
            _ => false,
        },
        Shape::Tuple(shapes) => match v {
            ValueModel::List(xs) => xs.len() == shapes@.len() && forall|j: int|
                0 <= j < xs.len() ==> conforms(shapes@[j], #[trigger] xs[j]),
            _ => false,
        },
        Shape::Dict(vs) => match v {
            ValueModel::Dict(es) => keys_unique(es) && forall|j: int|
                0 <= j < es.len() ==> conforms(*vs, #[trigger] es[j].1),
            _ => false,
        },
    }
}

/// The default value of a shape: false, zero, the empty text, no value, an
/// empty map, and the defaults of every field or element.
pub open spec fn default_model(shape: Shape) -> ValueModel
    decreases shape,
{
    match shape {
        Shape::Unit => ValueModel::Unit,
        Shape::Bool => ValueModel::Bool(false),
        Shape::Int => ValueModel::Int(0),
        Shape::Text => ValueModel::Text(Seq::empty()),
        Shape::Record(schema) => ValueModel::Record(
            Seq::new(
                schema.fields@.len(),
                |j: int|
                    if 0 <= j < schema.fields@.len() {
                        default_model(schema.fields@[j].shape)
                    } else {
                        ValueModel::Unit
                    },
            ),
        ),
        Shape::Optional(_) => ValueModel::Opt(None),
        Shape::Array(n, elem) => ValueModel::List(Seq::new(n as nat, |j: int| default_model(*elem))),
        Shape::Tuple(shapes) => ValueModel::List(
            Seq::new(
                shapes@.len(),
                |j: int|
                    if 0 <= j < shapes@.len() {
                        default_model(shapes@[j])
                    } else {
                        ValueModel::Unit
                    },
            ),
        ),
        Shape::Dict(_) => ValueModel::Dict(Seq::empty()),
    }
}

/// The default value of every shape conforms to it.
pub proof fn lemma_default_conforms(shape: Shape)
    ensures
        conforms(shape, default_model(shape)),
    decreases shape,
{
    match shape {
        Shape::Record(schema) => {
            assert forall|j: int| 0 <= j < schema.fields@.len() implies conforms(
                schema.fields@[j].shape,
                #[trigger] default_model(shape)->Record_0[j],
            ) by {
                lemma_default_conforms(schema.fields@[j].shape);
            }
        },
        Shape::Array(n, elem) => {
            lemma_default_conforms(*elem);
        },
        Shape::Tuple(shapes) => {
            assert forall|j: int| 0 <= j < shapes@.len() implies conforms(
                shapes@[j],
                #[trigger] default_model(shape)->List_0[j],
            ) by {
                lemma_default_conforms(shapes@[j]);
            }
        },
        _ => {},
    }
}

impl Value {
    /// The default value of a shape.
    pub fn default_for(shape: &Shape) -> (r: Value)
        ensures
            r@ == default_model(*shape),
        decreases shape,
    {
        broadcast use {lemma_models_of, lemma_entry_models_of};

        match shape {
            Shape::Unit => {
                let r = Value::Unit;
                assert(default_model(*shape) == ValueModel::Unit);
                assert(r@ == ValueModel::Unit);
                r
            },
            Shape::Bool => Value::Bool(false),
            Shape::Int => Value::Int(0),
            Shape::Text => Value::Text(String::new()),
            Shape::Record(schema) => {
                let mut fs: Vec<Value> = Vec::new();
                let mut j: usize = 0;
                while j < schema.fields.len()
                    invariant
                        *shape == Shape::Record(*schema),
                        j <= schema.fields@.len(),
                        fs@.len() == j,
                        forall|m: int|
                            0 <= m < j ==> (#[trigger] fs@[m])@ == default_model(
                                schema.fields@[m].shape,
                            ),
                    decreases schema.fields.len() - j,
                {
                    proof {
                        assert(decreases_to!(*shape => shape->Record_0));
                    }
                    fs.push(Value::default_for(&schema.fields[j].shape));
                    j += 1;
                }
                let ghost g = fs;
                let r = Value::Record(fs);
                assert(value_model(r) == ValueModel::Record(models_of(g@)));
                assert(r@->Record_0 =~= default_model(*shape)->Record_0);
                r
            },
            Shape::Optional(_) => Value::Opt(None),
            Shape::Array(n, elem) => {
                let mut xs: Vec<Value> = Vec::new();
                let mut j: usize = 0;
                while j < *n
                    invariant
                        *shape == Shape::Array(*n, *elem),
                        j <= *n,
                        xs@.len() == j,
                        forall|m: int| 0 <= m < j ==> (#[trigger] xs@[m])@ == default_model(**elem),
                    decreases *n - j,
                {
                    proof {
                        assert(decreases_to!(*shape => shape->Array_1));
                    }
                    xs.push(Value::default_for(elem));
                    j += 1;
                }
                let ghost g = xs;
                let r = Value::List(xs);
                assert(value_model(r) == ValueModel::List(models_of(g@)));
                assert(r@->List_0 =~= default_model(*shape)->List_0);
                r
            },
            Shape::Tuple(shapes) => {
                let mut xs: Vec<Value> = Vec::new();
                let mut j: usize = 0;
                while j < shapes.len()
                    invariant
                        *shape == Shape::Tuple(*shapes),
                        j <= shapes@.len(),
                        xs@.len() == j,
                        forall|m: int|
                            0 <= m < j ==> (#[trigger] xs@[m])@ == default_model(shapes@[m]),
                    decreases shapes.len() - j,
                {
                    proof {
                        assert(decreases_to!(*shape => shape->Tuple_0));
                    }
                    xs.push(Value::default_for(&shapes[j]));
                    j += 1;
                }
                let ghost g = xs;
                let r = Value::List(xs);
                assert(value_model(r) == ValueModel::List(models_of(g@)));
                assert(r@->List_0 =~= default_model(*shape)->List_0);
                r
            },
            Shape::Dict(_) => {
                let r = Value::Dict(Vec::new());
                assert(value_model(r) == ValueModel::Dict(entry_models_of(Seq::empty())));
                assert(r@->Dict_0 =~= Seq::empty());
                r
            },
        }
    }
}

/// Decides whether no key occurs twice among the entries.
fn entry_keys_unique(es: &Vec<(Key, Value)>) -> (r: bool)
    ensures
        r == keys_unique(entry_models_of(es@)),
{
    broadcast use {lemma_models_of, lemma_entry_models_of};

    let ghost m = entry_models_of(es@);
    let mut i: usize = 0;
    while i < es.len()
        invariant
            i <= es@.len(),
            m == entry_models_of(es@),
            m.len() == es@.len(),
            forall|a: int, b: int| 0 <= a < i && 0 <= b < m.len() && a != b ==> m[a].0 != m[b].0,
        decreases es.len() - i,
    {
        let mut j: usize = 0;
        while j < es.len()
            invariant
                i < es@.len(),
                j <= es@.len(),
                m == entry_models_of(es@),
                m.len() == es@.len(),
                forall|b: int| 0 <= b < j && b != i ==> m[i as int].0 != m[b].0,
            decreases es.len() - j,
        {
            proof {
                lemma_entry_models_of(es@);
            }
            assert(m[i as int].0 == es@[i as int].0@ && m[j as int].0 == es@[j as int].0@);
            if j != i && keys_equal(&es[i].0, &es[j].0) {
                return false;
            }
            j += 1;
        }
        i += 1;
    }
    true
}

impl Value {
    /// Decides whether this value has the form that the shape declares.
    pub fn conforms_to(&self, shape: &Shape) -> (r: bool)
        ensures
            r == conforms(*shape, self@),
        decreases shape,
    {
        broadcast use {lemma_models_of, lemma_entry_models_of};

        match shape {
            Shape::Unit => matches!(self, Value::Unit),
            Shape::Bool => matches!(self, Value::Bool(_)),
            Shape::Int => matches!(self, Value::Int(_)),
            Shape::Text => matches!(self, Value::Text(_)),
            Shape::Record(schema) => match self {
                Value::Record(fs) => {
                    proof {
                        assert(value_model(*self) == ValueModel::Record(models_of(fs@)));
                    }
                    if fs.len() != schema.fields.len() {
                        return false;
                    }
                    let mut j: usize = 0;
                    while j < fs.len()
                        invariant
                            *shape == Shape::Record(*schema),
                            *self == Value::Record(*fs),
                            self@ == ValueModel::Record(models_of(fs@)),
                            fs@.len() == schema.fields@.len(),
                            j <= fs@.len(),
                            forall|m: int|
                                0 <= m < j ==> conforms(schema.fields@[m].shape, #[trigger] fs@[m]@),
                        decreases fs.len() - j,
                    {
                        proof {
                            assert(decreases_to!(*shape => shape->Record_0));
                        }
                        if !fs[j].conforms_to(&schema.fields[j].shape) {
                            proof {
                                lemma_models_of(fs@);
                            }
                            assert(self@->Record_0[j as int] == fs@[j as int]@);
                            return false;
                        }
                        j += 1;
                    }
                    true
                },
                _ => false,
            },
            Shape::Optional(inner) => match self {
                Value::Opt(Some(b)) => b.conforms_to(inner),
                Value::Opt(None) => true,
                _ => false,
            },
            Shape::Array(n, elem) => match self {
                Value::List(xs) => {
                    proof {
                        assert(value_model(*self) == ValueModel::List(models_of(xs@)));
                    }
                    if xs.len() != *n {
                        return false;
                    }
                    let mut j: usize = 0;
                    while j < xs.len()
                        invariant
                            *shape == Shape::Array(*n, *elem),
                            self@ == ValueModel::List(models_of(xs@)),
                            j <= xs@.len(),
                            forall|m: int| 0 <= m < j ==> conforms(**elem, #[trigger] xs@[m]@),
                        decreases xs.len() - j,
                    {
                        proof {
                            assert(decreases_to!(*shape => shape->Array_1));
                        }
                        if !xs[j].conforms_to(elem) {
                            proof {
                                lemma_models_of(xs@);
                            }
                            assert(self@->List_0[j as int] == xs@[j as int]@);
                            return false;
                        }
                        j += 1;
                    }
                    true
                },
                _ => false,
            },
            Shape::Tuple(shapes) => match self {
                Value::List(xs) => {
                    proof {
                        assert(value_model(*self) == ValueModel::List(models_of(xs@)));
                    }
                    if xs.len() != shapes.len() {
                        return false;
                    }
                    let mut j: usize = 0;
                    while j < xs.len()
                        invariant
                            *shape == Shape::Tuple(*shapes),
                            self@ == ValueModel::List(models_of(xs@)),
                            xs@.len() == shapes@.len(),
                            j <= xs@.len(),
                            forall|m: int| 0 <= m < j ==> conforms(shapes@[m], #[trigger] xs@[m]@),
                        decreases xs.len() - j,
                    {
                        proof {
                            assert(decreases_to!(*shape => shape->Tuple_0));
                        }
                        if !xs[j].conforms_to(&shapes[j]) {
                            proof {
                                lemma_models_of(xs@);
                            }
                            assert(self@->List_0[j as int] == xs@[j as int]@);
                            return false;
                        }
                        j += 1;
                    }
                    true
                },
                _ => false,
            },
            Shape::Dict(vs) => match self {
                Value::Dict(es) => {
                    proof {
                        assert(value_model(*self) == ValueModel::Dict(entry_models_of(es@)));
                    }
                    if !entry_keys_unique(es) {
                        return false;
                    }
                    let mut j: usize = 0;
                    while j < es.len()
                        invariant
                            *shape == Shape::Dict(*vs),
                            self@ == ValueModel::Dict(entry_models_of(es@)),
                            keys_unique(entry_models_of(es@)),
                            j <= es@.len(),
                            forall|m: int| 0 <= m < j ==> conforms(**vs, #[trigger] es@[m].1@),
                        decreases es.len() - j,
                    {
                        proof {
                            assert(decreases_to!(*shape => shape->Dict_0));
                        }
                        if !es[j].1.conforms_to(vs) {
                            proof {
                                lemma_entry_models_of(es@);
                            }
                            assert(self@->Dict_0[j as int].1 == es@[j as int].1@);
                            return false;
                        }
                        j += 1;
                    }
                    true
                },
                _ => false,
            },
        }
    }
}

} // verus!
