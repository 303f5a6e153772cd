use deserialize_over::{
    fresh_value, DeserializeOverWrapper, DeserializeWrapper, Doc, FieldDescriptor, FieldHooks,
    Key, MergeError, NoHooks, RecordSchema, Resolution, Shape, Strategy, Value,
};

fn doc_of(v: &serde_json::Value) -> Doc {
    match v {
        serde_json::Value::Null => Doc::Null,
        serde_json::Value::Bool(b) => Doc::Bool(*b),
        serde_json::Value::Number(n) => match n.as_i64() {
            Some(i) => Doc::Int(i),
            None => Doc::Int(n.as_f64().expect("a number") as i64),
        },
        serde_json::Value::String(s) => Doc::Text(s.clone()),
        serde_json::Value::Array(items) => Doc::List(items.iter().map(doc_of).collect()),
        serde_json::Value::Object(entries) => Doc::Entries(
            entries
                .iter()
                .map(|(k, v)| (Key::Text(k.clone()), doc_of(v)))
                .collect(),
        ),
    }
}

fn json(text: &str) -> Doc {
    doc_of(&serde_json::from_str(text).expect("valid JSON"))
}

fn field(name: &str, shape: Shape, strategy: Strategy) -> FieldDescriptor {
    FieldDescriptor {
        name: name.to_owned(),
        aliases: Vec::new(),
        strategy,
        shape,
        producer: None,
        merger: None,
    }
}

fn record(fields: Vec<FieldDescriptor>) -> Shape {
    Shape::Record(RecordSchema::new(fields).expect("a valid schema"))
}

fn text(s: &str) -> Value {
    Value::Text(s.to_owned())
}

fn entry(key: &str, doc: Doc) -> (Key, Doc) {
    (Key::Text(key.to_owned()), doc)
}

/// `a: String, b: i32`
fn example_schema() -> Shape {
    record(vec![
        field("a", Shape::Text, Strategy::Replace),
        field("b", Shape::Int, Strategy::Replace),
    ])
}

/// `Inner { a: i32, b: i32 }`
fn inner_int_schema() -> Shape {
    record(vec![
        field("a", Shape::Int, Strategy::Replace),
        field("b", Shape::Int, Strategy::Replace),
    ])
}

/// `Outer { inner: Inner, c: i32 }` with `inner` merged with the given strategy.
fn outer_schema(strategy: Strategy) -> Shape {
    record(vec![
        field("inner", inner_int_schema(), strategy),
        field("c", Shape::Int, Strategy::Replace),
    ])
}

fn outer(a: i64, b: i64, c: i64) -> Value {
    Value::Record(vec![Value::Record(vec![Value::Int(a), Value::Int(b)]), Value::Int(c)])
}

#[test]
fn derive_generic_works() {
    let shape = example_schema();
    let mut instance = Value::Record(vec![text("a string"), Value::Int(64)]);
    instance
        .deserialize_over(&shape, &NoHooks, &json(r#"{ "a": "test" }"#))
        .expect("Failed to deserialize");
    assert_eq!(instance, Value::Record(vec![text("test"), Value::Int(64)]));
}

#[test]
fn derive_multi_works() {
    let a = record(vec![field("b", Shape::Text, Strategy::Replace)]);
    let shape = record(vec![field("test", a, Strategy::MergeRecursive)]);
    let mut instance = Value::default_for(&shape);
    instance
        .deserialize_over(&shape, &NoHooks, &json(r#"{ "test": { "b": "AAAAA" } }"#))
        .expect("Failed to deserialize");
    assert_eq!(instance, Value::Record(vec![Value::Record(vec![text("AAAAA")])]));
}

#[test]
fn derive_rename_works() {
    let shape = record(vec![
        field("type", Shape::Text, Strategy::Replace),
        field("b", Shape::Int, Strategy::Replace),
    ]);
    let mut instance = Value::Record(vec![text("a string"), Value::Int(64)]);
    instance
        .deserialize_over(&shape, &NoHooks, &json(r#"{ "type": "test" }"#))
        .expect("Failed to deserialize");
    assert_eq!(instance, Value::Record(vec![text("test"), Value::Int(64)]));
}

/// A duration held as milliseconds, read from a number of seconds.
struct Seconds;

impl FieldHooks for Seconds {
    fn produce(&self, id: usize, _shape: &Shape, doc: &Doc) -> Result<Value, MergeError> {
        match (id, doc) {
            (0, Doc::Int(secs)) => Ok(Value::Int(secs * 1000)),
            (0, _) => Err(MergeError::InvalidType),
            _ => Err(MergeError::UnknownHook(id)),
        }
    }

    fn merge(&self, id: usize, _shape: &Shape, _target: &mut Value, _doc: &Doc) -> Result<(), MergeError> {
        Err(MergeError::UnknownHook(id))
    }
}

#[test]
fn derive_with_works() {
    let mut duration = field("duration", Shape::Int, Strategy::Replace);
    duration.producer = Some(0);
    let shape = record(vec![duration]);
    let mut instance = Value::Record(vec![Value::Int(0)]);
    instance
        .deserialize_over(&shape, &Seconds, &json(r#"{ "duration": 50.0 }"#))
        .expect("Failed to deserialize");
    assert_eq!(instance, Value::Record(vec![Value::Int(50_000)]));
}

/// Builds an `Inner` from its defaults, or sets `b` to "bar" before merging.
struct CustomInner;

impl FieldHooks for CustomInner {
    fn produce(&self, id: usize, shape: &Shape, doc: &Doc) -> Result<Value, MergeError> {
        if id != 0 {
            return Err(MergeError::UnknownHook(id));
        }
        let mut inner = Value::default_for(shape);
        inner.deserialize_over(shape, &NoHooks, doc)?;
        Ok(inner)
    }

    fn merge(&self, id: usize, shape: &Shape, target: &mut Value, doc: &Doc) -> Result<(), MergeError> {
        if id != 1 {
            return Err(MergeError::UnknownHook(id));
        }
        if let Value::Record(fields) = target {
            fields[1] = text("bar");
        }
        target.deserialize_over(shape, &NoHooks, doc)
    }
}

#[test]
fn derive_with_merge_works() {
    let inner_shape = record(vec![
        field("a", Shape::Text, Strategy::Replace),
        field("b", Shape::Text, Strategy::Replace),
    ]);
    let mut inner = field("inner", inner_shape, Strategy::MergeRecursive);
    inner.producer = Some(0);
    inner.merger = Some(1);
    let shape = record(vec![inner]);
    let mut instance = Value::Record(vec![Value::Record(vec![text("blah"), text("foo")])]);
    instance
        .deserialize_over(&shape, &CustomInner, &json(r#"{ "inner": { "a": "test" } }"#))
        .expect("Failed to deserialize");
    assert_eq!(instance, Value::Record(vec![Value::Record(vec![text("test"), text("bar")])]));
}

#[test]
fn recursive_merge_is_structural() {
    let shape = outer_schema(Strategy::MergeRecursive);
    let mut instance = outer(1, 2, 3);
    instance
        .deserialize_over(&shape, &NoHooks, &json(r#"{"inner": {"b": 5}}"#))
        .expect("merge");
    assert_eq!(instance, outer(1, 5, 3));
}

#[test]
fn replace_overwrites_whole_field() {
    let shape = outer_schema(Strategy::Replace);
    let mut instance = outer(1, 2, 3);
    instance
        .deserialize_over(&shape, &NoHooks, &json(r#"{"inner": {"b": 5}}"#))
        .expect("merge");
    assert_eq!(instance, outer(0, 5, 3));
}

#[test]
fn absent_fields_keep_their_values() {
    let shape = outer_schema(Strategy::MergeRecursive);
    let mut instance = outer(1, 2, 3);
    instance.deserialize_over(&shape, &NoHooks, &json(r#"{"c": 9}"#)).expect("merge");
    assert_eq!(instance, outer(1, 2, 9));
    instance.deserialize_over(&shape, &NoHooks, &json("{}")).expect("merge");
    assert_eq!(instance, outer(1, 2, 9));
}

#[test]
fn merging_twice_equals_merging_once() {
    let shape = outer_schema(Strategy::MergeRecursive);
    let doc = json(r#"{"inner": {"a": 7}, "c": 4}"#);
    let mut once = outer(1, 2, 3);
    once.deserialize_over(&shape, &NoHooks, &doc).expect("merge");
    let mut twice = outer(1, 2, 3);
    twice.deserialize_over(&shape, &NoHooks, &doc).expect("merge");
    twice.deserialize_over(&shape, &NoHooks, &doc).expect("merge");
    assert_eq!(once, outer(7, 2, 4));
    assert_eq!(twice, once);
}

#[test]
fn duplicate_key_fails_and_stops() {
    let shape = example_schema();
    let mut instance = Value::Record(vec![text("y"), Value::Int(2)]);
    let doc = Doc::Entries(vec![
        entry("a", Doc::Text("first".to_owned())),
        entry("a", Doc::Text("second".to_owned())),
        entry("b", Doc::Int(9)),
    ]);
    let r = instance.deserialize_over(&shape, &NoHooks, &doc);
    assert_eq!(r, Err(MergeError::DuplicateField("a".to_owned())));
    assert_eq!(instance, Value::Record(vec![text("first"), Value::Int(2)]));
}

#[test]
fn duplicate_through_alias_fails() {
    let mut a = field("a", Shape::Text, Strategy::Replace);
    a.aliases = vec!["alpha".to_owned()];
    let shape = record(vec![a, field("b", Shape::Int, Strategy::Replace)]);
    let mut instance = Value::Record(vec![text("y"), Value::Int(2)]);
    let doc = Doc::Entries(vec![
        entry("alpha", Doc::Text("x".to_owned())),
        entry("a", Doc::Text("z".to_owned())),
    ]);
    let r = instance.deserialize_over(&shape, &NoHooks, &doc);
    assert_eq!(r, Err(MergeError::DuplicateField("a".to_owned())));
    assert_eq!(instance, Value::Record(vec![text("x"), Value::Int(2)]));
}

#[test]
fn unknown_key_tolerated() {
    let shape = example_schema();
    let mut instance = Value::Record(vec![text("y"), Value::Int(2)]);
    instance
        .deserialize_over(&shape, &NoHooks, &json(r#"{"ghost": 1, "a": "x"}"#))
        .expect("merge");
    assert_eq!(instance, Value::Record(vec![text("x"), Value::Int(2)]));
}

/// `{ opt: Option<{x: int, y: int}> }`, merged recursively.
fn optional_schema() -> Shape {
    let point = record(vec![
        field("x", Shape::Int, Strategy::Replace),
        field("y", Shape::Int, Strategy::Replace),
    ]);
    record(vec![field("opt", Shape::Optional(Box::new(point)), Strategy::MergeRecursive)])
}

#[test]
fn optional_null_leaves_value() {
    let shape = record(vec![field(
        "opt",
        Shape::Optional(Box::new(Shape::Int)),
        Strategy::MergeRecursive,
    )]);
    let mut instance = Value::Record(vec![Value::Opt(Some(Box::new(Value::Int(7))))]);
    instance.deserialize_over(&shape, &NoHooks, &json(r#"{"opt": null}"#)).expect("merge");
    assert_eq!(instance, Value::Record(vec![Value::Opt(Some(Box::new(Value::Int(7))))]));
}

#[test]
fn optional_none_adopts_fresh_value() {
    let shape = optional_schema();
    let mut instance = Value::Record(vec![Value::Opt(None)]);
    instance.deserialize_over(&shape, &NoHooks, &json(r#"{"opt": {"x": 1}}"#)).expect("merge");
    let point = Value::Record(vec![Value::Int(1), Value::Int(0)]);
    assert_eq!(instance, Value::Record(vec![Value::Opt(Some(Box::new(point)))]));
}

#[test]
fn optional_some_is_merged_onto() {
    let shape = optional_schema();
    let point = Value::Record(vec![Value::Int(3), Value::Int(4)]);
    let mut instance = Value::Record(vec![Value::Opt(Some(Box::new(point)))]);
    instance.deserialize_over(&shape, &NoHooks, &json(r#"{"opt": {"x": 1}}"#)).expect("merge");
    let merged = Value::Record(vec![Value::Int(1), Value::Int(4)]);
    assert_eq!(instance, Value::Record(vec![Value::Opt(Some(Box::new(merged)))]));
}

#[test]
fn positional_partial_update() {
    let shape = example_schema();
    let mut instance = Value::Record(vec![text("y"), Value::Int(2)]);
    instance.deserialize_over(&shape, &NoHooks, &json(r#"["X"]"#)).expect("merge");
    assert_eq!(instance, Value::Record(vec![text("X"), Value::Int(2)]));
}

#[test]
fn positional_extra_elements_ignored() {
    let shape = example_schema();
    let mut instance = Value::Record(vec![text("y"), Value::Int(2)]);
    instance.deserialize_over(&shape, &NoHooks, &json(r#"["X", 5, true]"#)).expect("merge");
    assert_eq!(instance, Value::Record(vec![text("X"), Value::Int(5)]));
}

#[test]
fn wrong_type_is_rejected() {
    let shape = example_schema();
    let mut instance = Value::Record(vec![text("y"), Value::Int(2)]);
    let r = instance.deserialize_over(&shape, &NoHooks, &json(r#"{"a": "x", "b": "two"}"#));
    assert_eq!(r, Err(MergeError::InvalidType));
    assert_eq!(instance, Value::Record(vec![text("x"), Value::Int(2)]));
    let r = instance.deserialize_over(&shape, &NoHooks, &Doc::Int(3));
    assert_eq!(r, Err(MergeError::InvalidType));
}

#[test]
fn numeric_keys_are_ordinals() {
    let shape = example_schema();
    let mut instance = Value::Record(vec![text("y"), Value::Int(2)]);
    let doc = Doc::Entries(vec![(Key::Index(1), Doc::Int(8))]);
    instance.deserialize_over(&shape, &NoHooks, &doc).expect("merge");
    assert_eq!(instance, Value::Record(vec![text("y"), Value::Int(8)]));
    let doc = Doc::Entries(vec![(Key::Index(2), Doc::Int(8))]);
    let r = instance.deserialize_over(&shape, &NoHooks, &doc);
    assert_eq!(r, Err(MergeError::InvalidKeyIdentifier(2)));
}

#[test]
fn byte_keys_and_aliases_resolve() {
    let mut b = field("b", Shape::Int, Strategy::Replace);
    b.aliases = vec!["beta".to_owned()];
    let schema = RecordSchema::new(vec![field("a", Shape::Text, Strategy::Replace), b]).expect("valid");
    assert_eq!(schema.resolve(&Key::Bytes(b"a".to_vec())), Resolution::Field(0));
    assert_eq!(schema.resolve(&Key::Bytes(b"beta".to_vec())), Resolution::Field(1));
    assert_eq!(schema.resolve(&Key::Text("beta".to_owned())), Resolution::Field(1));
    assert_eq!(schema.resolve(&Key::Text("gamma".to_owned())), Resolution::Unknown);
    assert_eq!(schema.resolve(&Key::Index(1)), Resolution::Field(1));
    assert_eq!(schema.resolve(&Key::Index(7)), Resolution::Invalid(7));
    assert_eq!(schema.len(), 2);
}

#[test]
fn schema_rejects_shared_key() {
    let mut b = field("b", Shape::Int, Strategy::Replace);
    b.aliases = vec!["a".to_owned()];
    let r = RecordSchema::new(vec![field("a", Shape::Text, Strategy::Replace), b]);
    assert!(matches!(r, Err(MergeError::SchemaConfiguration(_))));
}

#[test]
fn schema_rejects_producer_without_merger() {
    let mut f = field("f", Shape::Int, Strategy::MergeRecursive);
    f.producer = Some(0);
    let r = RecordSchema::new(vec![f]);
    assert_eq!(r.map(|_| ()), Err(MergeError::SchemaConfiguration("f".to_owned())));
    let mut g = field("g", Shape::Int, Strategy::MergeRecursive);
    g.producer = Some(0);
    g.merger = Some(1);
    assert!(RecordSchema::new(vec![g]).is_ok());
}

#[test]
fn missing_hook_is_reported() {
    let mut f = field("f", Shape::Int, Strategy::Replace);
    f.producer = Some(3);
    let shape = record(vec![f]);
    let mut instance = Value::Record(vec![Value::Int(1)]);
    let r = instance.deserialize_over(&shape, &NoHooks, &json(r#"{"f": 2}"#));
    assert_eq!(r, Err(MergeError::UnknownHook(3)));
    assert_eq!(instance, Value::Record(vec![Value::Int(1)]));
}

#[test]
fn array_merges_element_wise() {
    let shape = Shape::Array(3, Box::new(Shape::Int));
    let mut instance = Value::List(vec![Value::Int(1), Value::Int(2), Value::Int(3)]);
    instance.deserialize_over(&shape, &NoHooks, &json("[7]")).expect("merge");
    assert_eq!(instance, Value::List(vec![Value::Int(7), Value::Int(2), Value::Int(3)]));
    instance.deserialize_over(&shape, &NoHooks, &json("[4, 5, 6, 7]")).expect("merge");
    assert_eq!(instance, Value::List(vec![Value::Int(4), Value::Int(5), Value::Int(6)]));
}

#[test]
fn tuple_merges_by_position() {
    let shape = Shape::Tuple(vec![Shape::Text, Shape::Bool]);
    let mut instance = Value::List(vec![text("s"), Value::Bool(false)]);
    instance.deserialize_over(&shape, &NoHooks, &json(r#"["t", true]"#)).expect("merge");
    assert_eq!(instance, Value::List(vec![text("t"), Value::Bool(true)]));
    let r = instance.deserialize_over(&shape, &NoHooks, &json(r#"[true]"#));
    assert_eq!(r, Err(MergeError::InvalidType));
}

#[test]
fn map_merges_present_and_inserts_new_keys() {
    let shape = Shape::Dict(Box::new(inner_int_schema()));
    let mut instance = Value::Dict(vec![
        (Key::Text("p".to_owned()), Value::Record(vec![Value::Int(1), Value::Int(2)])),
        (Key::Text("q".to_owned()), Value::Record(vec![Value::Int(3), Value::Int(4)])),
    ]);
    instance
        .deserialize_over(&shape, &NoHooks, &json(r#"{"p": {"b": 9}, "r": {"a": 5}}"#))
        .expect("merge");
    assert_eq!(
        instance,
        Value::Dict(vec![
            (Key::Text("p".to_owned()), Value::Record(vec![Value::Int(1), Value::Int(9)])),
            (Key::Text("q".to_owned()), Value::Record(vec![Value::Int(3), Value::Int(4)])),
            (Key::Text("r".to_owned()), Value::Record(vec![Value::Int(5), Value::Int(0)])),
        ])
    );
}

#[test]
fn defaults_and_conformance() {
    let shape = record(vec![
        field("u", Shape::Unit, Strategy::Replace),
        field("t", Shape::Tuple(vec![Shape::Bool, Shape::Text]), Strategy::Replace),
        field("arr", Shape::Array(2, Box::new(Shape::Int)), Strategy::Replace),
        field("m", Shape::Dict(Box::new(Shape::Int)), Strategy::Replace),
    ]);
    let v = Value::default_for(&shape);
    assert_eq!(
        v,
        Value::Record(vec![
            Value::Unit,
            Value::List(vec![Value::Bool(false), text("")]),
            Value::List(vec![Value::Int(0), Value::Int(0)]),
            Value::Dict(Vec::new()),
        ])
    );
    assert!(v.conforms_to(&shape));
    assert!(!Value::Int(1).conforms_to(&shape));
    let dup = Value::Dict(vec![(Key::Index(1), Value::Int(1)), (Key::Index(1), Value::Int(2))]);
    assert!(!dup.conforms_to(&Shape::Dict(Box::new(Shape::Int))));
}

#[test]
fn wrappers_merge_and_replace() {
    let shape = inner_int_schema();
    let mut v = Value::Record(vec![Value::Int(1), Value::Int(2)]);
    DeserializeOverWrapper(&mut v)
        .deserialize(&NoHooks, &shape, &json(r#"{"b": 5}"#))
        .expect("merge");
    assert_eq!(v, Value::Record(vec![Value::Int(1), Value::Int(5)]));
    DeserializeWrapper(&mut v)
        .deserialize(&NoHooks, &shape, &json(r#"{"b": 6}"#))
        .expect("replace");
    assert_eq!(v, Value::Record(vec![Value::Int(0), Value::Int(6)]));
    let r = DeserializeWrapper(&mut v).deserialize(&NoHooks, &shape, &Doc::Null);
    assert_eq!(r, Err(MergeError::InvalidType));
    assert_eq!(v, Value::Record(vec![Value::Int(0), Value::Int(6)]));
}

#[test]
fn deserialize_into_mirrors_deserialize_over() {
    let shape = example_schema();
    let mut instance = Value::Record(vec![text("y"), Value::Int(2)]);
    json(r#"{"b": 3}"#)
        .deserialize_into(&mut instance, &shape, &NoHooks)
        .expect("merge");
    assert_eq!(instance, Value::Record(vec![text("y"), Value::Int(3)]));
    let fresh = fresh_value(&NoHooks, &shape, &json(r#"{"a": "z"}"#)).expect("fresh");
    assert_eq!(fresh, Value::Record(vec![text("z"), Value::Int(0)]));
}

/// A producer that reports its own failure.
struct Failing;

impl FieldHooks for Failing {
    fn produce(&self, _id: usize, _shape: &Shape, _doc: &Doc) -> Result<Value, MergeError> {
        Err(MergeError::Custom("no value today".to_owned()))
    }

    fn merge(&self, id: usize, _shape: &Shape, _target: &mut Value, _doc: &Doc) -> Result<(), MergeError> {
        Err(MergeError::UnknownHook(id))
    }
}

#[test]
fn hook_failure_is_propagated() {
    let mut f = field("f", Shape::Int, Strategy::Replace);
    f.producer = Some(0);
    let shape = record(vec![field("g", Shape::Int, Strategy::Replace), f]);
    let mut instance = Value::Record(vec![Value::Int(1), Value::Int(2)]);
    let doc = Doc::Entries(vec![entry("g", Doc::Int(5)), entry("f", Doc::Int(3))]);
    let r = instance.deserialize_over(&shape, &Failing, &doc);
    assert_eq!(r, Err(MergeError::Custom("no value today".to_owned())));
    assert_eq!(instance, Value::Record(vec![Value::Int(5), Value::Int(2)]));
}
