use schema_infer::dict::Dict;
use schema_infer::inference::classify;
use schema_infer::number::Number;
use schema_infer::schema::boolean::BooleanSchema;
use schema_infer::schema::integer::IntegerSchema;
use schema_infer::schema::number::NumberSchema;
use schema_infer::schema::string::StringSchema;
use schema_infer::schema::Schema;
use schema_infer::schema_generator::SchemaGenerator;
use schema_infer::value::Value;

fn object(members: Vec<(&str, Value)>) -> Value {
    let mut dict = Dict::new();
    for (name, value) in members {
        dict.insert(name.to_string(), value);
    }
    Value::Object(dict)
}

fn text(s: &str) -> Value {
    Value::String(s.to_string())
}

fn whole(n: i64) -> Value {
    Value::Number(Number::from_i64(n))
}

fn double(x: f64) -> Value {
    Value::Number(Number::Float(x.to_bits()))
}

fn sorted(mut names: Vec<String>) -> Vec<String> {
    names.sort();
    names
}

#[test]
fn null_document_gives_null_schema() {
    let mut generator = SchemaGenerator::new();
    let document = Value::Null;
    let schema = generator.derive_schema(&document);
    assert!(matches!(schema, Schema::Null));
    assert!(generator.schema().is_none());
}

#[test]
fn boolean_document_gives_unconstrained_boolean_schema() {
    let mut generator = SchemaGenerator::new();
    let document = Value::Bool(true);
    let schema = generator.derive_schema(&document);
    assert_eq!(schema, Schema::Boolean(BooleanSchema::default()));
    match schema {
        Schema::Boolean(b) => {
            assert!(b.title.is_none());
            assert!(b.description.is_none());
            assert!(b.examples.is_none());
        }
        other => panic!("expected a boolean schema, got {:?}", other),
    }
}

#[test]
fn integer_document_gives_integer_schema() {
    let mut generator = SchemaGenerator::new();
    let document = whole(1);
    let schema = generator.derive_schema(&document);
    assert_eq!(schema, Schema::Integer(IntegerSchema::default()));
    let negative = whole(-7);
    assert!(matches!(generator.derive_schema(&negative), Schema::Integer(_)));
}

#[test]
fn unsigned_integer_beyond_i64_is_an_integer() {
    let mut generator = SchemaGenerator::new();
    let document = Value::Number(Number::PosInt(u64::MAX));
    assert!(matches!(generator.derive_schema(&document), Schema::Integer(_)));
}

#[test]
fn float_document_gives_number_schema() {
    let mut generator = SchemaGenerator::new();
    let document = double(1.5);
    let schema = generator.derive_schema(&document);
    assert_eq!(schema, Schema::Number(NumberSchema::default()));
    // A double is a number even where its value is whole.
    let round = double(2.0);
    assert!(matches!(generator.derive_schema(&round), Schema::Number(_)));
}

#[test]
fn string_document_gives_string_schema() {
    let mut generator = SchemaGenerator::new();
    let document = text("x");
    let schema = generator.derive_schema(&document);
    assert_eq!(schema, Schema::String(StringSchema::default()));
}

#[test]
fn classifying_twice_gives_equal_schemas() {
    let values = vec![Value::Null, Value::Bool(false), whole(3), double(0.25), text("abc")];
    for value in &values {
        let first = classify(value);
        let second = classify(value);
        assert_eq!(first, second);
        assert_eq!(first, SchemaGenerator::derive_basic_schema(value));
    }
}

#[test]
fn is_basic_value_tells_leaves_from_composites() {
    assert!(SchemaGenerator::is_basic_value(&Value::Null));
    assert!(SchemaGenerator::is_basic_value(&Value::Bool(true)));
    assert!(SchemaGenerator::is_basic_value(&whole(0)));
    assert!(SchemaGenerator::is_basic_value(&text("")));
    assert!(!SchemaGenerator::is_basic_value(&Value::Array(Vec::new())));
    assert!(!SchemaGenerator::is_basic_value(&object(Vec::new())));
    assert!(Value::Null.is_basic());
    assert!(!object(Vec::new()).is_basic());
}

#[test]
fn flat_object_gives_object_schema_with_all_properties_required() {
    let mut generator = SchemaGenerator::new();
    let document = object(vec![("foo", whole(1)), ("bar", text("x"))]);
    let schema = generator.derive_schema(&document);
    match schema {
        Schema::Object(o) => {
            assert_eq!(o.properties.len(), 2);
            assert!(matches!(o.properties.get("foo"), Some(Schema::Integer(_))));
            assert!(matches!(o.properties.get("bar"), Some(Schema::String(_))));
            assert_eq!(
                sorted(o.required.clone()),
                vec!["bar".to_string(), "foo".to_string()]
            );
            assert!(o.title.is_none());
            assert!(o.description.is_none());
        }
        other => panic!("expected an object schema, got {:?}", other),
    }
}

#[test]
fn nested_object_gives_nested_object_schema() {
    let mut generator = SchemaGenerator::new();
    let document = object(vec![("a", object(vec![("b", Value::Bool(true))]))]);
    let schema = generator.derive_schema(&document);
    match schema {
        Schema::Object(outer) => {
            assert_eq!(outer.properties.len(), 1);
            match outer.properties.get("a") {
                Some(Schema::Object(inner)) => {
                    assert_eq!(inner.properties.len(), 1);
                    assert!(matches!(inner.properties.get("b"), Some(Schema::Boolean(_))));
                    assert_eq!(inner.required, vec!["b".to_string()]);
                }
                other => panic!("expected an object schema under a, got {:?}", other),
            }
            assert_eq!(outer.required, vec!["a".to_string()]);
        }
        other => panic!("expected an object schema, got {:?}", other),
    }
}

#[test]
fn empty_object_gives_object_schema_without_properties() {
    let mut generator = SchemaGenerator::new();
    let document = object(Vec::new());
    let schema = generator.derive_schema(&document);
    match schema {
        Schema::Object(o) => {
            assert!(o.properties.is_empty());
            assert_eq!(o.properties.len(), 0);
            assert!(o.required.is_empty());
        }
        other => panic!("expected an object schema, got {:?}", other),
    }
}

#[test]
fn property_names_equal_the_member_names() {
    let names = ["zeta", "alpha", "mid", "Alpha", "", "a b"];
    let mut members = Vec::new();
    for (i, name) in names.iter().enumerate() {
        let value = if i % 2 == 0 { whole(i as i64) } else { object(vec![("in", Value::Null)]) };
        members.push((*name, value));
    }
    let document = object(members);
    let mut generator = SchemaGenerator::new();
    let schema = generator.derive_schema(&document);
    match schema {
        Schema::Object(o) => {
            assert_eq!(o.properties.len(), names.len());
            for name in names.iter() {
                assert!(o.properties.contains_key(name));
            }
            assert!(!o.properties.contains_key("in"));
            let mut expected: Vec<String> = names.iter().map(|s| s.to_string()).collect();
            expected.sort();
            assert_eq!(sorted(o.required.clone()), expected);
        }
        other => panic!("expected an object schema, got {:?}", other),
    }
}

#[test]
fn mixed_members_keep_their_own_schemas() {
    let document = object(vec![
        ("first", object(vec![("x", whole(1))])),
        ("second", text("s")),
        ("third", object(vec![("y", Value::Null), ("z", object(Vec::new()))])),
        ("fourth", double(0.5)),
    ]);
    let mut generator = SchemaGenerator::new();
    let schema = generator.derive_schema(&document);
    let Schema::Object(o) = schema else { panic!("expected an object schema") };
    assert_eq!(o.properties.len(), 4);
    let Some(Schema::Object(first)) = o.properties.get("first") else {
        panic!("expected an object schema under first")
    };
    assert!(matches!(first.properties.get("x"), Some(Schema::Integer(_))));
    assert!(matches!(o.properties.get("second"), Some(Schema::String(_))));
    let Some(Schema::Object(third)) = o.properties.get("third") else {
        panic!("expected an object schema under third")
    };
    assert!(matches!(third.properties.get("y"), Some(Schema::Null)));
    let Some(Schema::Object(z)) = third.properties.get("z") else {
        panic!("expected an object schema under z")
    };
    assert!(z.properties.is_empty());
    assert!(matches!(o.properties.get("fourth"), Some(Schema::Number(_))));
}

#[test]
fn empty_array_gives_array_schema_without_items() {
    let mut generator = SchemaGenerator::new();
    let document = Value::Array(Vec::new());
    let schema = generator.derive_schema(&document);
    match schema {
        Schema::Array(a) => assert!(a.items.is_none()),
        other => panic!("expected an array schema, got {:?}", other),
    }
}

#[test]
fn array_of_integers_has_integer_items() {
    let mut generator = SchemaGenerator::new();
    let document = Value::Array(vec![whole(1), whole(2), whole(3)]);
    let schema = generator.derive_schema(&document);
    let Schema::Array(a) = schema else { panic!("expected an array schema") };
    assert_eq!(a.items.as_deref(), Some(&Schema::Integer(IntegerSchema::default())));
}

#[test]
fn array_of_integers_and_floats_has_number_items() {
    let mut generator = SchemaGenerator::new();
    let document = Value::Array(vec![whole(1), double(2.5), whole(3)]);
    let schema = generator.derive_schema(&document);
    let Schema::Array(a) = schema else { panic!("expected an array schema") };
    assert_eq!(a.items.as_deref(), Some(&Schema::Number(NumberSchema::default())));
}

#[test]
fn array_of_objects_merges_their_properties() {
    let mut generator = SchemaGenerator::new();
    let document = Value::Array(vec![
        object(vec![("id", whole(1)), ("name", text("a"))]),
        object(vec![("id", whole(2))]),
        object(vec![("id", double(2.5)), ("tags", Value::Array(vec![text("t")]))]),
    ]);
    let schema = generator.derive_schema(&document);
    let Schema::Array(a) = schema else { panic!("expected an array schema") };
    let Some(Schema::Object(o)) = a.items.as_deref() else {
        panic!("expected object items")
    };
    assert_eq!(o.properties.len(), 3);
    assert!(matches!(o.properties.get("id"), Some(Schema::Number(_))));
    assert!(matches!(o.properties.get("name"), Some(Schema::String(_))));
    let Some(Schema::Array(tags)) = o.properties.get("tags") else {
        panic!("expected an array schema under tags")
    };
    assert!(matches!(tags.items.as_deref(), Some(Schema::String(_))));
    // Only what every element has stays required.
    assert_eq!(o.required, vec!["id".to_string()]);
}

#[test]
fn array_of_different_kinds_has_alternative_items() {
    let mut generator = SchemaGenerator::new();
    let document = Value::Array(vec![
        text("a"),
        object(vec![("k", Value::Null)]),
        Value::Null,
        Value::Array(vec![Value::Bool(true)]),
        text("b"),
    ]);
    let schema = generator.derive_schema(&document);
    let Schema::Array(a) = schema else { panic!("expected an array schema") };
    let Some(Schema::AnyOf(union)) = a.items.as_deref() else {
        panic!("expected alternative items")
    };
    let alternatives = union.alternatives();
    assert_eq!(alternatives.count(), 4);
    assert!(alternatives.null);
    assert!(alternatives.string.is_some());
    assert!(alternatives.boolean.is_none());
    assert!(alternatives.numeric.is_none());
    let Some(o) = &alternatives.object else { panic!("expected an object alternative") };
    assert!(matches!(o.properties.get("k"), Some(Schema::Null)));
    let Some(inner) = &alternatives.array else { panic!("expected an array alternative") };
    assert!(matches!(inner.items.as_deref(), Some(Schema::Boolean(_))));
}

#[test]
fn nested_arrays_are_inferred_level_by_level() {
    let mut generator = SchemaGenerator::new();
    let document = Value::Array(vec![
        Value::Array(vec![whole(1)]),
        Value::Array(Vec::new()),
        Value::Array(vec![double(1.5), whole(2)]),
    ]);
    let schema = generator.derive_schema(&document);
    let Schema::Array(outer) = schema else { panic!("expected an array schema") };
    let Some(Schema::Array(inner)) = outer.items.as_deref() else {
        panic!("expected array items")
    };
    assert!(matches!(inner.items.as_deref(), Some(Schema::Number(_))));
}

#[test]
fn deeply_nested_object_is_inferred_without_deep_calls() {
    let depth = 10_000;
    let mut document = Value::Null;
    for _ in 0..depth {
        let mut members = Dict::new();
        members.insert("k".to_string(), document);
        document = Value::Object(members);
    }
    let mut generator = SchemaGenerator::new();
    let schema = generator.derive_schema(&document);
    let mut levels = 0;
    let mut current = &schema;
    loop {
        match current {
            Schema::Object(o) => {
                assert_eq!(o.properties.len(), 1);
                levels += 1;
                current = o.properties.get("k").expect("the member k has a schema");
            }
            Schema::Null => break,
            other => panic!("unexpected schema {:?}", std::mem::discriminant(other)),
        }
    }
    assert_eq!(levels, depth);
    // Values this deep are not dropped level by level here.
    std::mem::forget(schema);
    std::mem::forget(document);
}

#[test]
fn deeply_nested_array_is_inferred_without_deep_calls() {
    let depth = 10_000;
    let mut document = Value::Array(Vec::new());
    for _ in 0..depth {
        document = Value::Array(vec![document]);
    }
    let mut generator = SchemaGenerator::new();
    let schema = generator.derive_schema(&document);
    let mut levels = 0;
    let mut current = &schema;
    loop {
        match current {
            Schema::Array(a) => match a.items.as_deref() {
                Some(inner) => {
                    levels += 1;
                    current = inner;
                }
                None => break,
            },
            other => panic!("unexpected schema {:?}", std::mem::discriminant(other)),
        }
    }
    assert_eq!(levels, depth);
    std::mem::forget(schema);
    std::mem::forget(document);
}

#[test]
fn derive_schema_can_be_called_again() {
    let mut generator = SchemaGenerator::new();
    let first = object(vec![("a", whole(1))]);
    let second = Value::Array(vec![text("x")]);
    let one = generator.derive_schema(&first);
    let two = generator.derive_schema(&second);
    let again = generator.derive_schema(&first);
    assert!(matches!(one, Schema::Object(_)));
    assert!(matches!(two, Schema::Array(_)));
    assert_eq!(one, again);
    assert!(generator.schema().is_none());
}
