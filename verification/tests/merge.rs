use schema_infer::dict::Dict;
use schema_infer::number::Number;
use schema_infer::schema::alternatives::NumericSchema;
use schema_infer::schema::array::ArraySchema;
use schema_infer::schema::boolean::BooleanSchema;
use schema_infer::schema::combine::{contains, intersection, union};
use schema_infer::schema::integer::IntegerSchema;
use schema_infer::schema::number::NumberSchema;
use schema_infer::schema::object::ObjectSchema;
use schema_infer::schema::string::StringSchema;
use schema_infer::schema::{JsonType, Schema};
use schema_infer::schema_generator::SchemaGenerator;

fn integer_with_minimum(minimum: i64) -> Schema {
    Schema::Integer(IntegerSchema { minimum: Some(minimum), ..IntegerSchema::default() })
}

fn titled_string(title: &str) -> Schema {
    Schema::String(StringSchema { title: Some(title.to_string()), ..StringSchema::default() })
}

fn object_schema(properties: Vec<(&str, Schema)>, required: Vec<&str>) -> Schema {
    let mut table = Dict::new();
    for (name, schema) in properties {
        table.insert(name.to_string(), schema);
    }
    Schema::Object(ObjectSchema {
        title: None,
        description: None,
        properties: table,
        required: required.into_iter().map(|s| s.to_string()).collect(),
    })
}

fn array_schema(items: Option<Schema>) -> Schema {
    Schema::Array(ArraySchema { title: None, description: None, items: items.map(Box::new) })
}

fn rich_integer() -> Schema {
    Schema::Integer(IntegerSchema {
        minimum: Some(-10),
        maximum: Some(10),
        exclusive_minimum: Some(-11),
        exclusive_maximum: Some(11),
        multiple_of: Some(5),
        enumeration: Some(vec![-5, 0, 5]),
        title: Some("count".to_string()),
        description: Some("a small count".to_string()),
        examples: Some(vec![0, 5]),
    })
}

fn rich_number() -> Schema {
    Schema::Number(NumberSchema {
        minimum: Some(Number::Float((-2.5f64).to_bits())),
        maximum: Some(Number::Float(7.25f64.to_bits())),
        exclusive_minimum: None,
        exclusive_maximum: Some(Number::PosInt(100)),
        multiple_of: Some(Number::Float(0.25f64.to_bits())),
        enumeration: Some(vec![Number::Float(0.5f64.to_bits()), Number::PosInt(1)]),
        title: Some("ratio".to_string()),
        description: None,
        examples: Some(vec![Number::Float(0.75f64.to_bits())]),
    })
}

fn rich_string() -> Schema {
    Schema::String(StringSchema {
        min_length: Some(1),
        max_length: Some(8),
        pattern: Some("^[a-z]+$".to_string()),
        enumeration: Some(vec!["a".to_string(), "b".to_string()]),
        title: Some("name".to_string()),
        description: Some("a short name".to_string()),
        examples: Some(vec!["a".to_string()]),
    })
}

fn rich_object() -> Schema {
    object_schema(
        vec![
            ("id", rich_integer()),
            ("name", rich_string()),
            ("tags", array_schema(Some(titled_string("tag")))),
            ("nested", object_schema(vec![("flag", Schema::Boolean(BooleanSchema::default()))], vec!["flag"])),
        ],
        vec!["id", "name"],
    )
}

fn other_object() -> Schema {
    object_schema(
        vec![
            ("id", rich_number()),
            ("extra", Schema::Null),
            ("nested", object_schema(vec![("flag", Schema::Null), ("more", rich_string())], vec!["more"])),
        ],
        vec!["id", "extra"],
    )
}

fn samples() -> Vec<Schema> {
    vec![
        Schema::Null,
        Schema::Boolean(BooleanSchema {
            title: Some("flag".to_string()),
            description: None,
            examples: Some(vec![true, true, false]),
        }),
        integer_with_minimum(5),
        rich_integer(),
        rich_number(),
        rich_string(),
        titled_string("other"),
        rich_object(),
        other_object(),
        array_schema(None),
        array_schema(Some(rich_object())),
        array_schema(Some(rich_integer())),
        rich_string().merge(rich_integer()),
        rich_object().merge(Schema::Null).merge(array_schema(Some(Schema::Null))),
    ]
}

#[test]
fn merging_minimum_5_with_minimum_minus_3_gives_minus_3() {
    let merged = integer_with_minimum(5).merge(integer_with_minimum(-3));
    match merged {
        Schema::Integer(i) => assert_eq!(i.minimum, Some(-3)),
        other => panic!("expected an integer schema, got {:?}", other),
    }
    let merged = SchemaGenerator::merge_schemas(integer_with_minimum(-3), integer_with_minimum(5));
    assert_eq!(merged, integer_with_minimum(-3));
}

#[test]
fn integer_bounds_widen() {
    let a = IntegerSchema {
        minimum: Some(0),
        maximum: Some(10),
        exclusive_minimum: Some(-1),
        exclusive_maximum: Some(11),
        ..IntegerSchema::default()
    };
    let b = IntegerSchema {
        minimum: Some(-4),
        maximum: Some(7),
        exclusive_minimum: Some(3),
        exclusive_maximum: Some(20),
        ..IntegerSchema::default()
    };
    let merged = a.merge(b);
    assert_eq!(merged.minimum, Some(-4));
    assert_eq!(merged.maximum, Some(10));
    assert_eq!(merged.exclusive_minimum, Some(-1));
    assert_eq!(merged.exclusive_maximum, Some(20));
}

#[test]
fn a_bound_absent_on_one_side_is_absent_after_the_merge() {
    let bounded = IntegerSchema { minimum: Some(1), maximum: Some(2), ..IntegerSchema::default() };
    let open_above = IntegerSchema { minimum: Some(0), ..IntegerSchema::default() };
    let merged = bounded.merge(open_above);
    assert_eq!(merged.minimum, Some(0));
    assert_eq!(merged.maximum, None);
    let merged = rich_integer().merge(Schema::Integer(IntegerSchema::default()));
    let Schema::Integer(i) = merged else { panic!("expected an integer schema") };
    assert_eq!(i.minimum, None);
    assert_eq!(i.maximum, None);
    assert_eq!(i.multiple_of, None);
    assert_eq!(i.enumeration, None);
    // What describes is kept from the side that has it.
    assert_eq!(i.title.as_deref(), Some("count"));
    assert_eq!(i.description.as_deref(), Some("a small count"));
    assert_eq!(i.examples, Some(vec![0, 5]));
}

#[test]
fn string_lengths_widen_and_patterns_must_agree() {
    let a = StringSchema {
        min_length: Some(2),
        max_length: Some(5),
        pattern: Some("^a".to_string()),
        ..StringSchema::default()
    };
    let b = StringSchema {
        min_length: Some(1),
        max_length: Some(9),
        pattern: Some("^a".to_string()),
        ..StringSchema::default()
    };
    let c = StringSchema {
        min_length: Some(3),
        max_length: Some(4),
        pattern: Some("^b".to_string()),
        ..StringSchema::default()
    };
    let ab = a.clone().merge(b);
    assert_eq!(ab.min_length, Some(1));
    assert_eq!(ab.max_length, Some(9));
    assert_eq!(ab.pattern.as_deref(), Some("^a"));
    let ac = a.merge(c);
    assert_eq!(ac.min_length, Some(2));
    assert_eq!(ac.max_length, Some(5));
    assert_eq!(ac.pattern, None);
}

#[test]
fn multiple_of_is_kept_only_where_both_agree() {
    let five = IntegerSchema { multiple_of: Some(5), ..IntegerSchema::default() };
    let also_five = IntegerSchema { multiple_of: Some(5), ..IntegerSchema::default() };
    let ten = IntegerSchema { multiple_of: Some(10), ..IntegerSchema::default() };
    assert_eq!(five.clone().merge(also_five).multiple_of, Some(5));
    assert_eq!(five.merge(ten).multiple_of, None);
}

#[test]
fn enumerations_unite() {
    let a = IntegerSchema { enumeration: Some(vec![1, 2, 2]), ..IntegerSchema::default() };
    let b = IntegerSchema { enumeration: Some(vec![3, 2, 1, 4]), ..IntegerSchema::default() };
    let merged = a.merge(b);
    assert_eq!(merged.enumeration, Some(vec![1, 2, 3, 4]));
}

#[test]
fn examples_concatenate_without_duplicates() {
    let a = StringSchema {
        examples: Some(vec!["x".to_string(), "y".to_string()]),
        ..StringSchema::default()
    };
    let b = StringSchema {
        examples: Some(vec!["y".to_string(), "z".to_string(), "x".to_string()]),
        ..StringSchema::default()
    };
    let none = StringSchema::default();
    let merged = a.clone().merge(b);
    assert_eq!(
        merged.examples,
        Some(vec!["x".to_string(), "y".to_string(), "z".to_string()])
    );
    assert_eq!(a.clone().merge(none.clone()).examples, a.examples);
    assert_eq!(none.clone().merge(a.clone()).examples, a.examples);
    assert_eq!(none.clone().merge(none).examples, None);
}

#[test]
fn union_keeps_first_occurrences_in_order() {
    assert_eq!(union(vec![3i64, 1, 3], vec![2, 1, 5, 2]), vec![3, 1, 2, 5]);
    assert_eq!(union(Vec::<i64>::new(), vec![7, 7]), vec![7]);
    assert_eq!(union(vec![true], vec![false, true]), vec![true, false]);
    assert_eq!(
        union(vec!["b".to_string()], vec!["a".to_string(), "b".to_string()]),
        vec!["b".to_string(), "a".to_string()]
    );
}

#[test]
fn intersection_keeps_what_both_hold() {
    assert_eq!(intersection(vec![3i64, 1, 3, 4], &vec![4, 3, 9]), vec![3, 4]);
    assert_eq!(intersection(vec![1i64, 2], &Vec::new()), Vec::<i64>::new());
    assert!(contains(&vec![1i64, 2, 3], &2));
    assert!(!contains(&vec![1i64, 2, 3], &4));
}

#[test]
fn the_title_of_the_side_that_has_one_is_kept() {
    let titled = StringSchema { title: Some("t".to_string()), ..StringSchema::default() };
    let bare = StringSchema::default();
    assert_eq!(titled.clone().merge(bare.clone()).title.as_deref(), Some("t"));
    assert_eq!(bare.merge(titled).title.as_deref(), Some("t"));
}

#[test]
fn of_two_titles_the_smaller_is_kept() {
    let a = StringSchema { title: Some("apple".to_string()), ..StringSchema::default() };
    let b = StringSchema { title: Some("banana".to_string()), ..StringSchema::default() };
    assert_eq!(a.clone().merge(b.clone()).title.as_deref(), Some("apple"));
    assert_eq!(b.merge(a).title.as_deref(), Some("apple"));
    let short = StringSchema { description: Some("ab".to_string()), ..StringSchema::default() };
    let long = StringSchema { description: Some("abc".to_string()), ..StringSchema::default() };
    assert_eq!(long.merge(short).description.as_deref(), Some("ab"));
}

#[test]
fn integer_and_number_widen_to_number() {
    let merged = integer_with_minimum(5).merge(Schema::Number(NumberSchema {
        minimum: Some(Number::Float(2.5f64.to_bits())),
        ..NumberSchema::default()
    }));
    let Schema::Number(n) = merged else { panic!("expected a number schema") };
    assert_eq!(n.minimum, Some(Number::Float(2.5f64.to_bits())));

    let merged = Schema::Number(NumberSchema {
        minimum: Some(Number::Float(7.5f64.to_bits())),
        maximum: Some(Number::Float(8.5f64.to_bits())),
        ..NumberSchema::default()
    })
    .merge(Schema::Integer(IntegerSchema {
        minimum: Some(5),
        maximum: Some(20),
        ..IntegerSchema::default()
    }));
    let Schema::Number(n) = merged else { panic!("expected a number schema") };
    assert_eq!(n.minimum, Some(Number::PosInt(5)));
    assert_eq!(n.maximum, Some(Number::PosInt(20)));
}

#[test]
fn widening_an_integer_schema_keeps_its_content() {
    let Schema::Integer(i) = rich_integer() else { panic!("expected an integer schema") };
    let n = NumberSchema::from_integer(i);
    assert_eq!(n.minimum, Some(Number::NegInt(-10)));
    assert_eq!(n.maximum, Some(Number::PosInt(10)));
    assert_eq!(n.exclusive_minimum, Some(Number::NegInt(-11)));
    assert_eq!(n.exclusive_maximum, Some(Number::PosInt(11)));
    assert_eq!(n.multiple_of, Some(Number::PosInt(5)));
    assert_eq!(
        n.enumeration,
        Some(vec![Number::NegInt(-5), Number::PosInt(0), Number::PosInt(5)])
    );
    assert_eq!(n.examples, Some(vec![Number::PosInt(0), Number::PosInt(5)]));
    assert_eq!(n.title.as_deref(), Some("count"));
    assert_eq!(n.description.as_deref(), Some("a small count"));
}

#[test]
fn numeric_schemas_merge_within_their_family() {
    let i = NumericSchema::Integer(IntegerSchema::default());
    let n = NumericSchema::Number(NumberSchema::default());
    assert!(matches!(i.clone().merge(i.clone()), NumericSchema::Integer(_)));
    assert!(matches!(i.clone().merge(n.clone()), NumericSchema::Number(_)));
    assert!(matches!(n.clone().merge(i), NumericSchema::Number(_)));
    assert!(matches!(n.clone().merge(n), NumericSchema::Number(_)));
}

#[test]
fn objects_merge_property_by_property() {
    let merged = rich_object().merge(other_object());
    let Schema::Object(o) = merged else { panic!("expected an object schema") };
    assert_eq!(o.properties.len(), 5);
    assert!(matches!(o.properties.get("id"), Some(Schema::Number(_))));
    assert_eq!(o.properties.get("name"), Some(&rich_string()));
    assert_eq!(o.properties.get("extra"), Some(&Schema::Null));
    assert!(matches!(o.properties.get("tags"), Some(Schema::Array(_))));
    let Some(Schema::Object(nested)) = o.properties.get("nested") else {
        panic!("expected an object schema under nested")
    };
    assert!(matches!(nested.properties.get("flag"), Some(Schema::AnyOf(_))));
    assert_eq!(nested.properties.get("more"), Some(&rich_string()));
    assert!(nested.required.is_empty());
    // Required is what both require.
    assert_eq!(o.required, vec!["id".to_string()]);
}

#[test]
fn a_property_of_one_side_only_becomes_optional() {
    let a = object_schema(vec![("x", Schema::Null), ("y", Schema::Null)], vec!["x", "y"]);
    let b = object_schema(vec![("x", Schema::Null)], vec!["x"]);
    let Schema::Object(o) = a.merge(b) else { panic!("expected an object schema") };
    assert!(o.properties.contains_key("x"));
    assert!(o.properties.contains_key("y"));
    assert_eq!(o.required, vec!["x".to_string()]);
}

#[test]
fn arrays_merge_their_items() {
    let merged = array_schema(Some(integer_with_minimum(1))).merge(array_schema(Some(integer_with_minimum(-1))));
    assert_eq!(merged, array_schema(Some(integer_with_minimum(-1))));
    let merged = array_schema(None).merge(array_schema(Some(Schema::Null)));
    assert_eq!(merged, array_schema(Some(Schema::Null)));
    let merged = array_schema(None).merge(array_schema(None));
    assert_eq!(merged, array_schema(None));
}

#[test]
fn schemas_of_different_kinds_merge_into_alternatives() {
    let merged = rich_string().merge(rich_object());
    let Schema::AnyOf(union) = &merged else { panic!("expected alternatives") };
    let alternatives = union.alternatives();
    assert_eq!(alternatives.count(), 2);
    assert_eq!(alternatives.string.clone().map(Schema::String), Some(rich_string()));
    assert_eq!(alternatives.object.clone().map(Schema::Object), Some(rich_object()));
    assert!(!alternatives.null);
    assert!(alternatives.boolean.is_none());
    assert!(alternatives.numeric.is_none());
    assert!(alternatives.array.is_none());
    assert!(!merged.is_primitive());
}

#[test]
fn alternatives_absorb_further_schemas_kind_by_kind() {
    let merged = rich_string().merge(Schema::Null).merge(titled_string("a")).merge(integer_with_minimum(1));
    let Schema::AnyOf(union) = &merged else { panic!("expected alternatives") };
    let alternatives = union.alternatives();
    assert_eq!(alternatives.count(), 3);
    assert!(alternatives.null);
    let Some(s) = &alternatives.string else { panic!("expected a string alternative") };
    assert_eq!(s.title.as_deref(), Some("a"));
    assert_eq!(s.min_length, None);
    assert!(matches!(alternatives.numeric, Some(NumericSchema::Integer(_))));
    let widened = merged.merge(rich_number());
    let Schema::AnyOf(union) = &widened else { panic!("expected alternatives") };
    assert!(matches!(union.alternatives().numeric, Some(NumericSchema::Number(_))));
    assert_eq!(union.alternatives().count(), 3);
}

#[test]
fn into_alternatives_fills_one_slot_for_a_plain_schema() {
    let a = rich_integer().into_alternatives();
    assert_eq!(a.count(), 1);
    assert!(matches!(a.numeric, Some(NumericSchema::Integer(_))));
    let a = Schema::Null.into_alternatives();
    assert_eq!(a.count(), 1);
    assert!(a.null);
    let a = rich_string().merge(Schema::Null).into_alternatives();
    assert_eq!(a.count(), 2);
}

#[test]
fn merge_is_idempotent_on_samples() {
    for a in samples() {
        let merged = a.clone().merge(a.clone());
        assert_eq!(merged, a);
    }
}

#[test]
fn merge_is_commutative_on_samples() {
    let all = samples();
    for a in &all {
        for b in &all {
            let left = a.clone().merge(b.clone());
            let right = b.clone().merge(a.clone());
            assert_eq!(left, right);
        }
    }
}

#[test]
fn merge_is_associative_on_samples() {
    let all = samples();
    for a in &all {
        for b in &all {
            for c in &all {
                let left = a.clone().merge(b.clone()).merge(c.clone());
                let right = a.clone().merge(b.clone().merge(c.clone()));
                assert_eq!(left, right);
            }
        }
    }
}

#[test]
fn equality_does_not_depend_on_order() {
    let a = Schema::Integer(IntegerSchema {
        enumeration: Some(vec![1, 2, 3]),
        ..IntegerSchema::default()
    });
    let b = Schema::Integer(IntegerSchema {
        enumeration: Some(vec![3, 1, 2, 1]),
        ..IntegerSchema::default()
    });
    let c = Schema::Integer(IntegerSchema {
        enumeration: Some(vec![1, 2]),
        ..IntegerSchema::default()
    });
    assert_eq!(a, b);
    assert_ne!(a, c);
    let x = object_schema(vec![("p", a.clone()), ("q", Schema::Null)], vec!["p", "q"]);
    let y = object_schema(vec![("q", Schema::Null), ("p", b.clone())], vec!["q", "p"]);
    let z = object_schema(vec![("q", Schema::Null), ("p", c)], vec!["q", "p"]);
    let w = object_schema(vec![("q", Schema::Null), ("p", b)], vec!["q"]);
    assert_eq!(x, y);
    assert_ne!(x, z);
    assert_ne!(x, w);
    assert!(x.same_as(&y));
    assert!(!x.same_as(&z));
}

#[test]
fn equality_tells_kinds_and_absence_apart() {
    assert_ne!(Schema::Null, Schema::Boolean(BooleanSchema::default()));
    assert_ne!(
        Schema::Integer(IntegerSchema::default()),
        Schema::Number(NumberSchema::default())
    );
    assert_ne!(array_schema(None), array_schema(Some(Schema::Null)));
    assert_ne!(rich_string().merge(Schema::Null), rich_string());
    assert_ne!(
        Schema::String(StringSchema { examples: Some(Vec::new()), ..StringSchema::default() }),
        Schema::String(StringSchema::default())
    );
    assert_eq!(rich_object().duplicate(), rich_object());
}

#[test]
fn is_primitive_is_false_for_objects_and_arrays() {
    assert!(Schema::Null.is_primitive());
    assert!(rich_string().is_primitive());
    assert!(rich_integer().is_primitive());
    assert!(rich_number().is_primitive());
    assert!(Schema::Boolean(BooleanSchema::default()).is_primitive());
    assert!(!rich_object().is_primitive());
    assert!(!array_schema(None).is_primitive());
    assert!(rich_string().merge(Schema::Null).is_primitive());
    assert!(!rich_string().merge(array_schema(None)).is_primitive());
}

#[test]
fn from_properties_requires_every_property() {
    let mut table = Dict::new();
    table.insert("b".to_string(), Schema::Null);
    table.insert("a".to_string(), rich_string());
    let o = ObjectSchema::from_properties(table);
    assert_eq!(o.required, vec!["b".to_string(), "a".to_string()]);
    assert_eq!(o.properties.len(), 2);
    assert!(o.title.is_none());
    assert!(o.description.is_none());
}

#[test]
fn json_type_names_are_quoted_lower_case() {
    assert_eq!(JsonType::Null.to_string(), "\"null\"");
    assert_eq!(JsonType::Boolean.to_string(), "\"boolean\"");
    assert_eq!(JsonType::Number.to_string(), "\"number\"");
    assert_eq!(JsonType::Integer.to_string(), "\"integer\"");
    assert_eq!(JsonType::String.to_string(), "\"string\"");
    assert_eq!(JsonType::Array.to_string(), "\"array\"");
    assert_eq!(JsonType::Object.to_string(), "\"object\"");
}
