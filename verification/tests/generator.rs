use schema_infer::dict::Dict;
use schema_infer::number::Number;
use schema_infer::schema::integer::IntegerSchema;
use schema_infer::schema::Schema;
use schema_infer::schema_generator::{NodeRelation, PartialContent, SchemaGenerator, SchemaNode};
use schema_infer::value::Value;

fn object(members: Vec<(&str, Value)>) -> Value {
    let mut dict = Dict::new();
    for (name, value) in members {
        dict.insert(name.to_string(), value);
    }
    Value::Object(dict)
}

fn whole(n: i64) -> Value {
    Value::Number(Number::from_i64(n))
}

#[test]
fn a_new_generator_retains_nothing() {
    let generator = SchemaGenerator::new();
    assert!(generator.schema().is_none());
}

#[test]
fn expand_schema_retains_the_schema_of_the_first_document() {
    let first = object(vec![("a", whole(1))]);
    let second = object(vec![("b", Value::Null)]);
    let mut generator = SchemaGenerator::new();
    generator.expand_schema(&first);
    let Some(Schema::Object(kept)) = generator.schema() else {
        panic!("expected an object schema to be retained")
    };
    assert!(kept.properties.contains_key("a"));
    // A schema that is retained stays as it is.
    generator.expand_schema(&second);
    let Some(Schema::Object(kept)) = generator.schema() else {
        panic!("expected an object schema to be retained")
    };
    assert!(kept.properties.contains_key("a"));
    assert!(!kept.properties.contains_key("b"));
    assert_eq!(kept.properties.len(), 1);
}

#[test]
fn derive_schema_leaves_the_retained_schema_alone() {
    let first = Value::Null;
    let second = object(vec![("b", Value::Null)]);
    let mut generator = SchemaGenerator::new();
    generator.expand_schema(&first);
    let derived = generator.derive_schema(&second);
    assert!(matches!(derived, Schema::Object(_)));
    assert_eq!(generator.schema(), Some(&Schema::Null));
}

#[test]
fn accumulate_merges_document_after_document() {
    let documents = vec![
        object(vec![("id", whole(1)), ("name", Value::String("a".to_string()))]),
        object(vec![("id", whole(2))]),
        object(vec![("id", Value::Number(Number::Float(2.5f64.to_bits()))), ("on", Value::Bool(true))]),
    ];
    let mut generator = SchemaGenerator::new();
    for document in &documents {
        generator.accumulate(document);
    }
    let Some(Schema::Object(o)) = generator.schema() else {
        panic!("expected an object schema to be retained")
    };
    assert_eq!(o.properties.len(), 3);
    assert!(matches!(o.properties.get("id"), Some(Schema::Number(_))));
    assert!(matches!(o.properties.get("name"), Some(Schema::String(_))));
    assert!(matches!(o.properties.get("on"), Some(Schema::Boolean(_))));
    assert_eq!(o.required, vec!["id".to_string()]);
}

#[test]
fn accumulate_does_not_depend_on_the_order_of_documents() {
    let documents = vec![
        object(vec![("id", whole(1))]),
        Value::Null,
        Value::Array(vec![whole(1), Value::Null]),
        object(vec![("id", Value::String("x".to_string())), ("more", Value::Array(Vec::new()))]),
    ];
    let mut forward = SchemaGenerator::new();
    for document in documents.iter() {
        forward.accumulate(document);
    }
    let mut backward = SchemaGenerator::new();
    for document in documents.iter().rev() {
        backward.accumulate(document);
    }
    assert_eq!(forward.schema(), backward.schema());
    assert!(matches!(forward.schema(), Some(Schema::AnyOf(_))));
}

#[test]
fn a_root_node_has_no_parent_and_no_content() {
    let source = object(Vec::new());
    let node = SchemaNode::root(&source);
    assert!(node.parent_index.is_none());
    assert!(node.relation.is_none());
    assert!(node.content.is_none());
    assert!(!node.is_object_node());
    assert!(!node.is_array_node());
}

#[test]
fn an_object_node_gathers_attributes() {
    let source = object(Vec::new());
    let mut node = SchemaNode::root(&source);
    node.content = Some(PartialContent::Object(Dict::new()));
    assert!(node.is_object_node());
    assert!(!node.is_array_node());
    node.add_attribute("a", Schema::Null);
    node.add_attribute("b", Schema::Integer(IntegerSchema::default()));
    node.add_attribute("a", Schema::Integer(IntegerSchema::default()));
    let schema = node.to_schema();
    assert!(node.content.is_none());
    let Schema::Object(o) = schema else { panic!("expected an object schema") };
    assert_eq!(o.properties.len(), 2);
    assert!(matches!(o.properties.get("a"), Some(Schema::Integer(_))));
    assert!(matches!(o.properties.get("b"), Some(Schema::Integer(_))));
    assert_eq!(o.required, vec!["a".to_string(), "b".to_string()]);
}

#[test]
fn an_array_node_merges_its_elements_in_order() {
    let source = Value::Array(Vec::new());
    let mut node = SchemaNode {
        parent_index: Some(0),
        relation: Some(NodeRelation::ArrayElement(3)),
        content: Some(PartialContent::Array(vec![None, None, None])),
        source: &source,
    };
    assert!(node.is_array_node());
    assert!(!node.is_object_node());
    node.add_element(2, Schema::Null);
    node.add_element(0, Schema::Integer(IntegerSchema { minimum: Some(4), ..IntegerSchema::default() }));
    let schema = node.to_schema();
    assert!(node.content.is_none());
    assert_eq!(node.parent_index, Some(0));
    assert!(matches!(node.relation, Some(NodeRelation::ArrayElement(3))));
    let Schema::Array(a) = schema else { panic!("expected an array schema") };
    let Some(Schema::AnyOf(union)) = a.items.as_deref() else {
        panic!("expected alternative items")
    };
    assert!(union.alternatives().null);
    assert!(union.alternatives().numeric.is_some());
    assert_eq!(union.alternatives().count(), 2);
}

#[test]
fn an_array_node_without_elements_has_no_items() {
    let source = Value::Array(Vec::new());
    let mut node = SchemaNode::root(&source);
    node.content = Some(PartialContent::Array(Vec::new()));
    let Schema::Array(a) = node.to_schema() else { panic!("expected an array schema") };
    assert!(a.items.is_none());
}
