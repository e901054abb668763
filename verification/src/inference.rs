//! What schema a JSON value has.
//!
//! A value that is neither object nor array has the schema of its kind with
//! nothing constrained. An object has the schemas of its members, all of them
//! required. An array has the merge of the schemas of its elements.

use crate::dict::{names_at, Dict};
use crate::schema::boolean::{BooleanModel, BooleanSchema};
use crate::schema::integer::{IntegerModel, IntegerSchema};
use crate::schema::model::{ArrayModel, NumericModel, ObjectModel, SchemaModel};
use crate::schema::number::{NumberModel, NumberSchema};
use crate::schema::string::{StringModel, StringSchema};
use crate::schema::Schema;
use crate::value::Value;
use vstd::prelude::*;

verus! {

/// An optional schema in a box, as array schemas hold it.
pub open spec fn boxed(o: Option<SchemaModel>) -> Option<Box<SchemaModel>> {
    match o {
        Some(m) => Some(Box::new(m)),
        None => None,
    }
}

/// The merge of what was gathered so far with one more schema.
pub open spec fn absorb(gathered: Option<SchemaModel>, m: SchemaModel) -> SchemaModel {
    match gathered {
        Some(g) => g.merge(m),
        None => m,
    }
}

/// The schema of a value.
pub open spec fn schema_of(v: Value) -> SchemaModel
    decreases v,
{
    match v {
        Value::Null => SchemaModel { null: true, ..SchemaModel::nothing() },
        Value::Bool(_) => SchemaModel {
            boolean: Some(BooleanModel::empty()),
            ..SchemaModel::nothing()
        },
        Value::Number(n) => SchemaModel {
            numeric: Some(
                if n.is_integer_spec() {
                    NumericModel::Integer(IntegerModel::empty())
                } else {
                    NumericModel::Number(NumberModel::empty())
                },
            ),
            ..SchemaModel::nothing()
        },
        Value::String(_) => SchemaModel {
            string: Some(StringModel::empty()),
            ..SchemaModel::nothing()
        },
        Value::Array(items) => SchemaModel {
            array: Some(
                ArrayModel {
                    title: None,
                    description: None,
                    items: boxed(items_of(items, items.len() as nat)),
                },
            ),
            ..SchemaModel::nothing()
        },
        Value::Object(members) => SchemaModel {
            object: Some(
                ObjectModel {
                    title: None,
                    description: None,
                    properties: properties_of(members),
                    required: members@.dom(),
                },
            ),
            ..SchemaModel::nothing()
        },
    }
}

/// The merged schema of the first `n` elements of an array, absent for none.
pub open spec fn items_of(items: Vec<Value>, n: nat) -> Option<SchemaModel>
    decreases items, n,
{
    if n == 0 || n > items.len() {
        None
    } else {
        Some(absorb(items_of(items, (n - 1) as nat), schema_of(items[n - 1])))
    }
}

/// The schema of each member of an object, under the member's name.
pub open spec fn properties_of(members: Dict<Value>) -> Map<Seq<char>, SchemaModel>
    decreases members,
{
    Map::new(
        |k: Seq<char>| members@.dom().contains(k),
        |k: Seq<char>|
            if members@.dom().contains(k) {
                proof {
                    members.lemma_entry_decreases(choose|i: int| names_at(members.entries(), k, i));
                }
                schema_of(members@[k])
            } else {
                SchemaModel::nothing()
            },
    )
}

/// A value admits exactly one kind.
pub proof fn lemma_schema_of_one_kind(v: Value)
    ensures
        schema_of(v).count() == 1,
{
}

/// Classifying a value twice gives schemas of the same content: whatever
/// `classify` hands out for `value` is the schema of `value`.
pub proof fn classification_is_deterministic(value: Value, first: Schema, second: Schema)
    requires
        value.is_basic_spec(),
        first@ == schema_of(value) && !(first is AnyOf),
        second@ == schema_of(value) && !(second is AnyOf),
    ensures
        first@ == second@,
        first is Null <==> second is Null,
        first is Boolean <==> second is Boolean,
        first is Integer <==> second is Integer,
        first is Number <==> second is Number,
        first is String <==> second is String,
{
}

/// The schema of a value that is neither an object nor an array.
pub fn classify(value: &Value) -> (schema: Schema)
    requires
        value.is_basic_spec(),
    ensures
        schema@ == schema_of(*value),
        !(schema is AnyOf),
{
    match value {
        Value::Null => Schema::Null,
        Value::Bool(_) => Schema::Boolean(BooleanSchema::default()),
        Value::Number(n) => {
            if n.is_integer() {
                Schema::Integer(IntegerSchema::default())
            } else {
                Schema::Number(NumberSchema::default())
            }
        },
        Value::String(_) => Schema::String(StringSchema::default()),
        _ => vstd::pervasive::unreached(),
    }
}

} // verus!
