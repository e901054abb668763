//! Schemas: what a position of a JSON document may hold.

pub mod alternatives;
pub mod array;
pub mod boolean;
pub mod combine;
pub mod integer;
pub mod model;
pub mod number;
pub mod object;
pub mod string;

use crate::schema::alternatives::{Alternatives, NumericSchema, Union};
use crate::schema::array::ArraySchema;
use crate::schema::boolean::BooleanSchema;
use crate::schema::integer::IntegerSchema;
use crate::schema::model::{NumericModel, SchemaModel};
use crate::schema::number::NumberSchema;
use crate::schema::object::ObjectSchema;
use crate::schema::string::StringSchema;
use vstd::prelude::*;
use vstd::std_specs::cmp::PartialEqSpecImpl;

verus! {

/// The kinds of value a JSON document can hold.
#[derive(Debug, Clone, Copy, PartialEq, Eq)]
pub enum JsonType {
    Null,
    Boolean,
    Number,
    Integer,
    String,
    Array,
    Object,
}

impl JsonType {
    /// The name of the kind as a JSON string, quotes included.
    pub open spec fn json_text(self) -> Seq<char> {
        match self {
            JsonType::Null => "\"null\""@,
            JsonType::Boolean => "\"boolean\""@,
            JsonType::Number => "\"number\""@,
            JsonType::Integer => "\"integer\""@,
            JsonType::String => "\"string\""@,
            JsonType::Array => "\"array\""@,
            JsonType::Object => "\"object\""@,
        }
    }

    /// The name of the kind as a JSON string, quotes included.
    pub fn to_string(&self) -> (text: String)
        ensures
            text@ == self.json_text(),
    {
        match self {
            JsonType::Null => "\"null\"".to_owned(),
            JsonType::Boolean => "\"boolean\"".to_owned(),
            JsonType::Number => "\"number\"".to_owned(),
            JsonType::Integer => "\"integer\"".to_owned(),
            JsonType::String => "\"string\"".to_owned(),
            JsonType::Array => "\"array\"".to_owned(),
            JsonType::Object => "\"object\"".to_owned(),
        }
    }
}

/// What a position of a JSON document may hold.
#[derive(Debug)]
pub enum Schema {
    String(StringSchema),
    Boolean(BooleanSchema),
    Number(NumberSchema),
    Integer(IntegerSchema),
    Object(ObjectSchema),
    Array(ArraySchema),
    Null,
    /// Values of more than one kind were seen.
    AnyOf(Union),
}

impl Schema {
    /// The mathematical content: for each kind of value, whether the schema
    /// admits it and under which constraints.
    pub open spec fn view(&self) -> SchemaModel
        decreases self,
    {
        match self {
            Schema::String(s) => SchemaModel { string: Some(s@), ..SchemaModel::nothing() },
            Schema::Boolean(s) => SchemaModel { boolean: Some(s@), ..SchemaModel::nothing() },
            Schema::Number(s) => SchemaModel {
                numeric: Some(NumericModel::Number(s@)),
                ..SchemaModel::nothing()
            },
            Schema::Integer(s) => SchemaModel {
                numeric: Some(NumericModel::Integer(s@)),
                ..SchemaModel::nothing()
            },
            Schema::Object(s) => SchemaModel { object: Some(s@), ..SchemaModel::nothing() },
            Schema::Array(s) => SchemaModel { array: Some(s@), ..SchemaModel::nothing() },
            Schema::Null => SchemaModel { null: true, ..SchemaModel::nothing() },
            Schema::AnyOf(u) => u@,
        }
    }

    /// A copy of the schema.
    pub fn duplicate(&self) -> (r: Schema)
        ensures
            r@ == self@,
            (r is AnyOf) == (self is AnyOf),
        decreases self,
    {
        match self {
            Schema::String(s) => Schema::String(s.clone()),
            Schema::Boolean(s) => Schema::Boolean(s.clone()),
            Schema::Number(s) => Schema::Number(s.clone()),
            Schema::Integer(s) => Schema::Integer(s.clone()),
            Schema::Object(s) => Schema::Object(s.duplicate()),
            Schema::Array(s) => Schema::Array(s.duplicate()),
            Schema::Null => Schema::Null,
            Schema::AnyOf(u) => Schema::AnyOf(u.duplicate()),
        }
    }

    /// Whether the two schemas have the same content: the same kinds are
    /// admitted, under the same constraints and with the same metadata. The
    /// order of list items and of properties does not count.
    pub fn same_as(&self, other: &Schema) -> (r: bool)
        ensures
            r == (self@ == other@),
        decreases self,
    {
        match (self, other) {
            (Schema::String(x), Schema::String(y)) => *x == *y,
            (Schema::Boolean(x), Schema::Boolean(y)) => *x == *y,
            (Schema::Number(x), Schema::Number(y)) => *x == *y,
            (Schema::Integer(x), Schema::Integer(y)) => *x == *y,
            (Schema::Object(x), Schema::Object(y)) => x.same_as(y),
            (Schema::Array(x), Schema::Array(y)) => x.same_as(y),
            (Schema::Null, Schema::Null) => true,
            (Schema::AnyOf(x), Schema::AnyOf(y)) => x.same_as(y),
            (Schema::AnyOf(x), _) => {
                // A union admits at least two kinds, a plain schema one.
                let _several = x.alternatives();
                false
            },
            (_, Schema::AnyOf(y)) => {
                let _several = y.alternatives();
                false
            },
            _ => false,
        }
    }

    /// Whether the schema admits neither objects nor arrays.
    pub fn is_primitive(&self) -> (b: bool)
        ensures
            b == (self@.object is None && self@.array is None),
    {
        match self {
            Schema::Object(_) => false,
            Schema::Array(_) => false,
            Schema::AnyOf(u) => {
                let a = u.alternatives();
                a.object.is_none() && a.array.is_none()
            },
            _ => true,
        }
    }

    /// The schema kind by kind.
    pub fn into_alternatives(self) -> (a: Alternatives)
        ensures
            a@ == self@,
            a.filled() >= 1,
            (self is AnyOf) == (a.filled() >= 2),
            a.object matches Some(o) ==> decreases_to!(self => o),
            a.array matches Some(x) ==> decreases_to!(self => x),
    {
        let mut a = Alternatives::none();
        match self {
            Schema::String(s) => {
                a.string = Some(s);
            },
            Schema::Boolean(s) => {
                a.boolean = Some(s);
            },
            Schema::Number(s) => {
                a.numeric = Some(NumericSchema::Number(s));
            },
            Schema::Integer(s) => {
                a.numeric = Some(NumericSchema::Integer(s));
            },
            Schema::Object(s) => {
                a.object = Some(s);
            },
            Schema::Array(s) => {
                a.array = Some(s);
            },
            Schema::Null => {
                a.null = true;
            },
            Schema::AnyOf(u) => {
                a = u.into_alternatives();
            },
        }
        a
    }

    /// The schema that admits the given alternatives: the plain schema of
    /// the one kind where only one is admitted.
    pub(crate) fn from_alternatives(a: Alternatives) -> (r: Schema)
        requires
            a.filled() >= 1,
        ensures
            r@ == a@,
            (r is AnyOf) == (a.filled() >= 2),
    {
        if a.count() >= 2 {
            return Schema::AnyOf(Union::new(a));
        }
        let Alternatives { null, boolean, numeric, string, object, array } = a;
        if let Some(s) = boolean {
            Schema::Boolean(s)
        } else if let Some(s) = numeric {
            match s {
                NumericSchema::Integer(i) => Schema::Integer(i),
                NumericSchema::Number(n) => Schema::Number(n),
            }
        } else if let Some(s) = string {
            Schema::String(s)
        } else if let Some(s) = object {
            Schema::Object(s)
        } else if let Some(s) = array {
            Schema::Array(s)
        } else {
            Schema::Null
        }
    }

    /// The least schema that accepts what `self` or `other` accepts.
    ///
    /// Kinds that both admit are merged: bounds widen, enumerations unite,
    /// integer and number widen to number, properties and elements merge in
    /// turn. Kinds that only one admits are kept, so that schemas of
    /// different kinds merge into a schema of alternatives.
    pub fn merge(self, other: Schema) -> (r: Schema)
        ensures
            r@ == self@.merge(other@),
            (r is AnyOf) == (r@.count() >= 2),
        decreases self,
    {
        let a = self.into_alternatives();
        let b = other.into_alternatives();
        let Alternatives { null, boolean, numeric, string, object, array } = a;
        let Alternatives {
            null: other_null,
            boolean: other_boolean,
            numeric: other_numeric,
            string: other_string,
            object: other_object,
            array: other_array,
        } = b;
        let merged = Alternatives {
            null: null || other_null,
            boolean: match (boolean, other_boolean) {
                (Some(x), Some(y)) => Some(x.merge(y)),
                (None, y) => y,
                (x, None) => x,
            },
            numeric: match (numeric, other_numeric) {
                (Some(x), Some(y)) => Some(x.merge(y)),
                (None, y) => y,
                (x, None) => x,
            },
            string: match (string, other_string) {
                (Some(x), Some(y)) => Some(x.merge(y)),
                (None, y) => y,
                (x, None) => x,
            },
            object: match (object, other_object) {
                (Some(x), Some(y)) => Some(x.merge(y)),
                (None, y) => y,
                (x, None) => x,
            },
            array: match (array, other_array) {
                (Some(x), Some(y)) => Some(x.merge(y)),
                (None, y) => y,
                (x, None) => x,
            },
        };
        Schema::from_alternatives(merged)
    }

    /// Merging a schema with itself gives a schema with the same content.
    pub proof fn merge_is_idempotent(a: Schema)
        ensures
            a@.merge(a@) == a@,
    {
        SchemaModel::lemma_merge_idempotent(a@);
    }

    /// Merging `a` with `b` gives what merging `b` with `a` gives.
    pub proof fn merge_is_commutative(a: Schema, b: Schema)
        ensures
            a@.merge(b@) == b@.merge(a@),
    {
        SchemaModel::lemma_merge_commutative(a@, b@);
    }

    /// Three schemas merge into the same whichever two are merged first, so
    /// that documents may be accumulated in any order.
    pub proof fn merge_is_associative(a: Schema, b: Schema, c: Schema)
        ensures
            a@.merge(b@).merge(c@) == a@.merge(b@.merge(c@)),
    {
        SchemaModel::lemma_merge_associative(a@, b@, c@);
    }
}

impl Clone for Schema {
    fn clone(&self) -> (r: Self)
        ensures
            r@ == self@,
    {
        self.duplicate()
    }
}

impl PartialEq for Schema {
    /// Whether the two schemas have the same content.
    fn eq(&self, other: &Self) -> (r: bool) {
        self.same_as(other)
    }
}

impl PartialEqSpecImpl for Schema {
    open spec fn obeys_eq_spec() -> bool {
        true
    }

    open spec fn eq_spec(&self, other: &Self) -> bool {
        self@ == other@
    }
}

} // verus!
