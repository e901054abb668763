//! The mathematical content of a schema, and what merging means on it.
//!
//! A schema says, for each kind of JSON value, whether the position admits it
//! and under which constraints. Merging two schemas merges kind by kind, so it
//! is idempotent, commutative and associative.

use crate::schema::boolean::BooleanModel;
use crate::schema::combine::{lemma_prefer_text_associative, lemma_prefer_text_commutative, prefer_text};
use crate::schema::integer::IntegerModel;
use crate::schema::number::{widen, NumberModel};
use crate::schema::string::StringModel;
use vstd::prelude::*;

verus! {

/// What is known of a position that holds numbers: only integers were seen,
/// or numbers of any kind.
pub enum NumericModel {
    Integer(IntegerModel),
    Number(NumberModel),
}

impl NumericModel {
    /// The schema read as one on numbers of any kind.
    pub open spec fn as_number(self) -> NumberModel {
        match self {
            NumericModel::Integer(i) => widen(i),
            NumericModel::Number(n) => n,
        }
    }

    /// Integer with integer stays integer; anything else widens to number.
    pub open spec fn merge(self, other: NumericModel) -> NumericModel {
        match (self, other) {
            (NumericModel::Integer(x), NumericModel::Integer(y)) => NumericModel::Integer(
                x.merge(y),
            ),
            _ => NumericModel::Number(self.as_number().merge(other.as_number())),
        }
    }

    pub proof fn lemma_merge_idempotent(a: NumericModel)
        ensures
            a.merge(a) == a,
    {
        match a {
            NumericModel::Integer(x) => IntegerModel::lemma_merge_idempotent(x),
            NumericModel::Number(x) => NumberModel::lemma_merge_idempotent(x),
        }
    }

    pub proof fn lemma_merge_commutative(a: NumericModel, b: NumericModel)
        ensures
            a.merge(b) == b.merge(a),
    {
        match (a, b) {
            (NumericModel::Integer(x), NumericModel::Integer(y)) => {
                IntegerModel::lemma_merge_commutative(x, y);
            },
            _ => {
                NumberModel::lemma_merge_commutative(a.as_number(), b.as_number());
            },
        }
    }

    pub proof fn lemma_merge_associative(a: NumericModel, b: NumericModel, c: NumericModel)
        ensures
            a.merge(b).merge(c) == a.merge(b.merge(c)),
    {
        NumberModel::lemma_merge_associative(a.as_number(), b.as_number(), c.as_number());
        match (a, b, c) {
            (NumericModel::Integer(x), NumericModel::Integer(y), NumericModel::Integer(z)) => {
                IntegerModel::lemma_merge_associative(x, y, z);
            },
            (NumericModel::Integer(x), NumericModel::Integer(y), _) => {
                NumberModel::lemma_widen_merge(x, y);
            },
            (_, NumericModel::Integer(y), NumericModel::Integer(z)) => {
                NumberModel::lemma_widen_merge(y, z);
            },
            _ => {},
        }
    }
}

/// What is known of a position that holds objects.
pub struct ObjectModel {
    pub title: Option<Seq<char>>,
    pub description: Option<Seq<char>>,
    /// The schema of each property that was seen.
    pub properties: Map<Seq<char>, SchemaModel>,
    /// The properties that every object seen had.
    pub required: Set<Seq<char>>,
}

/// What is known of a position that holds arrays.
pub struct ArrayModel {
    pub title: Option<Seq<char>>,
    pub description: Option<Seq<char>>,
    /// The one schema of all elements; absent while no element was seen.
    pub items: Option<Box<SchemaModel>>,
}

/// The mathematical content of a schema: one slot for each kind of value.
pub struct SchemaModel {
    pub null: bool,
    pub boolean: Option<BooleanModel>,
    pub numeric: Option<NumericModel>,
    pub string: Option<StringModel>,
    pub object: Option<ObjectModel>,
    pub array: Option<ArrayModel>,
}

impl ObjectModel {
    /// The object schema without properties.
    pub open spec fn empty() -> ObjectModel {
        ObjectModel {
            title: None,
            description: None,
            properties: Map::empty(),
            required: Set::empty(),
        }
    }

    /// The properties of both; a property of both is merged; only what both
    /// require stays required.
    pub open spec fn merge(self, other: ObjectModel) -> ObjectModel
        decreases self,
    {
        ObjectModel {
            title: prefer_text(self.title, other.title),
            description: prefer_text(self.description, other.description),
            properties: Map::new(
                |k: Seq<char>| self.properties.dom().contains(k) || other.properties.dom().contains(k),
                |k: Seq<char>|
                    if self.properties.dom().contains(k) && other.properties.dom().contains(k) {
                        self.properties[k].merge(other.properties[k])
                    } else if self.properties.dom().contains(k) {
                        self.properties[k]
                    } else {
                        other.properties[k]
                    },
            ),
            required: self.required.intersect(other.required),
        }
    }
}

impl ArrayModel {
    /// The array schema of which no element is known.
    pub open spec fn empty() -> ArrayModel {
        ArrayModel { title: None, description: None, items: None }
    }

    /// The element schemas merge into one.
    pub open spec fn merge(self, other: ArrayModel) -> ArrayModel
        decreases self,
    {
        ArrayModel {
            title: prefer_text(self.title, other.title),
            description: prefer_text(self.description, other.description),
            items: match (self.items, other.items) {
                (Some(x), Some(y)) => Some(Box::new((*x).merge(*y))),
                (None, _) => other.items,
                (_, None) => self.items,
            },
        }
    }
}

impl SchemaModel {
    /// The schema that admits no value at all.
    pub open spec fn nothing() -> SchemaModel {
        SchemaModel {
            null: false,
            boolean: None,
            numeric: None,
            string: None,
            object: None,
            array: None,
        }
    }

    /// The number of kinds of value that the schema admits.
    pub open spec fn count(self) -> nat {
        (if self.null { 1nat } else { 0 }) + (if self.boolean is Some { 1nat } else { 0 }) + (
        if self.numeric is Some { 1nat } else { 0 }) + (if self.string is Some { 1nat } else { 0 })
            + (if self.object is Some { 1nat } else { 0 }) + (if self.array is Some { 1nat } else { 0 })
    }

    /// The least schema that accepts what `self` or `other` accepts: each
    /// kind is admitted that either admits, and a kind that both admit is
    /// merged.
    pub open spec fn merge(self, other: SchemaModel) -> SchemaModel
        decreases self,
    {
        SchemaModel {
            null: self.null || other.null,
            boolean: match (self.boolean, other.boolean) {
                (Some(x), Some(y)) => Some(x.merge(y)),
                (None, _) => other.boolean,
                (_, None) => self.boolean,
            },
            numeric: match (self.numeric, other.numeric) {
                (Some(x), Some(y)) => Some(x.merge(y)),
                (None, _) => other.numeric,
                (_, None) => self.numeric,
            },
            string: match (self.string, other.string) {
                (Some(x), Some(y)) => Some(x.merge(y)),
                (None, _) => other.string,
                (_, None) => self.string,
            },
            object: match (self.object, other.object) {
                (Some(x), Some(y)) => Some(x.merge(y)),
                (None, _) => other.object,
                (_, None) => self.object,
            },
            array: match (self.array, other.array) {
                (Some(x), Some(y)) => Some(x.merge(y)),
                (None, _) => other.array,
                (_, None) => self.array,
            },
        }
    }

    /// Merging a schema with itself changes nothing.
    pub proof fn lemma_merge_idempotent(a: SchemaModel)
        ensures
            a.merge(a) == a,
        decreases a,
    {
        if a.boolean is Some {
            BooleanModel::lemma_merge_idempotent(a.boolean->0);
        }
        if a.numeric is Some {
            NumericModel::lemma_merge_idempotent(a.numeric->0);
        }
        if a.string is Some {
            StringModel::lemma_merge_idempotent(a.string->0);
        }
        if a.object is Some {
            let x = a.object->0;
            assert forall|k: Seq<char>| x.properties.dom().contains(k) implies (
            #[trigger] x.properties[k]).merge(x.properties[k]) == x.properties[k] by {
                SchemaModel::lemma_merge_idempotent(x.properties[k]);
            }
            assert(x.merge(x).properties =~= x.properties);
            assert(x.merge(x).required =~= x.required);
        }
        if a.array is Some {
            let x = a.array->0;
            if x.items is Some {
                SchemaModel::lemma_merge_idempotent(*x.items->0);
            }
        }
    }

    /// Merging does not depend on which schema comes first.
    pub proof fn lemma_merge_commutative(a: SchemaModel, b: SchemaModel)
        ensures
            a.merge(b) == b.merge(a),
        decreases a,
    {
        if a.boolean is Some && b.boolean is Some {
            BooleanModel::lemma_merge_commutative(a.boolean->0, b.boolean->0);
        }
        if a.numeric is Some && b.numeric is Some {
            NumericModel::lemma_merge_commutative(a.numeric->0, b.numeric->0);
        }
        if a.string is Some && b.string is Some {
            StringModel::lemma_merge_commutative(a.string->0, b.string->0);
        }
        if a.object is Some && b.object is Some {
            let (x, y) = (a.object->0, b.object->0);
            lemma_prefer_text_commutative(x.title, y.title);
            lemma_prefer_text_commutative(x.description, y.description);
            assert forall|k: Seq<char>|
                x.properties.dom().contains(k) && y.properties.dom().contains(k) implies (
            #[trigger] x.properties[k]).merge(y.properties[k]) == y.properties[k].merge(
                x.properties[k],
            ) by {
                SchemaModel::lemma_merge_commutative(x.properties[k], y.properties[k]);
            }
            assert(x.merge(y).properties =~= y.merge(x).properties);
            assert(x.merge(y).required =~= y.merge(x).required);
        }
        if a.array is Some && b.array is Some {
            let (x, y) = (a.array->0, b.array->0);
            lemma_prefer_text_commutative(x.title, y.title);
            lemma_prefer_text_commutative(x.description, y.description);
            if x.items is Some && y.items is Some {
                SchemaModel::lemma_merge_commutative(*x.items->0, *y.items->0);
            }
        }
    }

    /// Merging three schemas does not depend on which two are merged first.
    pub proof fn lemma_merge_associative(a: SchemaModel, b: SchemaModel, c: SchemaModel)
        ensures
            a.merge(b).merge(c) == a.merge(b.merge(c)),
        decreases a,
    {
        if a.boolean is Some && b.boolean is Some && c.boolean is Some {
            BooleanModel::lemma_merge_associative(a.boolean->0, b.boolean->0, c.boolean->0);
        }
        if a.numeric is Some && b.numeric is Some && c.numeric is Some {
            NumericModel::lemma_merge_associative(a.numeric->0, b.numeric->0, c.numeric->0);
        }
        if a.string is Some && b.string is Some && c.string is Some {
            StringModel::lemma_merge_associative(a.string->0, b.string->0, c.string->0);
        }
        if a.object is Some && b.object is Some && c.object is Some {
            let (x, y, z) = (a.object->0, b.object->0, c.object->0);
            lemma_prefer_text_associative(x.title, y.title, z.title);
            lemma_prefer_text_associative(x.description, y.description, z.description);
            let left = x.merge(y).merge(z);
            let right = x.merge(y.merge(z));
            assert forall|k: Seq<char>| #[trigger] left.properties.dom().contains(k) implies left.properties[k]
                == right.properties[k] by {
                if x.properties.dom().contains(k) && y.properties.dom().contains(k)
                    && z.properties.dom().contains(k) {
                    SchemaModel::lemma_merge_associative(
                        x.properties[k],
                        y.properties[k],
                        z.properties[k],
                    );
                }
            }
            assert(left.properties =~= right.properties);
            assert(left.required =~= right.required);
        }
        if a.array is Some && b.array is Some && c.array is Some {
            let (x, y, z) = (a.array->0, b.array->0, c.array->0);
            lemma_prefer_text_associative(x.title, y.title, z.title);
            lemma_prefer_text_associative(x.description, y.description, z.description);
            if x.items is Some && y.items is Some && z.items is Some {
                SchemaModel::lemma_merge_associative(*x.items->0, *y.items->0, *z.items->0);
            }
        }
    }
}

} // verus!
