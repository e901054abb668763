//! Schemas that admit more than one kind of value.

use crate::schema::array::ArraySchema;
use crate::schema::boolean::BooleanSchema;
use crate::schema::integer::IntegerSchema;
use crate::schema::model::{NumericModel, SchemaModel};
use crate::schema::number::NumberSchema;
use crate::schema::object::ObjectSchema;
use crate::schema::string::StringSchema;
use vstd::prelude::*;
use vstd::std_specs::cmp::PartialEqSpecImpl;

verus! {

/// What is known of a position that holds numbers.
#[derive(Debug)]
pub enum NumericSchema {
    Integer(IntegerSchema),
    Number(NumberSchema),
}

impl View for NumericSchema {
    type V = NumericModel;

    open spec fn view(&self) -> NumericModel {
        match self {
            NumericSchema::Integer(i) => NumericModel::Integer(i@),
            NumericSchema::Number(n) => NumericModel::Number(n@),
        }
    }
}

impl Clone for NumericSchema {
    fn clone(&self) -> (r: Self)
        ensures
            r@ == self@,
    {
        match self {
            NumericSchema::Integer(i) => NumericSchema::Integer(i.clone()),
            NumericSchema::Number(n) => NumericSchema::Number(n.clone()),
        }
    }
}

impl PartialEq for NumericSchema {
    /// Whether the two schemas have the same content.
    fn eq(&self, other: &Self) -> (r: bool) {
        match (self, other) {
            (NumericSchema::Integer(x), NumericSchema::Integer(y)) => *x == *y,
            (NumericSchema::Number(x), NumericSchema::Number(y)) => *x == *y,
            _ => false,
        }
    }
}

impl PartialEqSpecImpl for NumericSchema {
    open spec fn obeys_eq_spec() -> bool {
        true
    }

    open spec fn eq_spec(&self, other: &Self) -> bool {
        self@ == other@
    }
}

impl NumericSchema {
    /// Integer with integer stays integer; anything else widens to number.
    pub fn merge(self, other: NumericSchema) -> (r: NumericSchema)
        ensures
            r@ == self@.merge(other@),
    {
        match (self, other) {
            (NumericSchema::Integer(x), NumericSchema::Integer(y)) => NumericSchema::Integer(
                x.merge(y),
            ),
            (NumericSchema::Integer(x), NumericSchema::Number(y)) => NumericSchema::Number(
                NumberSchema::from_integer(x).merge(y),
            ),
            (NumericSchema::Number(x), NumericSchema::Integer(y)) => NumericSchema::Number(
                x.merge(NumberSchema::from_integer(y)),
            ),
            (NumericSchema::Number(x), NumericSchema::Number(y)) => NumericSchema::Number(
                x.merge(y),
            ),
        }
    }
}

/// For each kind of value, the schema under which the position admits it.
#[derive(Debug)]
pub struct Alternatives {
    pub null: bool,
    pub boolean: Option<BooleanSchema>,
    pub numeric: Option<NumericSchema>,
    pub string: Option<StringSchema>,
    pub object: Option<ObjectSchema>,
    pub array: Option<ArraySchema>,
}

impl Alternatives {
    pub open spec fn view(&self) -> SchemaModel
        decreases self,
    {
        SchemaModel {
            null: self.null,
            boolean: match self.boolean {
                Some(s) => Some(s@),
                None => None,
            },
            numeric: match self.numeric {
                Some(s) => Some(s@),
                None => None,
            },
            string: match self.string {
                Some(s) => Some(s@),
                None => None,
            },
            object: match self.object {
                Some(s) => Some(s@),
                None => None,
            },
            array: match self.array {
                Some(s) => Some(s@),
                None => None,
            },
        }
    }

    /// The number of kinds that are admitted.
    pub open spec fn filled(&self) -> nat {
        (if self.null { 1nat } else { 0 }) + (if self.boolean is Some { 1nat } else { 0 }) + (
        if self.numeric is Some { 1nat } else { 0 }) + (if self.string is Some { 1nat } else { 0 })
            + (if self.object is Some { 1nat } else { 0 }) + (if self.array is Some { 1nat } else { 0 })
    }

    /// Nothing is admitted.
    pub fn none() -> (a: Alternatives)
        ensures
            a@ == SchemaModel::nothing(),
            a.filled() == 0,
    {
        Alternatives {
            null: false,
            boolean: None,
            numeric: None,
            string: None,
            object: None,
            array: None,
        }
    }

    /// A copy of the alternatives.
    pub fn duplicate(&self) -> (r: Alternatives)
        ensures
            r@ == self@,
            r.filled() == self.filled(),
        decreases self,
    {
        Alternatives {
            null: self.null,
            boolean: match &self.boolean {
                Some(s) => Some(s.clone()),
                None => None,
            },
            numeric: match &self.numeric {
                Some(s) => Some(s.clone()),
                None => None,
            },
            string: match &self.string {
                Some(s) => Some(s.clone()),
                None => None,
            },
            object: match &self.object {
                Some(s) => Some(s.duplicate()),
                None => None,
            },
            array: match &self.array {
                Some(s) => Some(s.duplicate()),
                None => None,
            },
        }
    }

    /// Whether the same kinds are admitted under schemas of the same content.
    pub fn same_as(&self, other: &Alternatives) -> (r: bool)
        ensures
            r == (self@ == other@),
        decreases self,
    {
        self.null == other.null && (match (&self.boolean, &other.boolean) {
            (Some(x), Some(y)) => *x == *y,
            (None, None) => true,
            _ => false,
        }) && (match (&self.numeric, &other.numeric) {
            (Some(x), Some(y)) => *x == *y,
            (None, None) => true,
            _ => false,
        }) && (match (&self.string, &other.string) {
            (Some(x), Some(y)) => *x == *y,
            (None, None) => true,
            _ => false,
        }) && (match (&self.object, &other.object) {
            (Some(x), Some(y)) => x.same_as(y),
            (None, None) => true,
            _ => false,
        }) && (match (&self.array, &other.array) {
            (Some(x), Some(y)) => x.same_as(y),
            (None, None) => true,
            _ => false,
        })
    }

    /// The number of kinds that are admitted.
    pub fn count(&self) -> (n: usize)
        ensures
            n == self.filled(),
            n == self@.count(),
    {
        let mut n: usize = 0;
        if self.null {
            n += 1;
        }
        if self.boolean.is_some() {
            n += 1;
        }
        if self.numeric.is_some() {
            n += 1;
        }
        if self.string.is_some() {
            n += 1;
        }
        if self.object.is_some() {
            n += 1;
        }
        if self.array.is_some() {
            n += 1;
        }
        n
    }
}

/// Alternatives of which at least two are admitted.
#[derive(Debug)]
pub struct Union {
    alternatives: Alternatives,
}

impl Union {
    #[verifier::type_invariant]
    spec fn admits_several(self) -> bool {
        self.alternatives.filled() >= 2
    }

    pub closed spec fn view(&self) -> SchemaModel
        decreases self,
    {
        self.alternatives@
    }

    /// The union of the given alternatives.
    pub(crate) fn new(alternatives: Alternatives) -> (u: Union)
        requires
            alternatives.filled() >= 2,
        ensures
            u@ == alternatives@,
    {
        Union { alternatives }
    }

    /// A copy of the union.
    pub fn duplicate(&self) -> (r: Union)
        ensures
            r@ == self@,
        decreases self,
    {
        proof {
            use_type_invariant(self);
        }
        Union { alternatives: self.alternatives.duplicate() }
    }

    /// Whether the two unions admit the same kinds under schemas of the
    /// same content.
    pub fn same_as(&self, other: &Union) -> (r: bool)
        ensures
            r == (self@ == other@),
        decreases self,
    {
        self.alternatives.same_as(&other.alternatives)
    }

    /// The alternatives, of which there are at least two.
    pub fn alternatives(&self) -> (a: &Alternatives)
        ensures
            a@ == self@,
            a.filled() >= 2,
    {
        proof {
            use_type_invariant(self);
        }
        &self.alternatives
    }

    /// Gives the alternatives up.
    pub fn into_alternatives(self) -> (a: Alternatives)
        ensures
            a@ == self@,
            a.filled() >= 2,
            decreases_to!(self => a),
    {
        proof {
            use_type_invariant(&self);
        }
        self.alternatives
    }
}

impl Clone for Alternatives {
    fn clone(&self) -> (r: Self)
        ensures
            r@ == self@,
    {
        self.duplicate()
    }
}

impl PartialEq for Alternatives {
    /// Whether the same kinds are admitted under schemas of the same content.
    fn eq(&self, other: &Self) -> (r: bool) {
        self.same_as(other)
    }
}

impl PartialEqSpecImpl for Alternatives {
    open spec fn obeys_eq_spec() -> bool {
        true
    }

    open spec fn eq_spec(&self, other: &Self) -> bool {
        self@ == other@
    }
}

impl Clone for Union {
    fn clone(&self) -> (r: Self)
        ensures
            r@ == self@,
    {
        self.duplicate()
    }
}

impl PartialEq for Union {
    /// Whether the two unions admit the same kinds under schemas of the
    /// same content.
    fn eq(&self, other: &Self) -> (r: bool) {
        self.same_as(other)
    }
}

impl PartialEqSpecImpl for Union {
    open spec fn obeys_eq_spec() -> bool {
        true
    }

    open spec fn eq_spec(&self, other: &Self) -> bool {
        self@ == other@
    }
}

} // verus!
