//! The JSON value tree that schemas are inferred from.

use crate::dict::Dict;
use crate::number::Number;
use vstd::prelude::*;

verus! {

/// A JSON value. An object maps each of its names to one value.
#[derive(Debug)]
pub enum Value {
    Null,
    Bool(bool),
    Number(Number),
    String(String),
    Array(Vec<Value>),
    Object(Dict<Value>),
}

impl Value {
    /// Whether the value is neither an object nor an array.
    pub open spec fn is_basic_spec(&self) -> bool {
        !(self is Array || self is Object)
    }

    /// The number of values in the tree, the value itself included.
    pub open spec fn size(&self) -> nat
        decreases self,
    {
        match self {
            Value::Array(items) => 1 + size_of_items(*items, items.len() as nat),
            Value::Object(members) => 1 + size_of_members(*members, members.entries().len()),
            _ => 1,
        }
    }

    /// Whether the value is neither an object nor an array.
    pub fn is_basic(&self) -> (b: bool)
        ensures
            b == self.is_basic_spec(),
    {
        match self {
            Value::Array(_) => false,
            Value::Object(_) => false,
            _ => true,
        }
    }
}

/// The number of values in the first `n` elements of an array.
pub open spec fn size_of_items(items: Vec<Value>, n: nat) -> nat
    decreases items, n,
{
    if n == 0 || n > items.len() {
        0
    } else {
        size_of_items(items, (n - 1) as nat) + items[n - 1].size()
    }
}

/// The number of values in the first `n` members of an object.
pub open spec fn size_of_members(members: Dict<Value>, n: nat) -> nat
    decreases members, n,
{
    if n == 0 || n > members.entries().len() {
        0
    } else {
        proof {
            members.lemma_entry_decreases(n - 1);
        }
        size_of_members(members, (n - 1) as nat) + members.entries()[n - 1].1.size()
    }
}

} // verus!
