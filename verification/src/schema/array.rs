//! What is known of a position that holds arrays.

use crate::schema::combine::{copy_opt_text, merge_prefer_text, opt_text, same_opt_text};
use crate::schema::model::ArrayModel;
use crate::schema::Schema;
use vstd::prelude::*;
use vstd::std_specs::cmp::PartialEqSpecImpl;

verus! {

/// The one schema that all elements of the arrays at one position meet.
#[derive(Debug)]
pub struct ArraySchema {
    pub title: Option<String>,
    pub description: Option<String>,
    /// Absent while no element was seen.
    pub items: Option<Box<Schema>>,
}

impl ArraySchema {
    pub open spec fn view(&self) -> ArrayModel
        decreases self,
    {
        ArrayModel {
            title: opt_text(self.title),
            description: opt_text(self.description),
            items: match self.items {
                Some(s) => Some(Box::new((*s)@)),
                None => None,
            },
        }
    }

    /// A copy of the schema.
    pub fn duplicate(&self) -> (r: ArraySchema)
        ensures
            r@ == self@,
        decreases self,
    {
        ArraySchema {
            title: copy_opt_text(&self.title),
            description: copy_opt_text(&self.description),
            items: match &self.items {
                Some(s) => Some(Box::new(s.duplicate())),
                None => None,
            },
        }
    }

    /// Whether the two schemas have the same content.
    pub fn same_as(&self, other: &ArraySchema) -> (r: bool)
        ensures
            r == (self@ == other@),
        decreases self,
    {
        same_opt_text(&self.title, &other.title) && same_opt_text(
            &self.description,
            &other.description,
        ) && match (&self.items, &other.items) {
            (Some(x), Some(y)) => x.same_as(y),
            (None, None) => true,
            _ => false,
        }
    }

    /// The element schemas merge into one.
    pub fn merge(self, other: ArraySchema) -> (r: ArraySchema)
        ensures
            r@ == self@.merge(other@),
        decreases self,
    {
        let ArraySchema { title, description, items } = self;
        let ArraySchema { title: other_title, description: other_description, items: other_items } =
            other;
        let merged = match (items, other_items) {
            (Some(x), Some(y)) => Some(Box::new((*x).merge(*y))),
            (None, y) => y,
            (x, None) => x,
        };
        ArraySchema {
            title: merge_prefer_text(title, other_title),
            description: merge_prefer_text(description, other_description),
            items: merged,
        }
    }
}

impl Clone for ArraySchema {
    fn clone(&self) -> (r: Self)
        ensures
            r@ == self@,
    {
        self.duplicate()
    }
}

impl PartialEq for ArraySchema {
    /// Whether the two schemas have the same content.
    fn eq(&self, other: &Self) -> (r: bool) {
        self.same_as(other)
    }
}

impl PartialEqSpecImpl for ArraySchema {
    open spec fn obeys_eq_spec() -> bool {
        true
    }

    open spec fn eq_spec(&self, other: &Self) -> bool {
        self@ == other@
    }
}

} // verus!
