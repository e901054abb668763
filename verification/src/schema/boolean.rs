//! What is known of a position that holds booleans.

use crate::schema::combine::{
    copy_opt_list, copy_opt_text, gather, lemma_prefer_text_associative,
    lemma_prefer_text_commutative, merge_gather, merge_prefer_text, opt_set_of, opt_text,
    prefer_text, same_opt_text, same_set,
};
use vstd::prelude::*;
use vstd::std_specs::cmp::PartialEqSpecImpl;

verus! {

/// The descriptive metadata of a boolean.
#[derive(Debug)]
pub struct BooleanSchema {
    pub title: Option<String>,
    pub description: Option<String>,
    pub examples: Option<Vec<bool>>,
}

/// The mathematical content of a `BooleanSchema`.
pub struct BooleanModel {
    pub title: Option<Seq<char>>,
    pub description: Option<Seq<char>>,
    pub examples: Option<Set<bool>>,
}

impl BooleanModel {
    /// The schema that describes nothing.
    pub open spec fn empty() -> BooleanModel {
        BooleanModel { title: None, description: None, examples: None }
    }

    /// The schema that carries the metadata of both.
    pub open spec fn merge(self, other: BooleanModel) -> BooleanModel {
        BooleanModel {
            title: prefer_text(self.title, other.title),
            description: prefer_text(self.description, other.description),
            examples: gather(self.examples, other.examples),
        }
    }

    pub proof fn lemma_merge_idempotent(a: BooleanModel)
        ensures
            a.merge(a) == a,
    {
        if a.examples is Some {
            assert(a.merge(a).examples->0 =~= a.examples->0);
        }
    }

    pub proof fn lemma_merge_commutative(a: BooleanModel, b: BooleanModel)
        ensures
            a.merge(b) == b.merge(a),
    {
        lemma_prefer_text_commutative(a.title, b.title);
        lemma_prefer_text_commutative(a.description, b.description);
        if a.merge(b).examples is Some {
            assert(a.merge(b).examples->0 =~= b.merge(a).examples->0);
        }
    }

    pub proof fn lemma_merge_associative(a: BooleanModel, b: BooleanModel, c: BooleanModel)
        ensures
            a.merge(b).merge(c) == a.merge(b.merge(c)),
    {
        lemma_prefer_text_associative(a.title, b.title, c.title);
        lemma_prefer_text_associative(a.description, b.description, c.description);
        if a.merge(b).merge(c).examples is Some {
            assert(a.merge(b).merge(c).examples->0 =~= a.merge(b.merge(c)).examples->0);
        }
    }
}

impl View for BooleanSchema {
    type V = BooleanModel;

    open spec fn view(&self) -> BooleanModel {
        BooleanModel {
            title: opt_text(self.title),
            description: opt_text(self.description),
            examples: opt_set_of(self.examples),
        }
    }
}

impl Clone for BooleanSchema {
    fn clone(&self) -> (r: Self)
        ensures
            r@ == self@,
    {
        BooleanSchema {
            title: copy_opt_text(&self.title),
            description: copy_opt_text(&self.description),
            examples: copy_opt_list(&self.examples),
        }
    }
}

impl PartialEq for BooleanSchema {
    /// Whether the two schemas have the same content.
    fn eq(&self, other: &Self) -> (r: bool) {
        same_opt_text(&self.title, &other.title) && same_opt_text(
            &self.description,
            &other.description,
        ) && same_set(&self.examples, &other.examples)
    }
}

impl PartialEqSpecImpl for BooleanSchema {
    open spec fn obeys_eq_spec() -> bool {
        true
    }

    open spec fn eq_spec(&self, other: &Self) -> bool {
        self@ == other@
    }
}

impl Default for BooleanSchema {
    fn default() -> (s: Self)
        ensures
            s@ == BooleanModel::empty(),
    {
        BooleanSchema { title: None, description: None, examples: None }
    }
}

impl BooleanSchema {
    /// The schema that carries the metadata of both.
    pub fn merge(self, other: BooleanSchema) -> (r: BooleanSchema)
        ensures
            r@ == self@.merge(other@),
    {
        BooleanSchema {
            title: merge_prefer_text(self.title, other.title),
            description: merge_prefer_text(self.description, other.description),
            examples: merge_gather(self.examples, other.examples),
        }
    }
}

} // verus!
