//! What is known of a position that holds integers.

use crate::schema::combine::{
    agree, copy_opt_list, copy_opt_text, either_set, gather, le_i64,
    lemma_prefer_text_associative, lemma_prefer_text_commutative, lower, merge_agree_usize,
    merge_either_set, merge_gather, merge_lower_i64, merge_prefer_text, merge_upper_i64,
    opt_set_of, opt_text, prefer_text, same_opt_text, same_set, upper,
};
use vstd::prelude::*;
use vstd::std_specs::cmp::PartialEqSpecImpl;

verus! {

/// Constraints on an integer, and its descriptive metadata.
#[derive(Debug)]
pub struct IntegerSchema {
    pub minimum: Option<i64>,
    pub maximum: Option<i64>,
    pub exclusive_minimum: Option<i64>,
    pub exclusive_maximum: Option<i64>,
    pub multiple_of: Option<usize>,
    pub enumeration: Option<Vec<i64>>,
    pub title: Option<String>,
    pub description: Option<String>,
    pub examples: Option<Vec<i64>>,
}

/// The mathematical content of an `IntegerSchema`.
pub struct IntegerModel {
    pub minimum: Option<i64>,
    pub maximum: Option<i64>,
    pub exclusive_minimum: Option<i64>,
    pub exclusive_maximum: Option<i64>,
    pub multiple_of: Option<usize>,
    pub enumeration: Option<Set<i64>>,
    pub title: Option<Seq<char>>,
    pub description: Option<Seq<char>>,
    pub examples: Option<Set<i64>>,
}

impl IntegerModel {
    /// The schema that constrains nothing and describes nothing.
    pub open spec fn empty() -> IntegerModel {
        IntegerModel {
            minimum: None,
            maximum: None,
            exclusive_minimum: None,
            exclusive_maximum: None,
            multiple_of: None,
            enumeration: None,
            title: None,
            description: None,
            examples: None,
        }
    }

    /// The least schema that accepts what `self` or `other` accepts.
    pub open spec fn merge(self, other: IntegerModel) -> IntegerModel {
        IntegerModel {
            minimum: lower(self.minimum, other.minimum, le_i64()),
            maximum: upper(self.maximum, other.maximum, le_i64()),
            exclusive_minimum: lower(self.exclusive_minimum, other.exclusive_minimum, le_i64()),
            exclusive_maximum: upper(self.exclusive_maximum, other.exclusive_maximum, le_i64()),
            multiple_of: agree(self.multiple_of, other.multiple_of),
            enumeration: either_set(self.enumeration, other.enumeration),
            title: prefer_text(self.title, other.title),
            description: prefer_text(self.description, other.description),
            examples: gather(self.examples, other.examples),
        }
    }

    /// A merge never tightens: a bound that stays accepts the bounds of
    /// both sides, and an enumeration that stays holds those of both.
    pub proof fn merge_never_tightens(a: IntegerModel, b: IntegerModel)
        ensures
            a.merge(b).minimum matches Some(low) ==> (a.minimum matches Some(x) && low <= x) && (
            b.minimum matches Some(y) && low <= y),
            a.merge(b).maximum matches Some(high) ==> (a.maximum matches Some(x) && x <= high)
                && (b.maximum matches Some(y) && y <= high),
            a.merge(b).exclusive_minimum matches Some(low) ==> (a.exclusive_minimum matches Some(x)
                && low <= x) && (b.exclusive_minimum matches Some(y) && low <= y),
            a.merge(b).exclusive_maximum matches Some(high) ==> (a.exclusive_maximum matches Some(
                x,
            ) && x <= high) && (b.exclusive_maximum matches Some(y) && y <= high),
            a.merge(b).enumeration matches Some(all) ==> (a.enumeration matches Some(x)
                && x.subset_of(all)) && (b.enumeration matches Some(y) && y.subset_of(all)),
    {
    }

    pub proof fn lemma_merge_idempotent(a: IntegerModel)
        ensures
            a.merge(a) == a,
    {
        let m = a.merge(a);
        if a.enumeration is Some {
            assert(m.enumeration->0 =~= a.enumeration->0);
        }
        if a.examples is Some {
            assert(m.examples->0 =~= a.examples->0);
        }
    }

    pub proof fn lemma_merge_commutative(a: IntegerModel, b: IntegerModel)
        ensures
            a.merge(b) == b.merge(a),
    {
        let (m, n) = (a.merge(b), b.merge(a));
        lemma_prefer_text_commutative(a.title, b.title);
        lemma_prefer_text_commutative(a.description, b.description);
        if m.enumeration is Some {
            assert(m.enumeration->0 =~= n.enumeration->0);
        }
        if m.examples is Some {
            assert(m.examples->0 =~= n.examples->0);
        }
    }

    pub proof fn lemma_merge_associative(a: IntegerModel, b: IntegerModel, c: IntegerModel)
        ensures
            a.merge(b).merge(c) == a.merge(b.merge(c)),
    {
        let (m, n) = (a.merge(b).merge(c), a.merge(b.merge(c)));
        lemma_prefer_text_associative(a.title, b.title, c.title);
        lemma_prefer_text_associative(a.description, b.description, c.description);
        if m.enumeration is Some {
            assert(m.enumeration->0 =~= n.enumeration->0);
        }
        if m.examples is Some {
            assert(m.examples->0 =~= n.examples->0);
        }
    }
}

impl View for IntegerSchema {
    type V = IntegerModel;

    open spec fn view(&self) -> IntegerModel {
        IntegerModel {
            minimum: self.minimum,
            maximum: self.maximum,
            exclusive_minimum: self.exclusive_minimum,
            exclusive_maximum: self.exclusive_maximum,
            multiple_of: self.multiple_of,
            enumeration: opt_set_of(self.enumeration),
            title: opt_text(self.title),
            description: opt_text(self.description),
            examples: opt_set_of(self.examples),
        }
    }
}

impl Clone for IntegerSchema {
    fn clone(&self) -> (r: Self)
        ensures
            r@ == self@,
    {
        IntegerSchema {
            minimum: self.minimum,
            maximum: self.maximum,
            exclusive_minimum: self.exclusive_minimum,
            exclusive_maximum: self.exclusive_maximum,
            multiple_of: self.multiple_of,
            enumeration: copy_opt_list(&self.enumeration),
            title: copy_opt_text(&self.title),
            description: copy_opt_text(&self.description),
            examples: copy_opt_list(&self.examples),
        }
    }
}

impl PartialEq for IntegerSchema {
    /// Whether the two schemas have the same content.
    fn eq(&self, other: &Self) -> (r: bool) {
        self.minimum == other.minimum
            && self.maximum == other.maximum
            && self.exclusive_minimum == other.exclusive_minimum
            && self.exclusive_maximum == other.exclusive_maximum
            && self.multiple_of == other.multiple_of
            && same_set(&self.enumeration, &other.enumeration)
            && same_opt_text(&self.title, &other.title)
            && same_opt_text(&self.description, &other.description)
            && same_set(&self.examples, &other.examples)
    }
}

impl PartialEqSpecImpl for IntegerSchema {
    open spec fn obeys_eq_spec() -> bool {
        true
    }

    open spec fn eq_spec(&self, other: &Self) -> bool {
        self@ == other@
    }
}

impl Default for IntegerSchema {
    fn default() -> (s: Self)
        ensures
            s@ == IntegerModel::empty(),
    {
        IntegerSchema {
            minimum: None,
            maximum: None,
            exclusive_minimum: None,
            exclusive_maximum: None,
            multiple_of: None,
            enumeration: None,
            title: None,
            description: None,
            examples: None,
        }
    }
}

impl IntegerSchema {
    /// The least schema that accepts what `self` or `other` accepts.
    pub fn merge(self, other: IntegerSchema) -> (r: IntegerSchema)
        ensures
            r@ == self@.merge(other@),
    {
        IntegerSchema {
            minimum: merge_lower_i64(self.minimum, other.minimum),
            maximum: merge_upper_i64(self.maximum, other.maximum),
            exclusive_minimum: merge_lower_i64(self.exclusive_minimum, other.exclusive_minimum),
            exclusive_maximum: merge_upper_i64(self.exclusive_maximum, other.exclusive_maximum),
            multiple_of: merge_agree_usize(self.multiple_of, other.multiple_of),
            enumeration: merge_either_set(self.enumeration, other.enumeration),
            title: merge_prefer_text(self.title, other.title),
            description: merge_prefer_text(self.description, other.description),
            examples: merge_gather(self.examples, other.examples),
        }
    }
}

} // verus!
