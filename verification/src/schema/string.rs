//! What is known of a position that holds strings.

use crate::schema::combine::{
    agree, copy_opt_list, copy_opt_text, either_set, gather, le_usize,
    lemma_prefer_text_associative, lemma_prefer_text_commutative, lower, merge_agree_text,
    merge_either_set, merge_gather, merge_lower_usize, merge_prefer_text, merge_upper_usize,
    opt_set_of, opt_text, prefer_text, same_opt_text, same_set, upper,
};
use vstd::prelude::*;
use vstd::std_specs::cmp::PartialEqSpecImpl;

verus! {

/// Constraints on a string, and its descriptive metadata.
#[derive(Debug)]
pub struct StringSchema {
    pub min_length: Option<usize>,
    pub max_length: Option<usize>,
    pub pattern: Option<String>,
    pub enumeration: Option<Vec<String>>,
    pub title: Option<String>,
    pub description: Option<String>,
    pub examples: Option<Vec<String>>,
}

/// The mathematical content of a `StringSchema`.
pub struct StringModel {
    pub min_length: Option<usize>,
    pub max_length: Option<usize>,
    pub pattern: Option<Seq<char>>,
    pub enumeration: Option<Set<Seq<char>>>,
    pub title: Option<Seq<char>>,
    pub description: Option<Seq<char>>,
    pub examples: Option<Set<Seq<char>>>,
}

impl StringModel {
    /// The schema that constrains nothing and describes nothing.
    pub open spec fn empty() -> StringModel {
        StringModel {
            min_length: None,
            max_length: None,
            pattern: None,
            enumeration: None,
            title: None,
            description: None,
            examples: None,
        }
    }

    /// The least schema that accepts what `self` or `other` accepts.
    pub open spec fn merge(self, other: StringModel) -> StringModel {
        StringModel {
            min_length: lower(self.min_length, other.min_length, le_usize()),
            max_length: upper(self.max_length, other.max_length, le_usize()),
            pattern: agree(self.pattern, other.pattern),
            enumeration: either_set(self.enumeration, other.enumeration),
            title: prefer_text(self.title, other.title),
            description: prefer_text(self.description, other.description),
            examples: gather(self.examples, other.examples),
        }
    }

    /// A merge never tightens: a bound on the length that stays accepts
    /// the bounds of both sides, and an enumeration that stays holds those of
    /// both.
    pub proof fn merge_never_tightens(a: StringModel, b: StringModel)
        ensures
            a.merge(b).min_length matches Some(low) ==> (a.min_length matches Some(x) && low <= x)
                && (b.min_length matches Some(y) && low <= y),
            a.merge(b).max_length matches Some(high) ==> (a.max_length matches Some(x) && x
                <= high) && (b.max_length matches Some(y) && y <= high),
            a.merge(b).pattern matches Some(p) ==> a.pattern == Some(p) && b.pattern == Some(p),
            a.merge(b).enumeration matches Some(all) ==> (a.enumeration matches Some(x)
                && x.subset_of(all)) && (b.enumeration matches Some(y) && y.subset_of(all)),
    {
    }

    pub proof fn lemma_merge_idempotent(a: StringModel)
        ensures
            a.merge(a) == a,
    {
        let m = a.merge(a);
        if a.enumeration is Some {
            assert(m.enumeration->0 =~= a.enumeration->0);
        }
        if a.examples is Some {
            assert(m.examples->0 =~= a.examples->0);
        }
    }

    pub proof fn lemma_merge_commutative(a: StringModel, b: StringModel)
        ensures
            a.merge(b) == b.merge(a),
    {
        let (m, n) = (a.merge(b), b.merge(a));
        lemma_prefer_text_commutative(a.title, b.title);
        lemma_prefer_text_commutative(a.description, b.description);
        if m.enumeration is Some {
            assert(m.enumeration->0 =~= n.enumeration->0);
        }
        if m.examples is Some {
            assert(m.examples->0 =~= n.examples->0);
        }
    }

    pub proof fn lemma_merge_associative(a: StringModel, b: StringModel, c: StringModel)
        ensures
            a.merge(b).merge(c) == a.merge(b.merge(c)),
    {
        let (m, n) = (a.merge(b).merge(c), a.merge(b.merge(c)));
        lemma_prefer_text_associative(a.title, b.title, c.title);
        lemma_prefer_text_associative(a.description, b.description, c.description);
        if m.enumeration is Some {
            assert(m.enumeration->0 =~= n.enumeration->0);
        }
        if m.examples is Some {
            assert(m.examples->0 =~= n.examples->0);
        }
    }
}

impl View for StringSchema {
    type V = StringModel;

    open spec fn view(&self) -> StringModel {
        StringModel {
            min_length: self.min_length,
            max_length: self.max_length,
            pattern: opt_text(self.pattern),
            enumeration: opt_set_of(self.enumeration),
            title: opt_text(self.title),
            description: opt_text(self.description),
            examples: opt_set_of(self.examples),
        }
    }
}

impl Clone for StringSchema {
    fn clone(&self) -> (r: Self)
        ensures
            r@ == self@,
    {
        StringSchema {
            min_length: self.min_length,
            max_length: self.max_length,
            pattern: copy_opt_text(&self.pattern),
            enumeration: copy_opt_list(&self.enumeration),
            title: copy_opt_text(&self.title),
            description: copy_opt_text(&self.description),
            examples: copy_opt_list(&self.examples),
        }
    }
}

impl PartialEq for StringSchema {
    /// Whether the two schemas have the same content.
    fn eq(&self, other: &Self) -> (r: bool) {
        self.min_length == other.min_length
            && self.max_length == other.max_length
            && same_opt_text(&self.pattern, &other.pattern)
            && same_set(&self.enumeration, &other.enumeration)
            && same_opt_text(&self.title, &other.title)
            && same_opt_text(&self.description, &other.description)
            && same_set(&self.examples, &other.examples)
    }
}

impl PartialEqSpecImpl for StringSchema {
    open spec fn obeys_eq_spec() -> bool {
        true
    }

    open spec fn eq_spec(&self, other: &Self) -> bool {
        self@ == other@
    }
}

impl Default for StringSchema {
    fn default() -> (s: Self)
        ensures
            s@ == StringModel::empty(),
    {
        StringSchema {
            min_length: None,
            max_length: None,
            pattern: None,
            enumeration: None,
            title: None,
            description: None,
            examples: None,
        }
    }
}

impl StringSchema {
    /// The least schema that accepts what `self` or `other` accepts.
    pub fn merge(self, other: StringSchema) -> (r: StringSchema)
        ensures
            r@ == self@.merge(other@),
    {
        StringSchema {
            min_length: merge_lower_usize(self.min_length, other.min_length),
            max_length: merge_upper_usize(self.max_length, other.max_length),
            pattern: merge_agree_text(self.pattern, other.pattern),
            enumeration: merge_either_set(self.enumeration, other.enumeration),
            title: merge_prefer_text(self.title, other.title),
            description: merge_prefer_text(self.description, other.description),
            examples: merge_gather(self.examples, other.examples),
        }
    }
}

} // verus!
