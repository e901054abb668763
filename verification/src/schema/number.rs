//! What is known of a position that holds numbers, whole or not.

use crate::number::Number;
use crate::schema::combine::{
    agree, copy_opt_list, copy_opt_text, either_set, gather, le_number,
    lemma_prefer_text_associative, lemma_prefer_text_commutative, lemma_set_of_empty,
    lemma_set_of_push, lower, merge_agree_number, merge_either_set, merge_gather,
    merge_lower_number, merge_prefer_text, merge_upper_number, opt_set_of, opt_text, prefer_text,
    same_opt_text, same_set, set_of, upper,
};
use vstd::std_specs::cmp::PartialEqSpecImpl;
use crate::schema::integer::{IntegerModel, IntegerSchema};
use vstd::prelude::*;

verus! {

/// Constraints on a number, and its descriptive metadata.
#[derive(Debug)]
pub struct NumberSchema {
    pub minimum: Option<Number>,
    pub maximum: Option<Number>,
    pub exclusive_minimum: Option<Number>,
    pub exclusive_maximum: Option<Number>,
    pub multiple_of: Option<Number>,
    pub enumeration: Option<Vec<Number>>,
    pub title: Option<String>,
    pub description: Option<String>,
    pub examples: Option<Vec<Number>>,
}

/// The mathematical content of a `NumberSchema`.
pub struct NumberModel {
    pub minimum: Option<Number>,
    pub maximum: Option<Number>,
    pub exclusive_minimum: Option<Number>,
    pub exclusive_maximum: Option<Number>,
    pub multiple_of: Option<Number>,
    pub enumeration: Option<Set<Number>>,
    pub title: Option<Seq<char>>,
    pub description: Option<Seq<char>>,
    pub examples: Option<Set<Number>>,
}

/// An optional integer as an optional number.
pub open spec fn opt_of_int(o: Option<i64>) -> Option<Number> {
    match o {
        Some(n) => Some(Number::of_int(n)),
        None => None,
    }
}

/// The integers of `s` as numbers.
pub open spec fn numbers_of(s: Set<i64>) -> Set<Number> {
    Set::new(|m: Number| exists|n: i64| s.contains(n) && #[trigger] Number::of_int(n) == m)
}

/// An optional set of integers as an optional set of numbers.
pub open spec fn opt_numbers_of(o: Option<Set<i64>>) -> Option<Set<Number>> {
    match o {
        Some(s) => Some(numbers_of(s)),
        None => None,
    }
}

/// An integer schema read as the number schema that accepts the same values.
pub open spec fn widen(i: IntegerModel) -> NumberModel {
    NumberModel {
        minimum: opt_of_int(i.minimum),
        maximum: opt_of_int(i.maximum),
        exclusive_minimum: opt_of_int(i.exclusive_minimum),
        exclusive_maximum: opt_of_int(i.exclusive_maximum),
        multiple_of: match i.multiple_of {
            Some(m) => Some(Number::PosInt(m as u64)),
            None => None,
        },
        enumeration: opt_numbers_of(i.enumeration),
        title: i.title,
        description: i.description,
        examples: opt_numbers_of(i.examples),
    }
}

pub proof fn lemma_numbers_of_union(a: Set<i64>, b: Set<i64>)
    ensures
        numbers_of(a.union(b)) == numbers_of(a).union(numbers_of(b)),
{
    assert forall|m: Number| numbers_of(a.union(b)).contains(m) == numbers_of(a).union(
        numbers_of(b),
    ).contains(m) by {
        if numbers_of(a.union(b)).contains(m) {
            let n = choose|n: i64| a.union(b).contains(n) && #[trigger] Number::of_int(n) == m;
            assert(Number::of_int(n) == m);
        }
        if numbers_of(a).contains(m) {
            let n = choose|n: i64| a.contains(n) && #[trigger] Number::of_int(n) == m;
            assert(a.union(b).contains(n));
        }
        if numbers_of(b).contains(m) {
            let n = choose|n: i64| b.contains(n) && #[trigger] Number::of_int(n) == m;
            assert(a.union(b).contains(n));
        }
    }
    assert(numbers_of(a.union(b)) =~= numbers_of(a).union(numbers_of(b)));
}

impl NumberModel {
    /// The schema that constrains nothing and describes nothing.
    pub open spec fn empty() -> NumberModel {
        NumberModel {
            minimum: None,
            maximum: None,
            exclusive_minimum: None,
            exclusive_maximum: None,
            multiple_of: None,
            enumeration: None,
            title: None,
            description: None,
            examples: None,
        }
    }

    /// The least schema that accepts what `self` or `other` accepts.
    pub open spec fn merge(self, other: NumberModel) -> NumberModel {
        NumberModel {
            minimum: lower(self.minimum, other.minimum, le_number()),
            maximum: upper(self.maximum, other.maximum, le_number()),
            exclusive_minimum: lower(self.exclusive_minimum, other.exclusive_minimum, le_number()),
            exclusive_maximum: upper(self.exclusive_maximum, other.exclusive_maximum, le_number()),
            multiple_of: agree(self.multiple_of, other.multiple_of),
            enumeration: either_set(self.enumeration, other.enumeration),
            title: prefer_text(self.title, other.title),
            description: prefer_text(self.description, other.description),
            examples: gather(self.examples, other.examples),
        }
    }

    /// A merge never tightens: a bound that stays accepts the bounds of
    /// both sides, and an enumeration that stays holds those of both.
    pub proof fn merge_never_tightens(a: NumberModel, b: NumberModel)
        ensures
            a.merge(b).minimum matches Some(low) ==> (a.minimum matches Some(x) && low.le(x)) && (
            b.minimum matches Some(y) && low.le(y)),
            a.merge(b).maximum matches Some(high) ==> (a.maximum matches Some(x) && x.le(high))
                && (b.maximum matches Some(y) && y.le(high)),
            a.merge(b).exclusive_minimum matches Some(low) ==> (a.exclusive_minimum matches Some(x)
                && low.le(x)) && (b.exclusive_minimum matches Some(y) && low.le(y)),
            a.merge(b).exclusive_maximum matches Some(high) ==> (a.exclusive_maximum matches Some(
                x,
            ) && x.le(high)) && (b.exclusive_maximum matches Some(y) && y.le(high)),
            a.merge(b).enumeration matches Some(all) ==> (a.enumeration matches Some(x)
                && x.subset_of(all)) && (b.enumeration matches Some(y) && y.subset_of(all)),
    {
    }

    pub proof fn lemma_merge_idempotent(a: NumberModel)
        ensures
            a.merge(a) == a,
    {
        let m = a.merge(a);
        if a.enumeration is Some {
            assert(m.enumeration->0 =~= a.enumeration->0);
        }
        if a.examples is Some {
            assert(m.examples->0 =~= a.examples->0);
        }
    }

    pub proof fn lemma_merge_commutative(a: NumberModel, b: NumberModel)
        ensures
            a.merge(b) == b.merge(a),
    {
        let (m, n) = (a.merge(b), b.merge(a));
        assert forall|x: Number, y: Number| #[trigger] x.le(y) && y.le(x) implies x == y by {
            Number::lemma_le_antisymmetric(x, y);
        }
        lemma_prefer_text_commutative(a.title, b.title);
        lemma_prefer_text_commutative(a.description, b.description);
        if m.enumeration is Some {
            assert(m.enumeration->0 =~= n.enumeration->0);
        }
        if m.examples is Some {
            assert(m.examples->0 =~= n.examples->0);
        }
    }

    pub proof fn lemma_merge_associative(a: NumberModel, b: NumberModel, c: NumberModel)
        ensures
            a.merge(b).merge(c) == a.merge(b.merge(c)),
    {
        let (m, n) = (a.merge(b).merge(c), a.merge(b.merge(c)));
        assert forall|x: Number, y: Number| #[trigger] x.le(y) && y.le(x) implies x == y by {
            Number::lemma_le_antisymmetric(x, y);
        }
        lemma_prefer_text_associative(a.title, b.title, c.title);
        lemma_prefer_text_associative(a.description, b.description, c.description);
        if m.enumeration is Some {
            assert(m.enumeration->0 =~= n.enumeration->0);
        }
        if m.examples is Some {
            assert(m.examples->0 =~= n.examples->0);
        }
    }

    /// Widening commutes with merging: an integer schema may be widened
    /// before or after it is merged with another.
    pub proof fn lemma_widen_merge(a: IntegerModel, b: IntegerModel)
        ensures
            widen(a.merge(b)) == widen(a).merge(widen(b)),
    {
        let (m, n) = (widen(a.merge(b)), widen(a).merge(widen(b)));
        assert forall|x: i64, y: i64|
            (#[trigger] Number::of_int(x)).le(#[trigger] Number::of_int(y)) == (x <= y) by {
            Number::lemma_of_int_monotonic(x, y);
        }
        assert(m.minimum == n.minimum);
        assert(m.maximum == n.maximum);
        assert(m.exclusive_minimum == n.exclusive_minimum);
        assert(m.exclusive_maximum == n.exclusive_maximum);
        assert(m.multiple_of == n.multiple_of);
        if a.enumeration is Some && b.enumeration is Some {
            lemma_numbers_of_union(a.enumeration->0, b.enumeration->0);
        }
        if a.examples is Some && b.examples is Some {
            lemma_numbers_of_union(a.examples->0, b.examples->0);
        }
    }
}

impl View for NumberSchema {
    type V = NumberModel;

    open spec fn view(&self) -> NumberModel {
        NumberModel {
            minimum: self.minimum,
            maximum: self.maximum,
            exclusive_minimum: self.exclusive_minimum,
            exclusive_maximum: self.exclusive_maximum,
            multiple_of: self.multiple_of,
            enumeration: opt_set_of(self.enumeration),
            title: opt_text(self.title),
            description: opt_text(self.description),
            examples: opt_set_of(self.examples),
        }
    }
}

impl Clone for NumberSchema {
    fn clone(&self) -> (r: Self)
        ensures
            r@ == self@,
    {
        NumberSchema {
            minimum: self.minimum,
            maximum: self.maximum,
            exclusive_minimum: self.exclusive_minimum,
            exclusive_maximum: self.exclusive_maximum,
            multiple_of: self.multiple_of,
            enumeration: copy_opt_list(&self.enumeration),
            title: copy_opt_text(&self.title),
            description: copy_opt_text(&self.description),
            examples: copy_opt_list(&self.examples),
        }
    }
}

impl PartialEq for NumberSchema {
    /// Whether the two schemas have the same content.
    fn eq(&self, other: &Self) -> (r: bool) {
        self.minimum == other.minimum
            && self.maximum == other.maximum
            && self.exclusive_minimum == other.exclusive_minimum
            && self.exclusive_maximum == other.exclusive_maximum
            && self.multiple_of == other.multiple_of
            && same_set(&self.enumeration, &other.enumeration)
            && same_opt_text(&self.title, &other.title)
            && same_opt_text(&self.description, &other.description)
            && same_set(&self.examples, &other.examples)
    }
}

impl PartialEqSpecImpl for NumberSchema {
    open spec fn obeys_eq_spec() -> bool {
        true
    }

    open spec fn eq_spec(&self, other: &Self) -> bool {
        self@ == other@
    }
}

impl Default for NumberSchema {
    fn default() -> (s: Self)
        ensures
            s@ == NumberModel::empty(),
    {
        NumberSchema {
            minimum: None,
            maximum: None,
            exclusive_minimum: None,
            exclusive_maximum: None,
            multiple_of: None,
            enumeration: None,
            title: None,
            description: None,
            examples: None,
        }
    }
}

/// An optional integer as an optional number.
fn number_of_opt(o: Option<i64>) -> (r: Option<Number>)
    ensures
        r == opt_of_int(o),
{
    match o {
        Some(n) => Some(Number::from_i64(n)),
        None => None,
    }
}

/// A list of integers as a list of numbers.
fn numbers_of_list(o: Option<Vec<i64>>) -> (r: Option<Vec<Number>>)
    ensures
        opt_set_of(r) == opt_numbers_of(opt_set_of(o)),
{
    match o {
        None => None,
        Some(list) => {
            let mut out: Vec<Number> = Vec::new();
            let mut i: usize = 0;
            proof {
                lemma_set_of_empty::<Number>();
                lemma_set_of_empty::<i64>();
                assert(list@.take(0) =~= Seq::<i64>::empty());
                assert(set_of(out@) =~= numbers_of(set_of(list@.take(0))));
            }
            while i < list.len()
                invariant
                    i <= list.len(),
                    set_of(out@) == numbers_of(set_of(list@.take(i as int))),
                decreases list.len() - i,
            {
                let n = Number::from_i64(list[i]);
                proof {
                    let before = list@.take(i as int);
                    assert(list@.take(i + 1) =~= before.push(list@[i as int]));
                    lemma_set_of_push(before, list@[i as int]);
                    lemma_set_of_push(out@, n);
                    let single = Set::<i64>::empty().insert(list@[i as int]);
                    assert(set_of(before).insert(list@[i as int]) =~= set_of(before).union(single));
                    lemma_numbers_of_union(set_of(before), single);
                    assert(numbers_of(single) =~= Set::<Number>::empty().insert(n)) by {
                        assert(single.contains(list@[i as int]));
                    }
                    assert(set_of(out@.push(n)) =~= numbers_of(set_of(list@.take(i + 1))));
                }
                out.push(n);
                i += 1;
            }
            proof {
                assert(list@.take(list.len() as int) =~= list@);
            }
            Some(out)
        },
    }
}

impl NumberSchema {
    /// The least schema that accepts what `self` or `other` accepts.
    pub fn merge(self, other: NumberSchema) -> (r: NumberSchema)
        ensures
            r@ == self@.merge(other@),
    {
        NumberSchema {
            minimum: merge_lower_number(self.minimum, other.minimum),
            maximum: merge_upper_number(self.maximum, other.maximum),
            exclusive_minimum: merge_lower_number(self.exclusive_minimum, other.exclusive_minimum),
            exclusive_maximum: merge_upper_number(self.exclusive_maximum, other.exclusive_maximum),
            multiple_of: merge_agree_number(self.multiple_of, other.multiple_of),
            enumeration: merge_either_set(self.enumeration, other.enumeration),
            title: merge_prefer_text(self.title, other.title),
            description: merge_prefer_text(self.description, other.description),
            examples: merge_gather(self.examples, other.examples),
        }
    }

    /// The number schema that accepts what the integer schema `i` accepts.
    pub fn from_integer(i: IntegerSchema) -> (r: NumberSchema)
        ensures
            r@ == widen(i@),
    {
        NumberSchema {
            minimum: number_of_opt(i.minimum),
            maximum: number_of_opt(i.maximum),
            exclusive_minimum: number_of_opt(i.exclusive_minimum),
            exclusive_maximum: number_of_opt(i.exclusive_maximum),
            multiple_of: match i.multiple_of {
                Some(m) => Some(Number::PosInt(m as u64)),
                None => None,
            },
            enumeration: numbers_of_list(i.enumeration),
            title: i.title,
            description: i.description,
            examples: numbers_of_list(i.examples),
        }
    }
}

} // verus!
