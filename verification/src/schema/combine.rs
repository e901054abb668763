//! How two sightings of one constraint or one piece of metadata combine.
//!
//! A constraint that is absent on either side stays absent: the merged schema
//! must accept what either side accepts. Metadata that is absent on one side
//! is taken from the other.

use crate::number::Number;
use crate::text::{
    lemma_text_min_associative, lemma_text_min_commutative, precedes, same_text, text_min,
};
use vstd::prelude::*;

verus! {

/// A value that can stand in an enumeration or a list of examples: it has a
/// mathematical model, and an equality test that decides equality of models.
pub trait Atom: Sized {
    type Model;

    spec fn model(&self) -> Self::Model;

    fn same(&self, other: &Self) -> (b: bool)
        ensures
            b == (self.model() == other.model()),
    ;

    fn copy(&self) -> (r: Self)
        ensures
            r.model() == self.model(),
    ;
}

impl Atom for i64 {
    type Model = i64;

    open spec fn model(&self) -> i64 {
        *self
    }

    fn same(&self, other: &Self) -> (b: bool) {
        *self == *other
    }

    fn copy(&self) -> (r: Self) {
        *self
    }
}

impl Atom for bool {
    type Model = bool;

    open spec fn model(&self) -> bool {
        *self
    }

    fn same(&self, other: &Self) -> (b: bool) {
        *self == *other
    }

    fn copy(&self) -> (r: Self) {
        *self
    }
}

impl Atom for Number {
    type Model = Number;

    open spec fn model(&self) -> Number {
        *self
    }

    fn same(&self, other: &Self) -> (b: bool) {
        *self == *other
    }

    fn copy(&self) -> (r: Self) {
        *self
    }
}

impl Atom for String {
    type Model = Seq<char>;

    open spec fn model(&self) -> Seq<char> {
        self@
    }

    fn same(&self, other: &Self) -> (b: bool) {
        same_text(self.as_str(), other.as_str())
    }

    fn copy(&self) -> (r: Self) {
        self.clone()
    }
}

/// The set of the models of a list's items.
pub open spec fn set_of<T: Atom>(s: Seq<T>) -> Set<T::Model> {
    Set::new(|m: T::Model| exists|i: int| 0 <= i < s.len() && (#[trigger] s[i]).model() == m)
}

/// No two items of the list have the same model.
pub open spec fn no_duplicates<T: Atom>(s: Seq<T>) -> bool {
    forall|i: int, j: int| 0 <= i < j < s.len() ==> (#[trigger] s[i]).model() != (#[trigger] s[j]).model()
}

/// The set that an optional list stands for.
pub open spec fn opt_set_of<T: Atom>(o: Option<Vec<T>>) -> Option<Set<T::Model>> {
    match o {
        Some(v) => Some(set_of(v@)),
        None => None,
    }
}

/// The characters of an optional string.
pub open spec fn opt_text(o: Option<String>) -> Option<Seq<char>> {
    match o {
        Some(s) => Some(s@),
        None => None,
    }
}

pub proof fn lemma_set_of_push<T: Atom>(s: Seq<T>, x: T)
    ensures
        set_of(s.push(x)) == set_of(s).insert(x.model()),
{
    let t = s.push(x);
    assert forall|m: T::Model| set_of(t).contains(m) == set_of(s).insert(x.model()).contains(
        m,
    ) by {
        if set_of(t).contains(m) {
            let i = choose|i: int| 0 <= i < t.len() && (#[trigger] t[i]).model() == m;
            if i < s.len() {
                assert(s[i].model() == m);
            }
        }
        if set_of(s).contains(m) {
            let i = choose|i: int| 0 <= i < s.len() && (#[trigger] s[i]).model() == m;
            assert(t[i].model() == m);
        }
        if m == x.model() {
            assert(t[s.len() as int].model() == m);
        }
    }
    assert(set_of(t) =~= set_of(s).insert(x.model()));
}

pub proof fn lemma_set_of_empty<T: Atom>()
    ensures
        set_of(Seq::<T>::empty()) == Set::<T::Model>::empty(),
{
    assert(set_of(Seq::<T>::empty()) =~= Set::<T::Model>::empty());
}

/// Whether `x` occurs in `list`.
pub fn contains<T: Atom>(list: &Vec<T>, x: &T) -> (b: bool)
    ensures
        b == set_of(list@).contains(x.model()),
{
    let mut i: usize = 0;
    while i < list.len()
        invariant
            i <= list.len(),
            forall|j: int| 0 <= j < i ==> (#[trigger] list@[j]).model() != x.model(),
        decreases list.len() - i,
    {
        if list[i].same(x) {
            return true;
        }
        i += 1;
    }
    false
}

/// Whether every item of `a` occurs in `b`.
pub fn subset<T: Atom>(a: &Vec<T>, b: &Vec<T>) -> (r: bool)
    ensures
        r == set_of(a@).subset_of(set_of(b@)),
{
    let mut i: usize = 0;
    while i < a.len()
        invariant
            i <= a.len(),
            forall|j: int| 0 <= j < i ==> set_of(b@).contains((#[trigger] a@[j]).model()),
        decreases a.len() - i,
    {
        if !contains(b, &a[i]) {
            assert(set_of(a@).contains(a@[i as int].model()));
            return false;
        }
        i += 1;
    }
    true
}

/// Whether two optional lists stand for the same set, or are both absent.
pub fn same_set<T: Atom>(a: &Option<Vec<T>>, b: &Option<Vec<T>>) -> (r: bool)
    ensures
        r == (opt_set_of(*a) == opt_set_of(*b)),
{
    match (a, b) {
        (Some(x), Some(y)) => {
            let r = subset(x, y) && subset(y, x);
            proof {
                if r {
                    assert(set_of(x@) =~= set_of(y@));
                }
            }
            r
        },
        (None, None) => true,
        _ => false,
    }
}

/// Whether two lists stand for the same set.
pub fn same_items<T: Atom>(a: &Vec<T>, b: &Vec<T>) -> (r: bool)
    ensures
        r == (set_of(a@) == set_of(b@)),
{
    let r = subset(a, b) && subset(b, a);
    proof {
        if r {
            assert(set_of(a@) =~= set_of(b@));
        }
    }
    r
}

/// Whether two optional strings hold the same characters, or are both absent.
pub fn same_opt_text(a: &Option<String>, b: &Option<String>) -> (r: bool)
    ensures
        r == (opt_text(*a) == opt_text(*b)),
{
    match (a, b) {
        (Some(x), Some(y)) => same_text(x.as_str(), y.as_str()),
        (None, None) => true,
        _ => false,
    }
}

/// A copy of a list, item by item.
pub fn copy_list<T: Atom>(a: &Vec<T>) -> (r: Vec<T>)
    ensures
        r@.len() == a@.len(),
        forall|i: int| 0 <= i < a@.len() ==> (#[trigger] r@[i]).model() == a@[i].model(),
        set_of(r@) == set_of(a@),
{
    let mut r: Vec<T> = Vec::new();
    let mut i: usize = 0;
    while i < a.len()
        invariant
            i <= a.len(),
            r@.len() == i,
            forall|j: int| 0 <= j < i ==> (#[trigger] r@[j]).model() == a@[j].model(),
        decreases a.len() - i,
    {
        r.push(a[i].copy());
        i += 1;
    }
    proof {
        assert forall|m: T::Model| set_of(r@).contains(m) == set_of(a@).contains(m) by {
            if set_of(r@).contains(m) {
                let j = choose|j: int| 0 <= j < r@.len() && (#[trigger] r@[j]).model() == m;
                assert(a@[j].model() == m);
            }
            if set_of(a@).contains(m) {
                let j = choose|j: int| 0 <= j < a@.len() && (#[trigger] a@[j]).model() == m;
                assert(r@[j].model() == m);
            }
        }
        assert(set_of(r@) =~= set_of(a@));
    }
    r
}

/// A copy of an optional list.
pub fn copy_opt_list<T: Atom>(a: &Option<Vec<T>>) -> (r: Option<Vec<T>>)
    ensures
        opt_set_of(r) == opt_set_of(*a),
{
    match a {
        Some(list) => Some(copy_list(list)),
        None => None,
    }
}

/// A copy of an optional string.
pub fn copy_opt_text(a: &Option<String>) -> (r: Option<String>)
    ensures
        opt_text(r) == opt_text(*a),
{
    match a {
        Some(text) => Some(text.clone()),
        None => None,
    }
}

/// The items of `s` in order, each where it occurs first.
pub open spec fn first_occurrences<T: Atom>(s: Seq<T>) -> Seq<T>
    decreases s.len(),
{
    if s.len() == 0 {
        Seq::empty()
    } else {
        let head = first_occurrences(s.drop_last());
        if set_of(head).contains(s.last().model()) {
            head
        } else {
            head.push(s.last())
        }
    }
}

/// The items of `s` that occur in `b`, in order, each where it occurs first.
pub open spec fn first_common<T: Atom>(s: Seq<T>, b: Seq<T>) -> Seq<T>
    decreases s.len(),
{
    if s.len() == 0 {
        Seq::empty()
    } else {
        let head = first_common(s.drop_last(), b);
        if !set_of(b).contains(s.last().model()) || set_of(head).contains(s.last().model()) {
            head
        } else {
            head.push(s.last())
        }
    }
}

/// Keeping first occurrences keeps every item once.
pub proof fn lemma_first_occurrences<T: Atom>(s: Seq<T>)
    ensures
        no_duplicates(first_occurrences(s)),
        set_of(first_occurrences(s)) == set_of(s),
    decreases s.len(),
{
    if s.len() == 0 {
        assert(set_of(first_occurrences(s)) =~= set_of(s));
    } else {
        let head = first_occurrences(s.drop_last());
        lemma_first_occurrences(s.drop_last());
        lemma_set_of_push(s.drop_last(), s.last());
        lemma_set_of_push(head, s.last());
        assert(s.drop_last().push(s.last()) =~= s);
        let r = first_occurrences(s);
        assert(set_of(r) =~= set_of(s));
        if !set_of(head).contains(s.last().model()) {
            assert forall|i: int, j: int| 0 <= i < j < r.len() implies (#[trigger] r[i]).model() != (
            #[trigger] r[j]).model() by {
                if j == head.len() {
                    assert(head[i].model() != s.last().model());
                }
            }
        }
    }
}

/// Keeping the first occurrences of what is common keeps every common item
/// once.
pub proof fn lemma_first_common<T: Atom>(s: Seq<T>, b: Seq<T>)
    ensures
        no_duplicates(first_common(s, b)),
        set_of(first_common(s, b)) == set_of(s).intersect(set_of(b)),
    decreases s.len(),
{
    if s.len() == 0 {
        assert(set_of(first_common(s, b)) =~= set_of(s).intersect(set_of(b)));
    } else {
        let head = first_common(s.drop_last(), b);
        lemma_first_common(s.drop_last(), b);
        lemma_set_of_push(s.drop_last(), s.last());
        lemma_set_of_push(head, s.last());
        assert(s.drop_last().push(s.last()) =~= s);
        let r = first_common(s, b);
        assert(set_of(r) =~= set_of(s).intersect(set_of(b)));
        if r.len() > head.len() {
            assert forall|i: int, j: int| 0 <= i < j < r.len() implies (#[trigger] r[i]).model() != (
            #[trigger] r[j]).model() by {
                if j == head.len() {
                    assert(head[i].model() != s.last().model());
                }
            }
        }
    }
}

/// The items of `list` in reverse order.
fn reversed<T>(list: Vec<T>) -> (r: Vec<T>)
    ensures
        r@ == list@.reverse(),
{
    let mut rest = list;
    let mut r: Vec<T> = Vec::new();
    while rest.len() > 0
        invariant
            rest@.len() + r@.len() == list@.len(),
            forall|i: int| 0 <= i < rest@.len() ==> rest@[i] == list@[i],
            forall|i: int| 0 <= i < r@.len() ==> r@[i] == list@[list@.len() - 1 - i],
        decreases rest.len(),
    {
        let x = rest.pop().unwrap();
        r.push(x);
    }
    assert(r@ =~= list@.reverse());
    r
}

/// Appends to `out` the items of `more` that it does not hold yet.
fn extend_new<T: Atom>(out: &mut Vec<T>, more: Vec<T>, Ghost(seen): Ghost<Seq<T>>)
    requires
        old(out)@ == first_occurrences(seen),
    ensures
        final(out)@ == first_occurrences(seen + more@),
{
    let ghost n = more@.len();
    let mut rest = reversed(more);
    proof {
        assert(seen + more@.take(0) =~= seen);
    }
    while rest.len() > 0
        invariant
            n == more@.len(),
            rest@.len() <= n,
            forall|i: int| 0 <= i < rest@.len() ==> rest@[i] == more@[n - 1 - i],
            out@ == first_occurrences(seen + more@.take(n - rest@.len())),
        decreases rest.len(),
    {
        let ghost k = n - rest@.len();
        let x = rest.pop().unwrap();
        proof {
            let done = seen + more@.take(k);
            let next = seen + more@.take(k + 1);
            assert(x == more@[k]);
            assert(next.drop_last() =~= done);
            assert(next.last() == x);
        }
        if !contains(out, &x) {
            out.push(x);
        }
    }
    proof {
        assert(more@.take(n as int) =~= more@);
    }
}

/// The items of `a` and then of `b`, each once, where it occurs first.
pub fn union<T: Atom>(a: Vec<T>, b: Vec<T>) -> (r: Vec<T>)
    ensures
        r@ == first_occurrences(a@ + b@),
        no_duplicates(r@),
        set_of(r@) == set_of(a@).union(set_of(b@)),
{
    let mut r: Vec<T> = Vec::new();
    proof {
        assert(Seq::<T>::empty() + a@ =~= a@);
    }
    extend_new(&mut r, a, Ghost(Seq::empty()));
    extend_new(&mut r, b, Ghost(a@));
    proof {
        lemma_first_occurrences(a@ + b@);
        lemma_set_of_concat(a@, b@);
    }
    r
}

/// The set of a concatenation is the union of the sets.
pub proof fn lemma_set_of_concat<T: Atom>(a: Seq<T>, b: Seq<T>)
    ensures
        set_of(a + b) == set_of(a).union(set_of(b)),
{
    let c = a + b;
    assert forall|m: T::Model| set_of(c).contains(m) == set_of(a).union(set_of(b)).contains(m) by {
        if set_of(c).contains(m) {
            let i = choose|i: int| 0 <= i < c.len() && (#[trigger] c[i]).model() == m;
            if i < a.len() {
                assert(a[i].model() == m);
            } else {
                assert(b[i - a.len()].model() == m);
            }
        }
        if set_of(a).contains(m) {
            let i = choose|i: int| 0 <= i < a.len() && (#[trigger] a[i]).model() == m;
            assert(c[i].model() == m);
        }
        if set_of(b).contains(m) {
            let i = choose|i: int| 0 <= i < b.len() && (#[trigger] b[i]).model() == m;
            assert(c[a.len() + i].model() == m);
        }
    }
    assert(set_of(c) =~= set_of(a).union(set_of(b)));
}

/// The items of `a` that occur in `b`, each once, where it occurs first.
pub fn intersection<T: Atom>(a: Vec<T>, b: &Vec<T>) -> (r: Vec<T>)
    ensures
        r@ == first_common(a@, b@),
        no_duplicates(r@),
        set_of(r@) == set_of(a@).intersect(set_of(b@)),
{
    let ghost n = a@.len();
    let mut r: Vec<T> = Vec::new();
    let mut rest = reversed(a);
    proof {
        assert(a@.take(0) =~= Seq::<T>::empty());
    }
    while rest.len() > 0
        invariant
            n == a@.len(),
            rest@.len() <= n,
            forall|i: int| 0 <= i < rest@.len() ==> rest@[i] == a@[n - 1 - i],
            r@ == first_common(a@.take(n - rest@.len()), b@),
        decreases rest.len(),
    {
        let ghost k = n - rest@.len();
        let x = rest.pop().unwrap();
        proof {
            assert(x == a@[k]);
            assert(a@.take(k + 1).drop_last() =~= a@.take(k));
            assert(a@.take(k + 1).last() == x);
        }
        if contains(b, &x) && !contains(&r, &x) {
            r.push(x);
        }
    }
    proof {
        assert(a@.take(n as int) =~= a@);
        lemma_first_common(a@, b@);
    }
    r
}

/// A lower bound after a merge: the smaller one, absent if either is absent.
pub open spec fn lower<T>(a: Option<T>, b: Option<T>, le: spec_fn(T, T) -> bool) -> Option<T> {
    match (a, b) {
        (Some(x), Some(y)) => Some(if le(x, y) { x } else { y }),
        _ => None,
    }
}

/// An upper bound after a merge: the larger one, absent if either is absent.
pub open spec fn upper<T>(a: Option<T>, b: Option<T>, le: spec_fn(T, T) -> bool) -> Option<T> {
    match (a, b) {
        (Some(x), Some(y)) => Some(if le(x, y) { y } else { x }),
        _ => None,
    }
}

/// A constraint kept only where both sides state the same.
pub open spec fn agree<T>(a: Option<T>, b: Option<T>) -> Option<T> {
    if a == b {
        a
    } else {
        None
    }
}

/// An enumeration after a merge: the union, absent if either is absent.
pub open spec fn either_set<T>(a: Option<Set<T>>, b: Option<Set<T>>) -> Option<Set<T>> {
    match (a, b) {
        (Some(x), Some(y)) => Some(x.union(y)),
        _ => None,
    }
}

/// Examples after a merge: those of both sides.
pub open spec fn gather<T>(a: Option<Set<T>>, b: Option<Set<T>>) -> Option<Set<T>> {
    match (a, b) {
        (Some(x), Some(y)) => Some(x.union(y)),
        (None, _) => b,
        (_, None) => a,
    }
}

/// A title or description after a merge: that of the side that has one, the
/// smaller in the order on strings where both have one.
pub open spec fn prefer_text(a: Option<Seq<char>>, b: Option<Seq<char>>) -> Option<Seq<char>> {
    match (a, b) {
        (Some(x), Some(y)) => Some(text_min(x, y)),
        (None, _) => b,
        (_, None) => a,
    }
}

pub open spec fn le_i64() -> spec_fn(i64, i64) -> bool {
    |x: i64, y: i64| x <= y
}

pub open spec fn le_usize() -> spec_fn(usize, usize) -> bool {
    |x: usize, y: usize| x <= y
}

pub open spec fn le_number() -> spec_fn(Number, Number) -> bool {
    |x: Number, y: Number| x.le(y)
}

pub proof fn lemma_prefer_text_commutative(a: Option<Seq<char>>, b: Option<Seq<char>>)
    ensures
        prefer_text(a, b) == prefer_text(b, a),
{
    if a is Some && b is Some {
        lemma_text_min_commutative(a->0, b->0);
    }
}

pub proof fn lemma_prefer_text_associative(
    a: Option<Seq<char>>,
    b: Option<Seq<char>>,
    c: Option<Seq<char>>,
)
    ensures
        prefer_text(prefer_text(a, b), c) == prefer_text(a, prefer_text(b, c)),
{
    if a is Some && b is Some && c is Some {
        lemma_text_min_associative(a->0, b->0, c->0);
    }
}

pub fn merge_lower_i64(a: Option<i64>, b: Option<i64>) -> (r: Option<i64>)
    ensures
        r == lower(a, b, le_i64()),
{
    match (a, b) {
        (Some(x), Some(y)) => Some(if x <= y { x } else { y }),
        _ => None,
    }
}

pub fn merge_upper_i64(a: Option<i64>, b: Option<i64>) -> (r: Option<i64>)
    ensures
        r == upper(a, b, le_i64()),
{
    match (a, b) {
        (Some(x), Some(y)) => Some(if x <= y { y } else { x }),
        _ => None,
    }
}

pub fn merge_lower_usize(a: Option<usize>, b: Option<usize>) -> (r: Option<usize>)
    ensures
        r == lower(a, b, le_usize()),
{
    match (a, b) {
        (Some(x), Some(y)) => Some(if x <= y { x } else { y }),
        _ => None,
    }
}

pub fn merge_upper_usize(a: Option<usize>, b: Option<usize>) -> (r: Option<usize>)
    ensures
        r == upper(a, b, le_usize()),
{
    match (a, b) {
        (Some(x), Some(y)) => Some(if x <= y { y } else { x }),
        _ => None,
    }
}

pub fn merge_lower_number(a: Option<Number>, b: Option<Number>) -> (r: Option<Number>)
    ensures
        r == lower(a, b, le_number()),
{
    match (a, b) {
        (Some(x), Some(y)) => Some(if x.precedes(&y) { x } else { y }),
        _ => None,
    }
}

pub fn merge_upper_number(a: Option<Number>, b: Option<Number>) -> (r: Option<Number>)
    ensures
        r == upper(a, b, le_number()),
{
    match (a, b) {
        (Some(x), Some(y)) => Some(if x.precedes(&y) { y } else { x }),
        _ => None,
    }
}

pub fn merge_agree_usize(a: Option<usize>, b: Option<usize>) -> (r: Option<usize>)
    ensures
        r == agree(a, b),
{
    match (a, b) {
        (Some(x), Some(y)) => if x == y { Some(x) } else { None },
        _ => None,
    }
}

pub fn merge_agree_number(a: Option<Number>, b: Option<Number>) -> (r: Option<Number>)
    ensures
        r == agree(a, b),
{
    match (a, b) {
        (Some(x), Some(y)) => if x == y { Some(x) } else { None },
        _ => None,
    }
}

pub fn merge_agree_text(a: Option<String>, b: Option<String>) -> (r: Option<String>)
    ensures
        opt_text(r) == agree(opt_text(a), opt_text(b)),
{
    match (a, b) {
        (Some(x), Some(y)) => if same_text(x.as_str(), y.as_str()) { Some(x) } else { None },
        _ => None,
    }
}

pub fn merge_prefer_text(a: Option<String>, b: Option<String>) -> (r: Option<String>)
    ensures
        opt_text(r) == prefer_text(opt_text(a), opt_text(b)),
{
    match (a, b) {
        (Some(x), Some(y)) => Some(if precedes(x.as_str(), y.as_str()) { x } else { y }),
        (None, y) => y,
        (x, None) => x,
    }
}

pub fn merge_either_set<T: Atom>(a: Option<Vec<T>>, b: Option<Vec<T>>) -> (r: Option<Vec<T>>)
    ensures
        opt_set_of(r) == either_set(opt_set_of(a), opt_set_of(b)),
{
    match (a, b) {
        (Some(x), Some(y)) => Some(union(x, y)),
        _ => None,
    }
}

pub fn merge_gather<T: Atom>(a: Option<Vec<T>>, b: Option<Vec<T>>) -> (r: Option<Vec<T>>)
    ensures
        opt_set_of(r) == gather(opt_set_of(a), opt_set_of(b)),
{
    match (a, b) {
        (Some(x), Some(y)) => Some(union(x, y)),
        (None, y) => y,
        (x, None) => x,
    }
}

} // verus!
