//! A mapping from names to values that keeps each name once.
//!
//! The entries live in a vector; the type invariant says that no two entries
//! share a name, so the vector stands for a finite map.

use crate::text::same_text;
use vstd::prelude::*;

verus! {

/// A finite mapping from strings to `V`, viewed as `Map<Seq<char>, V>`.
#[derive(Debug)]
pub struct Dict<V> {
    entries: Vec<(String, V)>,
}

/// No name occurs at two positions of `s`.
pub open spec fn distinct_names<V>(s: Seq<(Seq<char>, V)>) -> bool {
    forall|i: int, j: int| 0 <= i < j < s.len() ==> (#[trigger] s[i]).0 != (#[trigger] s[j]).0
}

/// Position `i` of `s` holds the name `k`.
pub open spec fn names_at<V>(s: Seq<(Seq<char>, V)>, k: Seq<char>, i: int) -> bool {
    0 <= i < s.len() && s[i].0 == k
}

/// The map that a sequence of entries with distinct names stands for.
pub open spec fn map_of<V>(s: Seq<(Seq<char>, V)>) -> Map<Seq<char>, V> {
    Map::new(
        |k: Seq<char>| exists|i: int| names_at(s, k, i),
        |k: Seq<char>| s[choose|i: int| names_at(s, k, i)].1,
    )
}

/// With distinct names, each entry is found under its own name.
pub proof fn lemma_map_of_entry<V>(s: Seq<(Seq<char>, V)>, i: int)
    requires
        distinct_names(s),
        0 <= i < s.len(),
    ensures
        map_of(s).dom().contains(s[i].0),
        map_of(s)[s[i].0] == s[i].1,
{
    assert(names_at(s, s[i].0, i));
    let j = choose|j: int| names_at(s, s[i].0, j);
    assert(j == i);
}

/// Appending an entry under a fresh name inserts it into the map.
pub proof fn lemma_map_of_push<V>(s: Seq<(Seq<char>, V)>, k: Seq<char>, v: V)
    requires
        distinct_names(s),
        !map_of(s).dom().contains(k),
    ensures
        distinct_names(s.push((k, v))),
        map_of(s.push((k, v))) == map_of(s).insert(k, v),
{
    let t = s.push((k, v));
    assert forall|i: int, j: int| 0 <= i < j < t.len() implies (#[trigger] t[i]).0 != (
    #[trigger] t[j]).0 by {
        if j == s.len() {
            assert(names_at(s, t[i].0, i));
        }
    }
    assert forall|key: Seq<char>| #[trigger]
        map_of(t).dom().contains(key) == map_of(s).insert(k, v).dom().contains(key) by {
        if map_of(t).dom().contains(key) {
            let i = choose|i: int| names_at(t, key, i);
            if i < s.len() {
                assert(names_at(s, key, i));
            }
        }
        if map_of(s).insert(k, v).dom().contains(key) {
            if key == k {
                assert(names_at(t, key, s.len() as int));
            } else {
                let i = choose|i: int| names_at(s, key, i);
                assert(names_at(t, key, i));
            }
        }
    }
    assert forall|key: Seq<char>| #[trigger] map_of(t).dom().contains(key) implies map_of(t)[key]
        == map_of(s).insert(k, v)[key] by {
        let i = choose|i: int| names_at(t, key, i);
        lemma_map_of_entry(t, i);
        if i < s.len() {
            assert(names_at(s, key, i));
            lemma_map_of_entry(s, i);
        }
    }
    assert(map_of(t) =~= map_of(s).insert(k, v));
}

/// Replacing the value at one position updates the map under that name.
pub proof fn lemma_map_of_update<V>(s: Seq<(Seq<char>, V)>, i: int, v: V)
    requires
        distinct_names(s),
        0 <= i < s.len(),
    ensures
        distinct_names(s.update(i, (s[i].0, v))),
        map_of(s.update(i, (s[i].0, v))) == map_of(s).insert(s[i].0, v),
{
    let k = s[i].0;
    let t = s.update(i, (k, v));
    assert forall|a: int, b: int| 0 <= a < b < t.len() implies (#[trigger] t[a]).0 != (
    #[trigger] t[b]).0 by {
        assert(t[a].0 == s[a].0 && t[b].0 == s[b].0);
    }
    assert forall|key: Seq<char>| #[trigger]
        map_of(t).dom().contains(key) == map_of(s).insert(k, v).dom().contains(key) by {
        if map_of(t).dom().contains(key) {
            let j = choose|j: int| names_at(t, key, j);
            assert(names_at(s, key, j));
        }
        if map_of(s).insert(k, v).dom().contains(key) {
            if key == k {
                assert(names_at(t, key, i));
            } else {
                let j = choose|j: int| names_at(s, key, j);
                assert(names_at(t, key, j));
            }
        }
    }
    assert forall|key: Seq<char>| #[trigger] map_of(t).dom().contains(key) implies map_of(t)[key]
        == map_of(s).insert(k, v)[key] by {
        let j = choose|j: int| names_at(t, key, j);
        lemma_map_of_entry(t, j);
        if j != i {
            assert(names_at(s, key, j));
            lemma_map_of_entry(s, j);
        }
    }
    assert(map_of(t) =~= map_of(s).insert(k, v));
}

/// Taking the entry at position `i` out, with the last entry moving into its
/// place, removes its name from the map.
pub proof fn lemma_map_of_swap_remove<V>(s: Seq<(Seq<char>, V)>, i: int)
    requires
        distinct_names(s),
        0 <= i < s.len(),
    ensures
        distinct_names(s.update(i, s.last()).drop_last()),
        map_of(s.update(i, s.last()).drop_last()) == map_of(s).remove(s[i].0),
{
    let k = s[i].0;
    let n = s.len() - 1;
    let t = s.update(i, s.last()).drop_last();
    assert forall|a: int| 0 <= a < t.len() implies #[trigger] t[a] == s[if a == i {
        n
    } else {
        a
    }] by {}
    assert forall|a: int, b: int| 0 <= a < b < t.len() implies (#[trigger] t[a]).0 != (
    #[trigger] t[b]).0 by {
        let sa = if a == i { n } else { a };
        let sb = if b == i { n } else { b };
        assert(t[a] == s[sa] && t[b] == s[sb]);
        if sa < sb {
            assert(s[sa].0 != s[sb].0);
        } else {
            assert(s[sb].0 != s[sa].0);
        }
    }
    assert forall|key: Seq<char>| #[trigger]
        map_of(t).dom().contains(key) == map_of(s).remove(k).dom().contains(key) by {
        if map_of(t).dom().contains(key) {
            let j = choose|j: int| names_at(t, key, j);
            let sj = if j == i { n } else { j };
            assert(t[j] == s[sj]);
            assert(names_at(s, key, sj));
            if sj < i {
                assert(s[sj].0 != s[i].0);
            } else {
                assert(s[i].0 != s[sj].0);
            }
        }
        if map_of(s).remove(k).dom().contains(key) {
            let j = choose|j: int| names_at(s, key, j);
            if j == n {
                assert(t[i] == s[n]);
                assert(names_at(t, key, i));
            } else {
                assert(t[j] == s[j]);
                assert(names_at(t, key, j));
            }
        }
    }
    assert forall|key: Seq<char>| #[trigger] map_of(t).dom().contains(key) implies map_of(t)[key]
        == map_of(s).remove(k)[key] by {
        let j = choose|j: int| names_at(t, key, j);
        lemma_map_of_entry(t, j);
        let sj = if j == i { n } else { j };
        assert(t[j] == s[sj]);
        lemma_map_of_entry(s, sj);
    }
    assert(map_of(t) =~= map_of(s).remove(k));
}

/// A map built from entries is finite, with at most one name per entry.
pub proof fn lemma_map_of_finite<V>(s: Seq<(Seq<char>, V)>)
    requires
        distinct_names(s),
    ensures
        map_of(s).dom().finite(),
        map_of(s).dom().len() == s.len(),
    decreases s.len(),
{
    if s.len() == 0 {
        assert(map_of(s).dom() =~= Set::<Seq<char>>::empty());
    } else {
        let t = s.drop_last();
        assert(distinct_names(t)) by {
            assert forall|i: int, j: int| 0 <= i < j < t.len() implies (#[trigger] t[i]).0 != (
            #[trigger] t[j]).0 by {
                assert(t[i] == s[i] && t[j] == s[j]);
            }
        }
        lemma_map_of_finite(t);
        let last = s.last();
        assert(!map_of(t).dom().contains(last.0)) by {
            if map_of(t).dom().contains(last.0) {
                let i = choose|i: int| names_at(t, last.0, i);
                assert(s[i].0 != s[s.len() - 1].0);
            }
        }
        lemma_map_of_push(t, last.0, last.1);
        assert(t.push((last.0, last.1)) =~= s);
    }
}

impl<V> Dict<V> {
    #[verifier::type_invariant]
    spec fn each_name_once(self) -> bool {
        distinct_names(self.entries())
    }

    /// The entries in the order in which they are stored.
    pub closed spec fn entries(self) -> Seq<(Seq<char>, V)> {
        Seq::new(self.entries@.len(), |i: int| (self.entries@[i].0@, self.entries@[i].1))
    }

    /// The mapping that the entries stand for.
    pub open spec fn view(self) -> Map<Seq<char>, V> {
        map_of(self.entries())
    }

    /// A value held in the mapping is structurally smaller than the mapping.
    pub proof fn lemma_entry_decreases(self, i: int)
        requires
            0 <= i < self.entries().len(),
        ensures
            decreases_to!(self => self.entries()[i].1),
    {
        assert(decreases_to!(self => self.entries));
        assert(decreases_to!(self.entries => self.entries[i]));
        assert(decreases_to!(self.entries[i] => self.entries[i].1));
    }

    /// The empty mapping.
    pub fn new() -> (d: Self)
        ensures
            d.entries() == Seq::<(Seq<char>, V)>::empty(),
            d@ == Map::<Seq<char>, V>::empty(),
    {
        let d = Dict { entries: Vec::new() };
        assert(d.entries() =~= Seq::<(Seq<char>, V)>::empty());
        assert(d@ =~= Map::<Seq<char>, V>::empty());
        d
    }

    /// The number of entries.
    pub fn len(&self) -> (n: usize)
        ensures
            n == self.entries().len(),
            n == self@.dom().len(),
            self@.dom().finite(),
            distinct_names(self.entries()),
    {
        proof {
            use_type_invariant(self);
            lemma_map_of_finite(self.entries());
        }
        self.entries.len()
    }

    /// Whether the mapping holds nothing.
    pub fn is_empty(&self) -> (b: bool)
        ensures
            b == (self.entries().len() == 0),
            b == (self@ == Map::<Seq<char>, V>::empty()),
    {
        proof {
            use_type_invariant(self);
            lemma_map_of_finite(self.entries());
            if self.entries().len() == 0 {
                assert(self@ =~= Map::<Seq<char>, V>::empty());
            }
        }
        self.entries.len() == 0
    }

    /// The position at which `key` is stored, if it is stored.
    pub fn position(&self, key: &str) -> (r: Option<usize>)
        ensures
            distinct_names(self.entries()),
            match r {
                Some(i) => names_at(self.entries(), key@, i as int),
                None => !self@.dom().contains(key@),
            },
    {
        proof {
            use_type_invariant(self);
        }
        let mut i: usize = 0;
        while i < self.entries.len()
            invariant
                i <= self.entries.len(),
                distinct_names(self.entries()),
                forall|j: int| 0 <= j < i ==> !names_at(self.entries(), key@, j),
            decreases self.entries.len() - i,
        {
            assert(self.entries()[i as int].0 == self.entries@[i as int].0@);
            if same_text(self.entries[i].0.as_str(), key) {
                return Some(i);
            }
            i += 1;
        }
        None
    }

    /// The name and the value stored at position `i`.
    pub fn entry_at(&self, i: usize) -> (r: (&String, &V))
        requires
            i < self.entries().len(),
        ensures
            r.0@ == self.entries()[i as int].0,
            *r.1 == self.entries()[i as int].1,
            distinct_names(self.entries()),
            self@.dom().contains(r.0@),
            self@[r.0@] == *r.1,
    {
        proof {
            use_type_invariant(self);
            lemma_map_of_entry(self.entries(), i as int);
        }
        (&self.entries[i].0, &self.entries[i].1)
    }

    /// The value stored under `key`, if there is one.
    pub fn get(&self, key: &str) -> (r: Option<&V>)
        ensures
            match r {
                Some(v) => self@.dom().contains(key@) && *v == self@[key@],
                None => !self@.dom().contains(key@),
            },
    {
        match self.position(key) {
            Some(i) => {
                proof {
                    lemma_map_of_entry(self.entries(), i as int);
                }
                Some(&self.entries[i].1)
            },
            None => None,
        }
    }

    /// Whether a value is stored under `key`.
    pub fn contains_key(&self, key: &str) -> (b: bool)
        ensures
            b == self@.dom().contains(key@),
    {
        self.position(key).is_some()
    }

    /// Appends an entry whose name is not stored yet.
    pub(crate) fn insert_new(&mut self, key: String, value: V)
        requires
            !old(self)@.dom().contains(key@),
        ensures
            final(self).entries() == old(self).entries().push((key@, value)),
            final(self)@ == old(self)@.insert(key@, value),
    {
        proof {
            use_type_invariant(&*self);
            lemma_map_of_push(self.entries(), key@, value);
        }
        let ghost before = self.entries();
        let mut entries = Vec::new();
        std::mem::swap(&mut entries, &mut self.entries);
        entries.push((key, value));
        proof {
            let after = Seq::new(entries@.len(), |i: int| (entries@[i].0@, entries@[i].1));
            assert(after =~= before.push((key@, value)));
        }
        self.entries = entries;
        assert(self.entries() =~= before.push((key@, value)));
    }

    /// Stores `value` under `key` and returns what was stored there before.
    pub fn insert(&mut self, key: String, value: V) -> (previous: Option<V>)
        ensures
            final(self)@ == old(self)@.insert(key@, value),
            previous == if old(self)@.dom().contains(key@) {
                Some(old(self)@[key@])
            } else {
                None
            },
            final(self).entries() == if old(self)@.dom().contains(key@) {
                old(self).entries().update(
                    choose|i: int| names_at(old(self).entries(), key@, i),
                    (key@, value),
                )
            } else {
                old(self).entries().push((key@, value))
            },
    {
        match self.position(key.as_str()) {
            Some(i) => {
                let ghost before = self.entries();
                proof {
                    lemma_map_of_entry(before, i as int);
                    lemma_map_of_update(before, i as int, value);
                    let found = choose|j: int| names_at(before, key@, j);
                    assert(found == i);
                }
                let mut entries = Vec::new();
                std::mem::swap(&mut entries, &mut self.entries);
                entries.push((key, value));
                let (_, old_value) = entries.swap_remove(i);
                proof {
                    let after = Seq::new(entries@.len(), |j: int| (entries@[j].0@, entries@[j].1));
                    assert(after =~= before.update(i as int, (before[i as int].0, value)));
                }
                self.entries = entries;
                assert(self.entries() =~= before.update(i as int, (before[i as int].0, value)));
                Some(old_value)
            },
            None => {
                self.insert_new(key, value);
                None
            },
        }
    }

    /// Takes the value stored under `key` out of the mapping.
    pub fn remove(&mut self, key: &str) -> (taken: Option<V>)
        ensures
            final(self)@ == old(self)@.remove(key@),
            taken == if old(self)@.dom().contains(key@) {
                Some(old(self)@[key@])
            } else {
                None
            },
            taken matches Some(v) ==> decreases_to!(*old(self) => v),
            final(self).entries() == if old(self)@.dom().contains(key@) {
                old(self).entries().update(
                    choose|i: int| names_at(old(self).entries(), key@, i),
                    old(self).entries().last(),
                ).drop_last()
            } else {
                old(self).entries()
            },
    {
        match self.position(key) {
            Some(i) => {
                let ghost before = self.entries();
                proof {
                    lemma_map_of_entry(before, i as int);
                    lemma_map_of_swap_remove(before, i as int);
                    self.lemma_entry_decreases(i as int);
                    let found = choose|j: int| names_at(before, key@, j);
                    assert(found == i);
                }
                let mut entries = Vec::new();
                std::mem::swap(&mut entries, &mut self.entries);
                let (_, value) = entries.swap_remove(i);
                proof {
                    let after = Seq::new(entries@.len(), |j: int| (entries@[j].0@, entries@[j].1));
                    assert(after =~= before.update(i as int, before.last()).drop_last());
                }
                self.entries = entries;
                assert(self.entries() =~= before.update(i as int, before.last()).drop_last());
                Some(value)
            },
            None => {
                assert(self@.remove(key@) =~= self@);
                None
            },
        }
    }

    /// Takes the entry stored last out of the mapping.
    pub fn pop(&mut self) -> (taken: Option<(String, V)>)
        ensures
            match taken {
                Some((k, v)) => {
                    &&& old(self).entries().len() > 0
                    &&& final(self).entries() == old(self).entries().drop_last()
                    &&& (k@, v) == old(self).entries().last()
                    &&& old(self)@.dom().contains(k@)
                    &&& old(self)@[k@] == v
                    &&& final(self)@ == old(self)@.remove(k@)
                    &&& decreases_to!(*old(self) => v)
                },
                None => old(self).entries().len() == 0 && *final(self) == *old(self),
            },
    {
        proof {
            use_type_invariant(&*self);
        }
        let ghost before = self.entries();
        let n = self.entries.len();
        if n == 0 {
            return None;
        }
        proof {
            lemma_map_of_entry(before, n - 1);
            lemma_map_of_swap_remove(before, n - 1);
            self.lemma_entry_decreases(n - 1);
            assert(before.update(n - 1, before.last()).drop_last() =~= before.drop_last());
        }
        let mut entries = Vec::new();
        std::mem::swap(&mut entries, &mut self.entries);
        let last = entries.pop();
        proof {
            let after = Seq::new(entries@.len(), |j: int| (entries@[j].0@, entries@[j].1));
            assert(after =~= before.drop_last());
        }
        self.entries = entries;
        assert(self.entries() =~= before.drop_last());
        last
    }
}

} // verus!
