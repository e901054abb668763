//! What is known of a position that holds objects.

use crate::dict::{lemma_map_of_entry, names_at, Dict};
use crate::schema::combine::{
    copy_list, copy_opt_text, intersection, merge_prefer_text, opt_text, same_items,
    same_opt_text, set_of,
};
use crate::schema::model::{ObjectModel, SchemaModel};
use crate::schema::Schema;
use vstd::prelude::*;
use vstd::std_specs::cmp::PartialEqSpecImpl;

verus! {

/// The properties seen on the objects at one position, and which of them
/// every one of those objects had.
#[derive(Debug)]
pub struct ObjectSchema {
    pub title: Option<String>,
    pub description: Option<String>,
    pub properties: Dict<Schema>,
    pub required: Vec<String>,
}

/// The mathematical content of a table of properties.
pub open spec fn properties_model(d: Dict<Schema>) -> Map<Seq<char>, SchemaModel>
    decreases d,
{
    Map::new(
        |k: Seq<char>| d@.dom().contains(k),
        |k: Seq<char>|
            if d@.dom().contains(k) {
                proof {
                    d.lemma_entry_decreases(choose|i: int| names_at(d.entries(), k, i));
                }
                d@[k]@
            } else {
                SchemaModel::nothing()
            },
    )
}

/// A copy of a table of properties.
pub fn duplicate_properties(d: &Dict<Schema>) -> (r: Dict<Schema>)
    ensures
        properties_model(r) == properties_model(*d),
    decreases d,
{
    let mut out: Dict<Schema> = Dict::new();
    let n = d.len();
    let mut i: usize = 0;
    while i < n
        invariant
            i <= n,
            n == d.entries().len(),
            crate::dict::distinct_names(d.entries()),
            forall|k: Seq<char>| #[trigger]
                out@.dom().contains(k) <==> exists|j: int| 0 <= j < i && names_at(d.entries(), k, j),
            forall|k: Seq<char>| #[trigger]
                out@.dom().contains(k) ==> d@.dom().contains(k) && out@[k]@ == d@[k]@,
        decreases n - i,
    {
        let (name, schema) = d.entry_at(i);
        proof {
            d.lemma_entry_decreases(i as int);
            if out@.dom().contains(name@) {
                let j = choose|j: int| 0 <= j < i && names_at(d.entries(), name@, j);
                assert(d.entries()[j].0 != d.entries()[i as int].0);
            }
        }
        let ghost before = out@;
        out.insert_new(name.clone(), schema.duplicate());
        proof {
            assert forall|k: Seq<char>| #[trigger] out@.dom().contains(k) implies exists|j: int|
                0 <= j < i + 1 && names_at(d.entries(), k, j) by {
                if k == name@ {
                    assert(names_at(d.entries(), k, i as int));
                } else {
                    let j = choose|j: int| 0 <= j < i && names_at(d.entries(), k, j);
                    assert(names_at(d.entries(), k, j));
                }
            }
        }
        i += 1;
    }
    proof {
        assert forall|k: Seq<char>| d@.dom().contains(k) implies out@.dom().contains(k) by {
            let j = choose|j: int| names_at(d.entries(), k, j);
            assert(names_at(d.entries(), k, j));
        }
        assert(properties_model(out) =~= properties_model(*d));
    }
    out
}

/// Whether two tables hold, under the same names, schemas of the same content.
pub fn same_properties(a: &Dict<Schema>, b: &Dict<Schema>) -> (r: bool)
    ensures
        r == (properties_model(*a) == properties_model(*b)),
    decreases a,
{
    let n = a.len();
    let mut i: usize = 0;
    while i < n
        invariant
            i <= n,
            n == a.entries().len(),
            crate::dict::distinct_names(a.entries()),
            forall|j: int|
                0 <= j < i ==> b@.dom().contains((#[trigger] a.entries()[j]).0) && a.entries()[j].1@
                    == b@[a.entries()[j].0]@,
        decreases n - i,
    {
        let (name, schema) = a.entry_at(i);
        proof {
            a.lemma_entry_decreases(i as int);
        }
        match b.get(name.as_str()) {
            Some(other) => {
                if !schema.same_as(other) {
                    assert(properties_model(*a)[name@] != properties_model(*b)[name@]);
                    return false;
                }
            },
            None => {
                assert(properties_model(*a).dom().contains(name@));
                assert(!properties_model(*b).dom().contains(name@));
                return false;
            },
        }
        i += 1;
    }
    let m = b.len();
    let mut i: usize = 0;
    while i < m
        invariant
            i <= m,
            m == b.entries().len(),
            forall|j: int| 0 <= j < i ==> a@.dom().contains((#[trigger] b.entries()[j]).0),
        decreases m - i,
    {
        let (name, _) = b.entry_at(i);
        if !a.contains_key(name.as_str()) {
            assert(properties_model(*b).dom().contains(name@));
            assert(!properties_model(*a).dom().contains(name@));
            return false;
        }
        i += 1;
    }
    proof {
        assert forall|k: Seq<char>| a@.dom().contains(k) implies b@.dom().contains(k) && a@[k]@
            == b@[k]@ by {
            let j = choose|j: int| names_at(a.entries(), k, j);
            lemma_map_of_entry(a.entries(), j);
            assert(b@.dom().contains(a.entries()[j].0));
        }
        assert forall|k: Seq<char>| b@.dom().contains(k) implies a@.dom().contains(k) by {
            let j = choose|j: int| names_at(b.entries(), k, j);
            assert(a@.dom().contains(b.entries()[j].0));
        }
        assert(properties_model(*a) =~= properties_model(*b));
    }
    true
}

impl ObjectSchema {
    pub open spec fn view(&self) -> ObjectModel
        decreases self,
    {
        ObjectModel {
            title: opt_text(self.title),
            description: opt_text(self.description),
            properties: properties_model(self.properties),
            required: set_of(self.required@),
        }
    }

    /// A copy of the schema.
    pub fn duplicate(&self) -> (r: ObjectSchema)
        ensures
            r@ == self@,
        decreases self,
    {
        ObjectSchema {
            title: copy_opt_text(&self.title),
            description: copy_opt_text(&self.description),
            properties: duplicate_properties(&self.properties),
            required: copy_list(&self.required),
        }
    }

    /// Whether the two schemas have the same content.
    pub fn same_as(&self, other: &ObjectSchema) -> (r: bool)
        ensures
            r == (self@ == other@),
        decreases self,
    {
        same_opt_text(&self.title, &other.title) && same_opt_text(
            &self.description,
            &other.description,
        ) && same_items(&self.required, &other.required) && same_properties(
            &self.properties,
            &other.properties,
        )
    }

    /// The schema of one object with the given properties: all are required.
    pub fn from_properties(properties: Dict<Schema>) -> (r: ObjectSchema)
        ensures
            r@ == (ObjectModel {
                title: None,
                description: None,
                properties: properties_model(properties),
                required: properties@.dom(),
            }),
    {
        let mut required: Vec<String> = Vec::new();
        let n = properties.len();
        let mut i: usize = 0;
        while i < n
            invariant
                i <= n,
                n == properties.entries().len(),
                required@.len() == i,
                forall|j: int| 0 <= j < i ==> (#[trigger] required@[j])@ == properties.entries()[j].0,
            decreases n - i,
        {
            let (name, _) = properties.entry_at(i);
            required.push(name.clone());
            i += 1;
        }
        proof {
            let names = set_of(required@);
            assert forall|k: Seq<char>| names.contains(k) == properties@.dom().contains(k) by {
                if names.contains(k) {
                    let j = choose|j: int| 0 <= j < required@.len() && (#[trigger] required@[j])@ == k;
                    assert(names_at(properties.entries(), k, j));
                }
                if properties@.dom().contains(k) {
                    let j = choose|j: int| names_at(properties.entries(), k, j);
                    assert(required@[j]@ == k);
                }
            }
            assert(names =~= properties@.dom());
        }
        ObjectSchema { title: None, description: None, properties, required }
    }

    /// The properties of both; a property of both is merged; only what both
    /// require stays required.
    pub fn merge(self, other: ObjectSchema) -> (r: ObjectSchema)
        ensures
            r@ == self@.merge(other@),
        decreases self,
    {
        let ghost target = self@.merge(other@).properties;
        let ghost me = self;
        let ObjectSchema { title, description, properties, required } = self;
        let ObjectSchema {
            title: other_title,
            description: other_description,
            properties: other_properties,
            required: other_required,
        } = other;
        let ghost first = properties;
        let ghost second = other_properties;
        let mut mine = properties;
        let mut theirs = other_properties;
        let mut out: Dict<Schema> = Dict::new();
        while mine.len() > 0
            invariant
                me == self,
                first == me.properties,
                target == me@.merge(other@).properties,
                other@.properties == properties_model(second),
                mine.entries() == first.entries().take(mine.entries().len() as int),
                mine.entries().len() <= first.entries().len(),
                forall|k: Seq<char>| #[trigger]
                    mine@.dom().contains(k) ==> first@.dom().contains(k) && mine@[k] == first@[k],
                forall|k: Seq<char>| #[trigger]
                    theirs@.dom().contains(k) <==> second@.dom().contains(k) && !(first@.dom().contains(
                        k,
                    ) && !mine@.dom().contains(k)),
                forall|k: Seq<char>| #[trigger]
                    theirs@.dom().contains(k) ==> theirs@[k] == second@[k],
                forall|k: Seq<char>| #[trigger]
                    out@.dom().contains(k) <==> first@.dom().contains(k) && !mine@.dom().contains(k),
                forall|k: Seq<char>| #[trigger] out@.dom().contains(k) ==> out@[k]@ == target[k],
            decreases mine.entries().len(),
        {
            let ghost n = mine.entries().len();
            let (name, left) = mine.pop().unwrap();
            proof {
                first.lemma_entry_decreases(n - 1);
                assert(decreases_to!(me => me.properties));
                assert(first.entries()[n - 1].1 == left);
                assert(mine.entries() =~= first.entries().take(mine.entries().len() as int));
                assert(first@[name@] == left);
            }
            let merged = match theirs.remove(name.as_str()) {
                Some(right) => left.merge(right),
                None => left,
            };
            out.insert_new(name, merged);
        }
        while theirs.len() > 0
            invariant
                target == me@.merge(other@).properties,
                first == me.properties,
                other@.properties == properties_model(second),
                forall|k: Seq<char>| #[trigger]
                    theirs@.dom().contains(k) ==> second@.dom().contains(k) && theirs@[k] == second@[k]
                        && !first@.dom().contains(k),
                forall|k: Seq<char>| #[trigger]
                    out@.dom().contains(k) <==> first@.dom().contains(k) || (second@.dom().contains(k)
                        && !theirs@.dom().contains(k)),
                forall|k: Seq<char>| #[trigger] out@.dom().contains(k) ==> out@[k]@ == target[k],
            decreases theirs.entries().len(),
        {
            let (name, right) = theirs.pop().unwrap();
            out.insert_new(name, right);
        }
        proof {
            assert(properties_model(out) =~= target);
        }
        ObjectSchema {
            title: merge_prefer_text(title, other_title),
            description: merge_prefer_text(description, other_description),
            properties: out,
            required: intersection(required, &other_required),
        }
    }
}

impl Clone for ObjectSchema {
    fn clone(&self) -> (r: Self)
        ensures
            r@ == self@,
    {
        self.duplicate()
    }
}

impl PartialEq for ObjectSchema {
    /// Whether the two schemas have the same content.
    fn eq(&self, other: &Self) -> (r: bool) {
        self.same_as(other)
    }
}

impl PartialEqSpecImpl for ObjectSchema {
    open spec fn obeys_eq_spec() -> bool {
        true
    }

    open spec fn eq_spec(&self, other: &Self) -> bool {
        self@ == other@
    }
}

} // verus!
