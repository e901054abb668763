//! Inference over an explicit work list instead of the call stack.
//!
//! A node of the work list stands for one object or array of the document.
//! It is visited twice: first it is opened, its simple children are
//! classified on the spot and a node is pushed for each other child; when it
//! is on top again all its children are done, and it is finished into a
//! schema that is attached to its parent. A node names its parent by
//! position in the list, and positions never change while a node is listed.

use crate::dict::{names_at, Dict};
use crate::inference::{absorb, boxed, classify, items_of, properties_of, schema_of};
use crate::schema::array::ArraySchema;
use crate::schema::model::{ArrayModel, ObjectModel, SchemaModel};
use crate::schema::object::{properties_model, ObjectSchema};
use crate::schema::Schema;
use crate::value::{size_of_items, size_of_members, Value};
use vstd::prelude::*;

verus! {

/// How a node relates to its parent.
#[derive(Debug)]
pub enum NodeRelation {
    /// The member of the parent object under this name.
    ObjectAttribute(String),
    /// The element of the parent array at this position.
    ArrayElement(usize),
}

/// What is known so far of the children of an opened node.
#[derive(Debug)]
pub enum PartialContent {
    /// The schemas of the members that are done.
    Object(Dict<Schema>),
    /// One slot for each element, filled when the element is done.
    Array(Vec<Option<Schema>>),
}

/// One object or array of the document, on its way to a schema.
#[derive(Debug)]
pub struct SchemaNode<'a> {
    /// Where the parent stands in the work list; absent for the root.
    pub parent_index: Option<usize>,
    pub relation: Option<NodeRelation>,
    /// Absent until the node is opened.
    pub content: Option<PartialContent>,
    pub source: &'a Value,
}

/// Infers schemas; may retain the schema of the first document it was shown.
#[derive(Debug)]
pub struct SchemaGenerator<'a> {
    schema: Option<Schema>,
    frontier: Vec<SchemaNode<'a>>,
}

/// The mathematical content of a relation.
pub enum RelationModel {
    Attribute(Seq<char>),
    Element(int),
}

impl NodeRelation {
    pub open spec fn view(&self) -> RelationModel {
        match self {
            NodeRelation::ObjectAttribute(name) => RelationModel::Attribute(name@),
            NodeRelation::ArrayElement(position) => RelationModel::Element(*position as int),
        }
    }
}

/// The position of a node's parent, if it has one.
pub open spec fn parent_of(node: SchemaNode) -> Option<int> {
    match node.parent_index {
        Some(p) => Some(p as int),
        None => None,
    }
}

/// The relation of a node, if it has one.
pub open spec fn relation_of(node: SchemaNode) -> Option<RelationModel> {
    match node.relation {
        Some(r) => Some(r@),
        None => None,
    }
}

/// The merged schema of the first `n` slots, skipping the empty ones.
pub open spec fn merged_slots(slots: Seq<Option<Schema>>, n: nat) -> Option<SchemaModel>
    decreases n,
{
    if n == 0 || n > slots.len() {
        None
    } else {
        match slots[n - 1] {
            Some(s) => Some(absorb(merged_slots(slots, (n - 1) as nat), s@)),
            None => merged_slots(slots, (n - 1) as nat),
        }
    }
}

/// The schema that gathered content amounts to.
pub open spec fn content_model(content: PartialContent) -> SchemaModel {
    match content {
        PartialContent::Object(properties) => SchemaModel {
            object: Some(
                ObjectModel {
                    title: None,
                    description: None,
                    properties: properties_model(properties),
                    required: properties@.dom(),
                },
            ),
            ..SchemaModel::nothing()
        },
        PartialContent::Array(slots) => SchemaModel {
            array: Some(
                ArrayModel {
                    title: None,
                    description: None,
                    items: boxed(merged_slots(slots@, slots.len() as nat)),
                },
            ),
            ..SchemaModel::nothing()
        },
    }
}

/// Node `j` is the child of node `p` under the name `k`.
pub open spec fn names_child(f: Seq<SchemaNode>, j: int, p: int, k: Seq<char>) -> bool {
    &&& p < j < f.len()
    &&& parent_of(f[j]) == Some(p)
    &&& relation_of(f[j]) == Some(RelationModel::Attribute(k))
}

/// Node `j` is the child of node `p` at position `i`.
pub open spec fn places_child(f: Seq<SchemaNode>, j: int, p: int, i: int) -> bool {
    &&& p < j < f.len()
    &&& parent_of(f[j]) == Some(p)
    &&& relation_of(f[j]) == Some(RelationModel::Element(i))
}

/// A node is listed for the member `k` of node `p`.
pub open spec fn awaits_name(f: Seq<SchemaNode>, p: int, k: Seq<char>) -> bool {
    exists|j: int| #[trigger] names_child(f, j, p, k)
}

/// A node is listed for the element `i` of node `p`.
pub open spec fn awaits_position(f: Seq<SchemaNode>, p: int, i: int) -> bool {
    exists|j: int| #[trigger] places_child(f, j, p, i)
}

/// Node `j` hangs on an opened parent `p` that still lacks its schema.
pub open spec fn link_ok(f: Seq<SchemaNode>, j: int, p: int) -> bool {
    match f[j].relation {
        Some(NodeRelation::ObjectAttribute(name)) => {
            &&& f[p].source matches Value::Object(members)
            &&& members@.dom().contains(name@)
            &&& members@[name@] == *f[j].source
            &&& f[p].content matches Some(PartialContent::Object(done))
            &&& !done@.dom().contains(name@)
        },
        Some(NodeRelation::ArrayElement(position)) => {
            &&& f[p].source matches Value::Array(items)
            &&& position < items.len()
            &&& items[position as int] == *f[j].source
            &&& f[p].content matches Some(PartialContent::Array(slots))
            &&& position < slots.len()
            &&& slots[position as int] is None
        },
        None => false,
    }
}

/// What is gathered in node `j` is right, and every member up to the `n`th
/// is either gathered or has a node listed for it.
pub open spec fn object_ok(f: Seq<SchemaNode>, j: int, done: Dict<Schema>, n: int) -> bool {
    &&& f[j].source matches Value::Object(members)
    &&& n <= members.entries().len()
    &&& forall|k: Seq<char>| #[trigger]
        done@.dom().contains(k) ==> members@.dom().contains(k) && done@[k]@ == schema_of(members@[k])
    &&& forall|e: int|
        0 <= e < n ==> done@.dom().contains((#[trigger] members.entries()[e]).0) || awaits_name(
            f,
            j,
            members.entries()[e].0,
        )
}

/// What is gathered in node `j` is right, and every element up to the `n`th
/// is either gathered or has a node listed for it.
pub open spec fn array_ok(f: Seq<SchemaNode>, j: int, slots: Vec<Option<Schema>>, n: int) -> bool {
    &&& f[j].source matches Value::Array(items)
    &&& slots.len() == items.len()
    &&& n <= items.len()
    &&& forall|i: int|
        0 <= i < slots.len() ==> ((#[trigger] slots[i]) matches Some(s) ==> s@ == schema_of(items[i]))
    &&& forall|i: int| 0 <= i < n ==> (#[trigger] slots[i]) is Some || awaits_position(f, j, i)
}

/// The source of node `j` has `n` children.
pub open spec fn arity(f: Seq<SchemaNode>, j: int) -> int {
    match f[j].source {
        Value::Object(members) => members.entries().len() as int,
        Value::Array(items) => items.len() as int,
        _ => 0,
    }
}

/// Node `j` is sound, its first `n` children being accounted for.
pub open spec fn node_ok_upto(f: Seq<SchemaNode>, j: int, n: int) -> bool {
    &&& !f[j].source.is_basic_spec()
    &&& match f[j].parent_index {
        None => j == 0 && f[j].relation is None,
        Some(p) => p < j && link_ok(f, j, p as int),
    }
    &&& match f[j].content {
        None => true,
        Some(PartialContent::Object(done)) => object_ok(f, j, done, n),
        Some(PartialContent::Array(slots)) => array_ok(f, j, slots, n),
    }
}

/// Node `j` is sound.
pub open spec fn node_ok(f: Seq<SchemaNode>, j: int) -> bool {
    node_ok_upto(f, j, arity(f, j))
}

/// No two nodes are listed for the same child of the same parent.
pub open spec fn siblings_differ(f: Seq<SchemaNode>) -> bool {
    forall|a: int, b: int|
        0 <= a < b < f.len() && (#[trigger] f[a]).parent_index == (#[trigger] f[b]).parent_index
            ==> relation_of(f[a]) != relation_of(f[b])
}

/// The work list is sound: all nodes but the last are, and the last is with
/// its first `n` children accounted for.
pub open spec fn stack_ok_upto(f: Seq<SchemaNode>, root: Value, top: int, n: int) -> bool {
    &&& 0 <= top < f.len()
    &&& *f[0].source == root
    &&& forall|j: int| 0 <= j < f.len() && j != top ==> #[trigger] node_ok(f, j)
    &&& node_ok_upto(f, top, n)
    &&& siblings_differ(f)
}

/// The work list is sound.
pub open spec fn stack_ok(f: Seq<SchemaNode>, root: Value) -> bool {
    &&& f.len() >= 1
    &&& *f[0].source == root
    &&& forall|j: int| 0 <= j < f.len() ==> #[trigger] node_ok(f, j)
    &&& siblings_differ(f)
}

/// What a node still costs: twice its size before it is opened, one after.
pub open spec fn node_weight(node: SchemaNode) -> nat {
    if node.content is None {
        2 * node.source.size()
    } else {
        1
    }
}

/// What the work list still costs.
pub open spec fn weight(f: Seq<SchemaNode>) -> nat
    decreases f.len(),
{
    if f.len() == 0 {
        0
    } else {
        weight(f.drop_last()) + node_weight(f.last())
    }
}

proof fn lemma_weight_push(f: Seq<SchemaNode>, node: SchemaNode)
    ensures
        weight(f.push(node)) == weight(f) + node_weight(node),
{
    assert(f.push(node).drop_last() =~= f);
}

proof fn lemma_weight_update(f: Seq<SchemaNode>, p: int, node: SchemaNode)
    requires
        0 <= p < f.len(),
        node_weight(node) == node_weight(f[p]),
    ensures
        weight(f.update(p, node)) == weight(f),
    decreases f.len(),
{
    if p == f.len() - 1 {
        assert(f.update(p, node).drop_last() =~= f.drop_last());
    } else {
        lemma_weight_update(f.drop_last(), p, node);
        assert(f.update(p, node).drop_last() =~= f.drop_last().update(p, node));
    }
}

/// Slots that hold the schema of every element merge into the schema of the
/// elements.
proof fn lemma_merged_slots(slots: Seq<Option<Schema>>, items: Vec<Value>, n: nat)
    requires
        slots.len() == items.len(),
        n <= slots.len(),
        forall|i: int| 0 <= i < n ==> (#[trigger] slots[i]) is Some && slots[i]->0@ == schema_of(items[i]),
    ensures
        merged_slots(slots, n) == items_of(items, n),
    decreases n,
{
    if n > 0 {
        lemma_merged_slots(slots, items, (n - 1) as nat);
        assert(slots[n - 1] is Some);
    }
}

/// Node `p` of `g` is node `p` of `f` but for what it has gathered.
pub open spec fn same_but_content(f: Seq<SchemaNode>, g: Seq<SchemaNode>, p: int) -> bool {
    &&& g[p].parent_index == f[p].parent_index
    &&& g[p].relation == f[p].relation
    &&& g[p].source == f[p].source
    &&& g[p].content is Some
    &&& f[p].content is Some
}

/// `g` lists the nodes of `f` up to its length, node `p` having gathered more.
pub open spec fn same_but_node(f: Seq<SchemaNode>, g: Seq<SchemaNode>, p: int) -> bool {
    &&& 0 <= p < g.len() <= f.len()
    &&& forall|j: int| 0 <= j < g.len() && j != p ==> #[trigger] g[j] == f[j]
    &&& same_but_content(f, g, p)
}

/// The node on top of a sound list has gathered the schema of its source.
proof fn lemma_finished(f: Seq<SchemaNode>, root: Value)
    requires
        stack_ok(f, root),
        f.last().content is Some,
    ensures
        content_model(f.last().content->0) == schema_of(*f.last().source),
{
    let t = f.len() - 1;
    assert(node_ok(f, t));
    match f[t].content->0 {
        PartialContent::Object(done) => {
            let members = f[t].source->Object_0;
            assert forall|k: Seq<char>| members@.dom().contains(k) implies done@.dom().contains(
                k,
            ) by {
                let e = choose|e: int| names_at(members.entries(), k, e);
                assert(members.entries()[e].0 == k);
                if awaits_name(f, t, k) {
                    let j = choose|j: int| #[trigger] names_child(f, j, t, k);
                    assert(false);
                }
            }
            assert(done@.dom() =~= members@.dom());
            assert(properties_model(done) =~= properties_of(members));
        },
        PartialContent::Array(slots) => {
            let items = f[t].source->Array_0;
            assert forall|i: int| 0 <= i < slots.len() implies (#[trigger] slots@[i]) is Some
                && slots@[i]->0@ == schema_of(items[i]) by {
                assert(slots[i] is Some || awaits_position(f, t, i));
                if awaits_position(f, t, i) {
                    let j = choose|j: int| #[trigger] places_child(f, j, t, i);
                    assert(false);
                }
            }
            lemma_merged_slots(slots@, items, slots.len() as nat);
        },
    }
}

/// A node of `f` below the top that awaits no schema from the top stays
/// sound when the top is taken off and node `p` gathers more.
proof fn lemma_bystander(f: Seq<SchemaNode>, g: Seq<SchemaNode>, p: int, j: int)
    requires
        same_but_node(f, g, p),
        g.len() == f.len() - 1,
        parent_of(f.last()) == Some(p),
        0 <= j < g.len(),
        j != p,
        node_ok(f, j),
        parent_of(f[j]) != Some(p),
    ensures
        node_ok(g, j),
{
    let t = f.len() - 1;
    assert(g[j] == f[j]);
    match f[j].parent_index {
        Some(q) => {
            assert(g[q as int] == f[q as int]);
        },
        None => {},
    }
    match f[j].content {
        Some(PartialContent::Object(done)) => {
            let members = f[j].source->Object_0;
            assert forall|e: int| 0 <= e < arity(g, j) implies done@.dom().contains(
                (#[trigger] members.entries()[e]).0,
            ) || awaits_name(g, j, members.entries()[e].0) by {
                let k = members.entries()[e].0;
                if !done@.dom().contains(k) {
                    let w = choose|w: int| #[trigger] names_child(f, w, j, k);
                    assert(names_child(g, w, j, k));
                }
            }
        },
        Some(PartialContent::Array(slots)) => {
            assert forall|i: int| 0 <= i < arity(g, j) implies (#[trigger] slots[i]) is Some
                || awaits_position(g, j, i) by {
                if !(slots[i] is Some) {
                    let w = choose|w: int| #[trigger] places_child(f, w, j, i);
                    assert(places_child(g, w, j, i));
                }
            }
        },
        None => {},
    }
}

/// The list stays sound when the finished top hands its schema to the
/// object that is its parent.
proof fn lemma_attached_attribute(
    f: Seq<SchemaNode>,
    g: Seq<SchemaNode>,
    root: Value,
    p: int,
    name: Seq<char>,
    schema: Schema,
)
    requires
        stack_ok(f, root),
        parent_of(f.last()) == Some(p),
        relation_of(f.last()) == Some(RelationModel::Attribute(name)),
        schema@ == schema_of(*f.last().source),
        g.len() == f.len() - 1,
        same_but_node(f, g, p),
        f[p].content matches Some(PartialContent::Object(done)) && g[p].content matches Some(
            PartialContent::Object(more),
        ) && more@ == done@.insert(name, schema),
    ensures
        stack_ok(g, root),
{
    let t = f.len() - 1;
    assert(node_ok(f, t));
    assert(node_ok(f, p));
    let members = f[p].source->Object_0;
    let done = f[p].content->0->Object_0;
    let more = g[p].content->0->Object_0;
    assert forall|j: int| 0 <= j < g.len() implies #[trigger] node_ok(g, j) by {
        assert(node_ok(f, j));
        if j == p {
            match f[p].parent_index {
                Some(q) => {
                    assert(g[q as int] == f[q as int]);
                },
                None => {},
            }
            assert forall|e: int| 0 <= e < arity(g, p) implies more@.dom().contains(
                (#[trigger] members.entries()[e]).0,
            ) || awaits_name(g, p, members.entries()[e].0) by {
                let k = members.entries()[e].0;
                if !done@.dom().contains(k) {
                    let w = choose|w: int| #[trigger] names_child(f, w, p, k);
                    if w != t {
                        assert(names_child(g, w, p, k));
                    }
                }
            }
        } else if parent_of(f[j]) == Some(p) {
            assert(g[j] == f[j]);
            assert(relation_of(f[j]) != relation_of(f[t]));
            match f[j].content {
                Some(PartialContent::Object(own)) => {
                    let own_members = f[j].source->Object_0;
                    assert forall|e: int| 0 <= e < arity(g, j) implies own@.dom().contains(
                        (#[trigger] own_members.entries()[e]).0,
                    ) || awaits_name(g, j, own_members.entries()[e].0) by {
                        let k = own_members.entries()[e].0;
                        if !own@.dom().contains(k) {
                            let w = choose|w: int| #[trigger] names_child(f, w, j, k);
                            assert(names_child(g, w, j, k));
                        }
                    }
                },
                Some(PartialContent::Array(slots)) => {
                    assert forall|i: int| 0 <= i < arity(g, j) implies (#[trigger] slots[i]) is Some
                        || awaits_position(g, j, i) by {
                        if !(slots[i] is Some) {
                            let w = choose|w: int| #[trigger] places_child(f, w, j, i);
                            assert(places_child(g, w, j, i));
                        }
                    }
                },
                None => {},
            }
        } else {
            lemma_bystander(f, g, p, j);
        }
    }
    assert forall|a: int, b: int|
        0 <= a < b < g.len() && (#[trigger] g[a]).parent_index == (#[trigger] g[b]).parent_index implies relation_of(
        g[a],
    ) != relation_of(g[b]) by {
        assert(f[a].parent_index == f[b].parent_index);
        assert(relation_of(g[a]) == relation_of(f[a]));
        assert(relation_of(g[b]) == relation_of(f[b]));
    }
}

/// The list stays sound when the finished top hands its schema to the
/// array that is its parent.
proof fn lemma_attached_element(
    f: Seq<SchemaNode>,
    g: Seq<SchemaNode>,
    root: Value,
    p: int,
    position: int,
    schema: Schema,
)
    requires
        stack_ok(f, root),
        parent_of(f.last()) == Some(p),
        relation_of(f.last()) == Some(RelationModel::Element(position)),
        schema@ == schema_of(*f.last().source),
        g.len() == f.len() - 1,
        same_but_node(f, g, p),
        f[p].content matches Some(PartialContent::Array(slots)) && g[p].content matches Some(
            PartialContent::Array(more),
        ) && more@ == slots@.update(position, Some(schema)),
    ensures
        stack_ok(g, root),
{
    let t = f.len() - 1;
    assert(node_ok(f, t));
    assert(node_ok(f, p));
    let items = f[p].source->Array_0;
    let slots = f[p].content->0->Array_0;
    let more = g[p].content->0->Array_0;
    assert forall|j: int| 0 <= j < g.len() implies #[trigger] node_ok(g, j) by {
        assert(node_ok(f, j));
        if j == p {
            match f[p].parent_index {
                Some(q) => {
                    assert(g[q as int] == f[q as int]);
                },
                None => {},
            }
            assert forall|i: int| 0 <= i < arity(g, p) implies (#[trigger] more[i]) is Some
                || awaits_position(g, p, i) by {
                if i != position && !(slots[i] is Some) {
                    let w = choose|w: int| #[trigger] places_child(f, w, p, i);
                    if w != t {
                        assert(places_child(g, w, p, i));
                    }
                }
            }
            assert forall|i: int| 0 <= i < more.len() implies ((#[trigger] more[i]) matches Some(s)
                ==> s@ == schema_of(items[i])) by {
                if i != position {
                    assert(more[i] == slots[i]);
                }
            }
        } else if parent_of(f[j]) == Some(p) {
            assert(g[j] == f[j]);
            assert(relation_of(f[j]) != relation_of(f[t]));
            match f[j].content {
                Some(PartialContent::Object(own)) => {
                    let own_members = f[j].source->Object_0;
                    assert forall|e: int| 0 <= e < arity(g, j) implies own@.dom().contains(
                        (#[trigger] own_members.entries()[e]).0,
                    ) || awaits_name(g, j, own_members.entries()[e].0) by {
                        let k = own_members.entries()[e].0;
                        if !own@.dom().contains(k) {
                            let w = choose|w: int| #[trigger] names_child(f, w, j, k);
                            assert(names_child(g, w, j, k));
                        }
                    }
                },
                Some(PartialContent::Array(own)) => {
                    assert forall|i: int| 0 <= i < arity(g, j) implies (#[trigger] own[i]) is Some
                        || awaits_position(g, j, i) by {
                        if !(own[i] is Some) {
                            let w = choose|w: int| #[trigger] places_child(f, w, j, i);
                            assert(places_child(g, w, j, i));
                        }
                    }
                },
                None => {},
            }
        } else {
            lemma_bystander(f, g, p, j);
        }
    }
    assert forall|a: int, b: int|
        0 <= a < b < g.len() && (#[trigger] g[a]).parent_index == (#[trigger] g[b]).parent_index implies relation_of(
        g[a],
    ) != relation_of(g[b]) by {
        assert(f[a].parent_index == f[b].parent_index);
        assert(relation_of(g[a]) == relation_of(f[a]));
        assert(relation_of(g[b]) == relation_of(f[b]));
    }
}

/// The relation `r` names one of the first `n` children of `source`.
pub open spec fn child_below(source: Value, r: Option<RelationModel>, n: int) -> bool {
    match (source, r) {
        (Value::Object(members), Some(RelationModel::Attribute(k))) => exists|e: int|
            0 <= e < n && e < members.entries().len() && (#[trigger] members.entries()[e]).0 == k,
        (Value::Array(_), Some(RelationModel::Element(i))) => 0 <= i < n,
        _ => false,
    }
}

/// Node `t` is being opened: above it stand the nodes pushed for some of its
/// first `n` children, and it has gathered nothing of the other children.
pub open spec fn opening(f: Seq<SchemaNode>, t: int, n: int) -> bool {
    &&& forall|a: int|
        t < a < f.len() ==> parent_of(#[trigger] f[a]) == Some(t) && f[a].content is None
            && child_below(*f[t].source, relation_of(f[a]), n)
    &&& match f[t].content {
        Some(PartialContent::Object(done)) => f[t].source matches Value::Object(members)
            && forall|k: Seq<char>| #[trigger]
            done@.dom().contains(k) ==> members@[k].is_basic_spec(),
        Some(PartialContent::Array(slots)) => forall|i: int|
            n <= i < slots.len() ==> (#[trigger] slots[i]) is None,
        None => false,
    }
}

/// A node that is the same in `g` as in `f`, with the same parent and the
/// same children listed, is sound in `g` if it is in `f`.
proof fn lemma_frame(f: Seq<SchemaNode>, g: Seq<SchemaNode>, j: int, n: int)
    requires
        0 <= j < f.len(),
        j < g.len(),
        node_ok_upto(f, j, n),
        g[j] == f[j],
        f[j].parent_index matches Some(q) ==> g[q as int].source == f[q as int].source
            && g[q as int].content == f[q as int].content,
        forall|w: int|
            j < w < f.len() && parent_of(#[trigger] f[w]) == Some(j) ==> w < g.len() && parent_of(
                g[w],
            ) == Some(j) && relation_of(g[w]) == relation_of(f[w]),
    ensures
        node_ok_upto(g, j, n),
{
    match f[j].content {
        Some(PartialContent::Object(done)) => {
            let members = f[j].source->Object_0;
            assert forall|e: int| 0 <= e < n implies done@.dom().contains(
                (#[trigger] members.entries()[e]).0,
            ) || awaits_name(g, j, members.entries()[e].0) by {
                let k = members.entries()[e].0;
                if !done@.dom().contains(k) {
                    let w = choose|w: int| #[trigger] names_child(f, w, j, k);
                    assert(parent_of(f[w]) == Some(j));
                    assert(names_child(g, w, j, k));
                }
            }
        },
        Some(PartialContent::Array(slots)) => {
            assert forall|i: int| 0 <= i < n implies (#[trigger] slots[i]) is Some
                || awaits_position(g, j, i) by {
                if !(slots[i] is Some) {
                    let w = choose|w: int| #[trigger] places_child(f, w, j, i);
                    assert(parent_of(f[w]) == Some(j));
                    assert(places_child(g, w, j, i));
                }
            }
        },
        None => {},
    }
}

/// Opening the node on top keeps the list sound, none of the node's
/// children being accounted for yet.
proof fn lemma_opened(f: Seq<SchemaNode>, g: Seq<SchemaNode>, root: Value)
    requires
        stack_ok(f, root),
        f.last().content is None,
        g.len() == f.len(),
        forall|j: int| 0 <= j < f.len() - 1 ==> #[trigger] g[j] == f[j],
        g.last().parent_index == f.last().parent_index,
        g.last().relation == f.last().relation,
        g.last().source == f.last().source,
        match *f.last().source {
            Value::Object(_) => g.last().content matches Some(PartialContent::Object(done))
                && done@ == Map::<Seq<char>, Schema>::empty(),
            Value::Array(items) => g.last().content matches Some(PartialContent::Array(slots))
                && slots.len() == items.len() && forall|i: int|
                0 <= i < slots.len() ==> (#[trigger] slots[i]) is None,
            _ => false,
        },
    ensures
        stack_ok_upto(g, root, f.len() - 1, 0),
        opening(g, f.len() - 1, 0),
{
    let t = f.len() - 1;
    assert(node_ok(f, t));
    assert forall|j: int| 0 <= j < g.len() && j != t implies #[trigger] node_ok(g, j) by {
        assert(node_ok(f, j));
        assert(g[j] == f[j]);
        match f[j].parent_index {
            Some(q) => {
                assert(g[q as int] == f[q as int]);
            },
            None => {},
        }
        assert forall|w: int| j < w < f.len() && parent_of(#[trigger] f[w]) == Some(j) implies w
            < g.len() && parent_of(g[w]) == Some(j) && relation_of(g[w]) == relation_of(f[w]) by {
            if w != t {
                assert(g[w] == f[w]);
            }
        }
        lemma_frame(f, g, j, arity(f, j));
    }
    match f[t].parent_index {
        Some(q) => {
            assert(g[q as int] == f[q as int]);
        },
        None => {},
    }
    assert forall|a: int, b: int|
        0 <= a < b < g.len() && (#[trigger] g[a]).parent_index == (#[trigger] g[b]).parent_index implies relation_of(
        g[a],
    ) != relation_of(g[b]) by {
        assert(a != t ==> g[a] == f[a]);
        assert(b != t ==> g[b] == f[b]);
        assert(f[a].parent_index == f[b].parent_index);
    }
}

/// Gathering the schema of the simple member `i` of the node being opened
/// accounts for that member.
proof fn lemma_member_classified(
    f: Seq<SchemaNode>,
    g: Seq<SchemaNode>,
    root: Value,
    t: int,
    i: int,
    leaf: Schema,
)
    requires
        stack_ok_upto(f, root, t, i),
        opening(f, t, i),
        g.len() == f.len(),
        same_but_node(f, g, t),
        f[t].source matches Value::Object(members) && {
            &&& 0 <= i < members.entries().len()
            &&& crate::dict::distinct_names(members.entries())
            &&& members.entries()[i].1.is_basic_spec()
            &&& leaf@ == schema_of(members.entries()[i].1)
            &&& f[t].content matches Some(PartialContent::Object(done)) && g[t].content matches Some(
                PartialContent::Object(more),
            ) && more@ == done@.insert(members.entries()[i].0, leaf)
        },
    ensures
        stack_ok_upto(g, root, t, i + 1),
        opening(g, t, i + 1),
{
    let members = f[t].source->Object_0;
    let done = f[t].content->0->Object_0;
    let more = g[t].content->0->Object_0;
    let name = members.entries()[i].0;
    crate::dict::lemma_map_of_entry(members.entries(), i);
    assert forall|j: int| 0 <= j < g.len() && j != t implies #[trigger] node_ok(g, j) by {
        assert(node_ok(f, j));
        assert(g[j] == f[j]);
        if j < t {
            match f[j].parent_index {
                Some(q) => {
                    assert(g[q as int] == f[q as int]);
                },
                None => {},
            }
            assert forall|w: int|
                j < w < f.len() && parent_of(#[trigger] f[w]) == Some(j) implies w < g.len()
                    && parent_of(g[w]) == Some(j) && relation_of(g[w]) == relation_of(f[w]) by {
                if w != t {
                    assert(g[w] == f[w]);
                }
            }
            lemma_frame(f, g, j, arity(f, j));
        } else {
            assert(parent_of(f[j]) == Some(t));
            assert(child_below(*f[t].source, relation_of(f[j]), i));
        }
    }
    match f[t].parent_index {
        Some(q) => {
            assert(g[q as int] == f[q as int]);
        },
        None => {},
    }
    assert forall|e: int| 0 <= e < i + 1 implies more@.dom().contains(
        (#[trigger] members.entries()[e]).0,
    ) || awaits_name(g, t, members.entries()[e].0) by {
        let k = members.entries()[e].0;
        if e < i && !done@.dom().contains(k) {
            let w = choose|w: int| #[trigger] names_child(f, w, t, k);
            assert(g[w] == f[w]);
            assert(names_child(g, w, t, k));
        }
    }
    assert forall|a: int, b: int|
        0 <= a < b < g.len() && (#[trigger] g[a]).parent_index == (#[trigger] g[b]).parent_index implies relation_of(
        g[a],
    ) != relation_of(g[b]) by {
        assert(a != t ==> g[a] == f[a]);
        assert(b != t ==> g[b] == f[b]);
        assert(f[a].parent_index == f[b].parent_index);
    }
    assert forall|a: int| t < a < g.len() implies parent_of(#[trigger] g[a]) == Some(t)
        && g[a].content is None && child_below(*g[t].source, relation_of(g[a]), i + 1) by {
        assert(g[a] == f[a]);
        assert(child_below(*f[t].source, relation_of(f[a]), i));
    }
}

/// Pushing a node for the member `i` of the node being opened accounts for
/// that member.
proof fn lemma_member_pushed(
    f: Seq<SchemaNode>,
    g: Seq<SchemaNode>,
    root: Value,
    t: int,
    i: int,
)
    requires
        stack_ok_upto(f, root, t, i),
        opening(f, t, i),
        g.len() == f.len() + 1,
        forall|j: int| 0 <= j < f.len() ==> #[trigger] g[j] == f[j],
        f[t].source matches Value::Object(members) && {
            &&& 0 <= i < members.entries().len()
            &&& crate::dict::distinct_names(members.entries())
            &&& !members.entries()[i].1.is_basic_spec()
            &&& parent_of(g.last()) == Some(t)
            &&& relation_of(g.last()) == Some(RelationModel::Attribute(members.entries()[i].0))
            &&& g.last().content is None
            &&& *g.last().source == members.entries()[i].1
        },
    ensures
        stack_ok_upto(g, root, t, i + 1),
        opening(g, t, i + 1),
{
    let members = f[t].source->Object_0;
    let done = f[t].content->0->Object_0;
    let name = members.entries()[i].0;
    let c = f.len() as int;
    crate::dict::lemma_map_of_entry(members.entries(), i);
    assert(g[t] == f[t]);
    assert forall|j: int| 0 <= j < g.len() && j != t implies #[trigger] node_ok(g, j) by {
        if j < c {
            assert(g[j] == f[j]);
            assert(node_ok(f, j));
            match f[j].parent_index {
                Some(q) => {
                    assert(g[q as int] == f[q as int]);
                },
                None => {},
            }
            assert forall|w: int|
                j < w < f.len() && parent_of(#[trigger] f[w]) == Some(j) implies w < g.len()
                    && parent_of(g[w]) == Some(j) && relation_of(g[w]) == relation_of(f[w]) by {
                assert(g[w] == f[w]);
            }
            lemma_frame(f, g, j, arity(f, j));
        } else {
            if done@.dom().contains(name) {
                assert(members@[name].is_basic_spec());
            }
        }
    }
    match f[t].parent_index {
        Some(q) => {
            assert(g[q as int] == f[q as int]);
        },
        None => {},
    }
    assert forall|e: int| 0 <= e < i + 1 implies done@.dom().contains(
        (#[trigger] members.entries()[e]).0,
    ) || awaits_name(g, t, members.entries()[e].0) by {
        let k = members.entries()[e].0;
        if e < i && !done@.dom().contains(k) {
            let w = choose|w: int| #[trigger] names_child(f, w, t, k);
            assert(g[w] == f[w]);
            assert(names_child(g, w, t, k));
        }
        if e == i {
            assert(names_child(g, c, t, k));
        }
    }
    assert forall|a: int, b: int|
        0 <= a < b < g.len() && (#[trigger] g[a]).parent_index == (#[trigger] g[b]).parent_index implies relation_of(
        g[a],
    ) != relation_of(g[b]) by {
        assert(g[a] == f[a]);
        if b < c {
            assert(g[b] == f[b]);
        } else {
            assert(parent_of(g[a]) == Some(t));
            if a == t {
                assert(node_ok_upto(f, t, i));
            } else if a < t {
                assert(node_ok(f, a));
            } else {
                assert(child_below(*f[t].source, relation_of(f[a]), i));
            }
        }
    }
    assert forall|a: int| t < a < g.len() implies parent_of(#[trigger] g[a]) == Some(t)
        && g[a].content is None && child_below(*g[t].source, relation_of(g[a]), i + 1) by {
        if a < c {
            assert(g[a] == f[a]);
            assert(child_below(*f[t].source, relation_of(f[a]), i));
        } else {
            assert(members.entries()[i].0 == name);
        }
    }
}

/// Gathering the schema of the simple element `i` of the node being opened
/// accounts for that element.
proof fn lemma_element_classified(
    f: Seq<SchemaNode>,
    g: Seq<SchemaNode>,
    root: Value,
    t: int,
    i: int,
    leaf: Schema,
)
    requires
        stack_ok_upto(f, root, t, i),
        opening(f, t, i),
        g.len() == f.len(),
        same_but_node(f, g, t),
        f[t].source matches Value::Array(items) && {
            &&& 0 <= i < items.len()
            &&& items[i].is_basic_spec()
            &&& leaf@ == schema_of(items[i])
            &&& f[t].content matches Some(PartialContent::Array(slots)) && g[t].content matches Some(
                PartialContent::Array(more),
            ) && more@ == slots@.update(i, Some(leaf))
        },
    ensures
        stack_ok_upto(g, root, t, i + 1),
        opening(g, t, i + 1),
{
    let items = f[t].source->Array_0;
    let slots = f[t].content->0->Array_0;
    let more = g[t].content->0->Array_0;
    assert forall|j: int| 0 <= j < g.len() && j != t implies #[trigger] node_ok(g, j) by {
        assert(node_ok(f, j));
        assert(g[j] == f[j]);
        if j < t {
            match f[j].parent_index {
                Some(q) => {
                    assert(g[q as int] == f[q as int]);
                },
                None => {},
            }
            assert forall|w: int|
                j < w < f.len() && parent_of(#[trigger] f[w]) == Some(j) implies w < g.len()
                    && parent_of(g[w]) == Some(j) && relation_of(g[w]) == relation_of(f[w]) by {
                if w != t {
                    assert(g[w] == f[w]);
                }
            }
            lemma_frame(f, g, j, arity(f, j));
        } else {
            assert(parent_of(f[j]) == Some(t));
            assert(child_below(*f[t].source, relation_of(f[j]), i));
        }
    }
    match f[t].parent_index {
        Some(q) => {
            assert(g[q as int] == f[q as int]);
        },
        None => {},
    }
    assert forall|e: int| 0 <= e < i + 1 implies (#[trigger] more[e]) is Some || awaits_position(
        g,
        t,
        e,
    ) by {
        if e < i && !(slots[e] is Some) {
            let w = choose|w: int| #[trigger] places_child(f, w, t, e);
            assert(g[w] == f[w]);
            assert(places_child(g, w, t, e));
        }
    }
    assert forall|e: int| 0 <= e < more.len() implies ((#[trigger] more[e]) matches Some(s)
        ==> s@ == schema_of(items[e])) by {
        if e != i {
            assert(more[e] == slots[e]);
        }
    }
    assert forall|a: int, b: int|
        0 <= a < b < g.len() && (#[trigger] g[a]).parent_index == (#[trigger] g[b]).parent_index implies relation_of(
        g[a],
    ) != relation_of(g[b]) by {
        assert(a != t ==> g[a] == f[a]);
        assert(b != t ==> g[b] == f[b]);
        assert(f[a].parent_index == f[b].parent_index);
    }
    assert forall|a: int| t < a < g.len() implies parent_of(#[trigger] g[a]) == Some(t)
        && g[a].content is None && child_below(*g[t].source, relation_of(g[a]), i + 1) by {
        assert(g[a] == f[a]);
        assert(child_below(*f[t].source, relation_of(f[a]), i));
    }
    assert forall|e: int| i + 1 <= e < more.len() implies (#[trigger] more[e]) is None by {
        assert(more[e] == slots[e]);
    }
}

/// Pushing a node for the element `i` of the node being opened accounts for
/// that element.
proof fn lemma_element_pushed(
    f: Seq<SchemaNode>,
    g: Seq<SchemaNode>,
    root: Value,
    t: int,
    i: int,
)
    requires
        stack_ok_upto(f, root, t, i),
        opening(f, t, i),
        g.len() == f.len() + 1,
        forall|j: int| 0 <= j < f.len() ==> #[trigger] g[j] == f[j],
        f[t].source matches Value::Array(items) && {
            &&& 0 <= i < items.len()
            &&& !items[i].is_basic_spec()
            &&& parent_of(g.last()) == Some(t)
            &&& relation_of(g.last()) == Some(RelationModel::Element(i))
            &&& g.last().content is None
            &&& *g.last().source == items[i]
        },
    ensures
        stack_ok_upto(g, root, t, i + 1),
        opening(g, t, i + 1),
{
    let items = f[t].source->Array_0;
    let slots = f[t].content->0->Array_0;
    let c = f.len() as int;
    assert(g[t] == f[t]);
    assert forall|j: int| 0 <= j < g.len() && j != t implies #[trigger] node_ok(g, j) by {
        if j < c {
            assert(g[j] == f[j]);
            assert(node_ok(f, j));
            match f[j].parent_index {
                Some(q) => {
                    assert(g[q as int] == f[q as int]);
                },
                None => {},
            }
            assert forall|w: int|
                j < w < f.len() && parent_of(#[trigger] f[w]) == Some(j) implies w < g.len()
                    && parent_of(g[w]) == Some(j) && relation_of(g[w]) == relation_of(f[w]) by {
                assert(g[w] == f[w]);
            }
            lemma_frame(f, g, j, arity(f, j));
        } else {
            assert(slots[i] is None);
        }
    }
    match f[t].parent_index {
        Some(q) => {
            assert(g[q as int] == f[q as int]);
        },
        None => {},
    }
    assert forall|e: int| 0 <= e < i + 1 implies (#[trigger] slots[e]) is Some || awaits_position(
        g,
        t,
        e,
    ) by {
        if e < i && !(slots[e] is Some) {
            let w = choose|w: int| #[trigger] places_child(f, w, t, e);
            assert(g[w] == f[w]);
            assert(places_child(g, w, t, e));
        }
        if e == i {
            assert(places_child(g, c, t, e));
        }
    }
    assert forall|a: int, b: int|
        0 <= a < b < g.len() && (#[trigger] g[a]).parent_index == (#[trigger] g[b]).parent_index implies relation_of(
        g[a],
    ) != relation_of(g[b]) by {
        assert(g[a] == f[a]);
        if b < c {
            assert(g[b] == f[b]);
        } else {
            assert(parent_of(g[a]) == Some(t));
            if a == t {
                assert(node_ok_upto(f, t, i));
            } else if a < t {
                assert(node_ok(f, a));
            } else {
                assert(child_below(*f[t].source, relation_of(f[a]), i));
            }
        }
    }
    assert forall|a: int| t < a < g.len() implies parent_of(#[trigger] g[a]) == Some(t)
        && g[a].content is None && child_below(*g[t].source, relation_of(g[a]), i + 1) by {
        if a < c {
            assert(g[a] == f[a]);
            assert(child_below(*f[t].source, relation_of(f[a]), i));
        }
    }
}

impl<'a> SchemaNode<'a> {
    /// The node for the root of a document.
    pub fn root(source: &'a Value) -> (node: Self)
        ensures
            node.parent_index is None,
            node.relation is None,
            node.content is None,
            node.source == source,
    {
        SchemaNode { parent_index: None, relation: None, content: None, source }
    }

    /// Finishes the node: hands out the schema of what was gathered, and
    /// leaves the node without content.
    pub fn to_schema(&mut self) -> (schema: Schema)
        requires
            old(self).content is Some,
        ensures
            schema@ == content_model(old(self).content->0),
            old(self).content->0 is Object ==> schema is Object,
            old(self).content->0 is Array ==> schema is Array,
            final(self).content is None,
            final(self).parent_index == old(self).parent_index,
            final(self).relation == old(self).relation,
            final(self).source == old(self).source,
    {
        let content = self.content.take().unwrap();
        match content {
            PartialContent::Object(object_properties) => {
                Schema::Object(ObjectSchema::from_properties(object_properties))
            },
            PartialContent::Array(array_elements) => {
                let ghost slots = array_elements@;
                let mut elements = array_elements;
                let mut merged: Option<Schema> = None;
                let mut i: usize = 0;
                while i < elements.len()
                    invariant
                        i <= elements.len(),
                        elements.len() == slots.len(),
                        forall|j: int| i <= j < slots.len() ==> elements@[j] == slots[j],
                        match merged {
                            Some(m) => merged_slots(slots, i as nat) == Some(m@),
                            None => merged_slots(slots, i as nat) is None,
                        },
                    decreases elements.len() - i,
                {
                    let taken = elements[i].take();
                    match taken {
                        Some(element) => {
                            merged = Some(
                                match merged {
                                    Some(m) => m.merge(element),
                                    None => element,
                                },
                            );
                        },
                        None => {},
                    }
                    i += 1;
                }
                Schema::Array(
                    ArraySchema {
                        title: None,
                        description: None,
                        items: match merged {
                            Some(m) => Some(Box::new(m)),
                            None => None,
                        },
                    },
                )
            },
        }
    }

    /// Records the schema of the member `key` in an opened object node.
    pub fn add_attribute(&mut self, key: &str, value: Schema)
        requires
            old(self).content matches Some(PartialContent::Object(_)),
        ensures
            final(self).content matches Some(PartialContent::Object(done)) && done@ == (
            old(self).content->0->Object_0)@.insert(key@, value),
            final(self).parent_index == old(self).parent_index,
            final(self).relation == old(self).relation,
            final(self).source == old(self).source,
    {
        match &mut self.content {
            Some(PartialContent::Object(object_attributes)) => {
                object_attributes.insert(key.to_owned(), value);
            },
            _ => {
                vstd::pervasive::unreached::<()>();
            },
        }
    }

    /// Records the schema of the element at `position` in an opened array node.
    pub fn add_element(&mut self, position: usize, value: Schema)
        requires
            old(self).content matches Some(PartialContent::Array(slots)) && position < slots.len(),
        ensures
            final(self).content matches Some(PartialContent::Array(slots)) && slots@ == (
            old(self).content->0->Array_0)@.update(position as int, Some(value)),
            final(self).parent_index == old(self).parent_index,
            final(self).relation == old(self).relation,
            final(self).source == old(self).source,
    {
        match &mut self.content {
            Some(PartialContent::Array(array_elements)) => {
                array_elements[position] = Some(value);
            },
            _ => {
                vstd::pervasive::unreached::<()>();
            },
        }
    }

    /// Whether the node was opened on an array.
    pub fn is_array_node(&self) -> (b: bool)
        ensures
            b == (self.content matches Some(PartialContent::Array(_))),
    {
        matches!(self.content, Some(PartialContent::Array(_)))
    }

    /// Whether the node was opened on an object.
    pub fn is_object_node(&self) -> (b: bool)
        ensures
            b == (self.content matches Some(PartialContent::Object(_))),
    {
        matches!(self.content, Some(PartialContent::Object(_)))
    }
}

impl<'a> SchemaGenerator<'a> {
    #[verifier::type_invariant]
    spec fn idle(self) -> bool {
        self.frontier@.len() == 0
    }

    /// The schema that is retained, if one is.
    pub closed spec fn retained(&self) -> Option<Schema> {
        self.schema
    }

    /// A generator that retains no schema.
    pub fn new() -> (generator: Self)
        ensures
            generator.retained() is None,
    {
        Self { schema: None, frontier: Vec::new() }
    }

    /// The schema that is retained, if one is.
    pub fn schema(&self) -> (schema: Option<&Schema>)
        ensures
            match schema {
                Some(s) => self.retained() == Some(*s),
                None => self.retained() is None,
            },
    {
        self.schema.as_ref()
    }

    /// Retains the schema of `object` unless a schema is retained already;
    /// `accumulate` is the call that merges every document in.
    pub fn expand_schema(&mut self, object: &'a Value)
        ensures
            match old(self).retained() {
                Some(kept) => final(self).retained() == Some(kept),
                None => final(self).retained() matches Some(s) && s@ == schema_of(*object)
                    && !(s is AnyOf),
            },
    {
        if self.schema.is_none() {
            let schema = self.derive_schema(object);
            proof {
                use_type_invariant(&*self);
            }
            self.schema = Some(schema);
        }
    }

    /// Merges the schema of `object` into the schema that is retained, or
    /// retains it where none is retained yet.
    pub fn accumulate(&mut self, object: &'a Value)
        ensures
            final(self).retained() matches Some(s) && s@ == (match old(self).retained() {
                Some(kept) => kept@.merge(schema_of(*object)),
                None => schema_of(*object),
            }) && (s is AnyOf) == (s@.count() >= 2),
    {
        let fresh = self.derive_schema(object);
        proof {
            use_type_invariant(&*self);
            crate::inference::lemma_schema_of_one_kind(*object);
        }
        let mut retained: Option<Schema> = None;
        std::mem::swap(&mut retained, &mut self.schema);
        let merged = match retained {
            Some(kept) => kept.merge(fresh),
            None => fresh,
        };
        self.schema = Some(merged);
    }

    /// The least schema that accepts what either schema accepts.
    pub fn merge_schemas(schema: Schema, other_schema: Schema) -> (merged: Schema)
        ensures
            merged@ == schema@.merge(other_schema@),
            (merged is AnyOf) == (merged@.count() >= 2),
    {
        schema.merge(other_schema)
    }

    /// The schema of `object`. What is retained stays as it is.
    ///
    /// No call nests deeper for a document that nests deeper: the objects
    /// and arrays still to be done stand in a list, children above their
    /// parent, and the loop works on the topmost one.
    pub fn derive_schema(&mut self, object: &'a Value) -> (schema: Schema)
        ensures
            schema@ == schema_of(*object),
            !(schema is AnyOf),
            object matches Value::Object(members) ==> (schema matches Schema::Object(found)
                && found.properties@.dom() == members@.dom()),
            final(self).retained() == old(self).retained(),
    {
        if Self::is_basic_value(object) {
            return Self::derive_basic_schema(object);
        }
        proof {
            use_type_invariant(&*self);
        }
        let mut frontier: Vec<SchemaNode<'a>> = Vec::new();
        std::mem::swap(&mut frontier, &mut self.frontier);
        frontier.push(SchemaNode { parent_index: None, content: None, relation: None, source: object });
        proof {
            assert(node_ok(frontier@, 0));
        }
        loop
            invariant
                stack_ok(frontier@, *object),
                self.frontier@.len() == 0,
                self.schema == old(self).schema,
            decreases weight(frontier@),
        {
            let ghost before = frontier@;
            let mut current_node = frontier.pop().unwrap();
            proof {
                assert(node_ok(before, before.len() - 1));
                assert(frontier@ =~= before.drop_last());
            }
            if current_node.content.is_some() {
                // All children are done: finish the node and hand its schema up.
                proof {
                    lemma_finished(before, *object);
                }
                let schema = current_node.to_schema();
                let ghost finished = schema;
                match current_node.parent_index {
                    None => {
                        proof {
                            if schema is Object && object is Object {
                                let found = schema->Object_0;
                                let members = object->Object_0;
                                assert(properties_model(found.properties).dom()
                                    =~= found.properties@.dom());
                                assert(properties_of(members).dom() =~= members@.dom());
                            }
                        }
                        self.frontier = frontier;
                        return schema;
                    },
                    Some(parent_index) => {
                        match &current_node.relation {
                            Some(NodeRelation::ObjectAttribute(node_key)) => {
                                frontier[parent_index].add_attribute(node_key.as_str(), schema);
                                proof {
                                    lemma_attached_attribute(
                                        before,
                                        frontier@,
                                        *object,
                                        parent_index as int,
                                        node_key@,
                                        finished,
                                    );
                                    lemma_weight_update(
                                        before.drop_last(),
                                        parent_index as int,
                                        frontier@[parent_index as int],
                                    );
                                    assert(frontier@ =~= before.drop_last().update(
                                        parent_index as int,
                                        frontier@[parent_index as int],
                                    ));
                                }
                            },
                            Some(NodeRelation::ArrayElement(position)) => {
                                frontier[parent_index].add_element(*position, schema);
                                proof {
                                    lemma_attached_element(
                                        before,
                                        frontier@,
                                        *object,
                                        parent_index as int,
                                        *position as int,
                                        finished,
                                    );
                                    lemma_weight_update(
                                        before.drop_last(),
                                        parent_index as int,
                                        frontier@[parent_index as int],
                                    );
                                    assert(frontier@ =~= before.drop_last().update(
                                        parent_index as int,
                                        frontier@[parent_index as int],
                                    ));
                                }
                            },
                            None => {
                                vstd::pervasive::unreached::<()>();
                            },
                        }
                    },
                }
                continue ;
            }
            // First visit: open the node and see to its children.
            match current_node.source {
                Value::Object(source_attributes) => {
                    current_node.content = Some(PartialContent::Object(Dict::new()));
                    frontier.push(current_node);
                    let parent_index = frontier.len() - 1;
                    let count = source_attributes.len();
                    proof {
                        lemma_opened(before, frontier@, *object);
                        lemma_weight_push(before.drop_last(), frontier@[parent_index as int]);
                        assert(frontier@ =~= before.drop_last().push(frontier@[parent_index as int]));
                    }
                    let mut i: usize = 0;
                    while i < count
                        invariant
                            i <= count,
                            count == source_attributes.entries().len(),
                            crate::dict::distinct_names(source_attributes.entries()),
                            parent_index < frontier@.len(),
                            frontier@[parent_index as int].source == Value::Object(*source_attributes),
                            stack_ok_upto(frontier@, *object, parent_index as int, i as int),
                            opening(frontier@, parent_index as int, i as int),
                            weight(frontier@) + 2 * (size_of_members(*source_attributes, count as nat)
                                - size_of_members(*source_attributes, i as nat)) + 1 <= weight(before),
                        decreases count - i,
                    {
                        let ghost now = frontier@;
                        let (attribute, value) = source_attributes.entry_at(i);
                        if Self::is_basic_value(value) {
                            // A simple member needs no node of its own.
                            let leaf = Self::derive_basic_schema(value);
                            let ghost classified = leaf;
                            frontier[parent_index].add_attribute(attribute.as_str(), leaf);
                            proof {
                                lemma_member_classified(
                                    now,
                                    frontier@,
                                    *object,
                                    parent_index as int,
                                    i as int,
                                    classified,
                                );
                                lemma_weight_update(
                                    now,
                                    parent_index as int,
                                    frontier@[parent_index as int],
                                );
                                assert(frontier@ =~= now.update(
                                    parent_index as int,
                                    frontier@[parent_index as int],
                                ));
                            }
                        } else {
                            frontier.push(
                                SchemaNode {
                                    parent_index: Some(parent_index),
                                    content: None,
                                    source: value,
                                    relation: Some(NodeRelation::ObjectAttribute(attribute.clone())),
                                },
                            );
                            proof {
                                lemma_member_pushed(
                                    now,
                                    frontier@,
                                    *object,
                                    parent_index as int,
                                    i as int,
                                );
                                lemma_weight_push(now, frontier@.last());
                            }
                        }
                        i += 1;
                    }
                },
                Value::Array(items) => {
                    let count = items.len();
                    let mut slots: Vec<Option<Schema>> = Vec::new();
                    while slots.len() < count
                        invariant
                            slots.len() <= count,
                            forall|k: int| 0 <= k < slots.len() ==> (#[trigger] slots[k]) is None,
                        decreases count - slots.len(),
                    {
                        slots.push(None);
                    }
                    current_node.content = Some(PartialContent::Array(slots));
                    frontier.push(current_node);
                    let parent_index = frontier.len() - 1;
                    proof {
                        lemma_opened(before, frontier@, *object);
                        lemma_weight_push(before.drop_last(), frontier@[parent_index as int]);
                        assert(frontier@ =~= before.drop_last().push(frontier@[parent_index as int]));
                    }
                    let mut i: usize = 0;
                    while i < count
                        invariant
                            i <= count,
                            count == items.len(),
                            parent_index < frontier@.len(),
                            frontier@[parent_index as int].source == Value::Array(*items),
                            stack_ok_upto(frontier@, *object, parent_index as int, i as int),
                            opening(frontier@, parent_index as int, i as int),
                            weight(frontier@) + 2 * (size_of_items(*items, count as nat) - size_of_items(
                                *items,
                                i as nat,
                            )) + 1 <= weight(before),
                        decreases count - i,
                    {
                        let ghost now = frontier@;
                        let value = &items[i];
                        if Self::is_basic_value(value) {
                            // A simple element needs no node of its own.
                            let leaf = Self::derive_basic_schema(value);
                            let ghost classified = leaf;
                            frontier[parent_index].add_element(i, leaf);
                            proof {
                                lemma_element_classified(
                                    now,
                                    frontier@,
                                    *object,
                                    parent_index as int,
                                    i as int,
                                    classified,
                                );
                                lemma_weight_update(
                                    now,
                                    parent_index as int,
                                    frontier@[parent_index as int],
                                );
                                assert(frontier@ =~= now.update(
                                    parent_index as int,
                                    frontier@[parent_index as int],
                                ));
                            }
                        } else {
                            frontier.push(
                                SchemaNode {
                                    parent_index: Some(parent_index),
                                    content: None,
                                    source: value,
                                    relation: Some(NodeRelation::ArrayElement(i)),
                                },
                            );
                            proof {
                                lemma_element_pushed(
                                    now,
                                    frontier@,
                                    *object,
                                    parent_index as int,
                                    i as int,
                                );
                                lemma_weight_push(now, frontier@.last());
                            }
                        }
                        i += 1;
                    }
                },
                _ => {
                    vstd::pervasive::unreached::<()>();
                },
            }
        }
    }

    /// The schema of a value that is neither an object nor an array.
    pub fn derive_basic_schema(object: &Value) -> (schema: Schema)
        requires
            object.is_basic_spec(),
        ensures
            schema@ == schema_of(*object),
            !(schema is AnyOf),
    {
        classify(object)
    }

    /// Whether the value is neither an object nor an array.
    pub fn is_basic_value(object: &Value) -> (b: bool)
        ensures
            b == object.is_basic_spec(),
    {
        object.is_basic()
    }
}

} // verus!
