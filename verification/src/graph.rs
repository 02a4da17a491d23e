//! A graph of relations between numbered objects.
//!
//! Objects are registered under a number; a relation leads from an object, or
//! from the set of those that bear a relation on an object, to an object
//! under a relation.

use vstd::prelude::*;
use crate::bimap::BidMap;
use crate::bimap::BidThreeMap;
use crate::bimap::nested_get;
use crate::bimap::nested_insert;
use crate::bimap::nested_purge;
use crate::bimap::nested_remove;
use crate::bimap::nested_row;
use crate::ident::Object;
use crate::ident::VertexKey;
use crate::ident::same_text;
use crate::table::Keyed;

verus! {

/// The number under which an object is registered.
#[derive(Clone, Copy, Debug, PartialEq, Eq, Structural)]
pub struct ObjectRef(pub u32);

/// The name of a relation.
#[derive(Debug)]
pub struct Relation(pub String);

/// The source of a relation: a numbered object, or the set of those that
/// bear a relation on one.
#[derive(Debug)]
pub enum ObjectOrSet {
    Object(ObjectRef),
    Userset((ObjectRef, Relation)),
}

/// The destination of a relation: a numbered object under a relation.
#[derive(Debug)]
pub struct ObjectRelation(pub ObjectRef, pub Relation);

/// The identity of a source: the number of its object, and its relation where it is a set.
pub struct NodeKey {
    pub object: u32,
    pub relation: Option<Seq<char>>,
}

impl View for ObjectRef {
    type V = u32;

    open spec fn view(&self) -> u32 {
        self.0
    }
}

impl View for Relation {
    type V = Seq<char>;

    open spec fn view(&self) -> Seq<char> {
        self.0@
    }
}

impl View for ObjectOrSet {
    type V = NodeKey;

    open spec fn view(&self) -> NodeKey {
        match self {
            ObjectOrSet::Object(obj) => NodeKey { object: obj.0, relation: None },
            ObjectOrSet::Userset(set) => NodeKey { object: set.0@, relation: Some(set.1@) },
        }
    }
}

impl View for ObjectRelation {
    type V = (u32, Seq<char>);

    open spec fn view(&self) -> (u32, Seq<char>) {
        (self.0@, self.1@)
    }
}

impl Relation {
    /// A relation with the given name.
    pub fn new(relation: &str) -> (r: Self)
        ensures
            r@ == relation@,
    {
        Relation(relation.to_owned())
    }

    /// The name as a string slice.
    pub fn as_str(&self) -> (r: &str)
        ensures
            r@ == self@,
    {
        self.0.as_str()
    }
}

impl Clone for Relation {
    fn clone(&self) -> (r: Self)
        ensures
            r@ == self@,
    {
        Relation(self.0.clone())
    }
}

impl ObjectOrSet {
    /// The number of the object of the source.
    pub fn object_ref(&self) -> (r: &ObjectRef)
        ensures
            r.0 == self@.object,
    {
        match self {
            ObjectOrSet::Object(obj) => obj,
            ObjectOrSet::Userset(set) => &set.0,
        }
    }

    /// The relation of the source, where it is a set.
    pub fn relation(&self) -> (r: Option<&Relation>)
        ensures
            r is Some <==> self@.relation is Some,
            r is Some ==> r->0@ == self@.relation->0,
    {
        match self {
            ObjectOrSet::Object(_) => None,
            ObjectOrSet::Userset(set) => Some(&set.1),
        }
    }
}

impl Clone for ObjectOrSet {
    fn clone(&self) -> (r: Self)
        ensures
            r@ == self@,
    {
        match self {
            ObjectOrSet::Object(obj) => ObjectOrSet::Object(*obj),
            ObjectOrSet::Userset(set) => ObjectOrSet::Userset((set.0, set.1.clone())),
        }
    }
}

impl Clone for ObjectRelation {
    fn clone(&self) -> (r: Self)
        ensures
            r@ == self@,
    {
        ObjectRelation(self.0, self.1.clone())
    }
}

impl Keyed for Object {
    fn same(&self, other: &Self) -> (r: bool) {
        same_text(self.namespace(), other.namespace()) && same_text(self.id(), other.id())
    }

    fn duplicate(&self) -> (r: Self) {
        self.clone()
    }
}

impl Keyed for ObjectRef {
    fn same(&self, other: &Self) -> (r: bool) {
        self.0 == other.0
    }

    fn duplicate(&self) -> (r: Self) {
        *self
    }
}

impl Keyed for Relation {
    fn same(&self, other: &Self) -> (r: bool) {
        same_text(self.as_str(), other.as_str())
    }

    fn duplicate(&self) -> (r: Self) {
        self.clone()
    }
}

impl Keyed for ObjectOrSet {
    fn same(&self, other: &Self) -> (r: bool) {
        match (self, other) {
            (ObjectOrSet::Object(a), ObjectOrSet::Object(b)) => a.0 == b.0,
            (ObjectOrSet::Userset(a), ObjectOrSet::Userset(b)) => a.0 == b.0 && same_text(
                a.1.as_str(),
                b.1.as_str(),
            ),
            _ => false,
        }
    }

    fn duplicate(&self) -> (r: Self) {
        self.clone()
    }
}

impl Keyed for ObjectRelation {
    fn same(&self, other: &Self) -> (r: bool) {
        self.0 == other.0 && same_text(self.1.as_str(), other.1.as_str())
    }

    fn duplicate(&self) -> (r: Self) {
        self.clone()
    }
}

/// A change of the graph.
#[derive(Debug)]
pub enum Event {
    AddObject(Object),
    RemoveObject(Object),
    AddRelation((ObjectOrSet, ObjectRelation)),
    RemoveRelation((ObjectOrSet, ObjectRelation)),
}

/// The graph: the registered objects and the relations between them.
pub struct Graph {
    pub(crate) nodes: BidMap<Object, ObjectRef>,
    pub(crate) edges: BidThreeMap<ObjectOrSet, Relation, ObjectRef>,
    pub(crate) counter: u32,
}

impl Graph {
    /// The number of each registered object.
    pub open(crate) spec fn refs(&self) -> Map<VertexKey, u32> {
        self.nodes.left()
    }

    /// The object that each number stands for.
    pub open(crate) spec fn objects(&self) -> Map<u32, VertexKey> {
        self.nodes.right()
    }

    /// The relations by source: under a source and a relation, the numbers of
    /// the objects that the source bears the relation on.
    pub open(crate) spec fn outgoing(&self) -> Map<NodeKey, Map<Seq<char>, Set<u32>>> {
        self.edges.left()
    }

    /// The relations by destination: under the number of an object and a
    /// relation, the sources that bear the relation on it.
    pub open(crate) spec fn incoming(&self) -> Map<u32, Map<Seq<char>, Set<NodeKey>>> {
        self.edges.right()
    }

    /// The number that the next object is registered under.
    pub open(crate) spec fn next_ref(&self) -> u32 {
        self.counter
    }

    /// The two graphs hold the same objects and relations.
    pub open spec fn same_as(&self, other: &Self) -> bool {
        &&& self.refs() == other.refs()
        &&& self.objects() == other.objects()
        &&& self.outgoing() == other.outgoing()
        &&& self.incoming() == other.incoming()
        &&& self.next_ref() == other.next_ref()
    }

    /// A graph without objects and relations.
    pub fn new() -> (r: Self)
        ensures
            r.refs() == Map::<VertexKey, u32>::empty(),
            r.objects() == Map::<u32, VertexKey>::empty(),
            r.outgoing() == Map::<NodeKey, Map<Seq<char>, Set<u32>>>::empty(),
            r.incoming() == Map::<u32, Map<Seq<char>, Set<NodeKey>>>::empty(),
            r.next_ref() == 0,
    {
        Graph { nodes: BidMap::new(), edges: BidThreeMap::new(), counter: 0 }
    }

    /// The number of the object with this namespace and id, if it is registered.
    pub fn get_node(&self, namespace: &str, id: &str) -> (r: Option<ObjectRef>)
        ensures
            r is Some <==> self.refs().dom().contains(
                VertexKey { namespace: namespace@, id: id@, relation: None },
            ),
            r is Some ==> r->0@ == self.refs()[VertexKey {
                namespace: namespace@,
                id: id@,
                relation: None,
            }],
    {
        let key = Object::new(namespace.to_owned(), id.to_owned());
        match self.nodes.get_by_a(&key) {
            Some(obj) => Some(*obj),
            None => None,
        }
    }

    /// Whether a number stands for an object.
    pub fn knows(&self, obj: &ObjectRef) -> (r: bool)
        ensures
            r == self.objects().dom().contains(obj.0),
    {
        self.nodes.get_by_b(obj).is_some()
    }

    /// Whether the numbers are used up, so that no object can be registered.
    pub fn is_full(&self) -> (r: bool)
        ensures
            r == (self.next_ref() == u32::MAX),
    {
        self.counter == u32::MAX
    }

    /// The object that a number stands for.
    pub fn object_from_ref(&self, obj: &ObjectRef) -> (r: Object)
        requires
            self.objects().dom().contains(obj.0),
        ensures
            r@ == self.objects()[obj.0],
    {
        self.nodes.get_by_b(obj).unwrap().clone()
    }

    /// Registers an object under the next number, and returns the number.
    pub fn add_node(&mut self, node: Object) -> (r: ObjectRef)
        requires
            old(self).next_ref() < u32::MAX,
        ensures
            r.0 == old(self).next_ref(),
            final(self).next_ref() == old(self).next_ref() + 1,
            final(self).refs() == old(self).refs().insert(node@, r.0),
            final(self).objects() == old(self).objects().insert(r.0, node@),
            final(self).outgoing() == old(self).outgoing(),
            final(self).incoming() == old(self).incoming(),
    {
        let obj_ref = ObjectRef(self.counter);
        self.nodes.insert(node, obj_ref);
        self.counter = self.counter + 1;
        obj_ref
    }

    /// Takes an object out of the register, with the relations that lead to it.
    pub fn remove_node(&mut self, node: Object)
        ensures
            final(self).next_ref() == old(self).next_ref(),
            final(self).refs() == old(self).refs().remove(node@),
            old(self).refs().dom().contains(node@) ==> {
                let index = old(self).refs()[node@];
                &&& final(self).objects() == old(self).objects().remove(index)
                &&& final(self).incoming() == old(self).incoming().remove(index)
                &&& final(self).outgoing() == nested_purge(
                    old(self).outgoing(),
                    nested_row(old(self).incoming(), index),
                    index,
                )
            },
            !old(self).refs().dom().contains(node@) ==> final(self).same_as(old(self)),
    {
        let index = self.nodes.remove_by_a(&node);
        if let Some(index) = index {
            self.edges.remove_by_c(&index);
        } else {
            assert(self.refs() =~= old(self).refs());
        }
    }

    /// Whether `src` bears the relation of `dst` on the object of `dst`, directly.
    pub fn has_relation(&self, src: ObjectOrSet, dst: ObjectRelation) -> (r: bool)
        ensures
            r == nested_get(self.outgoing(), src@, dst@.1).contains(dst@.0),
    {
        self.edges.has(&src, &dst.1, &dst.0)
    }

    /// Adds the relation from `src` to `dst`.
    pub fn add_relation(&mut self, src: ObjectOrSet, dst: ObjectRelation)
        ensures
            final(self).outgoing() == nested_insert(old(self).outgoing(), src@, dst@.1, dst@.0),
            final(self).incoming() == nested_insert(old(self).incoming(), dst@.0, dst@.1, src@),
            final(self).refs() == old(self).refs(),
            final(self).objects() == old(self).objects(),
            final(self).next_ref() == old(self).next_ref(),
    {
        self.edges.insert(src, dst.1, dst.0);
    }

    /// Takes the relation from `src` to `dst` out.
    pub fn remove_relation(&mut self, src: ObjectOrSet, dst: ObjectRelation)
        ensures
            final(self).outgoing() == nested_remove(old(self).outgoing(), src@, dst@.1, dst@.0),
            final(self).incoming() == nested_remove(old(self).incoming(), dst@.0, dst@.1, src@),
            final(self).refs() == old(self).refs(),
            final(self).objects() == old(self).objects(),
            final(self).next_ref() == old(self).next_ref(),
    {
        self.edges.remove(&src, &dst.1, &dst.0);
    }

    /// Applies a change to the graph, as the function for that change does.
    /// An object that cannot be registered because the numbers are used up is
    /// not registered. Returns whether the change was applied.
    pub fn apply(&mut self, event: Event) -> (applied: bool)
        ensures
            applied == !(event is AddObject && old(self).next_ref() == u32::MAX),
            !applied ==> final(self).same_as(old(self)),
            event matches Event::AddObject(node) ==> applied ==> {
                &&& final(self).refs() == old(self).refs().insert(node@, old(self).next_ref())
                &&& final(self).objects() == old(self).objects().insert(
                    old(self).next_ref(),
                    node@,
                )
                &&& final(self).next_ref() == old(self).next_ref() + 1
                &&& final(self).outgoing() == old(self).outgoing()
                &&& final(self).incoming() == old(self).incoming()
            },
            event matches Event::RemoveObject(node) ==> {
                &&& final(self).next_ref() == old(self).next_ref()
                &&& final(self).refs() == old(self).refs().remove(node@)
                &&& old(self).refs().dom().contains(node@) ==> {
                    let index = old(self).refs()[node@];
                    &&& final(self).objects() == old(self).objects().remove(index)
                    &&& final(self).incoming() == old(self).incoming().remove(index)
                    &&& final(self).outgoing() == nested_purge(
                        old(self).outgoing(),
                        nested_row(old(self).incoming(), index),
                        index,
                    )
                }
                &&& !old(self).refs().dom().contains(node@) ==> final(self).same_as(old(self))
            },
            event matches Event::AddRelation(pair) ==> {
                &&& final(self).outgoing() == nested_insert(
                    old(self).outgoing(),
                    pair.0@,
                    pair.1@.1,
                    pair.1@.0,
                )
                &&& final(self).incoming() == nested_insert(
                    old(self).incoming(),
                    pair.1@.0,
                    pair.1@.1,
                    pair.0@,
                )
                &&& final(self).refs() == old(self).refs()
                &&& final(self).objects() == old(self).objects()
                &&& final(self).next_ref() == old(self).next_ref()
            },
            event matches Event::RemoveRelation(pair) ==> {
                &&& final(self).outgoing() == nested_remove(
                    old(self).outgoing(),
                    pair.0@,
                    pair.1@.1,
                    pair.1@.0,
                )
                &&& final(self).incoming() == nested_remove(
                    old(self).incoming(),
                    pair.1@.0,
                    pair.1@.1,
                    pair.0@,
                )
                &&& final(self).refs() == old(self).refs()
                &&& final(self).objects() == old(self).objects()
                &&& final(self).next_ref() == old(self).next_ref()
            },
    {
        match event {
            Event::AddObject(node) => {
                if self.counter == u32::MAX {
                    return false;
                }
                let _ = self.add_node(node);
            },
            Event::RemoveObject(node) => {
                self.remove_node(node);
            },
            Event::AddRelation(pair) => {
                self.add_relation(pair.0, pair.1);
            },
            Event::RemoveRelation(pair) => {
                self.remove_relation(pair.0, pair.1);
            },
        }
        true
    }
}

impl Default for Graph {
    fn default() -> (r: Self)
        ensures
            r.refs() == Map::<VertexKey, u32>::empty(),
            r.objects() == Map::<u32, VertexKey>::empty(),
            r.outgoing() == Map::<NodeKey, Map<Seq<char>, Set<u32>>>::empty(),
            r.incoming() == Map::<u32, Map<Seq<char>, Set<NodeKey>>>::empty(),
            r.next_ref() == 0,
    {
        Graph::new()
    }
}

} // verus!
