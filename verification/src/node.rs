//! Identifiers in one shape for objects and sets, and values with a distance.

use vstd::prelude::*;
use vstd::std_specs::convert::FromSpecImpl;
use crate::ident::Object;
use crate::ident::ObjectOrSet;
use crate::ident::RSet;
use crate::ident::VertexKey;

verus! {

/// An identifier of either kind: a namespace, an id, and a relation where it
/// names a set.
#[derive(Debug)]
pub struct NodeId {
    pub namespace: String,
    pub id: String,
    pub relation: Option<String>,
}

impl View for NodeId {
    type V = VertexKey;

    open spec fn view(&self) -> VertexKey {
        VertexKey {
            namespace: self.namespace@,
            id: self.id@,
            relation: match self.relation {
                Some(relation) => Some(relation@),
                None => None,
            },
        }
    }
}

impl NodeId {
    /// The identifier as the source of a relation.
    pub fn into_source(self) -> (r: ObjectOrSet)
        ensures
            r@ == self@,
    {
        match self.relation {
            Some(relation) => ObjectOrSet::RSet(RSet::new(self.namespace, self.id, relation)),
            None => ObjectOrSet::Object(Object::new(self.namespace, self.id)),
        }
    }
}

impl From<(String, String)> for NodeId {
    fn from(value: (String, String)) -> (r: Self) {
        NodeId { namespace: value.0, id: value.1, relation: None }
    }
}

impl FromSpecImpl<(String, String)> for NodeId {
    open spec fn obeys_from_spec() -> bool {
        true
    }

    open spec fn from_spec(value: (String, String)) -> Self {
        NodeId { namespace: value.0, id: value.1, relation: None }
    }
}

impl From<(String, String, String)> for NodeId {
    fn from(value: (String, String, String)) -> (r: Self) {
        NodeId { namespace: value.0, id: value.1, relation: Some(value.2) }
    }
}

impl FromSpecImpl<(String, String, String)> for NodeId {
    open spec fn obeys_from_spec() -> bool {
        true
    }

    open spec fn from_spec(value: (String, String, String)) -> Self {
        NodeId { namespace: value.0, id: value.1, relation: Some(value.2) }
    }
}

impl From<(String, String, Option<String>)> for NodeId {
    fn from(value: (String, String, Option<String>)) -> (r: Self) {
        NodeId { namespace: value.0, id: value.1, relation: value.2 }
    }
}

impl FromSpecImpl<(String, String, Option<String>)> for NodeId {
    open spec fn obeys_from_spec() -> bool {
        true
    }

    open spec fn from_spec(value: (String, String, Option<String>)) -> Self {
        NodeId { namespace: value.0, id: value.1, relation: value.2 }
    }
}

impl From<(&str, &str)> for NodeId {
    fn from(value: (&str, &str)) -> (r: Self)
        ensures
            r@ == (VertexKey { namespace: value.0@, id: value.1@, relation: None }),
    {
        NodeId { namespace: value.0.to_owned(), id: value.1.to_owned(), relation: None }
    }
}

impl FromSpecImpl<(&str, &str)> for NodeId {
    open spec fn obeys_from_spec() -> bool {
        false
    }

    open spec fn from_spec(value: (&str, &str)) -> Self {
        arbitrary()
    }
}

impl From<(&str, &str, &str)> for NodeId {
    fn from(value: (&str, &str, &str)) -> (r: Self)
        ensures
            r@ == (VertexKey { namespace: value.0@, id: value.1@, relation: Some(value.2@) }),
    {
        NodeId {
            namespace: value.0.to_owned(),
            id: value.1.to_owned(),
            relation: Some(value.2.to_owned()),
        }
    }
}

impl FromSpecImpl<(&str, &str, &str)> for NodeId {
    open spec fn obeys_from_spec() -> bool {
        false
    }

    open spec fn from_spec(value: (&str, &str, &str)) -> Self {
        arbitrary()
    }
}

/// A value together with its distance from where a search began.
#[derive(Debug)]
pub struct Distanced<T> {
    pub distance: u32,
    pub data: T,
}

impl<T> Distanced<T> {
    /// A value at a distance.
    pub fn new(data: T, distance: u32) -> (r: Self)
        ensures
            r.data == data,
            r.distance == distance,
    {
        Distanced { distance, data }
    }

    /// The value at distance one.
    pub fn one(data: T) -> (r: Self)
        ensures
            r.data == data,
            r.distance == 1,
    {
        Distanced { distance: 1, data }
    }

    /// The distance of the value.
    pub fn distance(&self) -> (r: u32)
        ensures
            r == self.distance,
    {
        self.distance
    }

    /// The value.
    pub fn data(&self) -> (r: &T)
        ensures
            *r == self.data,
    {
        &self.data
    }

    /// Whether this value is nearer than `other`.
    pub fn nearer_than(&self, other: &Self) -> (r: bool)
        ensures
            r == (self.distance < other.distance),
    {
        self.distance < other.distance
    }
}

} // verus!
