//! The relation graph: its store of edges, and the operations that change it.

use vstd::prelude::*;
use crate::ident::Object;
use crate::ident::ObjectOrSet;
use crate::ident::RSet;
use crate::ident::VertexKey;
use crate::ident::WILDCARD_ID;
use crate::ident::is_wildcard;
use crate::ident::wildcard_text;
use crate::index::Edge;
use crate::index::PairIndex;
use crate::model::edges_after_insert;
use crate::model::edges_after_remove;
use crate::model::has_vertex;
use crate::model::is_source;
use crate::model::is_target;
use crate::model::lemma_insert_keeps_objects_tied;
use crate::model::lemma_remove_keeps_objects_tied;
use crate::model::mirror;
use crate::model::objects_tied;
use crate::model::resolve;

verus! {

/// A graph of relation tuples.
///
/// Every edge is held twice: by its source in `forward`, and by its
/// destination in `backward`.
pub struct RelationGraph {
    pub(crate) forward: PairIndex,
    pub(crate) backward: PairIndex,
}

impl View for RelationGraph {
    type V = Set<Edge>;

    /// The edges of the graph, each as (source, destination).
    open(crate) spec fn view(&self) -> Set<Edge> {
        self.forward@
    }
}

/// The text of the wildcard id, as an owned string.
fn wildcard_id() -> (r: String)
    ensures
        r@ == wildcard_text(),
{
    proof {
        reveal_strlit("*");
        assert("*"@ =~= wildcard_text());
    }
    WILDCARD_ID.to_owned()
}

/// The identifier `v` with the wildcard in place of its id.
pub fn wildcard_of(v: &ObjectOrSet) -> (r: ObjectOrSet)
    ensures
        r@ == v@.wildcard(),
{
    match v {
        ObjectOrSet::Object(obj) => ObjectOrSet::Object(
            Object::new(obj.namespace.clone(), wildcard_id()),
        ),
        ObjectOrSet::RSet(set) => ObjectOrSet::RSet(
            RSet::new(set.namespace.clone(), wildcard_id(), set.relation.clone()),
        ),
    }
}

/// Installs the edge `from` → `to` in both directions.
fn link(forward: &mut PairIndex, backward: &mut PairIndex, from: ObjectOrSet, to: ObjectOrSet)
    requires
        old(backward)@ == mirror(old(forward)@),
    ensures
        final(forward)@ == old(forward)@.insert((from@, to@)),
        final(backward)@ == mirror(final(forward)@),
{
    forward.insert(from.clone(), to.clone());
    backward.insert(to, from);
    assert(backward@ =~= mirror(forward@));
}

impl RelationGraph {
    /// Both directions are in order and hold the same edges.
    pub open(crate) spec fn store_ok(&self) -> bool {
        &&& self.forward.wf()
        &&& self.backward.wf()
        &&& self.backward@ == mirror(self.forward@)
    }

    /// The store is consistent, and every object is tied to its wildcard.
    #[verifier::type_invariant]
    pub open(crate) spec fn wf(&self) -> bool {
        &&& self.store_ok()
        &&& objects_tied(self@)
    }

    /// In a well-formed graph every object that is a vertex, but for a
    /// wildcard, points to the wildcard of its namespace.
    pub proof fn lemma_objects_tied(&self)
        requires
            self.wf(),
        ensures
            objects_tied(self@),
    {
    }

    /// A graph without edges.
    pub fn new() -> (r: Self)
        ensures
            r@ == Set::<Edge>::empty(),
            objects_tied(r@),
    {
        let forward = PairIndex::new();
        let backward = PairIndex::new();
        proof {
            use_type_invariant(&forward);
            use_type_invariant(&backward);
            assert(backward@ =~= mirror(forward@));
            assert forall|o: VertexKey| !has_vertex(forward@, o) by {
                assert(!is_source(forward@, o));
                assert(!is_target(forward@, o));
            }
        }
        RelationGraph { forward, backward }
    }

    /// Creates the relation from `src` to `dst`, with the edges that tie both to
    /// the wildcards of their namespaces. Inserting a relation again changes nothing.
    pub fn insert(&mut self, src: &ObjectOrSet, dst: &RSet)
        ensures
            final(self)@ == edges_after_insert(old(self)@, src@, dst@),
            final(self)@.contains((src@, dst@)),
            objects_tied(final(self)@),
    {
        proof {
            use_type_invariant(&*self);
        }
        let mut taken = RelationGraph::new();
        std::mem::swap(self, &mut taken);
        let RelationGraph { mut forward, mut backward } = taken;
        let dst_vertex = ObjectOrSet::RSet(dst.clone());
        let dst_wildcard = wildcard_of(&dst_vertex);
        match src {
            ObjectOrSet::Object(obj) => {
                if !is_wildcard(obj.id()) {
                    link(&mut forward, &mut backward, src.clone(), wildcard_of(src));
                }
            },
            ObjectOrSet::RSet(_) => {
                link(&mut forward, &mut backward, wildcard_of(src), src.clone());
            },
        }
        link(&mut forward, &mut backward, dst_wildcard, dst_vertex.clone());
        link(&mut forward, &mut backward, src.clone(), dst_vertex);
        proof {
            use_type_invariant(&forward);
            use_type_invariant(&backward);
            assert(forward@ =~= edges_after_insert(old(self)@, src@, dst@));
            lemma_insert_keeps_objects_tied(old(self)@, src@, dst@);
        }
        *self = RelationGraph { forward, backward };
    }

    /// Takes the edge from `src` to `dst` out. The edges to and from wildcards
    /// stay. A vertex that no edge touches any more is gone with its last edge.
    pub fn remove(&mut self, src: &ObjectOrSet, dst: &RSet)
        ensures
            final(self)@ == edges_after_remove(old(self)@, src@, dst@),
            !final(self)@.contains((src@, dst@)),
            objects_tied(final(self)@),
    {
        proof {
            use_type_invariant(&*self);
        }
        let mut taken = RelationGraph::new();
        std::mem::swap(self, &mut taken);
        let RelationGraph { mut forward, mut backward } = taken;
        let dst_vertex = ObjectOrSet::RSet(dst.clone());
        forward.remove(src, &dst_vertex);
        backward.remove(&dst_vertex, src);
        proof {
            use_type_invariant(&forward);
            use_type_invariant(&backward);
            assert(backward@ =~= mirror(forward@));
            lemma_remove_keeps_objects_tied(old(self)@, src@, dst@);
        }
        *self = RelationGraph { forward, backward };
    }

    /// Whether there is a direct relation from `src` to `dst`. Wildcards and
    /// longer paths do not count.
    pub fn has(&self, src: &ObjectOrSet, dst: &RSet) -> (r: bool)
        ensures
            r == self@.contains((src@, dst@)),
    {
        proof {
            use_type_invariant(self);
        }
        let dst_vertex = ObjectOrSet::RSet(dst.clone());
        self.forward.contains(src, &dst_vertex)
    }

    /// Whether `v` is a vertex of the graph.
    pub fn has_vertex(&self, v: &ObjectOrSet) -> (r: bool)
        ensures
            r == has_vertex(self@, v@),
    {
        proof {
            use_type_invariant(self);
        }
        let out = self.forward.find_run(v);
        if out.is_some() {
            proof {
                let p = out->0 as int;
                assert(self.forward.pairs().contains(self.forward.pairs()[p]));
                assert(self@.contains((v@, self.forward.pairs()[p].1)));
            }
            return true;
        }
        let inc = self.backward.find_run(v);
        proof {
            if is_source(self@, v@) {
                let w = choose|w: VertexKey| self@.contains((v@, w));
                assert(self.forward.pairs().contains((v@, w)));
            }
            if inc.is_some() {
                let p = inc->0 as int;
                let e = self.backward.pairs()[p];
                assert(self.backward.pairs().contains(e));
                assert(self.backward@.contains(e));
                assert(mirror(self.forward@).contains(e));
                assert(self@.contains((e.1, e.0)));
            } else if is_target(self@, v@) {
                let w = choose|w: VertexKey| self@.contains((w, v@));
                assert(self.backward@.contains((v@, w)));
                assert(self.backward.pairs().contains((v@, w)));
            }
        }
        inc.is_some()
    }

    /// The vertex that a query for `v` starts from: `v` itself if it is a vertex,
    /// else its wildcard if that is one.
    pub fn resolve(&self, v: &ObjectOrSet) -> (r: Option<ObjectOrSet>)
        ensures
            r is Some <==> resolve(self@, v@) is Some,
            r is Some ==> r->0@ == resolve(self@, v@)->0,
    {
        proof {
            use_type_invariant(self);
        }
        if self.has_vertex(v) {
            Some(v.clone())
        } else {
            let w = wildcard_of(v);
            if self.has_vertex(&w) {
                Some(w)
            } else {
                None
            }
        }
    }
}

impl Default for RelationGraph {
    fn default() -> (r: Self)
        ensures
            r@ == Set::<Edge>::empty(),
    {
        RelationGraph::new()
    }
}

} // verus!
