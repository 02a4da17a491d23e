//! The graph as a set of directed edges, and what each operation means on it.
//!
//! A vertex exists exactly as long as an edge touches it, so the edges alone
//! are the state of the graph.

use vstd::prelude::*;
use crate::ident::VertexKey;
use crate::ident::wildcard_text;
use crate::index::Edge;

verus! {

/// The same edges, each turned round.
pub open spec fn mirror(edges: Set<Edge>) -> Set<Edge> {
    Set::new(|e: Edge| edges.contains((e.1, e.0)))
}

/// Some edge leaves `v`.
pub open spec fn is_source(edges: Set<Edge>, v: VertexKey) -> bool {
    exists|w: VertexKey| edges.contains((v, w))
}

/// Some edge enters `v`.
pub open spec fn is_target(edges: Set<Edge>, v: VertexKey) -> bool {
    exists|w: VertexKey| edges.contains((w, v))
}

/// `v` is a vertex of the graph: an edge touches it.
pub open spec fn has_vertex(edges: Set<Edge>, v: VertexKey) -> bool {
    is_source(edges, v) || is_target(edges, v)
}

/// The edges that one insertion of `src` → `dst` installs: the edge itself, the
/// edge from the wildcard of `dst` to `dst`, and the edge that ties `src` to its
/// own wildcard, from an object to its wildcard and from a wildcard set to the set.
pub open spec fn scaffold(src: VertexKey, dst: VertexKey) -> Set<Edge> {
    let base = set![(src, dst), (dst.wildcard(), dst)];
    if src.is_set() {
        base.insert((src.wildcard(), src))
    } else if src.id != wildcard_text() {
        base.insert((src, src.wildcard()))
    } else {
        base
    }
}

/// Every object that is a vertex, but for a wildcard, points to the wildcard of
/// its namespace. Insertions establish this and removals cannot undo it, since
/// a removal names a set as its destination.
pub open spec fn objects_tied(edges: Set<Edge>) -> bool {
    forall|o: VertexKey|
        o.is_object() && o.id != wildcard_text() && #[trigger] has_vertex(edges, o)
            ==> edges.contains((o, o.wildcard()))
}

/// The edges after `src` → `dst` was inserted.
pub open spec fn edges_after_insert(edges: Set<Edge>, src: VertexKey, dst: VertexKey) -> Set<Edge> {
    edges.union(scaffold(src, dst))
}

/// The edges after `src` → `dst` was removed.
pub open spec fn edges_after_remove(edges: Set<Edge>, src: VertexKey, dst: VertexKey) -> Set<Edge> {
    edges.remove((src, dst))
}

/// An insertion keeps every object tied to its wildcard.
pub proof fn lemma_insert_keeps_objects_tied(edges: Set<Edge>, src: VertexKey, dst: VertexKey)
    requires
        objects_tied(edges),
        dst.is_set(),
    ensures
        objects_tied(edges_after_insert(edges, src, dst)),
{
    let after = edges_after_insert(edges, src, dst);
    assert forall|o: VertexKey|
        o.is_object() && o.id != wildcard_text() && #[trigger] has_vertex(
            after,
            o,
        ) implies after.contains((o, o.wildcard())) by {
        if is_source(after, o) {
            let w = choose|w: VertexKey| after.contains((o, w));
            if edges.contains((o, w)) {
                assert(has_vertex(edges, o));
            }
        } else {
            let w = choose|w: VertexKey| after.contains((w, o));
            if edges.contains((w, o)) {
                assert(has_vertex(edges, o));
            }
        }
    }
}

/// A removal keeps every object tied to its wildcard.
pub proof fn lemma_remove_keeps_objects_tied(edges: Set<Edge>, src: VertexKey, dst: VertexKey)
    requires
        objects_tied(edges),
        dst.is_set(),
    ensures
        objects_tied(edges_after_remove(edges, src, dst)),
{
    let after = edges_after_remove(edges, src, dst);
    assert forall|o: VertexKey|
        o.is_object() && o.id != wildcard_text() && #[trigger] has_vertex(
            after,
            o,
        ) implies after.contains((o, o.wildcard())) by {
        if is_source(after, o) {
            let w = choose|w: VertexKey| after.contains((o, w));
            assert(edges.contains((o, w)));
            assert(has_vertex(edges, o));
        } else {
            let w = choose|w: VertexKey| after.contains((w, o));
            assert(edges.contains((w, o)));
            assert(has_vertex(edges, o));
        }
    }
}

/// The edges after each of `tuples` was inserted, in turn.
pub open spec fn edges_after_tuples(edges: Set<Edge>, tuples: Seq<Edge>) -> Set<Edge>
    decreases tuples.len(),
{
    if tuples.len() == 0 {
        edges
    } else {
        edges_after_insert(
            edges_after_tuples(edges, tuples.drop_last()),
            tuples.last().0,
            tuples.last().1,
        )
    }
}

/// The edges of the graph that the insertions of `tuples` build from nothing.
pub open spec fn built_from(tuples: Seq<Edge>) -> Set<Edge> {
    edges_after_tuples(Set::<Edge>::empty(), tuples)
}

/// A graph built by insertions has finitely many edges, and they are the
/// edges that its insertions install.
pub proof fn lemma_built(tuples: Seq<Edge>)
    ensures
        built_from(tuples).finite(),
        forall|e: Edge|
            built_from(tuples).contains(e) ==> exists|k: int|
                0 <= k < tuples.len() && #[trigger] scaffold(tuples[k].0, tuples[k].1).contains(e),
        forall|k: int, e: Edge|
            0 <= k < tuples.len() && #[trigger] scaffold(tuples[k].0, tuples[k].1).contains(e)
                ==> built_from(tuples).contains(e),
    decreases tuples.len(),
{
    if tuples.len() > 0 {
        let front = tuples.drop_last();
        let t = tuples.last();
        lemma_built(front);
        let all = built_from(tuples);
        assert(all == built_from(front).union(scaffold(t.0, t.1)));
        assert(scaffold(t.0, t.1).finite());
        assert forall|e: Edge| all.contains(e) implies exists|k: int|
            0 <= k < tuples.len() && #[trigger] scaffold(tuples[k].0, tuples[k].1).contains(e) by {
            if built_from(front).contains(e) {
                let k = choose|k: int|
                    0 <= k < front.len() && #[trigger] scaffold(front[k].0, front[k].1).contains(e);
                assert(front[k] == tuples[k]);
                assert(scaffold(tuples[k].0, tuples[k].1).contains(e));
            } else {
                let last = tuples.len() - 1;
                assert(scaffold(tuples[last].0, tuples[last].1).contains(e));
            }
        }
        assert forall|k: int, e: Edge|
            0 <= k < tuples.len() && #[trigger] scaffold(tuples[k].0, tuples[k].1).contains(
                e,
            ) implies all.contains(e) by {
            if k < front.len() {
                assert(front[k] == tuples[k]);
                assert(scaffold(front[k].0, front[k].1).contains(e));
            }
        }
    }
}

/// Insertions only add edges.
pub proof fn lemma_tuples_grow(edges: Set<Edge>, tuples: Seq<Edge>)
    ensures
        edges.subset_of(edges_after_tuples(edges, tuples)),
    decreases tuples.len(),
{
    if tuples.len() > 0 {
        lemma_tuples_grow(edges, tuples.drop_last());
    }
}

/// Insertions keep every object tied to its wildcard.
pub proof fn lemma_tuples_keep_objects_tied(edges: Set<Edge>, tuples: Seq<Edge>)
    requires
        objects_tied(edges),
        forall|k: int| 0 <= k < tuples.len() ==> (#[trigger] tuples[k]).1.is_set(),
    ensures
        objects_tied(edges_after_tuples(edges, tuples)),
    decreases tuples.len(),
{
    if tuples.len() > 0 {
        let front = tuples.drop_last();
        assert forall|k: int| 0 <= k < front.len() implies (#[trigger] front[k]).1.is_set() by {
            assert(front[k] == tuples[k]);
        }
        lemma_tuples_keep_objects_tied(edges, front);
        lemma_insert_keeps_objects_tied(
            edges_after_tuples(edges, front),
            tuples.last().0,
            tuples.last().1,
        );
    }
}

/// A walk of exactly `n` edges leads from `from` to `to`.
pub open spec fn reachable_in(edges: Set<Edge>, from: VertexKey, to: VertexKey, n: nat) -> bool
    decreases n,
{
    if n == 0 {
        from == to
    } else {
        exists|mid: VertexKey|
            reachable_in(edges, from, mid, (n - 1) as nat) && #[trigger] edges.contains((mid, to))
    }
}

/// A vertex satisfies a check for `dst` if it is `dst`, or the wildcard of the
/// namespace and relation of `dst`.
pub open spec fn matches_target(v: VertexKey, dst: VertexKey) -> bool {
    v == dst || (v.namespace == dst.namespace && v.id == wildcard_text() && v.relation
        == dst.relation)
}

/// The vertex that a query for `v` starts from: `v` itself if it is a vertex,
/// else its wildcard if that is one.
pub open spec fn resolve(edges: Set<Edge>, v: VertexKey) -> Option<VertexKey> {
    if has_vertex(edges, v) {
        Some(v)
    } else if has_vertex(edges, v.wildcard()) {
        Some(v.wildcard())
    } else {
        None
    }
}

/// A walk of `n` edges respects the depth limit.
pub open spec fn within(limit: Option<u32>, n: nat) -> bool {
    match limit {
        Some(k) => n <= k,
        None => true,
    }
}

/// A walk of `n` edges, at least one and within the limit, leads from `start` to
/// a vertex that satisfies a check for `dst`.
pub open spec fn finds(
    edges: Set<Edge>,
    start: VertexKey,
    dst: VertexKey,
    limit: Option<u32>,
    n: nat,
    v: VertexKey,
) -> bool {
    1 <= n && within(limit, n) && reachable_in(edges, start, v, n) && matches_target(v, dst)
}

/// The answer of a check: from the resolved source some walk of at least one
/// edge, and of no more than `limit` edges, ends in a vertex that satisfies `dst`.
pub open spec fn check_holds(
    edges: Set<Edge>,
    src: VertexKey,
    dst: VertexKey,
    limit: Option<u32>,
) -> bool {
    match resolve(edges, src) {
        None => false,
        Some(start) => exists|n: nat, v: VertexKey| finds(edges, start, dst, limit, n, v),
    }
}

/// The vertex `i` steps from `start` on the way back to `last`: `start` first,
/// then the vertices of `path`, then `last`.
pub open spec fn trail_at(
    start: VertexKey,
    path: Seq<VertexKey>,
    last: VertexKey,
    i: int,
) -> VertexKey {
    if i <= 0 {
        start
    } else if i <= path.len() {
        path[i - 1]
    } else {
        last
    }
}

/// The vertex `i + 1` steps back from `start` points to the vertex `i` steps back.
pub open spec fn chain_link(
    edges: Set<Edge>,
    start: VertexKey,
    path: Seq<VertexKey>,
    last: VertexKey,
    i: int,
) -> bool {
    edges.contains((trail_at(start, path, last, i + 1), trail_at(start, path, last, i)))
}

/// `path` bridges `last` to `start`: `last` points to the end of `path`, each
/// vertex of `path` to the one before it, the first to `start`, and every vertex
/// of `path` is a set. With an empty `path`, `last` points to `start`.
pub open spec fn is_chain(
    edges: Set<Edge>,
    start: VertexKey,
    path: Seq<VertexKey>,
    last: VertexKey,
) -> bool {
    &&& forall|i: int| 0 <= i < path.len() ==> (#[trigger] path[i]).is_set()
    &&& forall|i: int| 0 <= i <= path.len() ==> #[trigger] chain_link(edges, start, path, last, i)
}

/// An empty path bridges exactly the vertices that point to `start`.
pub proof fn lemma_chain_empty(edges: Set<Edge>, start: VertexKey, last: VertexKey)
    ensures
        is_chain(edges, start, Seq::<VertexKey>::empty(), last) <==> edges.contains((last, start)),
{
    let none = Seq::<VertexKey>::empty();
    if is_chain(edges, start, none, last) {
        assert(chain_link(edges, start, none, last, 0));
    }
    if edges.contains((last, start)) {
        assert forall|i: int| 0 <= i <= none.len() implies #[trigger] chain_link(
            edges,
            start,
            none,
            last,
            i,
        ) by {}
    }
}

/// A chain grows by one set: whatever points to its end is bridged by the longer path.
pub proof fn lemma_chain_extend(
    edges: Set<Edge>,
    start: VertexKey,
    path: Seq<VertexKey>,
    end: VertexKey,
    last: VertexKey,
)
    requires
        is_chain(edges, start, path, end),
        end.is_set(),
        edges.contains((last, end)),
    ensures
        is_chain(edges, start, path.push(end), last),
{
    let longer = path.push(end);
    assert forall|i: int| 0 <= i <= longer.len() implies #[trigger] chain_link(
        edges,
        start,
        longer,
        last,
        i,
    ) by {
        if i < longer.len() {
            assert(chain_link(edges, start, path, end, i));
        }
    }
}

/// A chain of at least one set ends in a shorter chain and one more edge.
pub proof fn lemma_chain_split(
    edges: Set<Edge>,
    start: VertexKey,
    path: Seq<VertexKey>,
    last: VertexKey,
)
    requires
        is_chain(edges, start, path, last),
        path.len() >= 1,
    ensures
        is_chain(edges, start, path.drop_last(), path.last()),
        path.last().is_set(),
        edges.contains((last, path.last())),
{
    let shorter = path.drop_last();
    assert(chain_link(edges, start, path, last, path.len() as int));
    assert forall|i: int| 0 <= i <= shorter.len() implies #[trigger] chain_link(
        edges,
        start,
        shorter,
        path.last(),
        i,
    ) by {
        assert(chain_link(edges, start, path, last, i));
    }
    assert forall|i: int| 0 <= i < shorter.len() implies (#[trigger] shorter[i]).is_set() by {
        assert(path[i].is_set());
    }
}

/// What an expansion of `dst` holds. It starts from `dst`, or from its wildcard
/// where `dst` is no vertex; with neither there is nothing. Each item is an
/// object with a path that bridges it to the start, and no path to that object
/// is shorter. No object occurs twice, and every object that some path bridges
/// to the start occurs.
pub open spec fn is_expansion(
    edges: Set<Edge>,
    dst: VertexKey,
    items: Seq<(VertexKey, Seq<VertexKey>)>,
) -> bool {
    match resolve(edges, dst) {
        None => items.len() == 0,
        Some(start) => {
            &&& forall|i: int|
                0 <= i < items.len() ==> (#[trigger] items[i]).0.is_object() && is_chain(
                    edges,
                    start,
                    items[i].1,
                    items[i].0,
                )
            &&& forall|i: int, j: int|
                0 <= i < j < items.len() ==> (#[trigger] items[i]).0 != (#[trigger] items[j]).0
            &&& forall|o: VertexKey, p: Seq<VertexKey>|
                o.is_object() && #[trigger] is_chain(edges, start, p, o) ==> exists|i: int|
                    0 <= i < items.len() && (#[trigger] items[i]).0 == o && items[i].1.len()
                        <= p.len()
        },
    }
}

} // verus!
