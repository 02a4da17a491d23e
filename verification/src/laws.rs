//! What holds of the operations together, proved over the edges of the graph.

use vstd::prelude::*;
use crate::ident::VertexKey;
use crate::ident::wildcard_text;
use crate::index::Edge;
use crate::model::built_from;
use crate::model::chain_link;
use crate::model::check_holds;
use crate::model::edges_after_insert;
use crate::model::edges_after_remove;
use crate::model::edges_after_tuples;
use crate::model::finds;
use crate::model::has_vertex;
use crate::model::is_chain;
use crate::model::is_expansion;
use crate::model::is_source;
use crate::model::is_target;
use crate::model::lemma_built;
use crate::model::lemma_tuples_grow;
use crate::model::lemma_tuples_keep_objects_tied;
use crate::model::matches_target;
use crate::model::objects_tied;
use crate::model::reachable_in;
use crate::model::resolve;
use crate::model::scaffold;

verus! {

/// After a relation is inserted, the graph has it.
pub proof fn lemma_insert_then_has(edges: Set<Edge>, src: VertexKey, dst: VertexKey)
    ensures
        edges_after_insert(edges, src, dst).contains((src, dst)),
{
}

/// After a relation is inserted and removed, the graph does not have it.
pub proof fn lemma_remove_undoes_insert(edges: Set<Edge>, src: VertexKey, dst: VertexKey)
    ensures
        !edges_after_remove(edges_after_insert(edges, src, dst), src, dst).contains((src, dst)),
{
}

/// Inserting a relation twice leaves the edges as one insertion does, and so
/// does removing it twice.
pub proof fn lemma_idempotence(edges: Set<Edge>, src: VertexKey, dst: VertexKey)
    ensures
        edges_after_insert(edges_after_insert(edges, src, dst), src, dst) == edges_after_insert(
            edges,
            src,
            dst,
        ),
        edges_after_remove(edges_after_remove(edges, src, dst), src, dst) == edges_after_remove(
            edges,
            src,
            dst,
        ),
{
    assert(edges_after_insert(edges_after_insert(edges, src, dst), src, dst)
        =~= edges_after_insert(edges, src, dst));
    assert(edges_after_remove(edges_after_remove(edges, src, dst), src, dst)
        =~= edges_after_remove(edges, src, dst));
}

/// A check does not count the vertex it starts from: where no edge leaves that
/// vertex, the check fails, even for the vertex itself as its destination.
pub proof fn lemma_check_needs_an_edge(
    edges: Set<Edge>,
    src: VertexKey,
    dst: VertexKey,
    limit: Option<u32>,
)
    requires
        resolve(edges, src) is Some ==> !is_source(edges, resolve(edges, src)->0),
    ensures
        !check_holds(edges, src, dst, limit),
{
    if resolve(edges, src) is Some {
        let start = resolve(edges, src)->0;
        assert forall|n: nat, v: VertexKey| !finds(edges, start, dst, limit, n, v) by {
            if finds(edges, start, dst, limit, n, v) {
                lemma_walk_leaves_source(edges, start, v, n);
            }
        }
    }
}

/// A walk of at least one edge starts with an edge that leaves its first vertex.
pub proof fn lemma_walk_leaves_source(edges: Set<Edge>, from: VertexKey, to: VertexKey, n: nat)
    requires
        n >= 1,
        reachable_in(edges, from, to, n),
    ensures
        is_source(edges, from),
    decreases n,
{
    let mid = choose|mid: VertexKey|
        reachable_in(edges, from, mid, (n - 1) as nat) && #[trigger] edges.contains((mid, to));
    if n == 1 {
        assert(edges.contains((from, to)));
    } else {
        lemma_walk_leaves_source(edges, from, mid, (n - 1) as nat);
    }
}

/// A vertex checked against itself fails unless a walk leads back to it: with
/// no edge leaving it, there is none.
pub proof fn lemma_check_is_reflexive_free(edges: Set<Edge>, x: VertexKey)
    requires
        has_vertex(edges, x),
        !is_source(edges, x),
    ensures
        !check_holds(edges, x, x, None),
{
    lemma_check_needs_an_edge(edges, x, x, None);
}

/// In a graph built by insertions, a vertex checked against itself fails
/// unless it was inserted as a source or is a wildcard: nothing else gives it
/// an edge to leave by.
pub proof fn lemma_check_is_reflexive_free_when_built(tuples: Seq<Edge>, x: VertexKey)
    requires
        has_vertex(built_from(tuples), x),
        x.id != wildcard_text(),
        forall|k: int| 0 <= k < tuples.len() ==> (#[trigger] tuples[k]).0 != x,
    ensures
        !check_holds(built_from(tuples), x, x, None),
{
    let edges = built_from(tuples);
    lemma_built(tuples);
    if is_source(edges, x) {
        let w = choose|w: VertexKey| edges.contains((x, w));
        let k = choose|k: int|
            0 <= k < tuples.len() && #[trigger] scaffold(tuples[k].0, tuples[k].1).contains((x, w));
        assert(tuples[k].0 != x);
    }
    lemma_check_is_reflexive_free(edges, x);
}

/// A direct relation satisfies the check, under every limit of at least one edge.
pub proof fn lemma_has_implies_check(
    edges: Set<Edge>,
    src: VertexKey,
    dst: VertexKey,
    limit: Option<u32>,
)
    requires
        edges.contains((src, dst)),
        limit is Some ==> limit->0 >= 1,
    ensures
        check_holds(edges, src, dst, limit),
{
    assert(is_source(edges, src));
    assert(reachable_in(edges, src, src, 0));
    assert(reachable_in(edges, src, dst, 1));
    assert(finds(edges, src, dst, limit, 1, dst));
}

/// A walk stays a walk when edges are added.
pub proof fn lemma_walk_survives(
    edges: Set<Edge>,
    more: Set<Edge>,
    from: VertexKey,
    to: VertexKey,
    n: nat,
)
    requires
        edges.subset_of(more),
        reachable_in(edges, from, to, n),
    ensures
        reachable_in(more, from, to, n),
    decreases n,
{
    if n > 0 {
        let mid = choose|mid: VertexKey|
            reachable_in(edges, from, mid, (n - 1) as nat) && #[trigger] edges.contains((mid, to));
        lemma_walk_survives(edges, more, from, mid, (n - 1) as nat);
        assert(more.contains((mid, to)));
    }
}

/// One more edge in front makes a walk one edge longer.
pub proof fn lemma_walk_prepend(
    edges: Set<Edge>,
    first: VertexKey,
    from: VertexKey,
    to: VertexKey,
    n: nat,
)
    requires
        edges.contains((first, from)),
        reachable_in(edges, from, to, n),
    ensures
        reachable_in(edges, first, to, n + 1),
    decreases n,
{
    if n == 0 {
        assert(reachable_in(edges, first, first, 0));
        assert(edges.contains((first, to)));
    } else {
        let mid = choose|mid: VertexKey|
            reachable_in(edges, from, mid, (n - 1) as nat) && #[trigger] edges.contains((mid, to));
        lemma_walk_prepend(edges, first, from, mid, (n - 1) as nat);
        assert(edges.contains((mid, to)));
    }
}

/// A check that succeeds keeps succeeding when edges are added, as long as the
/// source resolves to the same vertex before and after.
pub proof fn lemma_check_monotone(
    edges: Set<Edge>,
    more: Set<Edge>,
    src: VertexKey,
    dst: VertexKey,
    limit: Option<u32>,
)
    requires
        edges.subset_of(more),
        has_vertex(edges, src) || !has_vertex(more, src),
        check_holds(edges, src, dst, limit),
    ensures
        check_holds(more, src, dst, limit),
{
    let start = resolve(edges, src)->0;
    lemma_vertices_survive(edges, more, src);
    lemma_vertices_survive(edges, more, src.wildcard());
    assert(resolve(more, src) == Some(start));
    let (n, v) = choose|n: nat, v: VertexKey| finds(edges, start, dst, limit, n, v);
    lemma_walk_survives(edges, more, start, v, n);
    assert(finds(more, start, dst, limit, n, v));
}

/// A vertex stays a vertex when edges are added.
pub proof fn lemma_vertices_survive(edges: Set<Edge>, more: Set<Edge>, v: VertexKey)
    requires
        edges.subset_of(more),
    ensures
        has_vertex(edges, v) ==> has_vertex(more, v),
{
    if is_source(edges, v) {
        let w = choose|w: VertexKey| edges.contains((v, w));
        assert(more.contains((v, w)));
    }
    if is_target(edges, v) {
        let w = choose|w: VertexKey| edges.contains((w, v));
        assert(more.contains((w, v)));
    }
}

/// For an object as the source, a check without limit that succeeds keeps
/// succeeding when edges are added: once the object is a vertex of its own, it
/// points to the wildcard from which the check was answered before.
pub proof fn lemma_check_monotone_for_objects(
    edges: Set<Edge>,
    more: Set<Edge>,
    src: VertexKey,
    dst: VertexKey,
)
    requires
        edges.subset_of(more),
        objects_tied(more),
        src.is_object(),
        check_holds(edges, src, dst, None),
    ensures
        check_holds(more, src, dst, None),
{
    if has_vertex(edges, src) || !has_vertex(more, src) {
        lemma_check_monotone(edges, more, src, dst, None);
    } else {
        let start = src.wildcard();
        assert(resolve(edges, src) == Some(start));
        assert(src.id != wildcard_text()) by {
            if src.id == wildcard_text() {
                assert(src.wildcard() == src);
            }
        }
        let (n, v) = choose|n: nat, v: VertexKey| finds(edges, start, dst, None, n, v);
        lemma_walk_survives(edges, more, start, v, n);
        assert(more.contains((src, start)));
        lemma_walk_prepend(more, src, start, v, n);
        assert(finds(more, src, dst, None, n + 1, v));
    }
}

/// An insertion never turns a successful check of an object, made without
/// limit, into a failure.
pub proof fn lemma_check_survives_insert(
    edges: Set<Edge>,
    new_src: VertexKey,
    new_dst: VertexKey,
    src: VertexKey,
    dst: VertexKey,
)
    requires
        objects_tied(edges_after_insert(edges, new_src, new_dst)),
        src.is_object(),
        check_holds(edges, src, dst, None),
    ensures
        check_holds(edges_after_insert(edges, new_src, new_dst), src, dst, None),
{
    lemma_check_monotone_for_objects(
        edges,
        edges_after_insert(edges, new_src, new_dst),
        src,
        dst,
    );
}

/// No sequence of insertions turns a successful check of an object, made
/// without limit, into a failure.
pub proof fn lemma_check_survives_insertions(
    edges: Set<Edge>,
    tuples: Seq<Edge>,
    src: VertexKey,
    dst: VertexKey,
)
    requires
        objects_tied(edges),
        forall|k: int| 0 <= k < tuples.len() ==> (#[trigger] tuples[k]).1.is_set(),
        src.is_object(),
        check_holds(edges, src, dst, None),
    ensures
        check_holds(edges_after_tuples(edges, tuples), src, dst, None),
{
    lemma_tuples_grow(edges, tuples);
    lemma_tuples_keep_objects_tied(edges, tuples);
    lemma_check_monotone_for_objects(edges, edges_after_tuples(edges, tuples), src, dst);
}

/// A relation from the wildcard of a namespace holds for every object of the
/// namespace: whoever is no vertex is answered for by the wildcard, and
/// whoever is one points to it.
pub proof fn lemma_wildcard_source_grants(edges: Set<Edge>, src: VertexKey, dst: VertexKey)
    requires
        objects_tied(edges),
        src.is_object(),
        edges.contains((src.wildcard(), dst)),
    ensures
        check_holds(edges, src, dst, None),
{
    let wildcard = src.wildcard();
    assert(is_source(edges, wildcard));
    assert(reachable_in(edges, wildcard, wildcard, 0));
    assert(reachable_in(edges, wildcard, dst, 1));
    if has_vertex(edges, src) {
        if src.id == wildcard_text() {
            assert(src == wildcard);
            assert(finds(edges, src, dst, None, 1, dst));
        } else {
            assert(edges.contains((src, wildcard)));
            lemma_walk_prepend(edges, src, wildcard, dst, 1);
            assert(finds(edges, src, dst, None, 2, dst));
        }
    } else {
        assert(resolve(edges, src) == Some(wildcard));
        assert(finds(edges, wildcard, dst, None, 1, dst));
    }
}

/// A relation to the wildcard of a namespace and relation holds for every
/// set of that namespace and relation.
pub proof fn lemma_wildcard_destination_grants(
    edges: Set<Edge>,
    src: VertexKey,
    dst: VertexKey,
    limit: Option<u32>,
)
    requires
        edges.contains((src, dst.wildcard())),
        limit is Some ==> limit->0 >= 1,
    ensures
        check_holds(edges, src, dst, limit),
{
    let wildcard = dst.wildcard();
    assert(is_source(edges, src));
    assert(reachable_in(edges, src, src, 0));
    assert(reachable_in(edges, src, wildcard, 1));
    assert(matches_target(wildcard, dst));
    assert(finds(edges, src, dst, limit, 1, wildcard));
}

/// A check that succeeds under a limit succeeds without one, and a walk of no
/// more edges than the limit leads to the destination.
pub proof fn lemma_limit_is_sound(edges: Set<Edge>, src: VertexKey, dst: VertexKey, k: u32)
    requires
        check_holds(edges, src, dst, Some(k)),
    ensures
        check_holds(edges, src, dst, None),
        exists|n: nat, v: VertexKey|
            1 <= n <= k && #[trigger] reachable_in(edges, resolve(edges, src)->0, v, n)
                && matches_target(v, dst),
{
    let start = resolve(edges, src)->0;
    let (n, v) = choose|n: nat, v: VertexKey| finds(edges, start, dst, Some(k), n, v);
    assert(finds(edges, start, dst, None, n, v));
    assert(1 <= n <= k && reachable_in(edges, start, v, n) && matches_target(v, dst));
}

/// A chain that bridges `last` to `start` is a walk from `last` to `start`, of
/// one edge more than the chain has sets.
pub proof fn lemma_chain_is_walk(
    edges: Set<Edge>,
    start: VertexKey,
    path: Seq<VertexKey>,
    last: VertexKey,
)
    requires
        is_chain(edges, start, path, last),
    ensures
        reachable_in(edges, last, start, path.len() + 1),
    decreases path.len(),
{
    if path.len() == 0 {
        assert(chain_link(edges, start, path, last, 0));
        assert(reachable_in(edges, last, last, 0));
        assert(edges.contains((last, start)));
    } else {
        let first = path[0];
        let rest = path.drop_first();
        assert(chain_link(edges, start, path, last, 0));
        assert(edges.contains((first, start)));
        assert forall|i: int| 0 <= i <= rest.len() implies #[trigger] chain_link(
            edges,
            first,
            rest,
            last,
            i,
        ) by {
            assert(chain_link(edges, start, path, last, i + 1));
        }
        assert forall|i: int| 0 <= i < rest.len() implies (#[trigger] rest[i]).is_set() by {
            assert(path[i + 1].is_set());
        }
        lemma_chain_is_walk(edges, first, rest, last);
        assert(reachable_in(edges, last, first, (path.len() + 1 - 1) as nat));
    }
}

/// Every object of an expansion of `dst` passes the check against `dst`.
pub proof fn lemma_expansion_passes_check(
    edges: Set<Edge>,
    dst: VertexKey,
    items: Seq<(VertexKey, Seq<VertexKey>)>,
    i: int,
)
    requires
        is_expansion(edges, dst, items),
        0 <= i < items.len(),
    ensures
        check_holds(edges, items[i].0, dst, None),
{
    let start = resolve(edges, dst)->0;
    let obj = items[i].0;
    let path = items[i].1;
    assert(is_chain(edges, start, path, obj));
    lemma_chain_is_walk(edges, start, path, obj);
    lemma_walk_leaves_source(edges, obj, start, path.len() + 1);
    assert(matches_target(start, dst));
    assert(finds(edges, obj, dst, None, path.len() + 1, start));
}

/// No object occurs twice in an expansion.
pub proof fn lemma_expansion_has_no_duplicates(
    edges: Set<Edge>,
    dst: VertexKey,
    items: Seq<(VertexKey, Seq<VertexKey>)>,
    i: int,
    j: int,
)
    requires
        is_expansion(edges, dst, items),
        0 <= i < items.len(),
        0 <= j < items.len(),
        i != j,
    ensures
        items[i].0 != items[j].0,
{
    if i < j {
        assert(items[i].0 != items[j].0);
    } else {
        assert(items[j].0 != items[i].0);
    }
}

} // verus!
