//! The transitive check: a breadth-first search along the edges.

use vstd::prelude::*;
use crate::ident::ObjectOrSet;
use crate::ident::RSet;
use crate::ident::VertexKey;
use crate::ident::is_wildcard;
use crate::ident::same_text;
use crate::model::check_holds;
use crate::model::finds;
use crate::model::matches_target;
use crate::model::reachable_in;
use crate::model::resolve;
use crate::model::within;
use crate::relation_graph::RelationGraph;
use crate::search::lemma_unmarked_update;
use crate::search::neighbor_slots;
use crate::search::unmarked;

verus! {

/// Whether the vertex `v` satisfies a check for `dst`.
pub fn is_match(v: &ObjectOrSet, dst: &RSet) -> (r: bool)
    ensures
        r == matches_target(v@, dst@),
{
    match v {
        ObjectOrSet::Object(_) => false,
        ObjectOrSet::RSet(set) => {
            same_text(set.namespace(), dst.namespace()) && same_text(
                set.relation(),
                dst.relation(),
            ) && (same_text(set.id(), dst.id()) || is_wildcard(set.id()))
        },
    }
}

impl RelationGraph {
    /// Every marked position stands for a vertex that does not satisfy `dst`.
    pub open(crate) spec fn marks_miss(&self, marks: Seq<bool>, dst: VertexKey) -> bool {
        &&& marks.len() == self.backward.pairs().len()
        &&& forall|s: int|
            0 <= s < marks.len() && #[trigger] marks[s] ==> self.backward.is_node(s)
                && !matches_target(self.backward.node(s), dst)
    }

    /// `w` is marked or waits in one of two lists.
    pub open(crate) spec fn met(
        &self,
        marks: Seq<bool>,
        now: Seq<usize>,
        next: Seq<usize>,
        w: VertexKey,
    ) -> bool {
        self.backward.marked(marks, w) || self.backward.queued(now, w) || self.backward.queued(
            next,
            w,
        )
    }

    /// Every successor of a marked vertex is marked or waits in one of two lists.
    pub open(crate) spec fn marks_closed(
        &self,
        marks: Seq<bool>,
        now: Seq<usize>,
        next: Seq<usize>,
    ) -> bool {
        forall|s: int, w: VertexKey|
            0 <= s < marks.len() && marks[s] && #[trigger] self@.contains(
                (self.backward.node(s), w),
            ) ==> self.met(marks, now, next, w)
    }

    /// Every vertex less than `d` edges from `start` is marked, and every vertex
    /// `d` edges from it is marked or waits in `now`.
    pub open(crate) spec fn levels_covered(
        &self,
        marks: Seq<bool>,
        now: Seq<usize>,
        start: VertexKey,
        d: nat,
    ) -> bool {
        &&& forall|m: nat, v: VertexKey|
            1 <= m < d && #[trigger] reachable_in(self@, start, v, m) ==> self.backward.marked(
                marks,
                v,
            )
        &&& forall|v: VertexKey| #[trigger]
            reachable_in(self@, start, v, d) ==> self.backward.marked(marks, v)
                || self.backward.queued(now, v)
    }

    /// Every entry of `list` stands for a vertex that is `d` edges from `start`.
    pub open(crate) spec fn queue_at(&self, list: Seq<usize>, start: VertexKey, d: nat) -> bool {
        forall|t: int|
            0 <= t < list.len() ==> (#[trigger] list[t]) < self.backward.pairs().len()
                && self.backward.is_node(list[t] as int) && reachable_in(
                self@,
                start,
                self.backward.node(list[t] as int),
                d,
            )
    }

    /// Once nothing waits, every vertex that a walk of at least one edge reaches is marked.
    proof fn lemma_closed_covers_all(
        &self,
        marks: Seq<bool>,
        start: VertexKey,
        d: nat,
        n: nat,
        v: VertexKey,
    )
        requires
            self.marks_closed(marks, Seq::<usize>::empty(), Seq::<usize>::empty()),
            self.levels_covered(marks, Seq::<usize>::empty(), start, d),
            1 <= d,
            1 <= n,
            reachable_in(self@, start, v, n),
        ensures
            self.backward.marked(marks, v),
        decreases n,
    {
        if n > d {
            let mid = choose|mid: VertexKey|
                reachable_in(self@, start, mid, (n - 1) as nat) && #[trigger] self@.contains(
                    (mid, v),
                );
            self.lemma_closed_covers_all(marks, start, d, (n - 1) as nat, mid);
            let q = choose|q: int| #[trigger]
                self.backward.is_slot(q, mid) && q < marks.len() && marks[q];
            assert(self@.contains((self.backward.node(q), v)));
        }
    }

    /// Whether there is a path from `src` to `dst`, found by a breadth-first search.
    ///
    /// The search starts from `src`, or from the wildcard of its namespace where
    /// `src` is no vertex, and follows the edges level by level. It succeeds as
    /// soon as it meets `dst` or the wildcard that stands for `dst`. The start
    /// itself is not tested: a path has at least one edge. With a `limit`, paths
    /// of more edges than that do not count.
    pub fn check(&self, src: &ObjectOrSet, dst: &RSet, limit: Option<u32>) -> (r: bool)
        ensures
            r == check_holds(self@, src@, dst@, limit),
    {
        proof {
            use_type_invariant(self);
        }
        let resolved = self.resolve(src);
        if resolved.is_none() {
            return false;
        }
        let start = resolved.unwrap();
        let ghost st = start@;
        let size = self.backward.len();
        let mut marks: Vec<bool> = vec![false; size];
        let mut frontier: Vec<usize> = neighbor_slots(&self.forward, &self.backward, &start);
        let mut depth: u64 = 1;
        let ghost mut d: nat = 1;
        proof {
            assert(reachable_in(self@, st, st, 0));
            assert forall|v: VertexKey| #[trigger]
                reachable_in(self@, st, v, 1) implies self.backward.queued(frontier@, v) by {
                let mid = choose|mid: VertexKey|
                    reachable_in(self@, st, mid, 0) && #[trigger] self@.contains((mid, v));
                assert(self@.contains((st, v)));
            }
            assert forall|t: int| 0 <= t < frontier.len() implies reachable_in(
                self@,
                st,
                self.backward.node((#[trigger] frontier[t]) as int),
                1,
            ) by {
                assert(self@.contains((st, self.backward.node(frontier[t] as int))));
            }
        }
        while frontier.len() > 0
            invariant
                self.wf(),
                resolve(self@, src@) == Some(st),
                size == self.backward.pairs().len(),
                1 <= d,
                limit is Some ==> depth == d && d <= limit->0 + 1,
                self.marks_miss(marks@, dst@),
                self.marks_closed(marks@, frontier@, Seq::<usize>::empty()),
                self.levels_covered(marks@, frontier@, st, d),
                self.queue_at(frontier@, st, d),
            decreases unmarked(marks@), frontier.len(),
        {
            if let Some(k) = limit {
                if depth > k as u64 {
                    proof {
                        assert forall|n: nat, v: VertexKey|
                            !finds(self@, st, dst@, limit, n, v) by {
                            if finds(self@, st, dst@, limit, n, v) {
                                assert(self.backward.marked(marks@, v));
                                let q = choose|q: int| #[trigger]
                                    self.backward.is_slot(q, v) && q < marks@.len() && marks@[q];
                                assert(marks@[q]);
                            }
                        }
                    }
                    return false;
                }
            }
            let ghost at_start = marks@;
            let mut next: Vec<usize> = Vec::new();
            let mut t: usize = 0;
            while t < frontier.len()
                invariant
                    self.wf(),
                    resolve(self@, src@) == Some(st),
                    size == self.backward.pairs().len(),
                    1 <= d,
                    within(limit, d),
                    t <= frontier.len(),
                    self.marks_miss(marks@, dst@),
                    self.marks_closed(marks@, frontier@, next@),
                    self.levels_covered(marks@, frontier@, st, d),
                    self.queue_at(frontier@, st, d),
                    self.queue_at(next@, st, d + 1),
                    forall|u: int| 0 <= u < t ==> marks@[(#[trigger] frontier@[u]) as int],
                    unmarked(marks@) <= unmarked(at_start),
                    unmarked(marks@) == unmarked(at_start) ==> next.len() == 0,
                decreases frontier.len() - t,
            {
                let s = frontier[t];
                if !marks[s] {
                    let v = self.backward.first_at(s);
                    if is_match(v, dst) {
                        proof {
                            assert(finds(self@, st, dst@, limit, d, v@));
                        }
                        return true;
                    }
                    let mut more = neighbor_slots(&self.forward, &self.backward, v);
                    let ghost old_marks = marks@;
                    let ghost old_next = next@;
                    let ghost added = more@;
                    next.append(&mut more);
                    marks[s] = true;
                    proof {
                        lemma_unmarked_update(old_marks, s as int);
                        assert(next@ =~= old_next + added);
                        assert(marks@ =~= old_marks.update(s as int, true));
                        // what was marked stays marked, what waited still waits
                        assert forall|x: VertexKey|
                            self.met(old_marks, frontier@, old_next, x) || self.backward.queued(
                                added,
                                x,
                            ) implies self.met(marks@, frontier@, next@, x) by {
                            if self.backward.marked(old_marks, x) {
                                self.backward.lemma_marked_grows(old_marks, s as int, x);
                            }
                            if self.backward.queued(old_next, x) || self.backward.queued(added, x) {
                                self.backward.lemma_queued_joined(old_next, added, x);
                            }
                        }
                        assert forall|u: int| 0 <= u < next@.len() implies (#[trigger] next@[u])
                            < self.backward.pairs().len() && self.backward.is_node(next@[u] as int)
                            && reachable_in(
                            self@,
                            st,
                            self.backward.node(next@[u] as int),
                            d + 1,
                        ) by {
                            if u >= old_next.len() {
                                let a = u - old_next.len();
                                assert(next@[u] == added[a]);
                                assert(self@.contains((v@, self.backward.node(added[a] as int))));
                                assert(reachable_in(self@, st, v@, d));
                            } else {
                                assert(next@[u] == old_next[u]);
                            }
                        }
                        assert forall|s2: int, w: VertexKey|
                            0 <= s2 < marks@.len() && marks@[s2] && #[trigger] self@.contains(
                                (self.backward.node(s2), w),
                            ) implies self.met(marks@, frontier@, next@, w) by {
                            if s2 == s {
                                assert(self.backward.queued(added, w));
                            } else {
                                assert(old_marks[s2]);
                                assert(self.met(old_marks, frontier@, old_next, w));
                            }
                        }
                    }
                }
                t += 1;
            }
            proof {
                // every entry of the frontier is marked now
                assert forall|x: VertexKey|
                    self.backward.queued(frontier@, x) implies self.backward.marked(marks@, x) by {
                    let u = choose|u: int|
                        0 <= u < frontier@.len() && #[trigger] self.backward.is_slot(
                            frontier@[u] as int,
                            x,
                        );
                    assert(marks@[frontier@[u] as int]);
                }
                assert forall|v: VertexKey| #[trigger]
                    reachable_in(self@, st, v, d + 1) implies self.backward.marked(marks@, v)
                    || self.backward.queued(next@, v) by {
                    let mid = choose|mid: VertexKey|
                        reachable_in(self@, st, mid, d) && #[trigger] self@.contains((mid, v));
                    assert(self.backward.marked(marks@, mid));
                    let q = choose|q: int| #[trigger]
                        self.backward.is_slot(q, mid) && q < marks@.len() && marks@[q];
                    assert(self@.contains((self.backward.node(q), v)));
                }
                assert forall|m: nat, v: VertexKey|
                    1 <= m < d + 1 && #[trigger] reachable_in(
                        self@,
                        st,
                        v,
                        m,
                    ) implies self.backward.marked(marks@, v) by {
                    if m == d {
                        assert(self.met(marks@, frontier@, Seq::<usize>::empty(), v));
                    }
                }
                d = d + 1;
            }
            frontier = next;
            if limit.is_some() {
                depth = depth + 1;
            }
        }
        proof {
            assert(frontier@ =~= Seq::<usize>::empty());
            assert forall|n: nat, v: VertexKey| !finds(self@, st, dst@, limit, n, v) by {
                if finds(self@, st, dst@, limit, n, v) {
                    self.lemma_closed_covers_all(marks@, st, d, n, v);
                    let q = choose|q: int| #[trigger]
                        self.backward.is_slot(q, v) && q < marks@.len() && marks@[q];
                    assert(marks@[q]);
                }
            }
        }
        false
    }
}

} // verus!
