//! What the breadth-first searches share: marks on the positions of an index,
//! and the positions of the neighbours of a vertex.

use vstd::prelude::*;
use crate::ident::ObjectOrSet;
use crate::ident::VertexKey;
use crate::ident::lemma_key_lt_total;
use crate::ident::same_key;
use crate::index::Edge;
use crate::index::PairIndex;
use crate::model::mirror;

verus! {

/// How many entries of `marks` are still unset.
pub open spec fn unmarked(marks: Seq<bool>) -> nat
    decreases marks.len(),
{
    if marks.len() == 0 {
        0
    } else {
        unmarked(marks.drop_last()) + if marks.last() {
            0nat
        } else {
            1nat
        }
    }
}

/// Setting an unset entry leaves one unset entry less.
pub proof fn lemma_unmarked_update(marks: Seq<bool>, s: int)
    requires
        0 <= s < marks.len(),
        !marks[s],
    ensures
        unmarked(marks.update(s, true)) + 1 == unmarked(marks),
    decreases marks.len(),
{
    let after = marks.update(s, true);
    if s == marks.len() - 1 {
        assert(after.drop_last() =~= marks.drop_last());
    } else {
        assert(after.drop_last() =~= marks.drop_last().update(s, true));
        lemma_unmarked_update(marks.drop_last(), s);
    }
}

impl PairIndex {
    /// No two positions are the first of the pairs of one vertex.
    pub proof fn lemma_slot_unique(&self, p: int, q: int, v: VertexKey)
        requires
            self.is_slot(p, v),
            self.is_slot(q, v),
        ensures
            p == q,
    {
        if p < q {
            assert(self.pairs()[p].0 != v);
        } else if q < p {
            assert(self.pairs()[q].0 != v);
        }
    }

    /// The vertex that position `s` stands for.
    pub open spec fn node(&self, s: int) -> VertexKey {
        self.pairs()[s].0
    }

    /// Position `s` is the one that stands for its vertex: the first of its pairs.
    pub open spec fn is_node(&self, s: int) -> bool {
        self.is_slot(s, self.pairs()[s].0)
    }

    /// The position that stands for `v` is marked.
    pub open spec fn marked(&self, marks: Seq<bool>, v: VertexKey) -> bool {
        exists|q: int| #[trigger] self.is_slot(q, v) && q < marks.len() && marks[q]
    }

    /// The position that stands for `v` is in `list`.
    pub open spec fn queued(&self, list: Seq<usize>, v: VertexKey) -> bool {
        exists|t: int| 0 <= t < list.len() && #[trigger] self.is_slot(list[t] as int, v)
    }

    /// What is marked stays marked when one more position is marked.
    pub proof fn lemma_marked_grows(&self, marks: Seq<bool>, s: int, v: VertexKey)
        requires
            0 <= s < marks.len(),
            self.marked(marks, v),
        ensures
            self.marked(marks.update(s, true), v),
    {
        let q = choose|q: int| #[trigger] self.is_slot(q, v) && q < marks.len() && marks[q];
        assert(marks.update(s, true)[q]);
    }

    /// What waits in one of two lists waits in the two joined.
    pub proof fn lemma_queued_joined(&self, a: Seq<usize>, b: Seq<usize>, v: VertexKey)
        requires
            self.queued(a, v) || self.queued(b, v),
        ensures
            self.queued(a + b, v),
    {
        if self.queued(a, v) {
            let t = choose|t: int| 0 <= t < a.len() && #[trigger] self.is_slot(a[t] as int, v);
            assert((a + b)[t] == a[t]);
        } else {
            let t = choose|t: int| 0 <= t < b.len() && #[trigger] self.is_slot(b[t] as int, v);
            assert((a + b)[a.len() + t] == b[t]);
        }
    }
}

/// Turning the edges round twice gives them back.
pub proof fn lemma_mirror_twice(edges: Set<Edge>)
    ensures
        mirror(mirror(edges)) == edges,
{
    assert(mirror(mirror(edges)) =~= edges);
}

/// The positions in `far` of the vertices that `v` is paired with in `near`,
/// where `far` holds the pairs of `near` turned round.
pub(crate) fn neighbor_slots(near: &PairIndex, far: &PairIndex, v: &ObjectOrSet) -> (r: Vec<usize>)
    requires
        far@ == mirror(near@),
    ensures
        forall|t: int|
            0 <= t < r.len() ==> (#[trigger] r[t]) < far.pairs().len() && far.is_node(r[t] as int)
                && near@.contains((v@, far.node(r[t] as int))),
        forall|w: VertexKey| #[trigger] near@.contains((v@, w)) ==> far.queued(r@, w),
{
    proof {
        use_type_invariant(near);
        use_type_invariant(far);
    }
    let mut out: Vec<usize> = Vec::new();
    let found = near.find_run(v);
    if found.is_none() {
        assert forall|w: VertexKey| #[trigger] near@.contains((v@, w)) implies far.queued(
            out@,
            w,
        ) by {
            assert(near.pairs().contains((v@, w)));
        }
        return out;
    }
    let p = found.unwrap();
    let n = near.len();
    let mut i: usize = p;
    while i < n && same_key(near.first_at(i), v)
        invariant
            near.wf(),
            far.wf(),
            far@ == mirror(near@),
            n == near.pairs().len(),
            near.is_slot(p as int, v@),
            p <= i <= n,
            forall|j: int| p <= j < i ==> (#[trigger] near.pairs()[j]).0 == v@,
            forall|t: int|
                0 <= t < out.len() ==> (#[trigger] out[t]) < far.pairs().len() && far.is_node(
                    out[t] as int,
                ) && near@.contains((v@, far.node(out[t] as int))),
            forall|j: int| p <= j < i ==> far.queued(out@, (#[trigger] near.pairs()[j]).1),
        decreases n - i,
    {
        let w = near.second_at(i);
        let ghost e = near.pairs()[i as int];
        proof {
            assert(near.pairs().contains(e));
            assert(near@.contains(e));
            assert(mirror(near@).contains((e.1, e.0)));
            assert(far.pairs().contains((e.1, e.0)));
        }
        let slot = far.find_run(w);
        if let Some(q) = slot {
            let ghost before = out@;
            out.push(q);
            proof {
                assert(out@[before.len() as int] == q);
                assert(far.queued(out@, e.1));
                assert forall|j: int| p <= j < i implies far.queued(
                    out@,
                    (#[trigger] near.pairs()[j]).1,
                ) by {
                    let x = near.pairs()[j].1;
                    assert(far.queued(before, x));
                    let t = choose|t: int|
                        0 <= t < before.len() && #[trigger] far.is_slot(before[t] as int, x);
                    assert(out@[t] == before[t]);
                }
            }
        }
        i += 1;
    }
    proof {
        assert forall|w: VertexKey| #[trigger] near@.contains((v@, w)) implies far.queued(
            out@,
            w,
        ) by {
            assert(near.pairs().contains((v@, w)));
            let j = choose|j: int| 0 <= j < near.pairs().len() && near.pairs()[j] == (v@, w);
            if j < p {
                assert(near.pairs()[j].0 != v@);
            }
            if j >= i {
                near.lemma_firsts_monotone(p as int, i as int);
                near.lemma_firsts_monotone(i as int, j);
                lemma_key_lt_total(near.pairs()[i as int].0, v@);
            }
        }
    }
    out
}

} // verus!
