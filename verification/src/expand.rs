//! The reverse expansion: a breadth-first search against the edges.

use vstd::prelude::*;
use crate::ident::Object;
use crate::ident::ObjectOrSet;
use crate::ident::RSet;
use crate::ident::VertexKey;
use crate::model::is_chain;
use crate::model::is_expansion;
use crate::model::lemma_chain_empty;
use crate::model::lemma_chain_extend;
use crate::model::lemma_chain_split;
use crate::model::mirror;
use crate::model::resolve;
use crate::relation_graph::RelationGraph;
use crate::search::lemma_mirror_twice;
use crate::search::lemma_unmarked_update;
use crate::search::neighbor_slots;
use crate::search::unmarked;

verus! {

/// The vertices of a path of sets.
pub open spec fn path_keys(path: Seq<RSet>) -> Seq<VertexKey> {
    Seq::new(path.len(), |i: int| path[i]@)
}

/// The items of an expansion, each as an object and the vertices of its path.
pub open spec fn expansion_keys(items: Seq<(Object, Vec<RSet>)>) -> Seq<
    (VertexKey, Seq<VertexKey>),
> {
    Seq::new(items.len(), |i: int| (items[i].0@, path_keys(items[i].1@)))
}

/// A copy of a path.
fn clone_path(path: &Vec<RSet>) -> (r: Vec<RSet>)
    ensures
        path_keys(r@) == path_keys(path@),
        r.len() == path.len(),
{
    let mut out: Vec<RSet> = Vec::new();
    let mut i: usize = 0;
    while i < path.len()
        invariant
            i <= path.len(),
            out.len() == i,
            forall|j: int| 0 <= j < i ==> (#[trigger] out[j])@ == path[j]@,
        decreases path.len() - i,
    {
        out.push(path[i].clone());
        i += 1;
    }
    assert(path_keys(out@) =~= path_keys(path@));
    out
}

/// `n` copies of a path.
fn fan_out(path: &Vec<RSet>, n: usize) -> (r: Vec<Vec<RSet>>)
    ensures
        r.len() == n,
        forall|i: int|
            0 <= i < n ==> path_keys((#[trigger] r[i])@) == path_keys(path@) && r[i].len()
                == path.len(),
{
    let mut out: Vec<Vec<RSet>> = Vec::new();
    let mut i: usize = 0;
    while i < n
        invariant
            i <= n,
            out.len() == i,
            forall|j: int|
                0 <= j < i ==> path_keys((#[trigger] out[j])@) == path_keys(path@) && out[j].len()
                    == path.len(),
        decreases n - i,
    {
        out.push(clone_path(path));
        i += 1;
    }
    out
}

impl RelationGraph {
    /// Every marked position stands for a vertex.
    pub open(crate) spec fn seen_nodes(&self, marks: Seq<bool>) -> bool {
        &&& marks.len() == self.forward.pairs().len()
        &&& forall|s: int| 0 <= s < marks.len() && #[trigger] marks[s] ==> self.forward.is_node(s)
    }

    /// `u` is marked or waits in one of two lists.
    pub open(crate) spec fn reached(
        &self,
        marks: Seq<bool>,
        now: Seq<usize>,
        next: Seq<usize>,
        u: VertexKey,
    ) -> bool {
        self.forward.marked(marks, u) || self.forward.queued(now, u) || self.forward.queued(
            next,
            u,
        )
    }

    /// Whatever points to `start` or to a marked set is marked or waits.
    pub open(crate) spec fn seen_open(
        &self,
        marks: Seq<bool>,
        now: Seq<usize>,
        next: Seq<usize>,
        start: VertexKey,
    ) -> bool {
        &&& forall|s: int, u: VertexKey|
            0 <= s < marks.len() && marks[s] && self.forward.node(s).is_set()
                && #[trigger] self@.contains((u, self.forward.node(s))) ==> self.reached(
                marks,
                now,
                next,
                u,
            )
        &&& forall|u: VertexKey| #[trigger]
            self@.contains((u, start)) ==> self.reached(marks, now, next, u)
    }

    /// Whatever a path of less than `d` sets bridges is marked, and whatever a
    /// path of `d` sets bridges is marked or waits in `now`.
    pub open(crate) spec fn seen_levels(
        &self,
        marks: Seq<bool>,
        now: Seq<usize>,
        start: VertexKey,
        d: nat,
    ) -> bool {
        &&& forall|u: VertexKey, p: Seq<VertexKey>| #[trigger]
            is_chain(self@, start, p, u) && p.len() < d ==> self.forward.marked(marks, u)
        &&& forall|u: VertexKey, p: Seq<VertexKey>| #[trigger]
            is_chain(self@, start, p, u) && p.len() == d ==> self.forward.marked(marks, u)
                || self.forward.queued(now, u)
    }

    /// Every entry that waits stands for a vertex, with a path of `d` sets that bridges it.
    pub open(crate) spec fn waiting(
        &self,
        slots: Seq<usize>,
        paths: Seq<Vec<RSet>>,
        start: VertexKey,
        d: nat,
    ) -> bool {
        &&& slots.len() == paths.len()
        &&& forall|t: int|
            0 <= t < slots.len() ==> (#[trigger] slots[t]) < self.forward.pairs().len()
                && self.forward.is_node(slots[t] as int) && paths[t]@.len() == d && is_chain(
                self@,
                start,
                path_keys(paths[t]@),
                self.forward.node(slots[t] as int),
            )
    }

    /// The items found so far: objects, each marked and with a shortest path that
    /// bridges it, none twice, and one for every marked object.
    pub open(crate) spec fn found(
        &self,
        items: Seq<(VertexKey, Seq<VertexKey>)>,
        marks: Seq<bool>,
        start: VertexKey,
    ) -> bool {
        &&& forall|i: int|
            0 <= i < items.len() ==> (#[trigger] items[i]).0.is_object() && is_chain(
                self@,
                start,
                items[i].1,
                items[i].0,
            ) && self.forward.marked(marks, items[i].0)
        &&& forall|i: int, p: Seq<VertexKey>|
            0 <= i < items.len() && #[trigger] is_chain(self@, start, p, items[i].0)
                ==> items[i].1.len() <= p.len()
        &&& forall|i: int, j: int|
            0 <= i < j < items.len() ==> (#[trigger] items[i]).0 != (#[trigger] items[j]).0
        &&& forall|s: int|
            0 <= s < marks.len() && #[trigger] marks[s] && self.forward.node(s).is_object()
                ==> exists|i: int| 0 <= i < items.len() && (#[trigger] items[i]).0
                    == self.forward.node(s)
    }

    /// Once nothing waits, whatever a path bridges to `start` is marked.
    proof fn lemma_open_covers_all(
        &self,
        marks: Seq<bool>,
        start: VertexKey,
        d: nat,
        u: VertexKey,
        p: Seq<VertexKey>,
    )
        requires
            self.seen_open(marks, Seq::<usize>::empty(), Seq::<usize>::empty(), start),
            self.seen_levels(marks, Seq::<usize>::empty(), start, d),
            is_chain(self@, start, p, u),
        ensures
            self.forward.marked(marks, u),
        decreases p.len(),
    {
        if p.len() > d {
            lemma_chain_split(self@, start, p, u);
            let x = p.last();
            self.lemma_open_covers_all(marks, start, d, x, p.drop_last());
            let q = choose|q: int| #[trigger]
                self.forward.is_slot(q, x) && q < marks.len() && marks[q];
            assert(self@.contains((u, self.forward.node(q))));
        }
    }

    /// All objects that are related to `dst`, each with the path of sets that
    /// leads from `dst` to it.
    ///
    /// The search starts from `dst`, or from the wildcard of its namespace and
    /// relation where `dst` is no vertex, and follows the edges backwards level
    /// by level. An object ends its path; a set is passed through once.
    pub fn expand(&self, dst: &RSet) -> (r: Vec<(Object, Vec<RSet>)>)
        ensures
            is_expansion(self@, dst@, expansion_keys(r@)),
    {
        proof {
            use_type_invariant(self);
        }
        let mut out: Vec<(Object, Vec<RSet>)> = Vec::new();
        let dst_vertex = ObjectOrSet::RSet(dst.clone());
        let resolved = self.resolve(&dst_vertex);
        if resolved.is_none() {
            return out;
        }
        let start = resolved.unwrap();
        let ghost st = start@;
        proof {
            lemma_mirror_twice(self.forward@);
        }
        let size = self.forward.len();
        let mut marks: Vec<bool> = vec![false; size];
        let own = self.forward.find_run(&start);
        if let Some(p) = own {
            marks[p] = true;
        }
        let mut slots: Vec<usize> = neighbor_slots(&self.backward, &self.forward, &start);
        let none: Vec<RSet> = Vec::new();
        let mut paths: Vec<Vec<RSet>> = fan_out(&none, slots.len());
        let ghost mut d: nat = 0;
        proof {
            assert(path_keys(none@) =~= Seq::<VertexKey>::empty());
            assert forall|t: int| 0 <= t < slots.len() implies is_chain(
                self@,
                st,
                path_keys(paths[t]@),
                self.forward.node((#[trigger] slots[t]) as int),
            ) by {
                let u = self.forward.node(slots[t] as int);
                assert(self.backward@.contains((st, u)));
                assert(self@.contains((u, st)));
                lemma_chain_empty(self@, st, u);
            }
            assert forall|u: VertexKey| #[trigger] self@.contains((u, st)) implies self.reached(
                marks@,
                slots@,
                Seq::<usize>::empty(),
                u,
            ) by {
                assert(self.backward@.contains((st, u)));
            }
            assert forall|s: int, u: VertexKey|
                0 <= s < marks@.len() && marks@[s] && self.forward.node(s).is_set()
                    && #[trigger] self@.contains((u, self.forward.node(s))) implies self.reached(
                marks@,
                slots@,
                Seq::<usize>::empty(),
                u,
            ) by {
                assert(self.forward.node(s) == st);
            }
            assert forall|u: VertexKey, p: Seq<VertexKey>| #[trigger]
                is_chain(self@, st, p, u) && p.len() == 0 implies self.forward.marked(marks@, u)
                || self.forward.queued(slots@, u) by {
                assert(p =~= Seq::<VertexKey>::empty());
                lemma_chain_empty(self@, st, u);
            }
            assert(expansion_keys(out@) =~= Seq::<(VertexKey, Seq<VertexKey>)>::empty());
        }
        while slots.len() > 0
            invariant
                self.wf(),
                self.forward@ == mirror(self.backward@),
                resolve(self@, dst@) == Some(st),
                st.is_set(),
                size == self.forward.pairs().len(),
                self.seen_nodes(marks@),
                self.seen_open(marks@, slots@, Seq::<usize>::empty(), st),
                self.seen_levels(marks@, slots@, st, d),
                self.waiting(slots@, paths@, st, d),
                self.found(expansion_keys(out@), marks@, st),
            decreases unmarked(marks@), slots.len(),
        {
            let ghost at_start = marks@;
            let mut next_slots: Vec<usize> = Vec::new();
            let mut next_paths: Vec<Vec<RSet>> = Vec::new();
            let mut t: usize = 0;
            while t < slots.len()
                invariant
                    self.wf(),
                    self.forward@ == mirror(self.backward@),
                    st.is_set(),
                    size == self.forward.pairs().len(),
                    t <= slots.len(),
                    self.seen_nodes(marks@),
                    self.seen_open(marks@, slots@, next_slots@, st),
                    self.seen_levels(marks@, slots@, st, d),
                    self.waiting(slots@, paths@, st, d),
                    self.waiting(next_slots@, next_paths@, st, d + 1),
                    self.found(expansion_keys(out@), marks@, st),
                    forall|u: int| 0 <= u < t ==> marks@[(#[trigger] slots@[u]) as int],
                    unmarked(marks@) <= unmarked(at_start),
                    unmarked(marks@) == unmarked(at_start) ==> next_slots.len() == 0,
                decreases slots.len() - t,
            {
                let s = slots[t];
                if !marks[s] {
                    let v = self.forward.first_at(s);
                    let ghost old_marks = marks@;
                    let ghost old_next = next_slots@;
                    let ghost old_next_paths = next_paths@;
                    let ghost old_items = expansion_keys(out@);
                    let ghost reached_by = path_keys(paths[t as int]@);
                    let ghost mut added = Seq::<usize>::empty();
                    match v {
                        ObjectOrSet::Object(obj) => {
                            let path = clone_path(&paths[t]);
                            out.push((obj.clone(), path));
                            proof {
                                assert(expansion_keys(out@) =~= old_items.push((v@, reached_by)));
                            }
                        },
                        ObjectOrSet::RSet(set) => {
                            let mut path = clone_path(&paths[t]);
                            path.push(set.clone());
                            let mut more = neighbor_slots(&self.backward, &self.forward, v);
                            let mut more_paths = fan_out(&path, more.len());
                            proof {
                                added = more@;
                                assert(path_keys(path@) =~= reached_by.push(v@));
                                assert forall|a: int| 0 <= a < more.len() implies is_chain(
                                    self@,
                                    st,
                                    path_keys(more_paths[a]@),
                                    self.forward.node((#[trigger] more[a]) as int),
                                ) by {
                                    let u = self.forward.node(more[a] as int);
                                    assert(self.backward@.contains((v@, u)));
                                    assert(self@.contains((u, v@)));
                                    lemma_chain_extend(self@, st, reached_by, v@, u);
                                }
                            }
                            let ghost more_paths_seq = more_paths@;
                            next_slots.append(&mut more);
                            next_paths.append(&mut more_paths);
                            proof {
                                assert(next_slots@ =~= old_next + added);
                                assert(next_paths@ =~= old_next_paths + more_paths_seq);
                                assert forall|a: int|
                                    0 <= a < next_slots@.len() implies (#[trigger] next_slots@[a])
                                    < self.forward.pairs().len() && self.forward.is_node(
                                    next_slots@[a] as int,
                                ) && next_paths@[a]@.len() == d + 1 && is_chain(
                                    self@,
                                    st,
                                    path_keys(next_paths@[a]@),
                                    self.forward.node(next_slots@[a] as int),
                                ) by {
                                    if a >= old_next.len() {
                                        let b = a - old_next.len();
                                        assert(next_slots@[a] == added[b]);
                                        assert(next_paths@[a] == more_paths_seq[b]);
                                    } else {
                                        assert(next_slots@[a] == old_next[a]);
                                        assert(next_paths@[a] == old_next_paths[a]);
                                    }
                                }
                            }
                        },
                    }
                    marks[s] = true;
                    proof {
                        lemma_unmarked_update(old_marks, s as int);
                        assert(marks@ =~= old_marks.update(s as int, true));
                        assert(next_slots@ =~= old_next + added);
                        assert forall|x: VertexKey|
                            self.forward.marked(old_marks, x) implies self.forward.marked(
                            marks@,
                            x,
                        ) by {
                            self.forward.lemma_marked_grows(old_marks, s as int, x);
                        }
                        assert forall|x: VertexKey|
                            self.forward.queued(old_next, x) || self.forward.queued(
                                added,
                                x,
                            ) implies self.forward.queued(next_slots@, x) by {
                            self.forward.lemma_queued_joined(old_next, added, x);
                        }
                        assert(self.forward.is_slot(s as int, v@));
                        assert(marks@[s as int]);
                        assert(self.forward.marked(marks@, v@));
                        // the items
                        let items = expansion_keys(out@);
                        if v@.is_object() {
                            assert(items =~= old_items.push((v@, reached_by)));
                            assert forall|p: Seq<VertexKey>| #[trigger]
                                is_chain(self@, st, p, v@) implies reached_by.len() <= p.len() by {
                                if p.len() < d {
                                    assert(self.forward.marked(old_marks, v@));
                                    let q = choose|q: int| #[trigger]
                                        self.forward.is_slot(q, v@) && q < old_marks.len()
                                            && old_marks[q];
                                    self.forward.lemma_slot_unique(q, s as int, v@);
                                }
                            }
                            assert forall|i: int| 0 <= i < old_items.len() implies (
                            #[trigger] old_items[i]).0 != v@ by {
                                if old_items[i].0 == v@ {
                                    let q = choose|q: int| #[trigger]
                                        self.forward.is_slot(q, v@) && q < old_marks.len()
                                            && old_marks[q];
                                    self.forward.lemma_slot_unique(q, s as int, v@);
                                }
                            }
                            assert(items[old_items.len() as int].0 == v@);
                        } else {
                            assert(items =~= old_items);
                        }
                        assert forall|s2: int|
                            0 <= s2 < marks@.len() && #[trigger] marks@[s2] && self.forward.node(
                                s2,
                            ).is_object() implies exists|i: int|
                            0 <= i < items.len() && (#[trigger] items[i]).0 == self.forward.node(
                                s2,
                            ) by {
                            if s2 == s {
                                assert(items[old_items.len() as int].0 == v@);
                            } else {
                                assert(old_marks[s2]);
                                let i = choose|i: int|
                                    0 <= i < old_items.len() && (#[trigger] old_items[i]).0
                                        == self.forward.node(s2);
                                assert(items[i] == old_items[i]);
                            }
                        }
                        assert forall|i: int| 0 <= i < items.len() implies (
                        #[trigger] items[i]).0.is_object() && is_chain(
                            self@,
                            st,
                            items[i].1,
                            items[i].0,
                        ) && self.forward.marked(marks@, items[i].0) by {
                            if i < old_items.len() {
                                assert(items[i] == old_items[i]);
                            }
                        }
                        assert forall|i: int, p: Seq<VertexKey>|
                            0 <= i < items.len() && #[trigger] is_chain(
                                self@,
                                st,
                                p,
                                items[i].0,
                            ) implies items[i].1.len() <= p.len() by {
                            if i < old_items.len() {
                                assert(items[i] == old_items[i]);
                            }
                        }
                        assert forall|i: int, j: int|
                            0 <= i < j < items.len() implies (#[trigger] items[i]).0 != (
                        #[trigger] items[j]).0 by {
                            if j < old_items.len() {
                                assert(items[i] == old_items[i]);
                                assert(items[j] == old_items[j]);
                            } else {
                                assert(items[i] == old_items[i]);
                            }
                        }
                        // what points to the newly marked set waits
                        assert forall|s2: int, u: VertexKey|
                            0 <= s2 < marks@.len() && marks@[s2] && self.forward.node(s2).is_set()
                                && #[trigger] self@.contains(
                                (u, self.forward.node(s2)),
                            ) implies self.reached(marks@, slots@, next_slots@, u) by {
                            if s2 == s {
                                assert(self.backward@.contains((v@, u)));
                                assert(self.forward.queued(added, u));
                            } else {
                                assert(old_marks[s2]);
                                assert(self.reached(old_marks, slots@, old_next, u));
                            }
                        }
                        assert forall|u: VertexKey| #[trigger]
                            self@.contains((u, st)) implies self.reached(
                            marks@,
                            slots@,
                            next_slots@,
                            u,
                        ) by {
                            assert(self.reached(old_marks, slots@, old_next, u));
                        }
                    }
                }
                t += 1;
            }
            proof {
                assert forall|x: VertexKey|
                    self.forward.queued(slots@, x) implies self.forward.marked(marks@, x) by {
                    let u = choose|u: int|
                        0 <= u < slots@.len() && #[trigger] self.forward.is_slot(
                            slots@[u] as int,
                            x,
                        );
                    assert(marks@[slots@[u] as int]);
                }
                assert forall|u: VertexKey, p: Seq<VertexKey>| #[trigger]
                    is_chain(self@, st, p, u) && p.len() == d + 1 implies self.forward.marked(
                    marks@,
                    u,
                ) || self.forward.queued(next_slots@, u) by {
                    lemma_chain_split(self@, st, p, u);
                    let x = p.last();
                    assert(is_chain(self@, st, p.drop_last(), x));
                    assert(self.forward.marked(marks@, x));
                    let q = choose|q: int| #[trigger]
                        self.forward.is_slot(q, x) && q < marks@.len() && marks@[q];
                    assert(self@.contains((u, self.forward.node(q))));
                    assert(self.reached(marks@, slots@, next_slots@, u));
                }
                assert forall|u: VertexKey, p: Seq<VertexKey>| #[trigger]
                    is_chain(self@, st, p, u) && p.len() < d + 1 implies self.forward.marked(
                    marks@,
                    u,
                ) by {
                    if p.len() == d {
                        assert(self.forward.marked(marks@, u) || self.forward.queued(slots@, u));
                    }
                }
                assert forall|s2: int, u: VertexKey|
                    0 <= s2 < marks@.len() && marks@[s2] && self.forward.node(s2).is_set()
                        && #[trigger] self@.contains((u, self.forward.node(s2))) implies self.reached(
                    marks@,
                    next_slots@,
                    Seq::<usize>::empty(),
                    u,
                ) by {
                    assert(self.reached(marks@, slots@, next_slots@, u));
                }
                assert forall|u: VertexKey| #[trigger] self@.contains((u, st)) implies self.reached(
                    marks@,
                    next_slots@,
                    Seq::<usize>::empty(),
                    u,
                ) by {
                    assert(self.reached(marks@, slots@, next_slots@, u));
                }
                d = d + 1;
            }
            slots = next_slots;
            paths = next_paths;
        }
        proof {
            assert(slots@ =~= Seq::<usize>::empty());
            let items = expansion_keys(out@);
            assert forall|o: VertexKey, p: Seq<VertexKey>|
                o.is_object() && #[trigger] is_chain(self@, st, p, o) implies exists|i: int|
                0 <= i < items.len() && (#[trigger] items[i]).0 == o && items[i].1.len()
                    <= p.len() by {
                self.lemma_open_covers_all(marks@, st, d, o, p);
                let q = choose|q: int| #[trigger]
                    self.forward.is_slot(q, o) && q < marks@.len() && marks@[q];
                assert(marks@[q] && self.forward.node(q).is_object());
                let i = choose|i: int|
                    0 <= i < items.len() && (#[trigger] items[i]).0 == self.forward.node(q);
                assert(items[i].1.len() <= p.len());
            }
        }
        out
    }
}

} // verus!
