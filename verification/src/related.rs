//! Searches in the graph of numbered objects: what a source is related to
//! through sets, and who is related to an object.

use vstd::prelude::*;
use crate::bimap::is_row_listing;
use crate::bimap::names_triple;
use crate::bimap::nested_get;
use crate::bimap::nested_row;
use crate::graph::Graph;
use crate::graph::NodeKey;
use crate::graph::ObjectOrSet;
use crate::graph::ObjectRef;
use crate::graph::ObjectRelation;
use crate::graph::Relation;
use crate::table::Bag;
use crate::table::Keyed;
use crate::table::views_of;

verus! {

/// An object under a relation: the destination of a relation.
pub type Target = (u32, Seq<char>);

/// The relations by source.
pub type Outgoing = Map<NodeKey, Map<Seq<char>, Set<u32>>>;

/// The relations by destination.
pub type Incoming = Map<u32, Map<Seq<char>, Set<NodeKey>>>;

/// The set of those that bear the relation of `t` on the object of `t`, as a source.
pub open spec fn as_source(t: Target) -> NodeKey {
    NodeKey { object: t.0, relation: Some(t.1) }
}

/// An object as a source.
pub open spec fn object_source(object: u32) -> NodeKey {
    NodeKey { object, relation: None }
}

/// The source `x` bears the relation of `t` on the object of `t`, directly.
pub open spec fn steps_to(out: Outgoing, x: NodeKey, t: Target) -> bool {
    nested_get(out, x, t.1).contains(t.0)
}

/// `n` relations lead from `x` to `t`, each but the first from the set that
/// the one before it leads to.
pub open spec fn reaches(out: Outgoing, x: NodeKey, t: Target, n: nat) -> bool
    decreases n,
{
    if n == 0 {
        false
    } else if n == 1 {
        steps_to(out, x, t)
    } else {
        exists|mid: Target|
            reaches(out, x, mid, (n - 1) as nat) && #[trigger] steps_to(out, as_source(mid), t)
    }
}

/// Some chain of relations leads from `x` to `t`.
pub open spec fn related(out: Outgoing, x: NodeKey, t: Target) -> bool {
    exists|n: nat| reaches(out, x, t, n)
}

/// `t` stands in the list.
pub open spec fn pending(stack: Seq<ObjectRelation>, t: Target) -> bool {
    exists|i: int| 0 <= i < stack.len() && (#[trigger] stack[i])@ == t
}

/// The destinations that the entries of a listing name.
pub open spec fn targets_of(entries: Seq<(&ObjectOrSet, &Relation, &ObjectRef)>) -> Set<Target> {
    Seq::new(entries.len(), |i: int| (entries[i].2@, entries[i].1@)).to_set()
}

/// Whatever is seen and leads on has its destinations seen too, or still waits.
pub open spec fn forward_closed(
    out: Outgoing,
    seen: Set<Target>,
    stack: Seq<ObjectRelation>,
) -> bool {
    forall|t: Target, t2: Target|
        seen.contains(t) && #[trigger] steps_to(out, as_source(t), t2) ==> seen.contains(t2)
            || #[trigger] pending(stack, t)
}

/// A set that holds what `x` leads to, and with each member what that leads
/// to, holds all that `x` is related to.
pub proof fn lemma_forward_closed(out: Outgoing, x: NodeKey, seen: Set<Target>, t: Target, n: nat)
    requires
        forall|t: Target| #[trigger] steps_to(out, x, t) ==> seen.contains(t),
        forward_closed(out, seen, Seq::<ObjectRelation>::empty()),
        reaches(out, x, t, n),
    ensures
        seen.contains(t),
    decreases n,
{
    if n > 1 {
        let mid = choose|mid: Target|
            reaches(out, x, mid, (n - 1) as nat) && #[trigger] steps_to(out, as_source(mid), t);
        lemma_forward_closed(out, x, seen, mid, (n - 1) as nat);
        assert(!pending(Seq::<ObjectRelation>::empty(), mid));
    }
}

/// The source `x` bears the relation of `t` on the object of `t`, directly,
/// as the relations by destination hold it.
pub open spec fn held_by(inc: Incoming, t: Target, x: NodeKey) -> bool {
    nested_get(inc, t.0, t.1).contains(x)
}

/// `x` belongs to `t` through `n` relations: it bears a relation on an
/// object, the set of those that bear it bears one on the next, and the last
/// is the relation of `t` on the object of `t`.
pub open spec fn belongs(inc: Incoming, t: Target, x: NodeKey, n: nat) -> bool
    decreases n,
{
    if n == 0 {
        false
    } else if n == 1 {
        held_by(inc, t, x)
    } else {
        exists|mid: Target|
            belongs(inc, t, as_source(mid), (n - 1) as nat) && #[trigger] held_by(inc, mid, x)
    }
}

/// `x` belongs to `t` through some chain of relations.
pub open spec fn is_member(inc: Incoming, t: Target, x: NodeKey) -> bool {
    exists|n: nat| belongs(inc, t, x, n)
}

/// The sources that the entries of a listing name.
pub open spec fn sources_of(entries: Seq<(&ObjectRef, &Relation, &ObjectOrSet)>) -> Set<NodeKey> {
    Seq::new(entries.len(), |i: int| entries[i].2@).to_set()
}

/// Whatever belongs to a set that is seen is seen too, or the set still waits.
pub open spec fn backward_closed(
    inc: Incoming,
    seen: Set<NodeKey>,
    stack: Seq<ObjectRelation>,
) -> bool {
    forall|mid: Target, y: NodeKey|
        seen.contains(as_source(mid)) && #[trigger] held_by(inc, mid, y) ==> seen.contains(y)
            || #[trigger] pending(stack, mid)
}

/// A set that holds what belongs to `t` directly, and with each set all that
/// belongs to it, holds all that belongs to `t`.
pub proof fn lemma_backward_closed(inc: Incoming, t: Target, seen: Set<NodeKey>, x: NodeKey, n: nat)
    requires
        forall|y: NodeKey| #[trigger] held_by(inc, t, y) ==> seen.contains(y),
        backward_closed(inc, seen, Seq::<ObjectRelation>::empty()),
        belongs(inc, t, x, n),
    ensures
        seen.contains(x),
    decreases n,
{
    if n > 1 {
        let mid = choose|mid: Target|
            belongs(inc, t, as_source(mid), (n - 1) as nat) && #[trigger] held_by(inc, mid, x);
        lemma_backward_closed(inc, t, seen, as_source(mid), (n - 1) as nat);
        assert(!pending(Seq::<ObjectRelation>::empty(), mid));
    }
}

impl Graph {
    /// Marks what belongs to `t` directly as seen, and lets the sets that were
    /// not seen before wait.
    fn visit_back(
        &self,
        t: &ObjectRelation,
        seen: &mut Bag<ObjectOrSet>,
        stack: &mut Vec<ObjectRelation>,
    )
        requires
            old(seen)@.finite(),
        ensures
            final(seen)@.finite(),
            forall|y: NodeKey|
                final(seen)@.contains(y) <==> old(seen)@.contains(y) || held_by(
                    self.incoming(),
                    t@,
                    y,
                ),
            final(stack)@.len() >= old(stack)@.len(),
            forall|i: int| 0 <= i < old(stack)@.len() ==> final(stack)@[i] == old(stack)@[i],
            forall|i: int|
                old(stack)@.len() <= i < final(stack)@.len() ==> final(seen)@.contains(
                    as_source((#[trigger] final(stack)@[i])@),
                ),
            forall|mid: Target|
                final(seen)@.contains(as_source(mid)) && !old(seen)@.contains(as_source(mid))
                    ==> pending(final(stack)@, mid),
            final(seen)@.len() == old(seen)@.len() ==> final(stack)@.len() == old(stack)@.len(),
            final(seen)@.len() >= old(seen)@.len(),
    {
        let members = self.edges.get_by_cb(&t.0, &t.1);
        let ghost inc = self.incoming();
        let ghost member_views = views_of(members@);
        let ghost seen0 = seen@;
        let ghost stack0 = stack@;
        let mut k: usize = 0;
        while k < members.len()
            invariant
                inc == self.incoming(),
                member_views == views_of(members@),
                forall|y: NodeKey| member_views.contains(y) <==> held_by(inc, t@, y),
                k <= members.len(),
                seen@.finite(),
                forall|y: NodeKey| seen0.contains(y) ==> seen@.contains(y),
                forall|y: NodeKey| seen@.contains(y) && !seen0.contains(y) ==> held_by(inc, t@, y),
                forall|mid: Target|
                    seen@.contains(as_source(mid)) && !seen0.contains(as_source(mid)) ==> pending(
                        stack@,
                        mid,
                    ),
                forall|p: int| 0 <= p < k ==> seen@.contains(#[trigger] member_views[p]),
                stack@.len() >= stack0.len(),
                forall|i: int| 0 <= i < stack0.len() ==> stack@[i] == stack0[i],
                forall|i: int|
                    stack0.len() <= i < stack@.len() ==> seen@.contains(
                        as_source((#[trigger] stack@[i])@),
                    ),
                seen@.len() >= seen0.len(),
                stack@.len() - stack0.len() <= seen@.len() - seen0.len(),
            decreases members.len() - k,
        {
            let x = members[k];
            let ghost before = stack@;
            let ghost seen_prev = seen@;
            proof {
                assert(member_views[k as int] == x@);
                assert(member_views.contains(x@));
            }
            if seen.insert(x.clone()) {
                match x {
                    ObjectOrSet::Userset(set) => {
                        let next = ObjectRelation(set.0, set.1.clone());
                        let ghost pushed = next@;
                        assert(as_source(pushed) == x@);
                        stack.push(next);
                        proof {
                            assert(stack@[before.len() as int]@ == pushed);
                            assert(pending(stack@, pushed));
                            assert forall|mid: Target| pending(before, mid) implies pending(
                                stack@,
                                mid,
                            ) by {
                                let i = choose|i: int|
                                    0 <= i < before.len() && (#[trigger] before[i])@ == mid;
                                assert(stack@[i] == before[i]);
                            }
                            assert forall|mid: Target|
                                seen@.contains(as_source(mid)) && !seen0.contains(
                                    as_source(mid),
                                ) implies pending(stack@, mid) by {
                                if as_source(mid) == x@ {
                                    assert(mid == pushed);
                                } else {
                                    assert(seen_prev.contains(as_source(mid)));
                                    assert(pending(before, mid));
                                }
                            }
                        }
                    },
                    ObjectOrSet::Object(_) => {
                        proof {
                            assert forall|mid: Target|
                                seen@.contains(as_source(mid)) && !seen0.contains(
                                    as_source(mid),
                                ) implies pending(stack@, mid) by {
                                assert(as_source(mid) != x@);
                                assert(seen_prev.contains(as_source(mid)));
                                assert(pending(before, mid));
                            }
                        }
                    },
                }
            }
            k += 1;
        }
        proof {
            assert forall|y: NodeKey| held_by(inc, t@, y) implies seen@.contains(y) by {
                assert(member_views.contains(y));
                let q = choose|q: int| 0 <= q < member_views.len() && member_views[q] == y;
                assert(seen@.contains(member_views[q]));
            }
        }
    }

    /// All sources that belong to the set of those that bear `relation` on `dst`.
    pub fn members_of(&self, dst: ObjectRef, relation: Relation) -> (seen: Bag<ObjectOrSet>)
        ensures
            forall|x: NodeKey|
                seen@.contains(x) <==> is_member(self.incoming(), (dst@, relation@), x),
    {
        let entries = self.edges.right_entries();
        let ghost inc = self.incoming();
        let ghost universe = sources_of(entries@);
        let ghost listing = Seq::new(entries@.len(), |i: int| entries@[i].2@);
        let ghost t0: Target = (dst@, relation@);
        proof {
            vstd::seq_lib::seq_to_set_is_finite(listing);
            assert forall|t: Target, x: NodeKey| #[trigger]
                held_by(inc, t, x) implies universe.contains(x) by {
                assert(names_triple(entries@, t.0, t.1, x));
                let i = choose|i: int|
                    0 <= i < entries@.len() && (#[trigger] entries@[i]).0@ == t.0 && entries@[i].1@
                        == t.1 && entries@[i].2@ == x;
                assert(listing[i] == x);
                assert(listing.contains(x));
            }
        }
        let mut seen: Bag<ObjectOrSet> = Bag::new();
        let mut stack: Vec<ObjectRelation> = Vec::new();
        let first = ObjectRelation(dst, relation);
        self.visit_back(&first, &mut seen, &mut stack);
        proof {
            assert forall|x: NodeKey| seen@.contains(x) implies is_member(inc, t0, x) by {
                assert(belongs(inc, t0, x, 1));
            }
        }
        while stack.len() > 0
            invariant
                inc == self.incoming(),
                universe.finite(),
                seen@.finite(),
                seen@.subset_of(universe),
                forall|t: Target, x: NodeKey| #[trigger]
                    held_by(inc, t, x) ==> universe.contains(x),
                forall|x: NodeKey| seen@.contains(x) ==> is_member(inc, t0, x),
                forall|y: NodeKey| #[trigger] held_by(inc, t0, y) ==> seen@.contains(y),
                backward_closed(inc, seen@, stack@),
                forall|i: int|
                    0 <= i < stack.len() ==> seen@.contains(as_source((#[trigger] stack[i])@)),
            decreases universe.len() - seen@.len(), stack.len(),
        {
            let ghost seen_before = seen@;
            let ghost stack_before = stack@;
            let t = stack.pop().unwrap();
            let ghost popped = stack@;
            let ghost tv = t@;
            self.visit_back(&t, &mut seen, &mut stack);
            proof {
                vstd::set_lib::lemma_len_subset(seen_before, universe);
                assert forall|y: NodeKey| seen@.contains(y) implies universe.contains(y)
                    && is_member(inc, t0, y) by {
                    if !seen_before.contains(y) {
                        assert(held_by(inc, tv, y));
                        let n = choose|n: nat| belongs(inc, t0, as_source(tv), n);
                        assert(belongs(inc, t0, y, n + 1));
                    }
                }
                vstd::set_lib::lemma_len_subset(seen@, universe);
                assert forall|mid: Target, y: NodeKey|
                    seen@.contains(as_source(mid)) && #[trigger] held_by(
                        inc,
                        mid,
                        y,
                    ) implies seen@.contains(y) || #[trigger] pending(stack@, mid) by {
                    if mid != tv {
                        if seen_before.contains(as_source(mid)) {
                            if !seen_before.contains(y) {
                                assert(pending(stack_before, mid));
                                let i = choose|i: int|
                                    0 <= i < stack_before.len() && (#[trigger] stack_before[i])@
                                        == mid;
                                assert(i < popped.len());
                                assert(stack@[i] == popped[i]);
                            }
                        }
                    }
                }
                assert forall|i: int| 0 <= i < stack.len() implies seen@.contains(
                    as_source((#[trigger] stack[i])@),
                ) by {
                    if i < popped.len() {
                        assert(stack@[i] == stack_before[i]);
                    }
                }
            }
        }
        proof {
            assert(stack@ =~= Seq::<ObjectRelation>::empty());
            assert forall|x: NodeKey| is_member(inc, t0, x) implies seen@.contains(x) by {
                let n = choose|n: nat| belongs(inc, t0, x, n);
                lemma_backward_closed(inc, t0, seen@, x, n);
            }
        }
        seen
    }

    /// The objects that bear `relation` on `dst`, directly or as members of a
    /// set that does.
    pub fn related_to(&self, dst: ObjectRef, relation: Relation) -> (r: Bag<ObjectRef>)
        ensures
            forall|o: u32|
                r@.contains(o) <==> is_member(
                    self.incoming(),
                    (dst@, relation@),
                    object_source(o),
                ),
    {
        let ghost t0: Target = (dst@, relation@);
        let ghost inc = self.incoming();
        let seen = self.members_of(dst, relation);
        let mut found: Bag<ObjectRef> = Bag::new();
        let n = seen.len();
        let ghost listing = seen.listing();
        let mut i: usize = 0;
        while i < n
            invariant
                i <= n,
                n == listing.len(),
                listing == seen.listing(),
                forall|x: NodeKey|
                    #![trigger seen@.contains(x)]
                    #![trigger listing.contains(x)]
                    seen@.contains(x) <==> listing.contains(x),
                forall|o: u32|
                    found@.contains(o) <==> exists|p: int|
                        0 <= p < i && #[trigger] listing[p] == object_source(o),
            decreases n - i,
        {
            let x = seen.get(i);
            let ghost before = found@;
            match x {
                ObjectOrSet::Object(obj) => {
                    let _ = found.insert(*obj);
                },
                ObjectOrSet::Userset(_) => {},
            }
            proof {
                assert forall|o: u32|
                    found@.contains(o) <==> exists|p: int|
                        0 <= p < i + 1 && #[trigger] listing[p] == object_source(o) by {
                    if before.contains(o) {
                        let p = choose|p: int|
                            0 <= p < i && #[trigger] listing[p] == object_source(o);
                        assert(0 <= p < i + 1);
                    }
                    if object_source(o) == x@ {
                        assert(listing[i as int] == object_source(o));
                    }
                }
            }
            i += 1;
        }
        proof {
            assert forall|o: u32|
                found@.contains(o) <==> is_member(inc, t0, object_source(o)) by {
                if found@.contains(o) {
                    let p = choose|p: int| 0 <= p < n && #[trigger] listing[p] == object_source(o);
                    assert(listing.contains(object_source(o)));
                }
                if is_member(inc, t0, object_source(o)) {
                    assert(seen@.contains(object_source(o)));
                    assert(listing.contains(object_source(o)));
                    let p = choose|p: int|
                        0 <= p < listing.len() && listing[p] == object_source(o);
                    assert(listing[p] == object_source(o));
                }
            }
        }
        found
    }

    /// Marks what `x` leads to as seen, and lets what was not seen before wait.
    fn visit(
        &self,
        x: &ObjectOrSet,
        seen: &mut Bag<ObjectRelation>,
        stack: &mut Vec<ObjectRelation>,
    )
        requires
            old(seen)@.finite(),
        ensures
            final(seen)@.finite(),
            forall|t: Target|
                final(seen)@.contains(t) <==> old(seen)@.contains(t) || steps_to(
                    self.outgoing(),
                    x@,
                    t,
                ),
            final(stack)@.len() >= old(stack)@.len(),
            forall|i: int| 0 <= i < old(stack)@.len() ==> final(stack)@[i] == old(stack)@[i],
            forall|i: int|
                old(stack)@.len() <= i < final(stack)@.len() ==> final(seen)@.contains(
                    (#[trigger] final(stack)@[i])@,
                ),
            forall|t: Target|
                final(seen)@.contains(t) && !old(seen)@.contains(t) ==> pending(final(stack)@, t),
            final(seen)@.len() == old(seen)@.len() ==> final(stack)@.len() == old(stack)@.len(),
            final(seen)@.len() >= old(seen)@.len(),
    {
        let rows = self.edges.get_by_a(x);
        let ghost out = self.outgoing();
        let ghost row_map = nested_row(out, x@);
        let ghost seen0 = seen@;
        let ghost stack0 = stack@;
        let mut j: usize = 0;
        while j < rows.len()
            invariant
                out == self.outgoing(),
                row_map == nested_row(out, x@),
                is_row_listing(rows@, row_map),
                j <= rows.len(),
                seen@.finite(),
                forall|t: Target| seen0.contains(t) ==> seen@.contains(t),
                forall|t: Target|
                    seen@.contains(t) && !seen0.contains(t) ==> steps_to(out, x@, t) && pending(
                        stack@,
                        t,
                    ),
                forall|p: int, c: u32|
                    0 <= p < j && #[trigger] row_map[rows[p].0@].contains(c) ==> seen@.contains(
                        (c, rows[p].0@),
                    ),
                stack@.len() >= stack0.len(),
                forall|i: int| 0 <= i < stack0.len() ==> stack@[i] == stack0[i],
                forall|i: int|
                    stack0.len() <= i < stack@.len() ==> seen@.contains((#[trigger] stack@[i])@),
                seen@.len() >= seen0.len(),
                stack@.len() - stack0.len() == seen@.len() - seen0.len(),
            decreases rows.len() - j,
        {
            let relation = rows[j].0;
            let members = &rows[j].1;
            let ghost member_views = views_of(members@);
            let mut k: usize = 0;
            while k < members.len()
                invariant
                    out == self.outgoing(),
                    row_map == nested_row(out, x@),
                    j < rows.len(),
                    relation@ == rows[j as int].0@,
                    members@ == rows[j as int].1@,
                    member_views == views_of(members@),
                    row_map.dom().contains(relation@),
                    forall|c: u32| member_views.contains(c) <==> row_map[relation@].contains(c),
                    k <= members.len(),
                    seen@.finite(),
                    forall|t: Target| seen0.contains(t) ==> seen@.contains(t),
                    forall|t: Target|
                        seen@.contains(t) && !seen0.contains(t) ==> steps_to(out, x@, t)
                            && pending(stack@, t),
                    forall|p: int, c: u32|
                        0 <= p < j && #[trigger] row_map[rows[p].0@].contains(c)
                            ==> seen@.contains((c, rows[p].0@)),
                    forall|p: int|
                        0 <= p < k ==> seen@.contains((#[trigger] member_views[p], relation@)),
                    stack@.len() >= stack0.len(),
                    forall|i: int| 0 <= i < stack0.len() ==> stack@[i] == stack0[i],
                    forall|i: int|
                        stack0.len() <= i < stack@.len() ==> seen@.contains(
                            (#[trigger] stack@[i])@,
                        ),
                    seen@.len() >= seen0.len(),
                    stack@.len() - stack0.len() == seen@.len() - seen0.len(),
                decreases members.len() - k,
            {
                let target = ObjectRelation(*members[k], relation.clone());
                let ghost t = target@;
                let ghost before = stack@;
                let ghost seen_before = seen@;
                proof {
                    assert(member_views[k as int] == t.0);
                    assert(member_views.contains(t.0));
                    assert(steps_to(out, x@, t));
                }
                if seen.insert(target.clone()) {
                    stack.push(target);
                    proof {
                        assert(stack@[before.len() as int]@ == t);
                        assert forall|t2: Target| pending(before, t2) implies pending(
                            stack@,
                            t2,
                        ) by {
                            let i = choose|i: int|
                                0 <= i < before.len() && (#[trigger] before[i])@ == t2;
                            assert(stack@[i] == before[i]);
                        }
                        assert(pending(stack@, t));
                    }
                }
                k += 1;
            }
            proof {
                assert forall|p: int, c: u32|
                    0 <= p < j + 1 && #[trigger] row_map[rows[p].0@].contains(
                        c,
                    ) implies seen@.contains((c, rows[p].0@)) by {
                    if p == j {
                        assert(member_views.contains(c));
                        let q = choose|q: int| 0 <= q < member_views.len() && member_views[q] == c;
                        assert(seen@.contains((member_views[q], relation@)));
                    }
                }
            }
            j += 1;
        }
        proof {
            assert forall|t: Target| steps_to(out, x@, t) implies seen@.contains(t) by {
                assert(row_map.dom().contains(t.1));
                let p = choose|p: int| 0 <= p < rows.len() && (#[trigger] rows[p]).0@ == t.1;
                assert(row_map[rows[p].0@].contains(t.0));
            }
        }
    }

    /// All that `start` is related to.
    pub fn closure_from(&self, start: &ObjectOrSet) -> (seen: Bag<ObjectRelation>)
        ensures
            forall|t: Target| seen@.contains(t) <==> related(self.outgoing(), start@, t),
    {
        let entries = self.edges.left_entries();
        let ghost out = self.outgoing();
        let ghost universe = targets_of(entries@);
        let ghost listing = Seq::new(entries@.len(), |i: int| (entries@[i].2@, entries@[i].1@));
        proof {
            vstd::seq_lib::seq_to_set_is_finite(listing);
            assert forall|x: NodeKey, t: Target| #[trigger]
                steps_to(out, x, t) implies universe.contains(t) by {
                assert(names_triple(entries@, x, t.1, t.0));
                let i = choose|i: int|
                    0 <= i < entries@.len() && (#[trigger] entries@[i]).0@ == x && entries@[i].1@
                        == t.1 && entries@[i].2@ == t.0;
                assert(listing[i] == t);
                assert(listing.contains(t));
            }
        }
        let mut seen: Bag<ObjectRelation> = Bag::new();
        let mut stack: Vec<ObjectRelation> = Vec::new();
        self.visit(start, &mut seen, &mut stack);
        proof {
            assert forall|t: Target| seen@.contains(t) implies related(out, start@, t) by {
                assert(reaches(out, start@, t, 1));
            }
            assert forall|t: Target| seen@.contains(t) implies pending(stack@, t) by {}
        }
        while stack.len() > 0
            invariant
                out == self.outgoing(),
                universe.finite(),
                seen@.finite(),
                seen@.subset_of(universe),
                forall|x: NodeKey, t: Target| #[trigger]
                    steps_to(out, x, t) ==> universe.contains(t),
                forall|t: Target| seen@.contains(t) ==> related(out, start@, t),
                forall|t: Target| #[trigger] steps_to(out, start@, t) ==> seen@.contains(t),
                forward_closed(out, seen@, stack@),
                forall|i: int| 0 <= i < stack.len() ==> seen@.contains((#[trigger] stack[i])@),
            decreases universe.len() - seen@.len(), stack.len(),
        {
            let ghost seen_before = seen@;
            let ghost stack_before = stack@;
            let t = stack.pop().unwrap();
            let ghost popped = stack@;
            let ghost tv = t@;
            let x = ObjectOrSet::Userset((t.0, t.1));
            assert(x@ == as_source(tv));
            self.visit(&x, &mut seen, &mut stack);
            proof {
                vstd::set_lib::lemma_len_subset(seen_before, universe);
                assert forall|t2: Target| seen@.contains(t2) implies universe.contains(t2)
                    && related(out, start@, t2) by {
                    if !seen_before.contains(t2) {
                        assert(steps_to(out, as_source(tv), t2));
                        let n = choose|n: nat| reaches(out, start@, tv, n);
                        assert(reaches(out, start@, t2, n + 1));
                    }
                }
                vstd::set_lib::lemma_len_subset(seen@, universe);
                assert forall|t1: Target, t2: Target|
                    seen@.contains(t1) && #[trigger] steps_to(
                        out,
                        as_source(t1),
                        t2,
                    ) implies seen@.contains(t2) || #[trigger] pending(stack@, t1) by {
                    if t1 != tv {
                        if seen_before.contains(t1) {
                            if !seen_before.contains(t2) {
                                assert(pending(stack_before, t1));
                                let i = choose|i: int|
                                    0 <= i < stack_before.len() && (#[trigger] stack_before[i])@
                                        == t1;
                                assert(i < popped.len());
                                assert(stack@[i] == popped[i]);
                            }
                        }
                    }
                }
                assert forall|i: int| 0 <= i < stack.len() implies seen@.contains(
                    (#[trigger] stack[i])@,
                ) by {
                    if i < popped.len() {
                        assert(stack@[i] == stack_before[i]);
                    }
                }
            }
        }
        proof {
            assert(stack@ =~= Seq::<ObjectRelation>::empty());
            assert forall|t: Target| related(out, start@, t) implies seen@.contains(t) by {
                let n = choose|n: nat| reaches(out, start@, t, n);
                lemma_forward_closed(out, start@, seen@, t, n);
            }
        }
        seen
    }

    /// Whether a chain of relations leads from `src` to `dst`: `src` bears a
    /// relation on an object, the set of those that bear it bears a relation on
    /// the next, and so on up to the relation and the object of `dst`.
    pub fn is_related_to(&self, src: ObjectOrSet, dst: ObjectRelation) -> (r: bool)
        ensures
            r == related(self.outgoing(), src@, dst@),
    {
        let seen = self.closure_from(&src);
        seen.contains(&dst)
    }

    /// The objects on which the object of `src` bears the relation of `src`,
    /// directly or through a chain of sets.
    pub fn relations(&self, src: ObjectRelation) -> (r: Bag<ObjectRef>)
        ensures
            forall|c: u32|
                r@.contains(c) <==> related(self.outgoing(), object_source(src@.0), (c, src@.1)),
    {
        let start = ObjectOrSet::Object(src.0);
        let seen = self.closure_from(&start);
        let mut found: Bag<ObjectRef> = Bag::new();
        let n = seen.len();
        let ghost listing = seen.listing();
        let ghost out = self.outgoing();
        let mut i: usize = 0;
        while i < n
            invariant
                i <= n,
                n == listing.len(),
                listing == seen.listing(),
                start@ == object_source(src@.0),
                forall|t: Target|
                    #![trigger seen@.contains(t)]
                    #![trigger listing.contains(t)]
                    seen@.contains(t) <==> listing.contains(t),
                forall|c: u32|
                    found@.contains(c) <==> exists|p: int|
                        0 <= p < i && #[trigger] listing[p] == (c, src@.1),
            decreases n - i,
        {
            let t = seen.get(i);
            if t.1.same(&src.1) {
                let ghost before = found@;
                let _ = found.insert(t.0);
                proof {
                    assert forall|c: u32|
                        found@.contains(c) <==> exists|p: int|
                            0 <= p < i + 1 && #[trigger] listing[p] == (c, src@.1) by {
                        if before.contains(c) {
                            let p = choose|p: int|
                                0 <= p < i && #[trigger] listing[p] == (c, src@.1);
                            assert(0 <= p < i + 1);
                        }
                        if c == t.0@ {
                            assert(listing[i as int] == (c, src@.1));
                        }
                    }
                }
            }
            i += 1;
        }
        proof {
            assert forall|c: u32|
                found@.contains(c) <==> related(out, object_source(src@.0), (c, src@.1)) by {
                if found@.contains(c) {
                    let p = choose|p: int| 0 <= p < n && #[trigger] listing[p] == (c, src@.1);
                    assert(listing.contains((c, src@.1)));
                }
                if related(out, object_source(src@.0), (c, src@.1)) {
                    assert(seen@.contains((c, src@.1)));
                    assert(listing.contains((c, src@.1)));
                    let p = choose|p: int| 0 <= p < listing.len() && listing[p] == (c, src@.1);
                    assert(listing[p] == (c, src@.1));
                }
            }
        }
        found
    }
}

} // verus!
