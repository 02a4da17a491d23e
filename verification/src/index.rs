//! A sorted index of identifier pairs: the adjacency of the graph in one direction.

use vstd::prelude::*;
use crate::ident::ObjectOrSet;
use crate::ident::VertexKey;
use crate::ident::compare_keys;
use crate::ident::key_lt;
use crate::ident::lemma_key_lt_asymmetric;
use crate::ident::lemma_key_lt_total;
use crate::ident::lemma_key_lt_transitive;
use crate::order::Sign;

verus! {

/// A directed pair of vertices.
pub type Edge = (VertexKey, VertexKey);

/// The order of pairs: by first component, then by second.
pub open spec fn pair_lt(x: Edge, y: Edge) -> bool {
    key_lt(x.0, y.0) || (x.0 == y.0 && key_lt(x.1, y.1))
}

/// The pairs stand in strictly increasing order.
pub open spec fn sorted_pairs(s: Seq<Edge>) -> bool {
    forall|i: int, j: int| 0 <= i < j < s.len() ==> pair_lt(#[trigger] s[i], #[trigger] s[j])
}

/// The order of pairs is a strict total order.
pub proof fn lemma_pair_order(x: Edge, y: Edge, z: Edge)
    ensures
        !pair_lt(x, x),
        pair_lt(x, y) ==> !pair_lt(y, x),
        pair_lt(x, y) && pair_lt(y, z) ==> pair_lt(x, z),
        x == y || pair_lt(x, y) || pair_lt(y, x),
{
    lemma_key_lt_asymmetric(x.0, y.0);
    lemma_key_lt_asymmetric(x.1, y.1);
    lemma_key_lt_asymmetric(y.0, z.0);
    lemma_key_lt_total(x.0, y.0);
    lemma_key_lt_total(x.1, y.1);
    if pair_lt(x, y) && pair_lt(y, z) {
        if key_lt(x.0, y.0) && key_lt(y.0, z.0) {
            lemma_key_lt_transitive(x.0, y.0, z.0);
        }
        if x.0 == y.0 && y.0 == z.0 {
            lemma_key_lt_transitive(x.1, y.1, z.1);
        }
    }
}

/// Compares two pairs of identifiers.
pub fn compare_pairs(a0: &ObjectOrSet, a1: &ObjectOrSet, b0: &ObjectOrSet, b1: &ObjectOrSet) -> (r:
    Sign)
    ensures
        r == Sign::Less <==> pair_lt((a0@, a1@), (b0@, b1@)),
        r == Sign::Equal <==> (a0@, a1@) == (b0@, b1@),
        r == Sign::Greater <==> pair_lt((b0@, b1@), (a0@, a1@)),
{
    proof {
        lemma_pair_order((a0@, a1@), (b0@, b1@), (a0@, a1@));
        lemma_key_lt_asymmetric(a0@, b0@);
        lemma_key_lt_asymmetric(b0@, a0@);
    }
    let by_first = compare_keys(a0, b0);
    if by_first != Sign::Equal {
        return by_first;
    }
    compare_keys(a1, b1)
}

/// A set of identifier pairs, held in increasing order.
pub struct PairIndex {
    items: Vec<(ObjectOrSet, ObjectOrSet)>,
}

impl View for PairIndex {
    type V = Set<Edge>;

    /// The pairs that the index holds.
    open spec fn view(&self) -> Set<Edge> {
        Set::new(|e: Edge| self.pairs().contains(e))
    }
}

impl PairIndex {
    /// The pairs in the order in which the index holds them.
    pub closed spec fn pairs(&self) -> Seq<Edge> {
        Seq::new(self.items@.len(), |i: int| (self.items@[i].0@, self.items@[i].1@))
    }

    /// The pairs are strictly increasing, so none occurs twice.
    #[verifier::type_invariant]
    pub open spec fn wf(&self) -> bool {
        sorted_pairs(self.pairs())
    }

    /// The first components never decrease along the index.
    pub proof fn lemma_firsts_monotone(&self, i: int, j: int)
        requires
            self.wf(),
            0 <= i <= j < self.pairs().len(),
        ensures
            !key_lt(self.pairs()[j].0, self.pairs()[i].0),
    {
        if i < j {
            assert(pair_lt(self.pairs()[i], self.pairs()[j]));
        }
        lemma_key_lt_asymmetric(self.pairs()[i].0, self.pairs()[j].0);
    }

    /// An index without pairs.
    pub fn new() -> (r: Self)
        ensures
            r.pairs().len() == 0,
            r@ == Set::<Edge>::empty(),
    {
        let r = PairIndex { items: Vec::new() };
        assert(r@ =~= Set::<Edge>::empty());
        r
    }

    /// The number of pairs.
    pub fn len(&self) -> (n: usize)
        ensures
            n == self.pairs().len(),
    {
        self.items.len()
    }

    /// The first component of the pair at position `i`.
    pub fn first_at(&self, i: usize) -> (r: &ObjectOrSet)
        requires
            i < self.pairs().len(),
        ensures
            r@ == self.pairs()[i as int].0,
    {
        &self.items[i].0
    }

    /// The second component of the pair at position `i`.
    pub fn second_at(&self, i: usize) -> (r: &ObjectOrSet)
        requires
            i < self.pairs().len(),
        ensures
            r@ == self.pairs()[i as int].1,
    {
        &self.items[i].1
    }

    /// The position of the first pair whose first component is not before `a`.
    pub fn run_start(&self, a: &ObjectOrSet) -> (p: usize)
        ensures
            p <= self.pairs().len(),
            forall|i: int| 0 <= i < p ==> key_lt(#[trigger] self.pairs()[i].0, a@),
            forall|i: int|
                p <= i < self.pairs().len() ==> !key_lt(#[trigger] self.pairs()[i].0, a@),
    {
        proof {
            use_type_invariant(self);
        }
        let mut lo: usize = 0;
        let mut hi: usize = self.items.len();
        while lo < hi
            invariant
                self.wf(),
                lo <= hi <= self.pairs().len(),
                forall|i: int| 0 <= i < lo ==> key_lt(#[trigger] self.pairs()[i].0, a@),
                forall|i: int|
                    hi <= i < self.pairs().len() ==> !key_lt(#[trigger] self.pairs()[i].0, a@),
            decreases hi - lo,
        {
            let mid = lo + (hi - lo) / 2;
            if compare_keys(&self.items[mid].0, a) == Sign::Less {
                assert forall|i: int| 0 <= i < mid + 1 implies key_lt(
                    #[trigger] self.pairs()[i].0,
                    a@,
                ) by {
                    self.lemma_firsts_monotone(i, mid as int);
                    lemma_key_lt_total(self.pairs()[i].0, self.pairs()[mid as int].0);
                    if self.pairs()[i].0 != self.pairs()[mid as int].0 {
                        lemma_key_lt_transitive(self.pairs()[i].0, self.pairs()[mid as int].0, a@);
                    }
                }
                lo = mid + 1;
            } else {
                assert forall|i: int| mid <= i < self.pairs().len() implies !key_lt(
                    #[trigger] self.pairs()[i].0,
                    a@,
                ) by {
                    self.lemma_firsts_monotone(mid as int, i);
                    lemma_key_lt_total(self.pairs()[i].0, self.pairs()[mid as int].0);
                    if key_lt(self.pairs()[i].0, a@) && self.pairs()[i].0 != self.pairs()[mid as int].0
                    {
                        lemma_key_lt_transitive(self.pairs()[mid as int].0, self.pairs()[i].0, a@);
                    }
                }
                hi = mid;
            }
        }
        lo
    }

    /// Position `p` holds the first of the pairs whose first component is `v`.
    pub open spec fn is_slot(&self, p: int, v: VertexKey) -> bool {
        &&& 0 <= p < self.pairs().len()
        &&& self.pairs()[p].0 == v
        &&& forall|i: int| 0 <= i < p ==> (#[trigger] self.pairs()[i]).0 != v
    }

    /// The position of the first pair whose first component is `a`, if there is one.
    pub fn find_run(&self, a: &ObjectOrSet) -> (r: Option<usize>)
        ensures
            r is Some ==> self.is_slot(r->0 as int, a@),
            r is None ==> forall|i: int|
                0 <= i < self.pairs().len() ==> (#[trigger] self.pairs()[i]).0 != a@,
    {
        proof {
            use_type_invariant(self);
        }
        let p = self.run_start(a);
        proof {
            lemma_key_lt_asymmetric(a@, a@);
        }
        if p < self.items.len() && compare_keys(&self.items[p].0, a) == Sign::Equal {
            Some(p)
        } else {
            assert forall|i: int| 0 <= i < self.pairs().len() implies (
            #[trigger] self.pairs()[i]).0 != a@ by {
                if p <= i && self.pairs()[i].0 == a@ {
                    self.lemma_firsts_monotone(p as int, i);
                    lemma_key_lt_total(self.pairs()[p as int].0, a@);
                }
            }
            None
        }
    }

    /// The position of the first pair that is not before (`a`, `b`).
    pub fn position(&self, a: &ObjectOrSet, b: &ObjectOrSet) -> (p: usize)
        ensures
            p <= self.pairs().len(),
            forall|i: int| 0 <= i < p ==> pair_lt(#[trigger] self.pairs()[i], (a@, b@)),
            forall|i: int|
                p <= i < self.pairs().len() ==> !pair_lt(#[trigger] self.pairs()[i], (a@, b@)),
    {
        proof {
            use_type_invariant(self);
        }
        let mut lo: usize = 0;
        let mut hi: usize = self.items.len();
        let ghost t: Edge = (a@, b@);
        while lo < hi
            invariant
                self.wf(),
                t == (a@, b@),
                lo <= hi <= self.pairs().len(),
                forall|i: int| 0 <= i < lo ==> pair_lt(#[trigger] self.pairs()[i], t),
                forall|i: int|
                    hi <= i < self.pairs().len() ==> !pair_lt(#[trigger] self.pairs()[i], t),
            decreases hi - lo,
        {
            let mid = lo + (hi - lo) / 2;
            if compare_pairs(&self.items[mid].0, &self.items[mid].1, a, b) == Sign::Less {
                assert forall|i: int| 0 <= i < mid + 1 implies pair_lt(
                    #[trigger] self.pairs()[i],
                    t,
                ) by {
                    if i < mid {
                        assert(pair_lt(self.pairs()[i], self.pairs()[mid as int]));
                        lemma_pair_order(self.pairs()[i], self.pairs()[mid as int], t);
                    }
                }
                lo = mid + 1;
            } else {
                assert forall|i: int| mid <= i < self.pairs().len() implies !pair_lt(
                    #[trigger] self.pairs()[i],
                    t,
                ) by {
                    if mid < i {
                        assert(pair_lt(self.pairs()[mid as int], self.pairs()[i]));
                        lemma_pair_order(self.pairs()[mid as int], self.pairs()[i], t);
                    }
                }
                hi = mid;
            }
        }
        lo
    }

    /// Whether the pair at position `p`, if there is one, is (`a`, `b`).
    fn holds_at(&self, p: usize, a: &ObjectOrSet, b: &ObjectOrSet) -> (r: bool)
        requires
            p <= self.pairs().len(),
            forall|i: int| 0 <= i < p ==> pair_lt(#[trigger] self.pairs()[i], (a@, b@)),
            forall|i: int|
                p <= i < self.pairs().len() ==> !pair_lt(#[trigger] self.pairs()[i], (a@, b@)),
        ensures
            r == self@.contains((a@, b@)),
            r <==> (p < self.pairs().len() && self.pairs()[p as int] == (a@, b@)),
    {
        proof {
            use_type_invariant(self);
        }
        let ghost t: Edge = (a@, b@);
        let r = p < self.items.len() && compare_pairs(
            &self.items[p].0,
            &self.items[p].1,
            a,
            b,
        ) == Sign::Equal;
        proof {
            if r {
                assert(self.pairs()[p as int] == t);
                assert(self.pairs().contains(t));
            }
            if self@.contains(t) {
                let i = choose|i: int| 0 <= i < self.pairs().len() && self.pairs()[i] == t;
                lemma_pair_order(t, t, t);
                assert(!pair_lt(self.pairs()[i], t));
                assert(p <= i);
                if p < i {
                    assert(pair_lt(self.pairs()[p as int], self.pairs()[i]));
                }
            }
        }
        r
    }

    /// Whether the index holds the pair (`a`, `b`).
    pub fn contains(&self, a: &ObjectOrSet, b: &ObjectOrSet) -> (r: bool)
        ensures
            r == self@.contains((a@, b@)),
    {
        proof {
            use_type_invariant(self);
        }
        let p = self.position(a, b);
        self.holds_at(p, a, b)
    }

    /// Adds the pair (`a`, `b`), unless the index holds it already.
    pub fn insert(&mut self, a: ObjectOrSet, b: ObjectOrSet)
        ensures
            final(self)@ == old(self)@.insert((a@, b@)),
    {
        proof {
            use_type_invariant(&*self);
        }
        let ghost t: Edge = (a@, b@);
        let ghost before = self.pairs();
        let p = self.position(&a, &b);
        if self.holds_at(p, &a, &b) {
            assert(self@ =~= old(self)@.insert(t));
            return ;
        }
        let mut items: Vec<(ObjectOrSet, ObjectOrSet)> = Vec::new();
        std::mem::swap(&mut items, &mut self.items);
        items.insert(p, (a, b));
        let ghost after = Seq::new(items@.len(), |i: int| (items@[i].0@, items@[i].1@));
        proof {
            assert(after =~= before.insert(p as int, t));
            assert forall|i: int, j: int| 0 <= i < j < after.len() implies pair_lt(
                #[trigger] after[i],
                #[trigger] after[j],
            ) by {
                if j < p {
                    assert(pair_lt(before[i], before[j]));
                } else if j == p {
                    assert(pair_lt(before[i], t));
                } else if i == p {
                    lemma_pair_order(before[j - 1], t, t);
                } else if i > p {
                    assert(pair_lt(before[i - 1], before[j - 1]));
                } else {
                    assert(pair_lt(before[i], before[j - 1]));
                }
            }
        }
        self.items = items;
        proof {
            assert(self.pairs() == after);
            assert forall|e: Edge| self@.contains(e) <==> old(self)@.insert(t).contains(e) by {
                if self@.contains(e) {
                    let i = choose|i: int| 0 <= i < after.len() && after[i] == e;
                    if i < p {
                        assert(before[i] == e);
                    } else if i > p {
                        assert(before[i - 1] == e);
                    }
                }
                if old(self)@.contains(e) {
                    let i = choose|i: int| 0 <= i < before.len() && before[i] == e;
                    if i < p {
                        assert(after[i] == e);
                    } else {
                        assert(after[i + 1] == e);
                    }
                }
                if e == t {
                    assert(after[p as int] == e);
                }
            }
            assert(self@ =~= old(self)@.insert(t));
        }
    }

    /// Takes the pair (`a`, `b`) out, if the index holds it.
    pub fn remove(&mut self, a: &ObjectOrSet, b: &ObjectOrSet)
        ensures
            final(self)@ == old(self)@.remove((a@, b@)),
    {
        proof {
            use_type_invariant(&*self);
        }
        let ghost t: Edge = (a@, b@);
        let ghost before = self.pairs();
        let p = self.position(a, b);
        if !self.holds_at(p, a, b) {
            assert(self@ =~= old(self)@.remove(t));
            return ;
        }
        let mut items: Vec<(ObjectOrSet, ObjectOrSet)> = Vec::new();
        std::mem::swap(&mut items, &mut self.items);
        let _ = items.remove(p);
        let ghost after = Seq::new(items@.len(), |i: int| (items@[i].0@, items@[i].1@));
        proof {
            assert(after =~= before.remove(p as int));
            assert forall|i: int, j: int| 0 <= i < j < after.len() implies pair_lt(
                #[trigger] after[i],
                #[trigger] after[j],
            ) by {
                let oi = if i < p { i } else { i + 1 };
                let oj = if j < p { j } else { j + 1 };
                assert(pair_lt(before[oi], before[oj]));
            }
        }
        self.items = items;
        proof {
            assert(self.pairs() == after);
            assert forall|e: Edge| self@.contains(e) <==> old(self)@.remove(t).contains(e) by {
                if self@.contains(e) {
                    let i = choose|i: int| 0 <= i < after.len() && after[i] == e;
                    let oi = if i < p { i } else { i + 1 };
                    assert(before[oi] == e);
                    lemma_pair_order(t, t, t);
                    if oi < p {
                        assert(pair_lt(before[oi], before[p as int]));
                    } else {
                        assert(pair_lt(before[p as int], before[oi]));
                    }
                }
                if old(self)@.contains(e) && e != t {
                    let i = choose|i: int| 0 <= i < before.len() && before[i] == e;
                    if i < p {
                        assert(after[i] == e);
                    } else {
                        assert(after[i - 1] == e);
                    }
                }
            }
            assert(self@ =~= old(self)@.remove(t));
        }
    }
}

} // verus!
