//! Maps that are held in both directions.

use vstd::prelude::*;
use crate::table::Bag;
use crate::table::Keyed;
use crate::table::Table;
use crate::table::distinct;
use crate::table::views_of;

verus! {

/// A map from `A` to `B` together with a map from `B` to `A`. An insertion
/// writes both; each keeps what it holds until its own key is written again
/// or removed.
pub struct BidMap<A: Keyed, B: Keyed> {
    left_to_right: Table<A, B>,
    right_to_left: Table<B, A>,
}

impl<A: Keyed, B: Keyed> BidMap<A, B> {
    /// The map from left to right.
    pub closed spec fn left(&self) -> Map<A::V, B::V> {
        self.left_to_right@
    }

    /// The map from right to left.
    pub closed spec fn right(&self) -> Map<B::V, A::V> {
        self.right_to_left@
    }

    /// An empty map.
    pub fn new() -> (r: Self)
        ensures
            r.left() == Map::<A::V, B::V>::empty(),
            r.right() == Map::<B::V, A::V>::empty(),
    {
        BidMap { left_to_right: Table::new(), right_to_left: Table::new() }
    }

    /// Maps `a` to `b` and `b` to `a`.
    pub fn insert(&mut self, a: A, b: B)
        ensures
            final(self).left() == old(self).left().insert(a@, b@),
            final(self).right() == old(self).right().insert(b@, a@),
    {
        let a2 = a.duplicate();
        let b2 = b.duplicate();
        self.left_to_right.insert(a, b);
        self.right_to_left.insert(b2, a2);
    }

    /// Takes out what `a` maps to, and the entry of that value in the other
    /// direction. Returns the value.
    pub fn remove_by_a(&mut self, a: &A) -> (r: Option<B>)
        ensures
            r is Some <==> old(self).left().dom().contains(a@),
            r is Some ==> r->0@ == old(self).left()[a@],
            final(self).left() == old(self).left().remove(a@),
            r is Some ==> final(self).right() == old(self).right().remove(r->0@),
            r is None ==> final(self).right() == old(self).right(),
    {
        match self.left_to_right.remove(a) {
            Some(b) => {
                let _ = self.right_to_left.remove(&b);
                Some(b)
            },
            None => None,
        }
    }

    /// Takes out what `b` maps to, and the entry of that value in the other
    /// direction. Returns the value.
    pub fn remove_by_b(&mut self, b: &B) -> (r: Option<A>)
        ensures
            r is Some <==> old(self).right().dom().contains(b@),
            r is Some ==> r->0@ == old(self).right()[b@],
            final(self).right() == old(self).right().remove(b@),
            r is Some ==> final(self).left() == old(self).left().remove(r->0@),
            r is None ==> final(self).left() == old(self).left(),
    {
        match self.right_to_left.remove(b) {
            Some(a) => {
                let _ = self.left_to_right.remove(&a);
                Some(a)
            },
            None => None,
        }
    }

    /// What `a` maps to.
    pub fn get_by_a(&self, a: &A) -> (r: Option<&B>)
        ensures
            r is Some <==> self.left().dom().contains(a@),
            r is Some ==> r->0@ == self.left()[a@],
    {
        self.left_to_right.get(a)
    }

    /// What `b` maps to.
    pub fn get_by_b(&self, b: &B) -> (r: Option<&A>)
        ensures
            r is Some <==> self.right().dom().contains(b@),
            r is Some ==> r->0@ == self.right()[b@],
    {
        self.right_to_left.get(b)
    }

    /// The entries of the map from left to right, each once.
    pub fn iter(&self) -> (r: Vec<(&A, &B)>)
        ensures
            forall|i: int, j: int| 0 <= i < j < r.len() ==> r[i].0@ != r[j].0@,
            forall|i: int|
                0 <= i < r.len() ==> self.left().dom().contains((#[trigger] r[i]).0@)
                    && self.left()[r[i].0@] == r[i].1@,
            forall|k: A::V|
                self.left().dom().contains(k) ==> exists|i: int|
                    0 <= i < r.len() && (#[trigger] r[i]).0@ == k,
    {
        let mut out: Vec<(&A, &B)> = Vec::new();
        let n = self.left_to_right.len();
        let ghost keys = self.left_to_right.key_listing();
        let ghost values = self.left_to_right.value_listing();
        let mut i: usize = 0;
        while i < n
            invariant
                i <= n,
                n == keys.len(),
                n == values.len(),
                keys == self.left_to_right.key_listing(),
                values == self.left_to_right.value_listing(),
                distinct(keys),
                forall|k: A::V|
                    #![trigger self.left().dom().contains(k)]
                    #![trigger keys.contains(k)]
                    self.left().dom().contains(k) <==> keys.contains(k),
                forall|j: int| 0 <= j < keys.len() ==> self.left()[#[trigger] keys[j]] == values[j],
                out.len() == i,
                forall|j: int|
                    0 <= j < i ==> (#[trigger] out[j]).0@ == keys[j] && out[j].1@ == values[j],
            decreases n - i,
        {
            out.push((self.left_to_right.key_at(i), self.left_to_right.value_at(i)));
            i += 1;
        }
        proof {
            assert forall|k: A::V| self.left().dom().contains(k) implies exists|i: int|
                0 <= i < out.len() && (#[trigger] out[i]).0@ == k by {
                let i = choose|i: int| 0 <= i < keys.len() && keys[i] == k;
                assert(out[i].0@ == k);
            }
            assert forall|i: int| 0 <= i < out.len() implies self.left().dom().contains(
                (#[trigger] out[i]).0@,
            ) && self.left()[out[i].0@] == out[i].1@ by {
                assert(keys.contains(keys[i]));
                assert(self.left()[keys[i]] == values[i]);
            }
        }
        out
    }
}

impl<A: Keyed, B: Keyed> Default for BidMap<A, B> {
    fn default() -> (r: Self)
        ensures
            r.left() == Map::<A::V, B::V>::empty(),
            r.right() == Map::<B::V, A::V>::empty(),
    {
        BidMap::new()
    }
}

/// The set that stands under `x` and `y`, or the empty set.
pub open spec fn nested_get<X, Y, Z>(m: Map<X, Map<Y, Set<Z>>>, x: X, y: Y) -> Set<Z> {
    if m.dom().contains(x) && m[x].dom().contains(y) {
        m[x][y]
    } else {
        Set::empty()
    }
}

/// The map that stands under `x`, or the empty map.
pub open spec fn nested_row<X, Y, Z>(m: Map<X, Map<Y, Set<Z>>>, x: X) -> Map<Y, Set<Z>> {
    if m.dom().contains(x) {
        m[x]
    } else {
        Map::empty()
    }
}

/// The nested map with `z` added to the set under `x` and `y`.
pub open spec fn nested_insert<X, Y, Z>(m: Map<X, Map<Y, Set<Z>>>, x: X, y: Y, z: Z) -> Map<
    X,
    Map<Y, Set<Z>>,
> {
    m.insert(x, nested_row(m, x).insert(y, nested_get(m, x, y).insert(z)))
}

/// The nested map with `z` taken out of the set under `x` and `y`, where
/// there is such a set. The set stays, even where it is empty then.
pub open spec fn nested_remove<X, Y, Z>(m: Map<X, Map<Y, Set<Z>>>, x: X, y: Y, z: Z) -> Map<
    X,
    Map<Y, Set<Z>>,
> {
    if m.dom().contains(x) && m[x].dom().contains(y) {
        m.insert(x, m[x].insert(y, m[x][y].remove(z)))
    } else {
        m
    }
}

/// The nested map with `z` taken out of the set under `x` and `y` for every
/// `y` and `x` such that `row` holds `x` under `y`.
pub open spec fn nested_purge<X, Y, Z>(
    m: Map<X, Map<Y, Set<Z>>>,
    row: Map<Y, Set<X>>,
    z: Z,
) -> Map<X, Map<Y, Set<Z>>> {
    Map::new(
        |x: X| m.dom().contains(x),
        |x: X|
            Map::new(
                |y: Y| m[x].dom().contains(y),
                |y: Y|
                    if row.dom().contains(y) && row[y].contains(x) {
                        m[x][y].remove(z)
                    } else {
                        m[x][y]
                    },
            ),
    )
}

/// The nested map with `z` taken out of the set under `x` and `y` wherever
/// `done` holds of `y` and `x`.
pub open spec fn nested_purge_where<X, Y, Z>(
    m: Map<X, Map<Y, Set<Z>>>,
    done: spec_fn(Y, X) -> bool,
    z: Z,
) -> Map<X, Map<Y, Set<Z>>> {
    Map::new(
        |x: X| m.dom().contains(x),
        |x: X|
            Map::new(
                |y: Y| m[x].dom().contains(y),
                |y: Y|
                    if done(y, x) {
                        m[x][y].remove(z)
                    } else {
                        m[x][y]
                    },
            ),
    )
}

/// Takes `z` out of the sets of `table` under every `x` and `y` such that
/// `row` holds `x` under `y`.
fn table_purge<X: Keyed, Y: Keyed, Z: Keyed>(
    table: &mut Table<X, Table<Y, Bag<Z>>>,
    row: &Table<Y, Bag<X>>,
    z: &Z,
)
    ensures
        final(table)@ == nested_purge(old(table)@, row@, z@),
{
    let ghost orig = table@;
    let n = row.len();
    let ghost keys = row.key_listing();
    let ghost values = row.value_listing();
    let ghost mut done: spec_fn(Y::V, X::V) -> bool = |y: Y::V, x: X::V| false;
    assert(table@ =~~= nested_purge_where(orig, done, z@));
    let mut i: usize = 0;
    while i < n
        invariant
            i <= n,
            n == keys.len(),
            n == values.len(),
            keys == row.key_listing(),
            values == row.value_listing(),
            distinct(keys),
            forall|k: Y::V|
                #![trigger row@.dom().contains(k)]
                #![trigger keys.contains(k)]
                row@.dom().contains(k) <==> keys.contains(k),
            forall|p: int| 0 <= p < keys.len() ==> row@[#[trigger] keys[p]] == values[p],
            table@ == nested_purge_where(orig, done, z@),
            forall|y: Y::V, x: X::V| #[trigger]
                done(y, x) <==> exists|p: int|
                    0 <= p < i && #[trigger] keys[p] == y && values[p].contains(x),
        decreases n - i,
    {
        let y = row.key_at(i);
        let set = row.value_at(i);
        let m = set.len();
        let ghost listing = set.listing();
        let ghost done_before = done;
        let mut j: usize = 0;
        while j < m
            invariant
                i < n,
                n == keys.len(),
                n == values.len(),
                y@ == keys[i as int],
                set@ == values[i as int],
                distinct(keys),
                j <= m,
                m == listing.len(),
                listing == set.listing(),
                forall|k: X::V|
                    #![trigger set@.contains(k)]
                    #![trigger listing.contains(k)]
                    set@.contains(k) <==> listing.contains(k),
                table@ == nested_purge_where(orig, done, z@),
                forall|yy: Y::V, x: X::V| #[trigger]
                    done(yy, x) <==> done_before(yy, x) || (yy == y@ && exists|q: int|
                        0 <= q < j && #[trigger] listing[q] == x),
            decreases m - j,
        {
            let x = set.get(j);
            let ghost prev = done;
            let ghost before = table@;
            table_remove(table, x, y, z);
            proof {
                let yv = y@;
                let xv = x@;
                done = |yy: Y::V, xx: X::V| prev(yy, xx) || (yy == yv && xx == xv);
                assert(table@ =~~= nested_purge_where(orig, done, z@));
                assert forall|yy: Y::V, xx: X::V| #[trigger]
                    done(yy, xx) <==> done_before(yy, xx) || (yy == y@ && exists|q: int|
                        0 <= q < j + 1 && #[trigger] listing[q] == xx) by {
                    if yy == yv && xx == xv {
                        assert(listing[j as int] == xx);
                    }
                    if prev(yy, xx) && !done_before(yy, xx) {
                        let q = choose|q: int| 0 <= q < j && #[trigger] listing[q] == xx;
                        assert(0 <= q < j + 1);
                    }
                }
            }
            j += 1;
        }
        proof {
            assert forall|yy: Y::V, x: X::V| #[trigger]
                done(yy, x) <==> exists|p: int|
                    0 <= p < i + 1 && #[trigger] keys[p] == yy && values[p].contains(x) by {
                if done(yy, x) {
                    if done_before(yy, x) {
                        let p = choose|p: int|
                            0 <= p < i && #[trigger] keys[p] == yy && values[p].contains(x);
                        assert(0 <= p < i + 1);
                    } else {
                        let q = choose|q: int| 0 <= q < m && #[trigger] listing[q] == x;
                        assert(listing.contains(x));
                        assert(keys[i as int] == yy && values[i as int].contains(x));
                    }
                }
                if exists|p: int|
                    0 <= p < i + 1 && #[trigger] keys[p] == yy && values[p].contains(x) {
                    let p = choose|p: int|
                        0 <= p < i + 1 && #[trigger] keys[p] == yy && values[p].contains(x);
                    if p == i {
                        assert(set@.contains(x));
                        assert(listing.contains(x));
                        let q = choose|q: int| 0 <= q < listing.len() && listing[q] == x;
                        assert(listing[q] == x);
                    }
                }
            }
        }
        i += 1;
    }
    proof {
        assert forall|y: Y::V, x: X::V| #[trigger]
            done(y, x) <==> row@.dom().contains(y) && row@[y].contains(x) by {
            if done(y, x) {
                let p = choose|p: int|
                    0 <= p < n && #[trigger] keys[p] == y && values[p].contains(x);
                assert(keys.contains(keys[p]));
            }
            if row@.dom().contains(y) && row@[y].contains(x) {
                let p = choose|p: int| 0 <= p < keys.len() && keys[p] == y;
                assert(keys[p] == y && values[p].contains(x));
            }
        }
        assert(nested_purge_where(orig, done, z@) =~~= nested_purge(orig, row@, z@));
    }
}

/// A set of triples (`a`, `b`, `c`), held from `a` over `b` to `c` and from
/// `c` over `b` to `a`.
pub struct BidThreeMap<A: Keyed, B: Keyed, C: Keyed> {
    left_to_right: Table<A, Table<B, Bag<C>>>,
    right_to_left: Table<C, Table<B, Bag<A>>>,
}

/// Adds `z` to the set under `x` and `y` of a nested table.
fn table_insert<X: Keyed, Y: Keyed, Z: Keyed>(
    table: &mut Table<X, Table<Y, Bag<Z>>>,
    x: X,
    y: Y,
    z: Z,
)
    ensures
        final(table)@ == nested_insert(old(table)@, x@, y@, z@),
{
    let ghost before = table@;
    let mut middle = match table.remove(&x) {
        Some(m) => m,
        None => Table::new(),
    };
    let mut inner = match middle.remove(&y) {
        Some(s) => s,
        None => Bag::new(),
    };
    let _ = inner.insert(z);
    let ghost row = middle@;
    middle.insert(y, inner);
    proof {
        assert(middle@ =~= nested_row(before, x@).insert(
            y@,
            nested_get(before, x@, y@).insert(z@),
        ));
    }
    table.insert(x, middle);
    proof {
        assert(table@ =~= nested_insert(before, x@, y@, z@));
    }
}

/// Takes `z` out of the set under `x` and `y` of a nested table.
fn table_remove<X: Keyed, Y: Keyed, Z: Keyed>(
    table: &mut Table<X, Table<Y, Bag<Z>>>,
    x: &X,
    y: &Y,
    z: &Z,
)
    ensures
        final(table)@ == nested_remove(old(table)@, x@, y@, z@),
{
    let ghost before = table@;
    match table.remove(x) {
        Some(mut middle) => {
            match middle.remove(y) {
                Some(mut inner) => {
                    let _ = inner.remove(z);
                    middle.insert(y.duplicate(), inner);
                    proof {
                        assert(middle@ =~= before[x@].insert(y@, before[x@][y@].remove(z@)));
                    }
                },
                None => {
                    proof {
                        assert(middle@ =~= before[x@]);
                    }
                },
            }
            table.insert(x.duplicate(), middle);
            proof {
                assert(table@ =~= nested_remove(before, x@, y@, z@));
            }
        },
        None => {
            proof {
                assert(table@ =~= before);
            }
        },
    }
}

/// The members of a set, each once.
fn bag_refs<T: Keyed>(bag: &Bag<T>) -> (r: Vec<&T>)
    ensures
        distinct(views_of(r@)),
        forall|k: T::V| views_of(r@).contains(k) <==> bag@.contains(k),
{
    let mut out: Vec<&T> = Vec::new();
    let n = bag.len();
    let ghost listing = bag.listing();
    let mut i: usize = 0;
    while i < n
        invariant
            i <= n,
            n == listing.len(),
            listing == bag.listing(),
            distinct(listing),
            forall|k: T::V|
                #![trigger bag@.contains(k)]
                #![trigger listing.contains(k)]
                bag@.contains(k) <==> listing.contains(k),
            out.len() == i,
            forall|j: int| 0 <= j < i ==> (#[trigger] out[j])@ == listing[j],
        decreases n - i,
    {
        out.push(bag.get(i));
        i += 1;
    }
    assert(views_of(out@) =~= listing);
    out
}

/// The entries of a row, each key once with the members of its set.
fn row_refs<Y: Keyed, Z: Keyed>(row: &Table<Y, Bag<Z>>) -> (r: Vec<(&Y, Vec<&Z>)>)
    ensures
        is_row_listing(r@, row@),
{
    let mut out: Vec<(&Y, Vec<&Z>)> = Vec::new();
    let n = row.len();
    let ghost keys = row.key_listing();
    let ghost values = row.value_listing();
    let mut i: usize = 0;
    while i < n
        invariant
            i <= n,
            n == keys.len(),
            n == values.len(),
            keys == row.key_listing(),
            values == row.value_listing(),
            distinct(keys),
            forall|k: Y::V|
                #![trigger row@.dom().contains(k)]
                #![trigger keys.contains(k)]
                row@.dom().contains(k) <==> keys.contains(k),
            forall|j: int| 0 <= j < keys.len() ==> row@[#[trigger] keys[j]] == values[j],
            out.len() == i,
            forall|j: int|
                0 <= j < i ==> (#[trigger] out[j]).0@ == keys[j] && distinct(views_of(out[j].1@))
                    && forall|k: Z::V| views_of(out[j].1@).contains(k) <==> values[j].contains(k),
        decreases n - i,
    {
        out.push((row.key_at(i), bag_refs(row.value_at(i))));
        i += 1;
    }
    proof {
        assert forall|y: Y::V| row@.dom().contains(y) implies exists|i: int|
            0 <= i < out.len() && (#[trigger] out[i]).0@ == y by {
            let i = choose|i: int| 0 <= i < keys.len() && keys[i] == y;
            assert(out[i].0@ == y);
        }
        assert forall|i: int| 0 <= i < out.len() implies row@.dom().contains(
            (#[trigger] out[i]).0@,
        ) && distinct(views_of(out[i].1@)) && (forall|k: Z::V|
            views_of(out[i].1@).contains(k) <==> row@[out[i].0@].contains(k)) by {
            assert(keys.contains(keys[i]));
            assert(row@[keys[i]] == values[i]);
        }
    }
    out
}

/// `list` names the triple (`x`, `y`, `z`).
pub open spec fn names_triple<X: View, Y: View, Z: View>(
    list: Seq<(&X, &Y, &Z)>,
    x: X::V,
    y: Y::V,
    z: Z::V,
) -> bool {
    exists|i: int|
        0 <= i < list.len() && (#[trigger] list[i]).0@ == x && list[i].1@ == y && list[i].2@ == z
}

/// All triples of a nested table.
fn table_entries<'a, X: Keyed, Y: Keyed, Z: Keyed>(
    table: &'a Table<X, Table<Y, Bag<Z>>>,
) -> (r: Vec<(&'a X, &'a Y, &'a Z)>)
    ensures
        forall|x: X::V, y: Y::V, z: Z::V| #[trigger]
            nested_get(table@, x, y).contains(z) ==> names_triple(r@, x, y, z),
        forall|i: int|
            0 <= i < r.len() ==> nested_get(table@, (#[trigger] r[i]).0@, r[i].1@).contains(
                r[i].2@,
            ),
{
    let mut out: Vec<(&'a X, &'a Y, &'a Z)> = Vec::new();
    let n = table.len();
    let ghost keys = table.key_listing();
    let ghost values = table.value_listing();
    let mut i: usize = 0;
    while i < n
        invariant
            i <= n,
            n == keys.len(),
            n == values.len(),
            keys == table.key_listing(),
            values == table.value_listing(),
            forall|k: X::V|
                #![trigger table@.dom().contains(k)]
                #![trigger keys.contains(k)]
                table@.dom().contains(k) <==> keys.contains(k),
            forall|p: int| 0 <= p < keys.len() ==> table@[#[trigger] keys[p]] == values[p],
            forall|p: int, y: Y::V, z: Z::V|
                0 <= p < i && values[p].dom().contains(y) && #[trigger] values[p][y].contains(z)
                    ==> names_triple(out@, keys[p], y, z),
            forall|q: int|
                0 <= q < out.len() ==> nested_get(table@, (#[trigger] out[q]).0@, out[q].1@).contains(
                    out[q].2@,
                ),
        decreases n - i,
    {
        let x = table.key_at(i);
        let row = row_refs(table.value_at(i));
        let ghost row_map = values[i as int];
        assert(keys.contains(keys[i as int]));
        let mut j: usize = 0;
        while j < row.len()
            invariant
                i < n,
                n == keys.len(),
                n == values.len(),
                x@ == keys[i as int],
                row_map == values[i as int],
                table@.dom().contains(x@),
                table@[x@] == row_map,
                is_row_listing(row@, row_map),
                j <= row.len(),
                forall|p: int, y: Y::V, z: Z::V|
                    0 <= p < i && values[p].dom().contains(y) && #[trigger] values[p][y].contains(
                        z,
                    ) ==> names_triple(out@, keys[p], y, z),
                forall|p: int, z: Z::V|
                    0 <= p < j && #[trigger] row_map[row[p].0@].contains(z) ==> names_triple(
                        out@,
                        x@,
                        row[p].0@,
                        z,
                    ),
                forall|q: int|
                    0 <= q < out.len() ==> nested_get(
                        table@,
                        (#[trigger] out[q]).0@,
                        out[q].1@,
                    ).contains(out[q].2@),
            decreases row.len() - j,
        {
            let y = row[j].0;
            let members = &row[j].1;
            let ghost member_views = views_of(members@);
            let mut k: usize = 0;
            while k < members.len()
                invariant
                    x@ == keys[i as int],
                    i < n,
                    n == keys.len(),
                    n == values.len(),
                    j < row.len(),
                    y@ == row[j as int].0@,
                    members@ == row[j as int].1@,
                    member_views == views_of(members@),
                    row_map.dom().contains(y@),
                    table@.dom().contains(x@),
                    table@[x@] == row_map,
                    forall|z: Z::V| member_views.contains(z) <==> row_map[y@].contains(z),
                    k <= members.len(),
                    forall|p: int, yy: Y::V, z: Z::V|
                        0 <= p < i && values[p].dom().contains(yy)
                            && #[trigger] values[p][yy].contains(z) ==> names_triple(
                            out@,
                            keys[p],
                            yy,
                            z,
                        ),
                    forall|p: int, z: Z::V|
                        0 <= p < j && #[trigger] row_map[row[p].0@].contains(z) ==> names_triple(
                            out@,
                            x@,
                            row[p].0@,
                            z,
                        ),
                    forall|p: int|
                        0 <= p < k ==> names_triple(out@, x@, y@, #[trigger] member_views[p]),
                    forall|q: int|
                        0 <= q < out.len() ==> nested_get(
                            table@,
                            (#[trigger] out[q]).0@,
                            out[q].1@,
                        ).contains(out[q].2@),
                decreases members.len() - k,
            {
                let z = members[k];
                let ghost before = out@;
                assert(member_views[k as int] == z@);
                assert(member_views.contains(z@));
                out.push((x, y, z));
                proof {
                    assert(out@[before.len() as int] == (x, y, z));
                    assert(names_triple(out@, x@, y@, z@));
                    assert forall|a: X::V, b: Y::V, c: Z::V|
                        names_triple(before, a, b, c) implies names_triple(out@, a, b, c) by {
                        let q = choose|q: int|
                            0 <= q < before.len() && (#[trigger] before[q]).0@ == a && before[q].1@
                                == b && before[q].2@ == c;
                        assert(out@[q] == before[q]);
                    }
                    assert forall|q: int| 0 <= q < out.len() implies nested_get(
                        table@,
                        (#[trigger] out[q]).0@,
                        out[q].1@,
                    ).contains(out[q].2@) by {
                        if q < before.len() {
                            assert(out@[q] == before[q]);
                        }
                    }
                }
                k += 1;
            }
            proof {
                assert forall|p: int, z: Z::V|
                    0 <= p < j + 1 && #[trigger] row_map[row[p].0@].contains(
                        z,
                    ) implies names_triple(out@, x@, row[p].0@, z) by {
                    if p == j {
                        assert(member_views.contains(z));
                        let q = choose|q: int| 0 <= q < member_views.len() && member_views[q] == z;
                        assert(names_triple(out@, x@, y@, member_views[q]));
                    }
                }
            }
            j += 1;
        }
        proof {
            assert forall|p: int, y: Y::V, z: Z::V|
                0 <= p < i + 1 && values[p].dom().contains(y) && #[trigger] values[p][y].contains(
                    z,
                ) implies names_triple(out@, keys[p], y, z) by {
                if p == i {
                    let q = choose|q: int| 0 <= q < row.len() && (#[trigger] row[q]).0@ == y;
                    assert(row_map[row[q].0@].contains(z));
                }
            }
        }
        i += 1;
    }
    proof {
        assert forall|x: X::V, y: Y::V, z: Z::V| #[trigger]
            nested_get(table@, x, y).contains(z) implies names_triple(out@, x, y, z) by {
            assert(keys.contains(x));
            let p = choose|p: int| 0 <= p < keys.len() && keys[p] == x;
            assert(table@[keys[p]] == values[p]);
            assert(values[p][y].contains(z));
        }
    }
    out
}

/// `list` names each key of `row` once, with the members of its set, each once.
pub open spec fn is_row_listing<Y: View, Z: View>(
    list: Seq<(&Y, Vec<&Z>)>,
    row: Map<Y::V, Set<Z::V>>,
) -> bool {
    &&& forall|i: int, j: int| 0 <= i < j < list.len() ==> list[i].0@ != list[j].0@
    &&& forall|i: int|
        0 <= i < list.len() ==> row.dom().contains((#[trigger] list[i]).0@) && distinct(
            views_of(list[i].1@),
        ) && (forall|k: Z::V| views_of(list[i].1@).contains(k) <==> row[list[i].0@].contains(k))
    &&& forall|y: Y::V|
        row.dom().contains(y) ==> exists|i: int| 0 <= i < list.len() && (#[trigger] list[i]).0@ == y
}

impl<A: Keyed, B: Keyed, C: Keyed> BidThreeMap<A, B, C> {
    /// The triples from `a` over `b` to the set of `c`.
    pub closed spec fn left(&self) -> Map<A::V, Map<B::V, Set<C::V>>> {
        self.left_to_right@
    }

    /// The triples from `c` over `b` to the set of `a`.
    pub closed spec fn right(&self) -> Map<C::V, Map<B::V, Set<A::V>>> {
        self.right_to_left@
    }

    /// An empty set of triples.
    pub fn new() -> (r: Self)
        ensures
            r.left() == Map::<A::V, Map<B::V, Set<C::V>>>::empty(),
            r.right() == Map::<C::V, Map<B::V, Set<A::V>>>::empty(),
    {
        BidThreeMap { left_to_right: Table::new(), right_to_left: Table::new() }
    }

    /// Adds the triple (`a`, `b`, `c`) in both directions.
    pub fn insert(&mut self, a: A, b: B, c: C)
        ensures
            final(self).left() == nested_insert(old(self).left(), a@, b@, c@),
            final(self).right() == nested_insert(old(self).right(), c@, b@, a@),
    {
        let a2 = a.duplicate();
        let b2 = b.duplicate();
        let c2 = c.duplicate();
        table_insert(&mut self.left_to_right, a, b, c);
        table_insert(&mut self.right_to_left, c2, b2, a2);
    }

    /// Takes the triple (`a`, `b`, `c`) out of both directions.
    pub fn remove(&mut self, a: &A, b: &B, c: &C)
        ensures
            final(self).left() == nested_remove(old(self).left(), a@, b@, c@),
            final(self).right() == nested_remove(old(self).right(), c@, b@, a@),
    {
        table_remove(&mut self.left_to_right, a, b, c);
        table_remove(&mut self.right_to_left, c, b, a);
    }

    /// Takes every triple with `a` out: its row from left to right, and `a`
    /// from each set that held it from right to left.
    pub fn remove_by_a(&mut self, a: &A)
        ensures
            final(self).left() == old(self).left().remove(a@),
            final(self).right() == nested_purge(
                old(self).right(),
                nested_row(old(self).left(), a@),
                a@,
            ),
    {
        let ghost before = self.right_to_left@;
        match self.left_to_right.remove(a) {
            Some(row) => {
                table_purge(&mut self.right_to_left, &row, a);
            },
            None => {
                assert(before =~~= nested_purge(before, Map::empty(), a@));
            },
        }
    }

    /// Takes every triple with `c` out: its row from right to left, and `c`
    /// from each set that held it from left to right.
    pub fn remove_by_c(&mut self, c: &C)
        ensures
            final(self).right() == old(self).right().remove(c@),
            final(self).left() == nested_purge(
                old(self).left(),
                nested_row(old(self).right(), c@),
                c@,
            ),
    {
        let ghost before = self.left_to_right@;
        match self.right_to_left.remove(c) {
            Some(row) => {
                table_purge(&mut self.left_to_right, &row, c);
            },
            None => {
                assert(before =~~= nested_purge(before, Map::empty(), c@));
            },
        }
    }

    /// All triples that are held from left to right, as (`a`, `b`, `c`).
    pub fn left_entries(&self) -> (r: Vec<(&A, &B, &C)>)
        ensures
            forall|a: A::V, b: B::V, c: C::V| #[trigger]
                nested_get(self.left(), a, b).contains(c) ==> names_triple(r@, a, b, c),
            forall|i: int|
                0 <= i < r.len() ==> nested_get(self.left(), (#[trigger] r[i]).0@, r[i].1@).contains(
                    r[i].2@,
                ),
    {
        table_entries(&self.left_to_right)
    }

    /// All triples that are held from right to left, as (`c`, `b`, `a`).
    pub fn right_entries(&self) -> (r: Vec<(&C, &B, &A)>)
        ensures
            forall|c: C::V, b: B::V, a: A::V| #[trigger]
                nested_get(self.right(), c, b).contains(a) ==> names_triple(r@, c, b, a),
            forall|i: int|
                0 <= i < r.len() ==> nested_get(
                    self.right(),
                    (#[trigger] r[i]).0@,
                    r[i].1@,
                ).contains(r[i].2@),
    {
        table_entries(&self.right_to_left)
    }

    /// Whether the triple (`a`, `b`, `c`) is held from left to right.
    pub fn has(&self, a: &A, b: &B, c: &C) -> (r: bool)
        ensures
            r == nested_get(self.left(), a@, b@).contains(c@),
    {
        match self.left_to_right.get(a) {
            Some(middle) => match middle.get(b) {
                Some(inner) => inner.contains(c),
                None => false,
            },
            None => false,
        }
    }

    /// The `c` of the triples with `a` and `b`, each once.
    pub fn get_by_ab(&self, a: &A, b: &B) -> (r: Vec<&C>)
        ensures
            distinct(views_of(r@)),
            forall|k: C::V|
                views_of(r@).contains(k) <==> nested_get(self.left(), a@, b@).contains(k),
    {
        match self.left_to_right.get(a) {
            Some(middle) => match middle.get(b) {
                Some(inner) => bag_refs(inner),
                None => Vec::new(),
            },
            None => Vec::new(),
        }
    }

    /// The `a` of the triples with `c` and `b`, each once.
    pub fn get_by_cb(&self, c: &C, b: &B) -> (r: Vec<&A>)
        ensures
            distinct(views_of(r@)),
            forall|k: A::V|
                views_of(r@).contains(k) <==> nested_get(self.right(), c@, b@).contains(k),
    {
        match self.right_to_left.get(c) {
            Some(middle) => match middle.get(b) {
                Some(inner) => bag_refs(inner),
                None => Vec::new(),
            },
            None => Vec::new(),
        }
    }

    /// The `b` of the triples with `a`, each once, with the `c` that stand under it.
    pub fn get_by_a(&self, a: &A) -> (r: Vec<(&B, Vec<&C>)>)
        ensures
            is_row_listing(r@, nested_row(self.left(), a@)),
    {
        match self.left_to_right.get(a) {
            Some(middle) => row_refs(middle),
            None => Vec::new(),
        }
    }

    /// The `b` of the triples with `c`, each once, with the `a` that stand under it.
    pub fn get_by_c(&self, c: &C) -> (r: Vec<(&B, Vec<&A>)>)
        ensures
            is_row_listing(r@, nested_row(self.right(), c@)),
    {
        match self.right_to_left.get(c) {
            Some(middle) => row_refs(middle),
            None => Vec::new(),
        }
    }
}

impl<A: Keyed, B: Keyed, C: Keyed> Default for BidThreeMap<A, B, C> {
    fn default() -> (r: Self)
        ensures
            r.left() == Map::<A::V, Map<B::V, Set<C::V>>>::empty(),
            r.right() == Map::<C::V, Map<B::V, Set<A::V>>>::empty(),
    {
        BidThreeMap::new()
    }
}

} // verus!
