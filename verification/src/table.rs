//! Small collections of keyed values: a set and a map, each held as a list
//! in which no key occurs twice.

use vstd::prelude::*;

verus! {

/// A value that can be compared with another by its view, and copied.
pub trait Keyed: View + Sized {
    /// Whether two values have the same view.
    fn same(&self, other: &Self) -> (r: bool)
        ensures
            r == (self@ == other@),
    ;

    /// A copy with the same view.
    fn duplicate(&self) -> (r: Self)
        ensures
            r@ == self@,
    ;
}

/// The views of the values in a list.
pub open spec fn views_of<T: View>(items: Seq<T>) -> Seq<T::V> {
    Seq::new(items.len(), |i: int| items[i]@)
}

/// No view occurs twice in the list.
pub open spec fn distinct<V>(views: Seq<V>) -> bool {
    forall|i: int, j: int| 0 <= i < j < views.len() ==> views[i] != views[j]
}

/// A list without repetitions stays one when a new value is added at its end.
pub proof fn lemma_distinct_push<V>(views: Seq<V>, v: V)
    requires
        distinct(views),
        !views.contains(v),
    ensures
        distinct(views.push(v)),
{
    let after = views.push(v);
    assert forall|i: int, j: int| 0 <= i < j < after.len() implies after[i] != after[j] by {
        if j == views.len() {
            assert(views[i] == after[i]);
            assert(views.contains(views[i]));
        } else {
            assert(views[i] != views[j]);
        }
    }
}

/// A list without repetitions stays one when a value is taken out.
pub proof fn lemma_distinct_remove<V>(views: Seq<V>, p: int)
    requires
        distinct(views),
        0 <= p < views.len(),
    ensures
        distinct(views.remove(p)),
        !views.remove(p).contains(views[p]),
{
    let after = views.remove(p);
    assert forall|i: int, j: int| 0 <= i < j < after.len() implies after[i] != after[j] by {
        let oi = if i < p { i } else { i + 1 };
        let oj = if j < p { j } else { j + 1 };
        assert(views[oi] != views[oj]);
    }
    if after.contains(views[p]) {
        let i = choose|i: int| 0 <= i < after.len() && after[i] == views[p];
        let oi = if i < p { i } else { i + 1 };
        if oi < p {
            assert(views[oi] != views[p]);
        } else {
            assert(views[p] != views[oi]);
        }
    }
}

/// A set of keyed values.
pub struct Bag<T: Keyed> {
    items: Vec<T>,
}

impl<T: Keyed> View for Bag<T> {
    type V = Set<T::V>;

    /// The views of the members.
    closed spec fn view(&self) -> Set<T::V> {
        Set::new(|k: T::V| views_of(self.items@).contains(k))
    }
}

impl<T: Keyed> Bag<T> {
    /// No member occurs twice.
    #[verifier::type_invariant]
    spec fn inv(&self) -> bool {
        distinct(views_of(self.items@))
    }

    /// The views of the members, in the order in which the set holds them.
    pub closed spec fn listing(&self) -> Seq<T::V> {
        views_of(self.items@)
    }

    /// The empty set.
    pub fn new() -> (r: Self)
        ensures
            r@ == Set::<T::V>::empty(),
    {
        let r = Bag { items: Vec::new() };
        assert(r@ =~= Set::<T::V>::empty());
        r
    }

    /// The number of members. The listing names each member once.
    pub fn len(&self) -> (n: usize)
        ensures
            n == self.listing().len(),
            self@.finite(),
            self@.len() == n,
            distinct(self.listing()),
            forall|k: T::V|
                #![trigger self@.contains(k)]
                #![trigger self.listing().contains(k)]
                self@.contains(k) <==> self.listing().contains(k),
    {
        proof {
            use_type_invariant(self);
            let listing = views_of(self.items@);
            assert(self@ =~= listing.to_set());
            assert(listing.no_duplicates()) by {
                assert forall|i: int, j: int|
                    0 <= i < listing.len() && 0 <= j < listing.len() && i != j implies listing[i]
                    != listing[j] by {
                    if i < j {
                        assert(listing[i] != listing[j]);
                    } else {
                        assert(listing[j] != listing[i]);
                    }
                }
            }
            listing.unique_seq_to_set();
        }
        self.items.len()
    }

    /// The member at position `i` of the listing.
    pub fn get(&self, i: usize) -> (r: &T)
        requires
            i < self.listing().len(),
        ensures
            r@ == self.listing()[i as int],
    {
        &self.items[i]
    }

    /// The position of the member with the view of `value`, if there is one.
    fn position(&self, value: &T) -> (r: Option<usize>)
        ensures
            r is Some ==> r->0 < self.items.len() && self.items[r->0 as int]@ == value@,
            r is None ==> !self@.contains(value@),
            r is Some ==> self@.contains(value@),
    {
        let mut i: usize = 0;
        while i < self.items.len()
            invariant
                i <= self.items.len(),
                forall|j: int| 0 <= j < i ==> self.items[j]@ != value@,
            decreases self.items.len() - i,
        {
            if self.items[i].same(value) {
                assert(views_of(self.items@)[i as int] == value@);
                return Some(i);
            }
            i += 1;
        }
        assert forall|j: int| 0 <= j < views_of(self.items@).len() implies views_of(
            self.items@,
        )[j] != value@ by {
            assert(self.items[j]@ != value@);
        }
        None
    }

    /// Whether `value` is a member.
    pub fn contains(&self, value: &T) -> (r: bool)
        ensures
            r == self@.contains(value@),
    {
        self.position(value).is_some()
    }

    /// Adds `value`. Returns whether it was no member before.
    pub fn insert(&mut self, value: T) -> (r: bool)
        ensures
            final(self)@ == old(self)@.insert(value@),
            r == !old(self)@.contains(value@),
    {
        proof {
            use_type_invariant(&*self);
        }
        if self.position(&value).is_some() {
            assert(self@ =~= old(self)@.insert(value@));
            return false;
        }
        let ghost before = views_of(self.items@);
        let mut items: Vec<T> = Vec::new();
        std::mem::swap(&mut items, &mut self.items);
        items.push(value);
        proof {
            assert(views_of(items@) =~= before.push(value@));
            lemma_distinct_push(before, value@);
        }
        self.items = items;
        proof {
            let after = views_of(self.items@);
            assert(after =~= before.push(value@));
            assert forall|i: int, j: int| 0 <= i < j < after.len() implies after[i] != after[j] by {
                if j == before.len() {
                    assert(before[i] == after[i]);
                    assert(before.contains(before[i]));
                } else {
                    assert(before[i] != before[j]);
                }
            }
            assert forall|k: T::V| self@.contains(k) <==> old(self)@.insert(value@).contains(k) by {
                if after.contains(k) {
                    let i = choose|i: int| 0 <= i < after.len() && after[i] == k;
                    if i < before.len() {
                        assert(before[i] == k);
                    }
                }
                if before.contains(k) {
                    let i = choose|i: int| 0 <= i < before.len() && before[i] == k;
                    assert(after[i] == k);
                }
                if k == value@ {
                    assert(after[before.len() as int] == k);
                }
            }
            assert(self@ =~= old(self)@.insert(value@));
        }
        true
    }

    /// Takes `value` out. Returns whether it was a member.
    pub fn remove(&mut self, value: &T) -> (r: bool)
        ensures
            final(self)@ == old(self)@.remove(value@),
            r == old(self)@.contains(value@),
    {
        proof {
            use_type_invariant(&*self);
        }
        let found = self.position(value);
        if found.is_none() {
            assert(self@ =~= old(self)@.remove(value@));
            return false;
        }
        let p = found.unwrap();
        let ghost before = views_of(self.items@);
        let mut items: Vec<T> = Vec::new();
        std::mem::swap(&mut items, &mut self.items);
        let _ = items.remove(p);
        proof {
            assert(views_of(items@) =~= before.remove(p as int));
            lemma_distinct_remove(before, p as int);
        }
        self.items = items;
        proof {
            let after = views_of(self.items@);
            assert(after =~= before.remove(p as int));
            assert forall|i: int, j: int| 0 <= i < j < after.len() implies after[i] != after[j] by {
                let oi = if i < p { i } else { i + 1 };
                let oj = if j < p { j } else { j + 1 };
                assert(before[oi] != before[oj]);
            }
            assert forall|k: T::V| self@.contains(k) <==> old(self)@.remove(value@).contains(k) by {
                if after.contains(k) {
                    let i = choose|i: int| 0 <= i < after.len() && after[i] == k;
                    let oi = if i < p { i } else { i + 1 };
                    assert(before[oi] == k);
                    if oi < p {
                        assert(before[oi] != before[p as int]);
                    } else {
                        assert(before[p as int] != before[oi]);
                    }
                }
                if before.contains(k) && k != value@ {
                    let i = choose|i: int| 0 <= i < before.len() && before[i] == k;
                    if i < p {
                        assert(after[i] == k);
                    } else {
                        assert(after[i - 1] == k);
                    }
                }
            }
            assert(self@ =~= old(self)@.remove(value@));
        }
        true
    }
}

/// A map from keyed values to values.
pub struct Table<K: Keyed, V: View> {
    items: Vec<(K, V)>,
}

/// The keys of the entries of a list.
pub open spec fn keys_in<K: View, V>(items: Seq<(K, V)>) -> Seq<K::V> {
    Seq::new(items.len(), |i: int| items[i].0@)
}

impl<K: Keyed, V: View> View for Table<K, V> {
    type V = Map<K::V, V::V>;

    /// The view of the value that stands under each key.
    closed spec fn view(&self) -> Map<K::V, V::V> {
        Map::new(
            |k: K::V| keys_in(self.items@).contains(k),
            |k: K::V| self.items@[keys_in(self.items@).index_of(k)].1@,
        )
    }
}

impl<K: Keyed, V: View> Table<K, V> {
    /// No key occurs twice.
    #[verifier::type_invariant]
    spec fn inv(&self) -> bool {
        distinct(keys_in(self.items@))
    }

    /// The keys, in the order in which the map holds them.
    pub closed spec fn key_listing(&self) -> Seq<K::V> {
        keys_in(self.items@)
    }

    /// The views of the values, in the order of the keys.
    pub closed spec fn value_listing(&self) -> Seq<V::V> {
        Seq::new(self.items@.len(), |i: int| self.items@[i].1@)
    }

    /// The entry at position `i` stands in the map.
    proof fn lemma_entry(&self, i: int)
        requires
            self.inv(),
            0 <= i < self.items@.len(),
        ensures
            self@.dom().contains(self.items@[i].0@),
            self@[self.items@[i].0@] == self.items@[i].1@,
    {
        let keys = keys_in(self.items@);
        let k = keys[i];
        assert(keys.contains(k));
        let j = keys.index_of(k);
        assert(0 <= j < keys.len() && keys[j] == k);
        if i < j {
            assert(keys[i] != keys[j]);
        } else if j < i {
            assert(keys[j] != keys[i]);
        }
    }

    /// The empty map.
    pub fn new() -> (r: Self)
        ensures
            r@ == Map::<K::V, V::V>::empty(),
    {
        let r = Table { items: Vec::new() };
        assert(r@ =~= Map::<K::V, V::V>::empty());
        r
    }

    /// The number of entries. The listings name each entry of the map once.
    pub fn len(&self) -> (n: usize)
        ensures
            n == self.key_listing().len(),
            n == self.value_listing().len(),
            distinct(self.key_listing()),
            forall|k: K::V|
                #![trigger self@.dom().contains(k)]
                #![trigger self.key_listing().contains(k)]
                self@.dom().contains(k) <==> self.key_listing().contains(k),
            forall|i: int|
                0 <= i < self.key_listing().len() ==> self@[#[trigger] self.key_listing()[i]]
                    == self.value_listing()[i],
    {
        proof {
            use_type_invariant(self);
            assert forall|i: int| 0 <= i < self.key_listing().len() implies self@[
            #[trigger] self.key_listing()[i]] == self.value_listing()[i] by {
                self.lemma_entry(i);
            }
        }
        self.items.len()
    }

    /// The key at position `i` of the listing.
    pub fn key_at(&self, i: usize) -> (r: &K)
        requires
            i < self.key_listing().len(),
        ensures
            r@ == self.key_listing()[i as int],
    {
        &self.items[i].0
    }

    /// The value at position `i` of the listing.
    pub fn value_at(&self, i: usize) -> (r: &V)
        requires
            i < self.value_listing().len(),
        ensures
            r@ == self.value_listing()[i as int],
    {
        &self.items[i].1
    }

    /// The position of the entry of `key`, if there is one.
    fn position(&self, key: &K) -> (r: Option<usize>)
        ensures
            r is Some ==> r->0 < self.items.len() && self.items[r->0 as int].0@ == key@,
            r is Some <==> self@.dom().contains(key@),
    {
        let mut i: usize = 0;
        while i < self.items.len()
            invariant
                i <= self.items.len(),
                forall|j: int| 0 <= j < i ==> self.items[j].0@ != key@,
            decreases self.items.len() - i,
        {
            if self.items[i].0.same(key) {
                assert(keys_in(self.items@)[i as int] == key@);
                return Some(i);
            }
            i += 1;
        }
        assert forall|j: int| 0 <= j < keys_in(self.items@).len() implies keys_in(
            self.items@,
        )[j] != key@ by {
            assert(self.items[j].0@ != key@);
        }
        None
    }

    /// Whether `key` has an entry.
    pub fn contains_key(&self, key: &K) -> (r: bool)
        ensures
            r == self@.dom().contains(key@),
    {
        self.position(key).is_some()
    }

    /// The value under `key`, if there is one.
    pub fn get(&self, key: &K) -> (r: Option<&V>)
        ensures
            r is Some <==> self@.dom().contains(key@),
            r is Some ==> r->0@ == self@[key@],
    {
        proof {
            use_type_invariant(self);
        }
        match self.position(key) {
            Some(p) => {
                proof {
                    self.lemma_entry(p as int);
                }
                Some(&self.items[p].1)
            },
            None => None,
        }
    }

    /// Takes the entry of `key` out and returns its value, if there was one.
    pub fn remove(&mut self, key: &K) -> (r: Option<V>)
        ensures
            final(self)@ == old(self)@.remove(key@),
            r is Some <==> old(self)@.dom().contains(key@),
            r is Some ==> r->0@ == old(self)@[key@],
    {
        proof {
            use_type_invariant(&*self);
        }
        let found = self.position(key);
        if found.is_none() {
            assert(self@ =~= old(self)@.remove(key@));
            return None;
        }
        let p = found.unwrap();
        let ghost before = self.items@;
        let ghost keys = keys_in(before);
        proof {
            self.lemma_entry(p as int);
        }
        let mut items: Vec<(K, V)> = Vec::new();
        std::mem::swap(&mut items, &mut self.items);
        let entry = items.remove(p);
        proof {
            assert(keys_in(items@) =~= keys.remove(p as int));
            lemma_distinct_remove(keys, p as int);
        }
        self.items = items;
        proof {
            let after = self.items@;
            let keys2 = keys_in(after);
            assert(after =~= before.remove(p as int));
            assert forall|i: int, j: int| 0 <= i < j < keys2.len() implies keys2[i] != keys2[j] by {
                let oi = if i < p { i } else { i + 1 };
                let oj = if j < p { j } else { j + 1 };
                assert(keys[oi] != keys[oj]);
            }
            assert forall|k: K::V| #[trigger]
                self@.dom().contains(k) <==> old(self)@.remove(key@).dom().contains(k) by {
                if keys2.contains(k) {
                    let i = choose|i: int| 0 <= i < keys2.len() && keys2[i] == k;
                    let oi = if i < p { i } else { i + 1 };
                    assert(keys[oi] == k);
                    if oi < p {
                        assert(keys[oi] != keys[p as int]);
                    } else {
                        assert(keys[p as int] != keys[oi]);
                    }
                }
                if keys.contains(k) && k != key@ {
                    let i = choose|i: int| 0 <= i < keys.len() && keys[i] == k;
                    if i < p {
                        assert(keys2[i] == k);
                    } else {
                        assert(keys2[i - 1] == k);
                    }
                }
            }
            assert forall|k: K::V| self@.dom().contains(k) implies #[trigger] self@[k] == old(
                self,
            )@.remove(key@)[k] by {
                let i = choose|i: int| 0 <= i < keys2.len() && keys2[i] == k;
                let oi = if i < p { i } else { i + 1 };
                self.lemma_entry(i);
                old(self).lemma_entry(oi);
            }
            assert(self@ =~= old(self)@.remove(key@));
        }
        Some(entry.1)
    }

    /// Puts `value` under `key`, in place of what stood there.
    pub fn insert(&mut self, key: K, value: V)
        ensures
            final(self)@ == old(self)@.insert(key@, value@),
    {
        let _ = self.remove(&key);
        proof {
            use_type_invariant(&*self);
        }
        let ghost mid = *self;
        let ghost before = self.items@;
        let ghost keys = keys_in(before);
        let mut items: Vec<(K, V)> = Vec::new();
        std::mem::swap(&mut items, &mut self.items);
        items.push((key, value));
        proof {
            assert(keys_in(items@) =~= keys.push(key@));
            assert(!mid@.dom().contains(key@));
            assert(!keys.contains(key@));
            lemma_distinct_push(keys, key@);
        }
        self.items = items;
        proof {
            let after = self.items@;
            let keys2 = keys_in(after);
            assert(keys2 =~= keys.push(key@));
            assert forall|i: int, j: int| 0 <= i < j < keys2.len() implies keys2[i] != keys2[j] by {
                if j == keys.len() {
                    assert(keys[i] == keys2[i]);
                    assert(keys.contains(keys[i]));
                } else {
                    assert(keys[i] != keys[j]);
                }
            }
            assert forall|k: K::V| #[trigger]
                self@.dom().contains(k) <==> mid@.insert(key@, value@).dom().contains(k) by {
                if keys2.contains(k) {
                    let i = choose|i: int| 0 <= i < keys2.len() && keys2[i] == k;
                    if i < keys.len() {
                        assert(keys[i] == k);
                    }
                }
                if keys.contains(k) {
                    let i = choose|i: int| 0 <= i < keys.len() && keys[i] == k;
                    assert(keys2[i] == k);
                }
                if k == key@ {
                    assert(keys2[keys.len() as int] == k);
                }
            }
            assert forall|k: K::V| self@.dom().contains(k) implies #[trigger] self@[k] == mid@.insert(
                key@,
                value@,
            )[k] by {
                let i = choose|i: int| 0 <= i < keys2.len() && keys2[i] == k;
                self.lemma_entry(i);
                if i < keys.len() {
                    mid.lemma_entry(i);
                }
            }
            assert(self@ =~= mid@.insert(key@, value@));
            assert(mid@.insert(key@, value@) =~= old(self)@.insert(key@, value@));
        }
    }
}

} // verus!
