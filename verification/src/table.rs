//! Collections keyed by text: a map that remembers the order in which its keys first came,
//! and a set of names that does the same.
use vstd::prelude::*;
use vstd::hash_map::StringHashMap;
use vstd::hash_set::StringHashSet;
use crate::text::views;

verus! {

broadcast use vstd::hash_map::group_hash_map_axioms;

/// A map from text keys to values that can be walked in the order in which each key was
/// first inserted.
pub struct OrderedMap<V> {
    keys: Vec<String>,
    vals: Vec<V>,
    index: StringHashMap<usize>,
}

impl<V> View for OrderedMap<V> {
    type V = Map<Seq<char>, V>;

    closed spec fn view(&self) -> Map<Seq<char>, V> {
        Map::new(|k: Seq<char>| self.index@.contains_key(k), |k: Seq<char>| self.vals@[self.index@[k] as int])
    }
}

impl<V> OrderedMap<V> {
    /// The map's invariant: each key sits at the position that the index gives it.
    pub closed spec fn wf(&self) -> bool {
        &&& self.keys.len() == self.vals.len()
        &&& forall|i: int|
            0 <= i < self.keys.len() ==> #[trigger] self.index@.contains_key(self.keys@[i]@)
                && self.index@[self.keys@[i]@] == i
        &&& forall|k: Seq<char>|
            #[trigger] self.index@.contains_key(k) ==> self.index@[k] < self.keys.len()
                && self.keys@[self.index@[k] as int]@ == k
    }

    /// The keys, in the order in which they were first inserted.
    pub closed spec fn key_order(&self) -> Seq<Seq<char>> {
        views(self.keys@)
    }

    /// The keys come once each, and they are exactly the keys of the map.
    pub proof fn lemma_keys(&self)
        requires
            self.wf(),
        ensures
            self.key_order().no_duplicates(),
            forall|k: Seq<char>| self@.contains_key(k) <==> self.key_order().contains(k),
            forall|i: int|
                0 <= i < self.key_order().len() ==> #[trigger] self@.contains_key(
                    self.key_order()[i],
                ),
    {
        assert forall|i: int, j: int|
            0 <= i < self.key_order().len() && 0 <= j < self.key_order().len() && i != j
            implies self.key_order()[i] != self.key_order()[j] by {
            assert(self.index@.contains_key(self.keys@[i]@));
            assert(self.index@.contains_key(self.keys@[j]@));
        }
        assert forall|k: Seq<char>| self@.contains_key(k) <==> self.key_order().contains(k) by {
            if self@.contains_key(k) {
                let i = self.index@[k] as int;
                assert(self.key_order()[i] == k);
            }
            if self.key_order().contains(k) {
                let i = choose|i: int| 0 <= i < self.key_order().len() && self.key_order()[i] == k;
                assert(self.index@.contains_key(self.keys@[i]@));
            }
        }
        assert forall|i: int| 0 <= i < self.key_order().len() implies #[trigger] self@.contains_key(
            self.key_order()[i],
        ) by {
            assert(self.index@.contains_key(self.keys@[i]@));
        }
    }

    /// An empty map.
    pub fn new() -> (m: Self)
        ensures
            m.wf(),
            m@ == Map::<Seq<char>, V>::empty(),
            m.key_order() == Seq::<Seq<char>>::empty(),
    {
        let m = OrderedMap { keys: Vec::new(), vals: Vec::new(), index: StringHashMap::new() };
        assert(m@ =~= Map::<Seq<char>, V>::empty());
        assert(m.key_order() =~= Seq::<Seq<char>>::empty());
        m
    }

    /// The number of keys.
    pub fn len(&self) -> (n: usize)
        requires
            self.wf(),
        ensures
            n == self.key_order().len(),
    {
        self.keys.len()
    }

    /// Where `k` stands in the key order, if it is a key.
    pub fn position(&self, k: &str) -> (r: Option<usize>)
        requires
            self.wf(),
        ensures
            match r {
                Some(i) => i < self.key_order().len() && self.key_order()[i as int] == k@
                    && self@.contains_key(k@),
                None => !self@.contains_key(k@),
            },
    {
        match self.index.get(k) {
            Some(i) => Some(*i),
            None => None,
        }
    }

    /// The value of `k`, if it is a key.
    pub fn get(&self, k: &str) -> (r: Option<&V>)
        requires
            self.wf(),
        ensures
            match r {
                Some(v) => self@.contains_key(k@) && *v == self@[k@],
                None => !self@.contains_key(k@),
            },
    {
        match self.index.get(k) {
            Some(i) => Some(&self.vals[*i]),
            None => None,
        }
    }

    /// The key at position `i` of the key order.
    pub fn key_at(&self, i: usize) -> (k: &String)
        requires
            self.wf(),
            i < self.key_order().len(),
        ensures
            k@ == self.key_order()[i as int],
    {
        &self.keys[i]
    }

    /// The value of the key at position `i` of the key order.
    pub fn value_at(&self, i: usize) -> (v: &V)
        requires
            self.wf(),
            i < self.key_order().len(),
        ensures
            *v == self@[self.key_order()[i as int]],
    {
        assert(self.index@.contains_key(self.keys@[i as int]@));
        &self.vals[i]
    }

    /// Maps `k` to `v`; a new key goes to the end of the key order.
    pub fn insert(&mut self, k: String, v: V)
        requires
            old(self).wf(),
        ensures
            final(self).wf(),
            final(self)@ == old(self)@.insert(k@, v),
            final(self).key_order() == (if old(self)@.contains_key(k@) {
                old(self).key_order()
            } else {
                old(self).key_order().push(k@)
            }),
    {
        match self.index.get(k.as_str()) {
            Some(i) => {
                let i = *i;
                self.vals.set(i, v);
                assert(self@ =~= old(self)@.insert(k@, v));
            },
            None => {
                let n = self.keys.len();
                let k2 = k.clone();
                self.keys.push(k);
                self.vals.push(v);
                self.index.insert(k2, n);
                assert forall|i: int| 0 <= i < self.keys.len() implies #[trigger] self.index@.contains_key(
                    self.keys@[i]@,
                ) && self.index@[self.keys@[i]@] == i by {
                    if i < n {
                        assert(old(self).index@.contains_key(old(self).keys@[i]@));
                    }
                }
                assert(self@ =~= old(self)@.insert(k@, v));
                assert(self.key_order() =~= old(self).key_order().push(k@));
            },
        }
    }

    /// Puts `v` in place of the value at position `i`, and hands back the value that was there.
    pub fn swap_value_at(&mut self, i: usize, v: &mut V)
        requires
            old(self).wf(),
            i < old(self).key_order().len(),
        ensures
            final(self).wf(),
            final(self).key_order() == old(self).key_order(),
            final(self)@ == old(self)@.insert(old(self).key_order()[i as int], *old(v)),
            *final(v) == old(self)@[old(self).key_order()[i as int]],
    {
        assert(self.index@.contains_key(self.keys@[i as int]@));
        self.vals.set_and_swap(i, v);
        assert(self@ =~= old(self)@.insert(old(self).key_order()[i as int], *old(v)));
    }
}

/// A set of names that can be walked in the order in which each name was first added.
pub struct OidSet {
    list: Vec<String>,
    members: StringHashSet,
}

impl View for OidSet {
    type V = Set<Seq<char>>;

    closed spec fn view(&self) -> Set<Seq<char>> {
        self.members@
    }
}

impl OidSet {
    /// The set's invariant: the list holds each member once.
    pub closed spec fn wf(&self) -> bool {
        &&& views(self.list@).no_duplicates()
        &&& self.members@ == views(self.list@).to_set()
    }

    /// The members, in the order in which they were first added.
    pub closed spec fn order(&self) -> Seq<Seq<char>> {
        views(self.list@)
    }

    /// The members come once each in the order, and they are exactly the set.
    pub proof fn lemma_order(&self)
        requires
            self.wf(),
        ensures
            self.order().no_duplicates(),
            self@ == self.order().to_set(),
    {
    }

    /// An empty set.
    pub fn new() -> (s: Self)
        ensures
            s.wf(),
            s@ == Set::<Seq<char>>::empty(),
            s.order() == Seq::<Seq<char>>::empty(),
    {
        let s = OidSet { list: Vec::new(), members: StringHashSet::new() };
        assert(views(s.list@) =~= Seq::<Seq<char>>::empty());
        assert(views(s.list@).to_set() =~= Set::<Seq<char>>::empty());
        s
    }

    /// The number of members.
    pub fn len(&self) -> (n: usize)
        requires
            self.wf(),
        ensures
            n == self.order().len(),
    {
        self.list.len()
    }

    /// The member at position `i` of the order.
    pub fn at(&self, i: usize) -> (o: &String)
        requires
            self.wf(),
            i < self.order().len(),
        ensures
            o@ == self.order()[i as int],
    {
        &self.list[i]
    }

    /// Adds `oid`; a new member goes to the end of the order.
    pub fn insert(&mut self, oid: String)
        requires
            old(self).wf(),
        ensures
            final(self).wf(),
            final(self)@ == old(self)@.insert(oid@),
            final(self).order() == (if old(self)@.contains(oid@) {
                old(self).order()
            } else {
                old(self).order().push(oid@)
            }),
    {
        if !self.members.contains(oid.as_str()) {
            let o2 = oid.clone();
            self.list.push(oid);
            self.members.insert(o2);
            assert(views(self.list@) =~= views(old(self).list@).push(oid@));
            proof {
                views(old(self).list@).lemma_push_to_set_commute(oid@);
            }
            assert(!views(old(self).list@).contains(oid@));
        } else {
            assert(old(self)@.insert(oid@) =~= old(self)@);
        }
    }
}

} // verus!
