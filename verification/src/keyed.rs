//! Entries under string keys, kept in dictionary order of the keys.
//!
//! Attributes, classes and listeners of an element are all such collections.
//! Each key occurs once, and since the order is that of the keys, two
//! collections with the same entries are the same value however they were
//! built.

use crate::patch::{views, Patch};
use crate::text::{
    compare, lemma_precedes_asymmetric, lemma_precedes_irreflexive, lemma_precedes_transitive,
    lemma_rank, precedes, Rank,
};
use vstd::prelude::*;

verus! {

/// What can be kept under a key: it can be compared and copied.
pub trait Content: View + Sized {
    /// Whether two values stand for the same thing.
    fn same(&self, other: &Self) -> (b: bool)
        ensures
            b == (self@ == other@),
    ;

    /// A copy of the value.
    fn duplicate(&self) -> (copy: Self)
        ensures
            copy@ == self@,
    ;
}

impl Content for String {
    fn same(&self, other: &Self) -> (b: bool) {
        *self == *other
    }

    fn duplicate(&self) -> (copy: Self) {
        self.clone()
    }
}

impl Content for u64 {
    fn same(&self, other: &Self) -> (b: bool) {
        *self == *other
    }

    fn duplicate(&self) -> (copy: Self) {
        *self
    }
}

impl Content for () {
    fn same(&self, other: &Self) -> (b: bool) {
        true
    }

    fn duplicate(&self) -> (copy: Self) {
        ()
    }
}

/// Each key comes strictly before the next.
pub open spec fn ascending(keys: Seq<Seq<char>>) -> bool {
    forall|i: int, j: int| 0 <= i < j < keys.len() ==> precedes(#[trigger] keys[i], #[trigger] keys[j])
}

/// In an ascending sequence the order of two keys is that of their places.
pub proof fn lemma_ascending_places(keys: Seq<Seq<char>>, i: int, j: int)
    requires
        ascending(keys),
        0 <= i < keys.len(),
        0 <= j < keys.len(),
    ensures
        precedes(keys[i], keys[j]) <==> i < j,
        keys[i] == keys[j] <==> i == j,
{
    lemma_precedes_irreflexive(keys[i]);
    lemma_precedes_asymmetric(keys[i], keys[j]);
}

/// Whether `patch` is called for on the way from `old` to `new`: an `Add` for
/// a key that only `new` has, a `Replace` for a key of both whose value
/// differs, a `Remove` for a key that only `old` has; the value a patch
/// carries is the one in `new`.
pub open spec fn due<V>(
    old: Map<Seq<char>, V>,
    new: Map<Seq<char>, V>,
    patch: Patch<Seq<char>, V>,
) -> bool {
    match patch {
        Patch::Add(k, v) => !old.contains_key(k) && new.contains_key(k) && new[k] == v,
        Patch::Replace(k, v) => old.contains_key(k) && new.contains_key(k) && old[k] != v && new[k]
            == v,
        Patch::Remove(k) => old.contains_key(k) && !new.contains_key(k),
    }
}

/// What a patch makes of a map: `Add` and `Replace` put the value under the
/// key, whatever was there, and `Remove` takes the key away.
pub open spec fn patched<V>(map: Map<Seq<char>, V>, patch: Patch<Seq<char>, V>) -> Map<
    Seq<char>,
    V,
> {
    match patch {
        Patch::Add(k, v) => map.insert(k, v),
        Patch::Replace(k, v) => map.insert(k, v),
        Patch::Remove(k) => map.remove(k),
    }
}

/// The patches come in strictly ascending order of the keys they speak of.
pub open spec fn in_key_order<V>(patches: Seq<Patch<Seq<char>, V>>) -> bool {
    forall|i: int, j: int|
        0 <= i < j < patches.len() ==> precedes(
            #[trigger] patches[i].target(),
            #[trigger] patches[j].target(),
        )
}

/// `patches` holds exactly the patches that are due from `old` to `new`, in
/// key order.
pub open spec fn tells_apart<V>(
    patches: Seq<Patch<Seq<char>, V>>,
    old: Map<Seq<char>, V>,
    new: Map<Seq<char>, V>,
) -> bool {
    &&& in_key_order(patches)
    &&& forall|p: Patch<Seq<char>, V>| #[trigger] patches.contains(p) <==> due(old, new, p)
}

/// The one list of patches that tells `old` and `new` apart.
pub open spec fn changes<V>(old: Map<Seq<char>, V>, new: Map<Seq<char>, V>) -> Seq<
    Patch<Seq<char>, V>,
> {
    choose|patches: Seq<Patch<Seq<char>, V>>| tells_apart(patches, old, new)
}

/// Two lists in key order that hold the same patches are one list.
pub proof fn lemma_key_order_unique<V>(s: Seq<Patch<Seq<char>, V>>, t: Seq<Patch<Seq<char>, V>>)
    requires
        in_key_order(s),
        in_key_order(t),
        forall|p: Patch<Seq<char>, V>| s.contains(p) <==> t.contains(p),
    ensures
        s == t,
    decreases s.len(),
{
    if s.len() == 0 {
        if t.len() > 0 {
            assert(t.contains(t[0]));
        }
        assert(s =~= t);
    } else {
        assert(s.contains(s[0]));
        let m = choose|m: int| 0 <= m < t.len() && t[m] == s[0];
        assert(t.contains(t[0]));
        let n = choose|n: int| 0 <= n < s.len() && s[n] == t[0];
        if m > 0 {
            assert(precedes(t[0].target(), t[m].target()));
            if n > 0 {
                assert(precedes(s[0].target(), s[n].target()));
            }
            lemma_precedes_asymmetric(t[0].target(), s[0].target());
            lemma_precedes_irreflexive(s[0].target());
        }
        assert(s[0] == t[0]);
        let s1 = s.drop_first();
        let t1 = t.drop_first();
        assert forall|p: Patch<Seq<char>, V>| s1.contains(p) <==> t1.contains(p) by {
            lemma_precedes_irreflexive(s[0].target());
            if s1.contains(p) {
                let a = choose|a: int| 0 <= a < s1.len() && s1[a] == p;
                assert(s[a + 1] == p);
                assert(precedes(s[0].target(), s[a + 1].target()));
                assert(s.contains(p));
                let b = choose|b: int| 0 <= b < t.len() && t[b] == p;
                assert(b > 0);
                assert(t1[b - 1] == p);
            }
            if t1.contains(p) {
                let a = choose|a: int| 0 <= a < t1.len() && t1[a] == p;
                assert(t[a + 1] == p);
                assert(precedes(t[0].target(), t[a + 1].target()));
                assert(t.contains(p));
                let b = choose|b: int| 0 <= b < s.len() && s[b] == p;
                assert(b > 0);
                assert(s1[b - 1] == p);
            }
        }
        assert forall|i: int, j: int| 0 <= i < j < s1.len() implies precedes(
            #[trigger] s1[i].target(),
            #[trigger] s1[j].target(),
        ) by {
            assert(precedes(s[i + 1].target(), s[j + 1].target()));
        }
        assert forall|i: int, j: int| 0 <= i < j < t1.len() implies precedes(
            #[trigger] t1[i].target(),
            #[trigger] t1[j].target(),
        ) by {
            assert(precedes(t[i + 1].target(), t[j + 1].target()));
        }
        lemma_key_order_unique(s1, t1);
        assert(s =~= seq![s[0]] + s1);
        assert(t =~= seq![t[0]] + t1);
    }
}

/// A list that tells two maps apart is the list of their changes.
pub proof fn lemma_changes<V>(
    patches: Seq<Patch<Seq<char>, V>>,
    old: Map<Seq<char>, V>,
    new: Map<Seq<char>, V>,
)
    requires
        tells_apart(patches, old, new),
    ensures
        changes(old, new) == patches,
{
    lemma_key_order_unique(changes(old, new), patches);
}

/// A map needs no patch to become itself.
pub proof fn lemma_no_changes<V>(map: Map<Seq<char>, V>)
    ensures
        changes(map, map) == Seq::<Patch<Seq<char>, V>>::empty(),
{
    let none = Seq::<Patch<Seq<char>, V>>::empty();
    assert(tells_apart(none, map, map));
    lemma_changes(none, map, map);
}

/// A collection of values under string keys, each key at most once.
#[derive(Debug, PartialEq, Eq)]
pub struct Keyed<V> {
    entries: Vec<(String, V)>,
}

impl<V> Keyed<V> {
    /// The keys, in ascending order.
    pub closed spec fn keys(self) -> Seq<Seq<char>> {
        Seq::new(self.entries@.len(), |i: int| self.entries@[i].0@)
    }

    #[verifier::type_invariant]
    spec fn ordered(self) -> bool {
        ascending(self.keys())
    }
}

impl<V: View> Keyed<V> {
    /// The values, each at the place of its key in `keys`.
    pub closed spec fn values(self) -> Seq<V::V> {
        Seq::new(self.entries@.len(), |i: int| self.entries@[i].1@)
    }

    /// The map that `keys` and `values` spell out.
    pub open spec fn as_map(keys: Seq<Seq<char>>, values: Seq<V::V>) -> Map<Seq<char>, V::V> {
        Map::new(|k: Seq<char>| keys.contains(k), |k: Seq<char>| values[keys.index_of(k)])
    }

    /// An ascending key sequence and its values as a map: each key maps to the
    /// value at its place, and nothing else is in the map.
    pub proof fn lemma_as_map(keys: Seq<Seq<char>>, values: Seq<V::V>)
        requires
            ascending(keys),
            keys.len() == values.len(),
        ensures
            Self::as_map(keys, values).dom().finite(),
            Self::as_map(keys, values).dom().len() == keys.len(),
            forall|i: int|
                0 <= i < keys.len() ==> Self::as_map(keys, values).contains_key(#[trigger] keys[i])
                    && Self::as_map(keys, values)[keys[i]] == values[i],
            forall|k: Seq<char>| #[trigger]
                Self::as_map(keys, values).contains_key(k) ==> 0 <= keys.index_of(k) < keys.len()
                    && keys[keys.index_of(k)] == k,
    {
        let m = Self::as_map(keys, values);
        assert forall|i: int| 0 <= i < keys.len() implies m.contains_key(#[trigger] keys[i]) && m[keys[i]]
            == values[i] by {
            assert(keys.contains(keys[i]));
            lemma_ascending_places(keys, i, keys.index_of(keys[i]));
        }
        assert forall|i: int, j: int| 0 <= i < j < keys.len() implies keys[i] != keys[j] by {
            lemma_ascending_places(keys, i, j);
        }
        assert(keys.no_duplicates());
        keys.unique_seq_to_set();
        assert(m.dom() =~= keys.to_set());
    }
}

impl<V: View> Keyed<V> {
    /// A key put at its place in the order is one more entry of the map.
    proof fn lemma_insert(keys: Seq<Seq<char>>, values: Seq<V::V>, i: int, k: Seq<char>, v: V::V)
        requires
            ascending(keys),
            keys.len() == values.len(),
            0 <= i <= keys.len(),
            forall|j: int| 0 <= j < i ==> precedes(#[trigger] keys[j], k),
            forall|j: int| i <= j < keys.len() ==> precedes(k, #[trigger] keys[j]),
        ensures
            ascending(keys.insert(i, k)),
            Self::as_map(keys.insert(i, k), values.insert(i, v)) == Self::as_map(keys, values).insert(
                k,
                v,
            ),
    {
        let nk = keys.insert(i, k);
        let nv = values.insert(i, v);
        assert forall|a: int, b: int| 0 <= a < b < nk.len() implies precedes(
            #[trigger] nk[a],
            #[trigger] nk[b],
        ) by {
            if a < i && b > i {
                assert(precedes(keys[a], keys[b - 1]));
            } else if a < i && b < i {
                assert(precedes(keys[a], keys[b]));
            } else if a > i {
                assert(precedes(keys[a - 1], keys[b - 1]));
            } else if a == i {
                assert(precedes(k, keys[b - 1]));
            } else {
                assert(precedes(keys[a], k));
            }
        }
        Self::lemma_as_map(keys, values);
        Self::lemma_as_map(nk, nv);
        let m = Self::as_map(keys, values).insert(k, v);
        let n = Self::as_map(nk, nv);
        assert forall|x: Seq<char>| #[trigger] m.dom().contains(x) implies n.dom().contains(x) && n[x] == m[x] by {
            if x == k {
                assert(nk[i] == k);
            } else {
                let j = keys.index_of(x);
                if j < i {
                    assert(nk[j] == x);
                } else {
                    assert(nk[j + 1] == x);
                }
            }
        }
        assert forall|x: Seq<char>| #[trigger] n.dom().contains(x) implies m.dom().contains(x) by {
            let j = nk.index_of(x);
            if j < i {
                assert(keys[j] == x);
            } else if j > i {
                assert(keys[j - 1] == x);
            }
        }
        assert(n =~= m);
    }

    /// Another value at the place of a key is another value under that key.
    proof fn lemma_update(keys: Seq<Seq<char>>, values: Seq<V::V>, i: int, v: V::V)
        requires
            ascending(keys),
            keys.len() == values.len(),
            0 <= i < keys.len(),
        ensures
            Self::as_map(keys, values.update(i, v)) == Self::as_map(keys, values).insert(keys[i], v),
    {
        let nv = values.update(i, v);
        Self::lemma_as_map(keys, values);
        Self::lemma_as_map(keys, nv);
        let m = Self::as_map(keys, values).insert(keys[i], v);
        let n = Self::as_map(keys, nv);
        assert forall|x: Seq<char>| #[trigger] m.dom().contains(x) implies n.dom().contains(x) && n[x] == m[x] by {
            let j = keys.index_of(x);
            if x == keys[i] {
                lemma_ascending_places(keys, i, j);
            } else {
                assert(nv[j] == values[j]);
            }
        }
        assert(n =~= m);
    }

    /// A place taken out of the order is one entry less in the map.
    proof fn lemma_remove(keys: Seq<Seq<char>>, values: Seq<V::V>, i: int)
        requires
            ascending(keys),
            keys.len() == values.len(),
            0 <= i < keys.len(),
        ensures
            ascending(keys.remove(i)),
            Self::as_map(keys.remove(i), values.remove(i)) == Self::as_map(keys, values).remove(keys[i]),
    {
        let nk = keys.remove(i);
        let nv = values.remove(i);
        assert forall|a: int, b: int| 0 <= a < b < nk.len() implies precedes(
            #[trigger] nk[a],
            #[trigger] nk[b],
        ) by {
            let a0 = if a < i { a } else { a + 1 };
            let b0 = if b < i { b } else { b + 1 };
            assert(precedes(keys[a0], keys[b0]));
        }
        Self::lemma_as_map(keys, values);
        Self::lemma_as_map(nk, nv);
        let m = Self::as_map(keys, values).remove(keys[i]);
        let n = Self::as_map(nk, nv);
        assert forall|x: Seq<char>| #[trigger] m.dom().contains(x) implies n.dom().contains(x) && n[x] == m[x] by {
            let j = keys.index_of(x);
            if j < i {
                assert(nk[j] == x);
            } else {
                assert(j > i);
                assert(nk[j - 1] == x);
            }
        }
        assert forall|x: Seq<char>| #[trigger] n.dom().contains(x) implies m.dom().contains(x) by {
            let j = nk.index_of(x);
            let j0 = if j < i { j } else { j + 1 };
            assert(keys[j0] == x);
            lemma_ascending_places(keys, i, j0);
        }
        assert(n =~= m);
    }
}

impl<V: View> Keyed<V> {
    /// From nothing to a collection, every entry is added, in the order of the
    /// keys.
    pub proof fn lemma_all_added(keys: Seq<Seq<char>>, values: Seq<V::V>)
        requires
            ascending(keys),
            keys.len() == values.len(),
        ensures
            changes(Map::<Seq<char>, V::V>::empty(), Self::as_map(keys, values)) == Seq::new(
                keys.len(),
                |i: int| Patch::Add(keys[i], values[i]),
            ),
    {
        let none = Map::<Seq<char>, V::V>::empty();
        let all = Self::as_map(keys, values);
        let adds = Seq::new(keys.len(), |i: int| Patch::Add(keys[i], values[i]));
        Self::lemma_as_map(keys, values);
        assert forall|i: int, j: int| 0 <= i < j < adds.len() implies precedes(
            #[trigger] adds[i].target(),
            #[trigger] adds[j].target(),
        ) by {
            assert(precedes(keys[i], keys[j]));
        }
        assert forall|p: Patch<Seq<char>, V::V>| #[trigger] adds.contains(p) <==> due(none, all, p) by {
            if adds.contains(p) {
                let i = choose|i: int| 0 <= i < adds.len() && adds[i] == p;
                assert(all.contains_key(keys[i]));
            }
            if due(none, all, p) {
                let i = keys.index_of(p.target());
                assert(adds[i] == p);
            }
        }
        lemma_changes(adds, none, all);
    }

    /// A collection holds finitely many keys.
    pub proof fn lemma_finite(self)
        ensures
            self@.dom().finite(),
    {
        vstd::seq_lib::seq_to_set_is_finite(self.keys());
        assert(self@.dom() =~= self.keys().to_set());
    }
}

impl<V: View> View for Keyed<V> {
    type V = Map<Seq<char>, V::V>;

    open spec fn view(&self) -> Map<Seq<char>, V::V> {
        Self::as_map(self.keys(), self.values())
    }
}

impl<V: View> Keyed<V> {
    /// A collection without entries.
    pub fn new() -> (empty: Self)
        ensures
            empty@ == Map::<Seq<char>, V::V>::empty(),
            empty.keys().len() == 0,
    {
        let empty = Keyed { entries: Vec::new() };
        proof {
            assert(empty@ =~= Map::<Seq<char>, V::V>::empty());
        }
        empty
    }

    /// The number of entries.
    pub fn len(&self) -> (n: usize)
        ensures
            n == self.keys().len(),
            n == self.values().len(),
            n == self@.dom().len(),
            self@.dom().finite(),
            ascending(self.keys()),
    {
        proof {
            use_type_invariant(self);
            Self::lemma_as_map(self.keys(), self.values());
        }
        self.entries.len()
    }

    /// The key at place `i` of the ascending order.
    pub fn key_at(&self, i: usize) -> (key: &String)
        requires
            i < self.keys().len(),
        ensures
            key@ == self.keys()[i as int],
            self@.contains_key(key@),
    {
        proof {
            use_type_invariant(self);
            Self::lemma_as_map(self.keys(), self.values());
        }
        &self.entries[i].0
    }

    /// The value at place `i`, that of the key at place `i`.
    pub fn value_at(&self, i: usize) -> (value: &V)
        requires
            i < self.keys().len(),
        ensures
            value@ == self.values()[i as int],
            value@ == self@[self.keys()[i as int]],
    {
        proof {
            use_type_invariant(self);
            Self::lemma_as_map(self.keys(), self.values());
        }
        &self.entries[i].1
    }

    /// The place of `key` among the keys, or else the place where it would
    /// have to stand.
    fn find(&self, key: &str) -> (place: Result<usize, usize>)
        ensures
            match place {
                Ok(i) => i < self.keys().len() && self.keys()[i as int] == key@,
                Err(i) => {
                    &&& i <= self.keys().len()
                    &&& !self.keys().contains(key@)
                    &&& forall|j: int| 0 <= j < i ==> precedes(#[trigger] self.keys()[j], key@)
                    &&& forall|j: int|
                        i <= j < self.keys().len() ==> precedes(key@, #[trigger] self.keys()[j])
                },
            },
    {
        proof {
            use_type_invariant(self);
        }
        let mut lo: usize = 0;
        let mut hi: usize = self.entries.len();
        while lo < hi
            invariant
                lo <= hi <= self.keys().len(),
                self.keys().len() == self.entries@.len(),
                ascending(self.keys()),
                forall|j: int| 0 <= j < lo ==> precedes(#[trigger] self.keys()[j], key@),
                forall|j: int| hi <= j < self.keys().len() ==> precedes(key@, #[trigger] self.keys()[j]),
            decreases hi - lo,
        {
            let mid: usize = lo + (hi - lo) / 2;
            let rank = compare(self.entries[mid].0.as_str(), key);
            proof {
                lemma_rank(self.keys()[mid as int], key@);
            }
            match rank {
                Rank::Same => {
                    return Ok(mid);
                },
                Rank::Before => {
                    proof {
                        assert forall|j: int| 0 <= j < mid + 1 implies precedes(
                            #[trigger] self.keys()[j],
                            key@,
                        ) by {
                            if j < mid {
                                lemma_precedes_transitive(self.keys()[j], self.keys()[mid as int], key@);
                            }
                        }
                    }
                    lo = mid + 1;
                },
                Rank::After => {
                    proof {
                        assert forall|j: int| mid <= j < self.keys().len() implies precedes(
                            key@,
                            #[trigger] self.keys()[j],
                        ) by {
                            if mid < j {
                                lemma_precedes_transitive(key@, self.keys()[mid as int], self.keys()[j]);
                            }
                        }
                    }
                    hi = mid;
                },
            }
        }
        proof {
            lemma_precedes_irreflexive(key@);
        }
        Err(lo)
    }

    /// Whether there is an entry under `key`.
    pub fn contains_key(&self, key: &str) -> (found: bool)
        ensures
            found == self@.contains_key(key@),
    {
        proof {
            use_type_invariant(self);
            Self::lemma_as_map(self.keys(), self.values());
        }
        self.find(key).is_ok()
    }

    /// The value under `key`, if there is one.
    pub fn get(&self, key: &str) -> (value: Option<&V>)
        ensures
            match value {
                Some(v) => self@.contains_key(key@) && self@[key@] == v@,
                None => !self@.contains_key(key@),
            },
    {
        proof {
            use_type_invariant(self);
            Self::lemma_as_map(self.keys(), self.values());
        }
        match self.find(key) {
            Ok(i) => Some(&self.entries[i].1),
            Err(_) => None,
        }
    }
}

impl<V: View> Keyed<V> {
    /// Puts `value` under `key`, in place of what was there.
    pub fn set(&mut self, key: String, value: V)
        ensures
            final(self)@ == old(self)@.insert(key@, value@),
    {
        proof {
            use_type_invariant(&*self);
        }
        let ghost keys = self.keys();
        let ghost values = self.values();
        let ghost k = key@;
        let ghost v = value@;
        let place = self.find(key.as_str());
        let mut entries = Vec::new();
        std::mem::swap(&mut entries, &mut self.entries);
        match place {
            Ok(i) => {
                entries.set(i, (key, value));
                proof {
                    Self::lemma_update(keys, values, i as int, v);
                    assert(Seq::new(entries@.len(), |j: int| entries@[j].0@) =~= keys);
                    assert(Seq::new(entries@.len(), |j: int| entries@[j].1@) =~= values.update(
                        i as int,
                        v,
                    ));
                }
            },
            Err(i) => {
                entries.insert(i, (key, value));
                proof {
                    Self::lemma_insert(keys, values, i as int, k, v);
                    assert(Seq::new(entries@.len(), |j: int| entries@[j].0@) =~= keys.insert(
                        i as int,
                        k,
                    ));
                    assert(Seq::new(entries@.len(), |j: int| entries@[j].1@) =~= values.insert(
                        i as int,
                        v,
                    ));
                }
            },
        }
        self.entries = entries;
    }

    /// Takes away the entry under `key` and hands back its value, if there was
    /// one.
    pub fn remove(&mut self, key: &str) -> (value: Option<V>)
        ensures
            final(self)@ == old(self)@.remove(key@),
            match value {
                Some(v) => old(self)@.contains_key(key@) && old(self)@[key@] == v@,
                None => !old(self)@.contains_key(key@),
            },
    {
        proof {
            use_type_invariant(&*self);
            Self::lemma_as_map(self.keys(), self.values());
        }
        let ghost keys = self.keys();
        let ghost values = self.values();
        match self.find(key) {
            Ok(i) => {
                let mut entries = Vec::new();
                std::mem::swap(&mut entries, &mut self.entries);
                let entry = entries.remove(i);
                proof {
                    Self::lemma_remove(keys, values, i as int);
                    assert(Seq::new(entries@.len(), |j: int| entries@[j].0@) =~= keys.remove(i as int));
                    assert(Seq::new(entries@.len(), |j: int| entries@[j].1@) =~= values.remove(
                        i as int,
                    ));
                }
                self.entries = entries;
                Some(entry.1)
            },
            Err(_) => {
                proof {
                    assert(self@.remove(key@) =~= self@);
                }
                None
            },
        }
    }
}

impl<V: Content> Keyed<V> {
    /// The patches that turn `old` into `new`: for each key that the two do
    /// not agree on the one patch that is due, in ascending order of the keys.
    pub fn diff(old: &Self, new: &Self) -> (patches: Vec<Patch<String, V>>)
        ensures
            tells_apart(views(patches@), old@, new@),
            views(patches@) == changes(old@, new@),
    {
        proof {
            use_type_invariant(old);
            use_type_invariant(new);
        }
        let ghost ok = old.keys();
        let ghost ov = old.values();
        let ghost nk = new.keys();
        let ghost nv = new.values();
        let mut patches: Vec<Patch<String, V>> = Vec::new();
        let mut i: usize = 0;
        let mut j: usize = 0;
        proof {
            Self::lemma_start(ok, ov, nk, nv);
            assert(views(patches@) =~= Seq::empty());
        }
        while i < old.entries.len() || j < new.entries.len()
            invariant
                ok == old.keys(),
                ov == old.values(),
                nk == new.keys(),
                nv == new.values(),
                ok.len() == old.entries@.len(),
                nk.len() == new.entries@.len(),
                Self::merged(ok, ov, nk, nv, i as int, j as int, views(patches@)),
            decreases (ok.len() - i) + (nk.len() - j),
        {
            let ghost before = views(patches@);
            let rank = if i == old.entries.len() {
                Rank::After
            } else if j == new.entries.len() {
                Rank::Before
            } else {
                proof {
                    lemma_rank(ok[i as int], nk[j as int]);
                }
                compare(old.entries[i].0.as_str(), new.entries[j].0.as_str())
            };
            match rank {
                Rank::Before => {
                    patches.push(Patch::Remove(old.entries[i].0.clone()));
                    proof {
                        assert(views(patches@) =~= before.push(Patch::Remove(ok[i as int])));
                        Self::lemma_step(ok, ov, nk, nv, i as int, j as int, before, i + 1, j as int, views(patches@));
                    }
                    i += 1;
                },
                Rank::After => {
                    patches.push(Patch::Add(new.entries[j].0.clone(), new.entries[j].1.duplicate()));
                    proof {
                        assert(views(patches@) =~= before.push(Patch::Add(nk[j as int], nv[j as int])));
                        Self::lemma_step(ok, ov, nk, nv, i as int, j as int, before, i as int, j + 1, views(patches@));
                    }
                    j += 1;
                },
                Rank::Same => {
                    if !old.entries[i].1.same(&new.entries[j].1) {
                        patches.push(
                            Patch::Replace(new.entries[j].0.clone(), new.entries[j].1.duplicate()),
                        );
                        proof {
                            assert(views(patches@) =~= before.push(
                                Patch::Replace(nk[j as int], nv[j as int]),
                            ));
                        }
                    }
                    proof {
                        Self::lemma_step(ok, ov, nk, nv, i as int, j as int, before, i + 1, j + 1, views(patches@));
                    }
                    i += 1;
                    j += 1;
                },
            }
        }
        proof {
            lemma_changes(views(patches@), old@, new@);
        }
        patches
    }
}

impl<V: Content> Keyed<V> {
    /// Carries out one patch: puts the value of an `Add` or a `Replace` under
    /// its key, and takes away the key of a `Remove`.
    pub fn patch(&mut self, patch: &Patch<String, V>)
        ensures
            final(self)@ == patched(old(self)@, patch@),
    {
        match patch {
            Patch::Add(key, value) => {
                self.set(key.clone(), value.duplicate());
            },
            Patch::Replace(key, value) => {
                self.set(key.clone(), value.duplicate());
            },
            Patch::Remove(key) => {
                self.remove(key.as_str());
            },
        }
    }
}

impl<V: Content> Content for Keyed<V> {
    fn same(&self, other: &Self) -> (b: bool) {
        proof {
            use_type_invariant(self);
            use_type_invariant(other);
            if self@ == other@ {
                Self::lemma_one_order(self.keys(), self.values(), other.keys(), other.values());
            }
        }
        if self.entries.len() != other.entries.len() {
            return false;
        }
        let mut i: usize = 0;
        while i < self.entries.len()
            invariant
                i <= self.entries@.len(),
                self.entries@.len() == other.entries@.len(),
                self.keys().len() == self.entries@.len(),
                other.keys().len() == self.entries@.len(),
                self.values().len() == self.entries@.len(),
                other.values().len() == self.entries@.len(),
                self@ == other@ ==> self.keys() == other.keys() && self.values() == other.values(),
                forall|m: int| 0 <= m < i ==> self.keys()[m] == other.keys()[m],
                forall|m: int| 0 <= m < i ==> self.values()[m] == other.values()[m],
            decreases self.entries@.len() - i,
        {
            if !(self.entries[i].0 == other.entries[i].0) || !self.entries[i].1.same(
                &other.entries[i].1,
            ) {
                proof {
                    assert(self.keys()[i as int] != other.keys()[i as int] || self.values()[i as int]
                        != other.values()[i as int]);
                }
                return false;
            }
            i += 1;
        }
        proof {
            assert(self.keys() =~= other.keys());
            assert(self.values() =~= other.values());
        }
        true
    }

    fn duplicate(&self) -> (copy: Self) {
        proof {
            use_type_invariant(self);
        }
        let mut entries: Vec<(String, V)> = Vec::new();
        let mut i: usize = 0;
        while i < self.entries.len()
            invariant
                i <= self.entries@.len(),
                entries@.len() == i,
                forall|m: int| 0 <= m < i ==> entries@[m].0@ == self.entries@[m].0@,
                forall|m: int| 0 <= m < i ==> entries@[m].1@ == self.entries@[m].1@,
            decreases self.entries@.len() - i,
        {
            entries.push((self.entries[i].0.clone(), self.entries[i].1.duplicate()));
            i += 1;
        }
        proof {
            assert(Seq::new(entries@.len(), |m: int| entries@[m].0@) =~= self.keys());
            assert(Seq::new(entries@.len(), |m: int| entries@[m].1@) =~= self.values());
        }
        Keyed { entries }
    }
}

} // verus!
