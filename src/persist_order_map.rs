//! A map that remembers the order in which its keys were first inserted.
use vstd::prelude::*;

verus! {

/// A key that can be compared and duplicated by its view.
pub trait OrderKey: View + Sized {
    /// Whether the two keys are the same.
    fn same_key(&self, other: &Self) -> (r: bool)
        ensures
            r == (self@ == other@),
    ;

    /// A copy of the key.
    fn dup_key(&self) -> (r: Self)
        ensures
            r@ == self@,
    ;
}

impl OrderKey for String {
    fn same_key(&self, other: &Self) -> (r: bool) {
        *self == *other
    }

    fn dup_key(&self) -> (r: Self) {
        self.clone()
    }
}

impl OrderKey for u32 {
    fn same_key(&self, other: &Self) -> (r: bool) {
        *self == *other
    }

    fn dup_key(&self) -> (r: Self) {
        *self
    }
}

impl OrderKey for u64 {
    fn same_key(&self, other: &Self) -> (r: bool) {
        *self == *other
    }

    fn dup_key(&self) -> (r: Self) {
        *self
    }
}

/// The keys of an entry sequence, in order.
pub open spec fn keys_of<KV, V>(s: Seq<(KV, V)>) -> Seq<KV> {
    s.map_values(|e: (KV, V)| e.0)
}

/// No key occurs twice.
pub open spec fn unique_keys<KV, V>(s: Seq<(KV, V)>) -> bool {
    forall|i: int, j: int| 0 <= i < s.len() && 0 <= j < s.len() && i != j ==> s[i].0 != s[j].0
}

/// Whether some entry has key `k`.
pub open spec fn has_key<KV, V>(s: Seq<(KV, V)>, k: KV) -> bool {
    exists|i: int| 0 <= i < s.len() && s[i].0 == k
}

/// The position of key `k`, for a sequence that holds it.
pub open spec fn key_index<KV, V>(s: Seq<(KV, V)>, k: KV) -> int {
    choose|i: int| 0 <= i < s.len() && s[i].0 == k
}

/// The entries after `(k, v)` is inserted: an existing key keeps its place and takes
/// the new value, a new key goes at the end.
pub open spec fn inserted<KV, V>(s: Seq<(KV, V)>, k: KV, v: V) -> Seq<(KV, V)> {
    if has_key(s, k) {
        s.update(key_index(s, k), (k, v))
    } else {
        s.push((k, v))
    }
}

/// The entries after a sequence of insertions, made one after the other.
pub open spec fn inserted_all<KV, V>(s: Seq<(KV, V)>, ins: Seq<(KV, V)>) -> Seq<(KV, V)>
    decreases ins.len(),
{
    if ins.len() == 0 {
        s
    } else {
        inserted(inserted_all(s, ins.drop_last()), ins.last().0, ins.last().1)
    }
}

/// The keys of `ins` in the order of their first occurrence, after those of `s`.
pub open spec fn first_order<KV, V>(ks: Seq<KV>, ins: Seq<(KV, V)>) -> Seq<KV>
    decreases ins.len(),
{
    if ins.len() == 0 {
        ks
    } else {
        let prev = first_order(ks, ins.drop_last());
        if prev.contains(ins.last().0) {
            prev
        } else {
            prev.push(ins.last().0)
        }
    }
}

/// With each key once, the entry at `i` is the one found for its key.
pub proof fn lemma_key_index<KV, V>(s: Seq<(KV, V)>, i: int)
    requires
        unique_keys(s),
        0 <= i < s.len(),
    ensures
        has_key(s, s[i].0),
        key_index(s, s[i].0) == i,
{
    assert(has_key(s, s[i].0));
}

/// Insertion keeps every key unique.
pub proof fn lemma_inserted_unique<KV, V>(s: Seq<(KV, V)>, k: KV, v: V)
    requires
        unique_keys(s),
    ensures
        unique_keys(inserted(s, k, v)),
        has_key(inserted(s, k, v), k),
        keys_of(inserted(s, k, v)) == (if has_key(s, k) {
            keys_of(s)
        } else {
            keys_of(s).push(k)
        }),
{
    let r = inserted(s, k, v);
    if has_key(s, k) {
        let i = key_index(s, k);
        assert(r[i].0 == k);
        assert(keys_of(r) =~= keys_of(s));
    } else {
        assert(r[s.len() as int].0 == k);
        assert(keys_of(r) =~= keys_of(s).push(k));
    }
}

/// Any run of insertions, overwrites included, leaves the keys in the order of their first
/// insertion, each key once, and a key that was inserted again keeps its position.
pub proof fn lemma_order_kept<KV, V>(s: Seq<(KV, V)>, ins: Seq<(KV, V)>)
    requires
        unique_keys(s),
    ensures
        unique_keys(inserted_all(s, ins)),
        keys_of(inserted_all(s, ins)) == first_order(keys_of(s), ins),
    decreases ins.len(),
{
    if ins.len() > 0 {
        let prev = inserted_all(s, ins.drop_last());
        lemma_order_kept(s, ins.drop_last());
        lemma_inserted_unique(prev, ins.last().0, ins.last().1);
        lemma_has_key_contains(prev, ins.last().0);
    }
}

/// A key is present exactly when it is among the keys.
pub proof fn lemma_has_key_contains<KV, V>(s: Seq<(KV, V)>, k: KV)
    ensures
        has_key(s, k) == keys_of(s).contains(k),
{
    if has_key(s, k) {
        let i = key_index(s, k);
        assert(keys_of(s)[i] == k);
    }
    if keys_of(s).contains(k) {
        let i = choose|i: int| 0 <= i < keys_of(s).len() && keys_of(s)[i] == k;
        assert(s[i].0 == k);
    }
}

/// After any run of insertions, each key holds the value that it was last inserted with.
pub proof fn lemma_last_value_wins<KV, V>(s: Seq<(KV, V)>, ins: Seq<(KV, V)>, j: int)
    requires
        unique_keys(s),
        0 <= j < ins.len(),
        forall|l: int| j < l < ins.len() ==> ins[l].0 != ins[j].0,
    ensures
        has_key(inserted_all(s, ins), ins[j].0),
        inserted_all(s, ins)[key_index(inserted_all(s, ins), ins[j].0)] == ins[j],
    decreases ins.len(),
{
    let k = ins[j].0;
    let prev = inserted_all(s, ins.drop_last());
    lemma_order_kept(s, ins.drop_last());
    lemma_inserted_unique(prev, ins.last().0, ins.last().1);
    let r = inserted_all(s, ins);
    assert(r == inserted(prev, ins.last().0, ins.last().1));
    if j == ins.len() - 1 {
        let i = key_index(r, k);
        if has_key(prev, k) {
            let p = key_index(prev, k);
            lemma_key_index(r, p);
        } else {
            lemma_key_index(r, prev.len() as int);
        }
    } else {
        lemma_last_value_wins(s, ins.drop_last(), j);
        let p = key_index(prev, k);
        assert(prev[p] == ins[j]);
        assert(ins.last().0 != k);
        if has_key(prev, ins.last().0) {
            let q = key_index(prev, ins.last().0);
            assert(q != p);
            lemma_key_index(r, p);
        } else {
            lemma_key_index(r, p);
        }
    }
}

/// A map from unique keys to values that yields its entries in first-insertion order.
pub struct PersistOrderMap<K, V> {
    entries: Vec<(K, V)>,
}

/// A borrowing walk over a [`PersistOrderMap`], from the first-inserted entry on.
pub struct PersistOrderMapIterator<'a, K, V> {
    map: &'a PersistOrderMap<K, V>,
    index: usize,
}

/// A consuming walk over a [`PersistOrderMap`]: each entry leaves the map as it is yielded.
pub struct IntoIter<K, V> {
    map: PersistOrderMap<K, V>,
}

impl<K: View, V: View> View for PersistOrderMap<K, V> {
    type V = Seq<(K::V, V::V)>;

    /// The entries, keys and values by their views, in first-insertion order.
    closed spec fn view(&self) -> Seq<(K::V, V::V)> {
        self.entries@.map_values(|e: (K, V)| (e.0@, e.1@))
    }
}

impl<K: OrderKey, V: View> PersistOrderMap<K, V> {
    /// Each key occurs once.
    pub open spec fn wf(&self) -> bool {
        unique_keys(self@)
    }

    /// An empty map.
    pub fn new() -> (r: Self)
        ensures
            r@ == Seq::<(K::V, V::V)>::empty(),
            r.wf(),
    {
        PersistOrderMap { entries: Vec::new() }
    }

    /// The number of entries.
    pub fn len(&self) -> (r: usize)
        ensures
            r == self@.len(),
    {
        self.entries.len()
    }

    /// Whether `key` is present.
    pub fn contains_key(&self, key: &K) -> (r: bool)
        ensures
            r == has_key(self@, key@),
    {
        match self.find(key) {
            Some(_) => true,
            None => false,
        }
    }

    /// The position of `key`, if present.
    fn find(&self, key: &K) -> (r: Option<usize>)
        ensures
            match r {
                Some(i) => i < self@.len() && self@[i as int].0 == key@,
                None => !has_key(self@, key@),
            },
    {
        let mut i: usize = 0;
        while i < self.entries.len()
            invariant
                i <= self.entries.len(),
                forall|j: int| 0 <= j < i ==> self@[j].0 != key@,
            decreases self.entries.len() - i,
        {
            if self.entries[i].0.same_key(key) {
                return Some(i);
            }
            i = i + 1;
        }
        None
    }

    /// Inserts `value` under `key`. A new key goes after all present ones; an existing
    /// key keeps its position and takes the new value.
    pub fn insert(&mut self, key: K, value: V)
        requires
            old(self).wf(),
        ensures
            final(self).wf(),
            final(self)@ == inserted(old(self)@, key@, value@),
    {
        proof {
            lemma_inserted_unique(self@, key@, value@);
        }
        match self.find(&key) {
            Some(i) => {
                proof {
                    lemma_key_index(self@, i as int);
                }
                self.entries.set(i, (key, value));
                assert(self@ =~= inserted(old(self)@, key@, value@));
            },
            None => {
                self.entries.push((key, value));
                assert(self@ =~= inserted(old(self)@, key@, value@));
            },
        }
    }

    /// A walk over the entries in first-insertion order.
    pub fn iter(&self) -> (r: PersistOrderMapIterator<'_, K, V>)
        ensures
            r.map() == self,
            r.index() == 0,
    {
        PersistOrderMapIterator { map: self, index: 0 }
    }

    /// A mutable reference to the value under `key`, if present; the entries keep
    /// their order and keys.
    pub fn get_mut(&mut self, key: &K) -> (r: Option<&mut V>)
        requires
            old(self).wf(),
        ensures
            match r {
                Some(v) => {
                    &&& has_key(old(self)@, key@)
                    &&& (*v)@ == old(self)@[key_index(old(self)@, key@)].1
                    &&& final(self)@ == old(self)@.update(
                        key_index(old(self)@, key@),
                        (key@, (*final(v))@),
                    )
                },
                None => {
                    &&& !has_key(old(self)@, key@)
                    &&& final(self)@ == old(self)@
                },
            },
            final(self).wf(),
    {
        match self.find(key) {
            Some(i) => {
                proof {
                    lemma_key_index(self@, i as int);
                }
                Some(&mut self.entries[i].1)
            },
            None => None,
        }
    }

    /// The value under `key`, if present.
    pub fn get(&self, key: &K) -> (r: Option<&V>)
        requires
            self.wf(),
        ensures
            match r {
                Some(v) => has_key(self@, key@) && v@ == self@[key_index(self@, key@)].1,
                None => !has_key(self@, key@),
            },
    {
        match self.find(key) {
            Some(i) => {
                proof {
                    lemma_key_index(self@, i as int);
                }
                Some(&self.entries[i].1)
            },
            None => None,
        }
    }

    /// The entry at position `i` of the insertion order.
    pub fn entry_at(&self, i: usize) -> (r: (&K, &V))
        requires
            i < self@.len(),
        ensures
            r.0@ == self@[i as int].0,
            r.1@ == self@[i as int].1,
    {
        let e = &self.entries[i];
        (&e.0, &e.1)
    }

    /// A consuming walk over the entries in first-insertion order.
    pub fn into_iter(self) -> (r: IntoIter<K, V>)
        ensures
            r@ == self@,
    {
        IntoIter { map: self }
    }
}

impl<'a, K: OrderKey, V: View> PersistOrderMapIterator<'a, K, V> {
    /// The map walked over.
    pub closed spec fn map(&self) -> &'a PersistOrderMap<K, V> {
        self.map
    }

    /// The position of the next entry.
    pub closed spec fn index(&self) -> int {
        self.index as int
    }

    /// The next entry in first-insertion order, or `None` once all have been yielded.
    pub fn next(&mut self) -> (r: Option<(&'a K, &'a V)>)
        ensures
            final(self).map() == old(self).map(),
            old(self).index() < old(self).map()@.len() ==> {
                &&& final(self).index() == old(self).index() + 1
                &&& r matches Some(e) && e.0@ == old(self).map()@[old(self).index()].0
                    && e.1@ == old(self).map()@[old(self).index()].1
            },
            old(self).index() >= old(self).map()@.len() ==> {
                &&& final(self).index() == old(self).index()
                &&& r is None
            },
    {
        if self.index < self.map.entries.len() {
            let e = &self.map.entries[self.index];
            self.index = self.index + 1;
            Some((&e.0, &e.1))
        } else {
            None
        }
    }
}

impl<K: View, V: View> View for IntoIter<K, V> {
    type V = Seq<(K::V, V::V)>;

    /// The entries not yet yielded.
    closed spec fn view(&self) -> Seq<(K::V, V::V)> {
        self.map@
    }
}

impl<K: OrderKey, V: View> IntoIter<K, V> {
    /// Removes and returns the first remaining entry, or `None` once the map is empty.
    pub fn next(&mut self) -> (r: Option<(K, V)>)
        ensures
            old(self)@.len() > 0 ==> {
                &&& final(self)@ == old(self)@.drop_first()
                &&& r matches Some(e) && e.0@ == old(self)@[0].0 && e.1@ == old(self)@[0].1
            },
            old(self)@.len() == 0 ==> final(self)@ == old(self)@ && r is None,
    {
        if self.map.entries.len() > 0 {
            let e = self.map.entries.remove(0);
            assert(self@ =~= old(self)@.drop_first());
            Some(e)
        } else {
            None
        }
    }
}

} // verus!
