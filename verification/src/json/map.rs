//! A map that keeps its keys in insertion order.
use vstd::prelude::*;

verus! {

/// Keys of an [`OrderedMap`]: values with an abstract identity that can be compared and copied.
pub trait MapKey: Sized {
    type KeyView;

    /// The identity of this key: two keys are the same key when these are equal.
    spec fn key_view(&self) -> Self::KeyView;

    /// Whether two keys are the same key.
    fn same_key(&self, other: &Self) -> (r: bool)
        ensures
            r == (self.key_view() == other.key_view()),
    ;

    /// A copy of this key.
    fn copy_key(&self) -> (r: Self)
        ensures
            r.key_view() == self.key_view(),
    ;
}

impl MapKey for String {
    type KeyView = Seq<char>;

    open spec fn key_view(&self) -> Seq<char> {
        self@
    }

    fn same_key(&self, other: &Self) -> (r: bool) {
        (*self).eq(other)
    }

    fn copy_key(&self) -> (r: Self) {
        self.clone()
    }
}

/// A map that preserves the insertion order of keys.
#[derive(Debug, PartialEq)]
pub struct OrderedMap<K, V> {
    pub(crate) keys: Vec<K>,
    pub(crate) values: Vec<V>,
}

/// Index of the entry with the given key identity, if any.
pub open spec fn key_index<K: MapKey>(keys: Seq<K>, k: K::KeyView) -> Option<int> {
    if exists|i: int| 0 <= i < keys.len() && (#[trigger] keys[i]).key_view() == k {
        Some(choose|i: int| 0 <= i < keys.len() && (#[trigger] keys[i]).key_view() == k)
    } else {
        None
    }
}

/// With distinct keys, the key found at `i` has index `i`.
pub proof fn lemma_key_index_unique<K: MapKey>(keys: Seq<K>, i: int)
    requires
        0 <= i < keys.len(),
        forall|a: int, b: int|
            0 <= a < keys.len() && 0 <= b < keys.len() && a != b ==> (#[trigger] keys[a]).key_view()
                != (#[trigger] keys[b]).key_view(),
    ensures
        key_index(keys, keys[i].key_view()) == Some(i),
{
    let k = keys[i].key_view();
    assert(keys[i].key_view() == k);
    let j = choose|j: int| 0 <= j < keys.len() && (#[trigger] keys[j]).key_view() == k;
    if j != i {
        assert(keys[j].key_view() != keys[i].key_view());
    }
}

impl<K: MapKey, V> OrderedMap<K, V> {
    /// The keys in insertion order.
    pub closed spec fn key_seq(&self) -> Seq<K> {
        self.keys@
    }

    /// The values, in the order of their keys.
    pub closed spec fn value_seq(&self) -> Seq<V> {
        self.values@
    }

    pub(crate) proof fn lemma_seqs(&self)
        ensures
            self.key_seq() == self.keys@,
            self.value_seq() == self.values@,
    {
    }

    /// Well-formedness: one value per key, and no key twice.
    pub closed spec fn wf(&self) -> bool {
        &&& self.keys@.len() == self.values@.len()
        &&& forall|i: int, j: int|
            0 <= i < self.keys@.len() && 0 <= j < self.keys@.len() && i != j ==> (
            #[trigger] self.keys@[i]).key_view() != (#[trigger] self.keys@[j]).key_view()
    }

    pub open spec fn spec_len(&self) -> nat {
        self.key_seq().len()
    }

    /// The value stored for a key.
    pub open spec fn spec_get(&self, k: K::KeyView) -> Option<V> {
        match key_index(self.key_seq(), k) {
            Some(i) => Some(self.value_seq()[i]),
            None => None,
        }
    }

    pub proof fn lemma_wf_len(&self)
        requires
            self.wf(),
        ensures
            self.key_seq().len() == self.value_seq().len(),
    {
    }

    fn find(&self, key: &K) -> (r: Option<usize>)
        requires
            self.wf(),
        ensures
            match r {
                Some(i) => key_index(self.key_seq(), key.key_view()) == Some(i as int) && i
                    < self.keys@.len(),
                None => key_index(self.key_seq(), key.key_view()) is None,
            },
    {
        let mut i: usize = 0;
        while i < self.keys.len()
            invariant
                self.wf(),
                i <= self.keys@.len(),
                forall|j: int| 0 <= j < i ==> (#[trigger] self.keys@[j]).key_view() != key.key_view(),
            decreases self.keys@.len() - i,
        {
            if self.keys[i].same_key(key) {
                proof {
                    lemma_key_index_unique(self.keys@, i as int);
                }
                return Some(i);
            }
            i = i + 1;
        }
        None
    }

    /// Creates a new, empty `OrderedMap`.
    pub fn new() -> (r: Self)
        ensures
            r.wf(),
            r.key_seq() == Seq::<K>::empty(),
            r.value_seq() == Seq::<V>::empty(),
    {
        OrderedMap { keys: Vec::new(), values: Vec::new() }
    }

    /// Builds a map from entries whose keys are all different, keeping their order.
    pub fn from_distinct_entries(entries: Vec<(K, V)>) -> (r: Self)
        requires
            forall|i: int, j: int|
                0 <= i < entries@.len() && 0 <= j < entries@.len() && i != j ==> (
                #[trigger] entries@[i]).0.key_view() != (#[trigger] entries@[j]).0.key_view(),
        ensures
            r.wf(),
            r.key_seq().len() == entries@.len(),
            forall|i: int|
                0 <= i < entries@.len() ==> r.key_seq()[i] == (#[trigger] entries@[i]).0
                    && r.value_seq()[i] == entries@[i].1,
    {
        let ghost es = entries@;
        let mut rev: Vec<(K, V)> = Vec::new();
        let mut entries = entries;
        while entries.len() > 0
            invariant
                entries@.len() + rev@.len() == es.len(),
                forall|j: int| 0 <= j < entries@.len() ==> entries@[j] == es[j],
                forall|j: int| 0 <= j < rev@.len() ==> #[trigger] rev@[j] == es[es.len() - 1 - j],
            decreases entries@.len(),
        {
            let e = entries.pop().unwrap();
            rev.push(e);
        }
        let mut keys: Vec<K> = Vec::new();
        let mut values: Vec<V> = Vec::new();
        while rev.len() > 0
            invariant
                rev@.len() + keys@.len() == es.len(),
                keys@.len() == values@.len(),
                forall|j: int| 0 <= j < rev@.len() ==> #[trigger] rev@[j] == es[es.len() - 1 - j],
                forall|j: int| 0 <= j < keys@.len() ==> #[trigger] keys@[j] == es[j].0 && values@[j] == es[j].1,
            decreases rev@.len(),
        {
            let (k, v) = rev.pop().unwrap();
            keys.push(k);
            values.push(v);
        }
        let r = OrderedMap { keys, values };
        assert forall|a: int, b: int|
            0 <= a < r.keys@.len() && 0 <= b < r.keys@.len() && a != b implies (
            #[trigger] r.keys@[a]).key_view() != (#[trigger] r.keys@[b]).key_view() by {
            assert(r.keys@[a] == es[a].0);
            assert(r.keys@[b] == es[b].0);
        };
        r
    }

    /// Inserts a key-value pair into the map. A new key goes last; the value of an existing key
    /// is replaced in place.
    pub fn insert(&mut self, key: K, value: V)
        requires
            old(self).wf(),
        ensures
            final(self).wf(),
            match key_index(old(self).key_seq(), key.key_view()) {
                Some(i) => final(self).key_seq() == old(self).key_seq() && final(self).value_seq()
                    == old(self).value_seq().update(i, value),
                None => final(self).key_seq() == old(self).key_seq().push(key)
                    && final(self).value_seq() == old(self).value_seq().push(value),
            },
            final(self).spec_get(key.key_view()) == Some(value),
    {
        let ghost kv = key.key_view();
        let ghost v = value;
        match self.find(&key) {
            Some(i) => {
                self.values.set(i, value);
                proof {
                    lemma_key_index_unique(self.keys@, i as int);
                }
            },
            None => {
                self.keys.push(key);
                self.values.push(value);
                proof {
                    let n = (self.keys@.len() - 1) as int;
                    assert forall|a: int, b: int|
                        0 <= a < self.keys@.len() && 0 <= b < self.keys@.len() && a != b implies (
                        #[trigger] self.keys@[a]).key_view() != (#[trigger] self.keys@[b]).key_view() by {
                        if a == n {
                            assert(self.keys@[b] == old(self).keys@[b]);
                        } else if b == n {
                            assert(self.keys@[a] == old(self).keys@[a]);
                        } else {
                            assert(self.keys@[a] == old(self).keys@[a]);
                            assert(self.keys@[b] == old(self).keys@[b]);
                        }
                    };
                    lemma_key_index_unique(self.keys@, n);
                }
            },
        }
    }

    /// Retrieves a reference to the value corresponding to the key.
    pub fn get(&self, key: &K) -> (r: Option<&V>)
        requires
            self.wf(),
        ensures
            match r {
                Some(v) => self.spec_get(key.key_view()) == Some(*v),
                None => self.spec_get(key.key_view()) is None,
            },
    {
        match self.find(key) {
            Some(i) => Some(&self.values[i]),
            None => None,
        }
    }

    /// Whether the key is present.
    pub fn contains_key(&self, key: &K) -> (r: bool)
        requires
            self.wf(),
        ensures
            r == key_index(self.key_seq(), key.key_view()) is Some,
    {
        self.find(key).is_some()
    }

    /// Removes a key from the map, returning its value if it was present; the order of the
    /// other keys is kept.
    pub fn remove(&mut self, key: &K) -> (r: Option<V>)
        requires
            old(self).wf(),
        ensures
            final(self).wf(),
            match key_index(old(self).key_seq(), key.key_view()) {
                Some(i) => r == Some(old(self).value_seq()[i]) && final(self).key_seq() == old(
                    self,
                ).key_seq().remove(i) && final(self).value_seq() == old(self).value_seq().remove(
                    i,
                ),
                None => r is None && final(self).key_seq() == old(self).key_seq()
                    && final(self).value_seq() == old(self).value_seq(),
            },
    {
        match self.find(key) {
            Some(i) => {
                self.keys.remove(i);
                let v = self.values.remove(i);
                assert forall|a: int, b: int|
                    0 <= a < self.keys@.len() && 0 <= b < self.keys@.len() && a != b implies (
                    #[trigger] self.keys@[a]).key_view() != (#[trigger] self.keys@[b]).key_view() by {
                    let oa = if a < i { a } else { a + 1 };
                    let ob = if b < i { b } else { b + 1 };
                    assert(self.keys@[a] == old(self).keys@[oa]);
                    assert(self.keys@[b] == old(self).keys@[ob]);
                };
                Some(v)
            },
            None => None,
        }
    }

    /// Returns the number of key-value pairs in the map.
    pub fn len(&self) -> (r: usize)
        requires
            self.wf(),
        ensures
            r == self.spec_len(),
    {
        self.keys.len()
    }

    /// Checks if the map is empty.
    pub fn is_empty(&self) -> (r: bool)
        requires
            self.wf(),
        ensures
            r == (self.spec_len() == 0),
    {
        self.keys.len() == 0
    }

    /// The key-value pairs in insertion order.
    pub fn iter(&self) -> (r: Vec<(&K, &V)>)
        requires
            self.wf(),
        ensures
            r@.len() == self.spec_len(),
            forall|i: int|
                0 <= i < r@.len() ==> *(#[trigger] r@[i]).0 == self.key_seq()[i] && *r@[i].1
                    == self.value_seq()[i],
    {
        let mut r: Vec<(&K, &V)> = Vec::new();
        let mut i: usize = 0;
        while i < self.keys.len()
            invariant
                self.wf(),
                i <= self.keys@.len(),
                r@.len() == i,
                forall|j: int|
                    0 <= j < i ==> *(#[trigger] r@[j]).0 == self.keys@[j] && *r@[j].1
                        == self.values@[j],
            decreases self.keys@.len() - i,
        {
            r.push((&self.keys[i], &self.values[i]));
            i = i + 1;
        }
        r
    }

    /// The key-value pairs in insertion order, taking ownership.
    pub fn into_iter(self) -> (r: Vec<(K, V)>)
        requires
            self.wf(),
        ensures
            r@.len() == self.spec_len(),
            forall|i: int|
                0 <= i < r@.len() ==> (#[trigger] r@[i]).0 == self.key_seq()[i] && r@[i].1
                    == self.value_seq()[i],
    {
        let ghost ks = self.keys@;
        let ghost vs = self.values@;
        let OrderedMap { mut keys, mut values } = self;
        let mut r: Vec<(K, V)> = Vec::new();
        while keys.len() > 0
            invariant
                keys@.len() == values@.len(),
                keys@.len() + r@.len() == ks.len(),
                vs.len() == ks.len(),
                forall|j: int| 0 <= j < keys@.len() ==> keys@[j] == ks[j] && values@[j] == vs[j],
                forall|j: int|
                    0 <= j < r@.len() ==> (#[trigger] r@[j]).0 == ks[ks.len() - 1 - j] && r@[j].1
                        == vs[vs.len() - 1 - j],
            decreases keys@.len(),
        {
            let k = keys.pop().unwrap();
            let v = values.pop().unwrap();
            r.push((k, v));
        }
        let mut out: Vec<(K, V)> = Vec::new();
        while r.len() > 0
            invariant
                r@.len() + out@.len() == ks.len(),
                vs.len() == ks.len(),
                forall|j: int|
                    0 <= j < r@.len() ==> (#[trigger] r@[j]).0 == ks[ks.len() - 1 - j] && r@[j].1
                        == vs[vs.len() - 1 - j],
                forall|j: int|
                    0 <= j < out@.len() ==> (#[trigger] out@[j]).0 == ks[j] && out@[j].1 == vs[j],
            decreases r@.len(),
        {
            let e = r.pop().unwrap();
            out.push(e);
        }
        out
    }
}

/// Whether `after` is `before` with `value` inserted under `key`, as `insert` leaves it.
pub open spec fn map_inserted<K: MapKey, V>(before: OrderedMap<K, V>, after: OrderedMap<K, V>, key: K, value: V) -> bool {
    match key_index(before.key_seq(), key.key_view()) {
        Some(i) => after.key_seq() == before.key_seq() && after.value_seq()
            == before.value_seq().update(i, value),
        None => after.key_seq() == before.key_seq().push(key) && after.value_seq()
            == before.value_seq().push(value),
    }
}

/// Whether `after` is `before` with `key` removed and `r` returned, as `remove` leaves it.
pub open spec fn map_removed<K: MapKey, V>(before: OrderedMap<K, V>, after: OrderedMap<K, V>, key: K::KeyView, r: Option<V>) -> bool {
    match key_index(before.key_seq(), key) {
        Some(i) => r == Some(before.value_seq()[i]) && after.key_seq() == before.key_seq().remove(i)
            && after.value_seq() == before.value_seq().remove(i),
        None => r is None && after.key_seq() == before.key_seq() && after.value_seq()
            == before.value_seq(),
    }
}

proof fn lemma_key_index_found<K: MapKey>(keys: Seq<K>, k: K::KeyView)
    requires
        key_index(keys, k) is Some,
    ensures
        0 <= key_index(keys, k).unwrap() < keys.len(),
        keys[key_index(keys, k).unwrap()].key_view() == k,
{
}

/// Inserting sets the key's value and leaves every other key's value as it was; a new key
/// adds one entry at the end, an existing key keeps its place and the entry count.
pub proof fn law_insert_keeps_others<K: MapKey, V>(
    before: OrderedMap<K, V>,
    after: OrderedMap<K, V>,
    key: K,
    value: V,
    other: K::KeyView,
)
    requires
        before.wf(),
        after.wf(),
        map_inserted(before, after, key, value),
    ensures
        after.spec_get(key.key_view()) == Some(value),
        other != key.key_view() ==> after.spec_get(other) == before.spec_get(other),
        before.spec_get(key.key_view()) is Some ==> after.spec_len() == before.spec_len()
            && after.key_seq() == before.key_seq(),
        before.spec_get(key.key_view()) is None ==> after.spec_len() == before.spec_len() + 1
            && after.key_seq() == before.key_seq().push(key),
{
    let bk = before.keys@;
    let ak = after.keys@;
    match key_index(bk, key.key_view()) {
        Some(i) => {
            lemma_key_index_found(bk, key.key_view());
            lemma_key_index_unique(ak, i);
            if other != key.key_view() {
                match key_index(bk, other) {
                    Some(j) => {
                        lemma_key_index_found(bk, other);
                        assert(j != i);
                    },
                    None => {},
                }
            }
        },
        None => {
            let n = bk.len() as int;
            lemma_key_index_unique(ak, n);
            if other != key.key_view() {
                match key_index(bk, other) {
                    Some(j) => {
                        lemma_key_index_found(bk, other);
                        assert(ak[j] == bk[j]);
                        lemma_key_index_unique(ak, j);
                    },
                    None => {
                        assert forall|i: int| 0 <= i < ak.len() implies (#[trigger] ak[i]).key_view() != other by {
                            if i < n {
                                assert(ak[i] == bk[i]);
                            }
                        }
                    },
                }
            }
        },
    }
}

/// Removing a key returns its value, leaves the key without a value and every other key with
/// its value, and takes one entry away when the key was present.
pub proof fn law_remove_clears<K: MapKey, V>(
    before: OrderedMap<K, V>,
    after: OrderedMap<K, V>,
    key: K::KeyView,
    r: Option<V>,
    other: K::KeyView,
)
    requires
        before.wf(),
        after.wf(),
        map_removed(before, after, key, r),
    ensures
        r == before.spec_get(key),
        after.spec_get(key) is None,
        after.spec_len() == before.spec_len() - (if r is Some { 1int } else { 0int }),
        other != key ==> after.spec_get(other) == before.spec_get(other),
{
    let bk = before.keys@;
    let ak = after.keys@;
    match key_index(bk, key) {
        Some(i) => {
            lemma_key_index_found(bk, key);
            assert forall|a: int| 0 <= a < ak.len() implies (#[trigger] ak[a]).key_view() != key by {
                let oa = if a < i { a } else { a + 1 };
                assert(ak[a] == bk[oa]);
                assert(oa != i);
            }
            if other != key {
                match key_index(bk, other) {
                    Some(j) => {
                        lemma_key_index_found(bk, other);
                        assert(j != i);
                        let aj = if j < i { j } else { j - 1 };
                        assert(ak[aj] == bk[j]);
                        lemma_key_index_unique(ak, aj);
                        assert(after.values@[aj] == before.values@[j]);
                    },
                    None => {
                        assert forall|a: int| 0 <= a < ak.len() implies (#[trigger] ak[a]).key_view() != other by {
                            let oa = if a < i { a } else { a + 1 };
                            assert(ak[a] == bk[oa]);
                        }
                    },
                }
            }
        },
        None => {},
    }
}

} // verus!
