//! A small association list keyed by fixed-width byte strings.
//!
//! Peers are named by 256-bit and 512-bit values.  The list keeps at most
//! one value per key and presents itself as a finite map from the key's
//! bytes to the value.

use vstd::prelude::*;
use crate::primitives::{H256, H512};

verus! {

/// A key that is identified by its bytes.
pub trait ByteKey: Sized {
    /// The bytes that identify the key.
    spec fn key(&self) -> Seq<u8>;

    /// Whether two keys have the same bytes.
    fn same_key(&self, other: &Self) -> (r: bool)
        ensures
            r == (self.key() == other.key()),
    ;
}

impl ByteKey for H256 {
    open spec fn key(&self) -> Seq<u8> {
        self@
    }

    fn same_key(&self, other: &Self) -> (r: bool) {
        self.same(other)
    }
}

impl ByteKey for H512 {
    open spec fn key(&self) -> Seq<u8> {
        self@
    }

    fn same_key(&self, other: &Self) -> (r: bool) {
        self.same(other)
    }
}

/// Position `i` holds the key with bytes `k`.
pub open spec fn key_at<K: ByteKey>(keys: Seq<K>, i: int, k: Seq<u8>) -> bool {
    0 <= i < keys.len() && keys[i].key() == k
}

/// Some position holds the key with bytes `k`.
pub open spec fn has_key<K: ByteKey>(keys: Seq<K>, k: Seq<u8>) -> bool {
    exists|i: int| key_at(keys, i, k)
}

/// No key occurs twice.
pub open spec fn distinct_keys<K: ByteKey>(keys: Seq<K>) -> bool {
    forall|i: int, j: int| 0 <= i < j < keys.len() ==> keys[i].key() != keys[j].key()
}

/// The set of key bytes in a list of keys.
pub open spec fn key_set<K: ByteKey>(keys: Seq<K>) -> Set<Seq<u8>> {
    Set::new(|k: Seq<u8>| has_key(keys, k))
}

/// A list of distinct keys names as many byte strings as it has entries.
pub proof fn lemma_key_set_len<K: ByteKey>(keys: Seq<K>)
    requires
        distinct_keys(keys),
    ensures
        key_set(keys).finite(),
        key_set(keys).len() == keys.len(),
    decreases keys.len(),
{
    if keys.len() == 0 {
        assert forall|k: Seq<u8>| !has_key(keys, k) by {
            if has_key(keys, k) {
                let i = choose|i: int| key_at(keys, i, k);
                assert(key_at(keys, i, k));
            }
        }
        assert(key_set(keys) =~= Set::<Seq<u8>>::empty());
    } else {
        let front = keys.drop_last();
        let last = keys.last().key();
        assert forall|i: int, j: int| 0 <= i < j < front.len() implies front[i].key()
            != front[j].key() by {
            assert(front[i] == keys[i]);
            assert(front[j] == keys[j]);
        }
        lemma_key_set_len(front);
        assert(!has_key(front, last)) by {
            if has_key(front, last) {
                let i = choose|i: int| key_at(front, i, last);
                assert(key_at(front, i, last));
                assert(front[i] == keys[i]);
                assert(keys[i].key() != keys[keys.len() - 1].key());
            }
        }
        assert forall|k: Seq<u8>| has_key(keys, k) <==> (has_key(front, k) || k == last) by {
            if has_key(keys, k) {
                let i = choose|i: int| key_at(keys, i, k);
                assert(key_at(keys, i, k));
                if i < front.len() {
                    assert(front[i] == keys[i]);
                    assert(key_at(front, i, k));
                }
            }
            if has_key(front, k) {
                let i = choose|i: int| key_at(front, i, k);
                assert(key_at(front, i, k));
                assert(front[i] == keys[i]);
                assert(key_at(keys, i, k));
            }
            if k == last {
                assert(key_at(keys, keys.len() - 1, k));
            }
        }
        assert(key_set(keys) =~= key_set(front).insert(last));
    }
}

/// At most one value per key.
pub struct KeyedList<K, V> {
    keys: Vec<K>,
    vals: Vec<V>,
}

impl<K: ByteKey, V> KeyedList<K, V> {
    /// Keys and values run in parallel and no key occurs twice.
    pub closed spec fn wf(&self) -> bool {
        &&& self.keys@.len() == self.vals@.len()
        &&& distinct_keys(self.keys@)
    }

    /// The list as a map from key bytes to values.
    pub closed spec fn map(&self) -> Map<Seq<u8>, V> {
        Map::new(
            |k: Seq<u8>| has_key(self.keys@, k),
            |k: Seq<u8>| self.vals@[choose|i: int| key_at(self.keys@, i, k)],
        )
    }

    /// The map says of every position what the position holds.
    proof fn lemma_positions(&self)
        requires
            self.wf(),
        ensures
            forall|i: int|
                0 <= i < self.keys@.len() ==> self.map().contains_key(
                    (#[trigger] self.keys@[i]).key(),
                ) && self.map()[self.keys@[i].key()] == self.vals@[i],
            forall|k: Seq<u8>|
                #[trigger] self.map().contains_key(k) ==> has_key(self.keys@, k),
            self.map().dom() == key_set(self.keys@),
    {
        let keys = self.keys@;
        assert forall|i: int| 0 <= i < keys.len() implies self.map().contains_key(
            (#[trigger] keys[i]).key(),
        ) && self.map()[keys[i].key()] == self.vals@[i] by {
            let k = keys[i].key();
            assert(key_at(keys, i, k));
            let j = choose|j: int| key_at(keys, j, k);
            if i < j {
                assert(keys[i].key() != keys[j].key());
            } else if j < i {
                assert(keys[j].key() != keys[i].key());
            }
        }
        assert(self.map().dom() =~= key_set(keys));
    }

    /// An empty list.
    pub fn new() -> (out: Self)
        ensures
            out.wf(),
            out.map() == Map::<Seq<u8>, V>::empty(),
    {
        let out = KeyedList { keys: Vec::new(), vals: Vec::new() };
        proof {
            assert forall|k: Seq<u8>| !has_key(out.keys@, k) by {
                if has_key(out.keys@, k) {
                    let i = choose|i: int| key_at(out.keys@, i, k);
                    assert(key_at(out.keys@, i, k));
                }
            }
            assert(out.map() =~= Map::<Seq<u8>, V>::empty());
        }
        out
    }

    /// Where `key` stands, if it is present.
    fn index_of(&self, key: &K) -> (r: Option<usize>)
        requires
            self.wf(),
        ensures
            match r {
                Some(i) => i < self.keys@.len() && self.keys@[i as int].key() == key.key(),
                None => !has_key(self.keys@, key.key()),
            },
    {
        let mut i: usize = 0;
        while i < self.keys.len()
            invariant
                i <= self.keys@.len(),
                forall|j: int| 0 <= j < i ==> self.keys@[j].key() != key.key(),
            decreases self.keys@.len() - i,
        {
            if self.keys[i].same_key(key) {
                return Some(i);
            }
            i += 1;
        }
        proof {
            if has_key(self.keys@, key.key()) {
                let j = choose|j: int| key_at(self.keys@, j, key.key());
                assert(key_at(self.keys@, j, key.key()));
            }
        }
        None
    }

    /// Whether `key` is present.
    pub fn contains(&self, key: &K) -> (r: bool)
        requires
            self.wf(),
        ensures
            r == self.map().contains_key(key.key()),
    {
        match self.index_of(key) {
            Some(i) => {
                assert(key_at(self.keys@, i as int, key.key()));
                true
            },
            None => false,
        }
    }

    /// The value stored under `key`.
    pub fn get(&self, key: &K) -> (r: Option<&V>)
        requires
            self.wf(),
        ensures
            match r {
                Some(v) => self.map().contains_key(key.key()) && *v == self.map()[key.key()],
                None => !self.map().contains_key(key.key()),
            },
    {
        proof {
            self.lemma_positions();
        }
        match self.index_of(key) {
            Some(i) => Some(&self.vals[i]),
            None => None,
        }
    }

    /// Stores `value` under `key` and hands back what was stored there.
    pub fn insert(&mut self, key: K, value: V) -> (r: Option<V>)
        requires
            old(self).wf(),
        ensures
            final(self).wf(),
            final(self).map() == old(self).map().insert(key.key(), value),
            match r {
                Some(v) => old(self).map().contains_key(key.key()) && v == old(self).map()[key.key()],
                None => !old(self).map().contains_key(key.key()),
            },
    {
        let ghost before = *self;
        proof {
            before.lemma_positions();
        }
        let r = self.remove(&key);
        let ghost mid = *self;
        self.keys.push(key);
        self.vals.push(value);
        proof {
            mid.lemma_positions();
            let keys = self.keys@;
            let n = mid.keys@.len() as int;
            assert(!has_key(mid.keys@, key.key()));
            assert forall|i: int, j: int| 0 <= i < j < keys.len() implies keys[i].key()
                != keys[j].key() by {
                assert(keys[i] == mid.keys@[i]);
                if j < n {
                    assert(keys[j] == mid.keys@[j]);
                } else {
                    assert(key_at(mid.keys@, i, keys[i].key()));
                }
            }
            self.lemma_positions();
            let want = before.map().insert(key.key(), value);
            assert forall|k: Seq<u8>| self.map().contains_key(k) <==> want.contains_key(k) by {
                if self.map().contains_key(k) {
                    let i = choose|i: int| key_at(keys, i, k);
                    assert(key_at(keys, i, k));
                    if i < n {
                        assert(keys[i] == mid.keys@[i]);
                        assert(key_at(mid.keys@, i, k));
                    }
                }
                if want.contains_key(k) && k != key.key() {
                    assert(mid.map().contains_key(k));
                    let i = choose|i: int| key_at(mid.keys@, i, k);
                    assert(key_at(mid.keys@, i, k));
                    assert(keys[i] == mid.keys@[i]);
                    assert(key_at(keys, i, k));
                }
                if k == key.key() {
                    assert(key_at(keys, n, k));
                }
            }
            assert forall|k: Seq<u8>| self.map().contains_key(k) implies self.map()[k]
                == want[k] by {
                let i = choose|i: int| key_at(keys, i, k);
                assert(key_at(keys, i, k));
                assert(self.map()[keys[i].key()] == self.vals@[i]);
                if i < n {
                    assert(keys[i] == mid.keys@[i]);
                    assert(mid.map()[mid.keys@[i].key()] == mid.vals@[i]);
                }
            }
            assert(self.map() =~= want);
        }
        r
    }

    /// Takes `key` and its value out of the list.
    pub fn remove(&mut self, key: &K) -> (r: Option<V>)
        requires
            old(self).wf(),
        ensures
            final(self).wf(),
            final(self).map() == old(self).map().remove(key.key()),
            match r {
                Some(v) => old(self).map().contains_key(key.key()) && v == old(self).map()[key.key()],
                None => !old(self).map().contains_key(key.key()),
            },
    {
        let ghost before = *self;
        proof {
            before.lemma_positions();
        }
        match self.index_of(key) {
            None => {
                proof {
                    assert(self.map() =~= self.map().remove(key.key()));
                }
                None
            },
            Some(i) => {
                self.keys.remove(i);
                let v = self.vals.remove(i);
                proof {
                    let keys0 = before.keys@;
                    let keys = self.keys@;
                    assert forall|x: int, y: int| 0 <= x < y < keys.len() implies keys[x].key()
                        != keys[y].key() by {
                        let x0 = if x < i { x } else { x + 1 };
                        let y0 = if y < i { y } else { y + 1 };
                        assert(keys[x] == keys0[x0]);
                        assert(keys[y] == keys0[y0]);
                    }
                    self.lemma_positions();
                    let want = before.map().remove(key.key());
                    assert forall|k: Seq<u8>| self.map().contains_key(k) <==> want.contains_key(
                        k,
                    ) by {
                        if self.map().contains_key(k) {
                            let x = choose|x: int| key_at(keys, x, k);
                            assert(key_at(keys, x, k));
                            let x0 = if x < i { x } else { x + 1 };
                            assert(keys[x] == keys0[x0]);
                            assert(key_at(keys0, x0, k));
                            if x0 < i {
                                assert(keys0[x0].key() != keys0[i as int].key());
                            } else {
                                assert(keys0[i as int].key() != keys0[x0].key());
                            }
                        }
                        if want.contains_key(k) {
                            let x0 = choose|x0: int| key_at(keys0, x0, k);
                            assert(key_at(keys0, x0, k));
                            let x = if x0 < i { x0 } else { x0 - 1 };
                            assert(keys[x] == keys0[x0]);
                            assert(key_at(keys, x, k));
                        }
                    }
                    assert forall|k: Seq<u8>| self.map().contains_key(k) implies self.map()[k]
                        == want[k] by {
                        let x = choose|x: int| key_at(keys, x, k);
                        assert(key_at(keys, x, k));
                        let x0 = if x < i { x } else { x + 1 };
                        assert(keys[x] == keys0[x0]);
                        assert(self.map()[keys[x].key()] == self.vals@[x]);
                        assert(before.map()[keys0[x0].key()] == before.vals@[x0]);
                    }
                    assert(self.map() =~= want);
                }
                Some(v)
            },
        }
    }

    /// Number of keys.
    pub fn len(&self) -> (n: usize)
        requires
            self.wf(),
        ensures
            self.map().dom().finite(),
            n == self.map().dom().len(),
    {
        proof {
            self.lemma_positions();
            lemma_key_set_len(self.keys@);
        }
        self.keys.len()
    }
}

impl<K: ByteKey + Copy, V> KeyedList<K, V> {
    /// The keys, each once.
    pub fn keys(&self) -> (out: Vec<K>)
        requires
            self.wf(),
        ensures
            distinct_keys(out@),
            key_set(out@) == self.map().dom(),
    {
        let mut out: Vec<K> = Vec::new();
        let mut i: usize = 0;
        while i < self.keys.len()
            invariant
                i <= self.keys@.len(),
                out@ == self.keys@.take(i as int),
            decreases self.keys@.len() - i,
        {
            out.push(self.keys[i]);
            proof {
                assert(out@ =~= self.keys@.take(i + 1));
            }
            i += 1;
        }
        proof {
            assert(out@ =~= self.keys@);
            self.lemma_positions();
        }
        out
    }
}

} // verus!
