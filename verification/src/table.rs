//! The store's tables: maps and sets keyed by text (a jid, a message id),
//! kept in insertion order with no key twice.
use vstd::prelude::*;
use crate::text::str_eq;

verus! {

/// A map from text keys to values.
pub struct Table<V> {
    entries: Vec<(String, V)>,
}

/// The keys of a sequence of entries, as text.
pub open spec fn keys_of<V>(entries: Seq<(String, V)>) -> Seq<Seq<char>> {
    entries.map_values(|e: (String, V)| e.0@)
}

/// The map that a sequence of entries with distinct keys stands for.
pub open spec fn map_of<V>(entries: Seq<(String, V)>) -> Map<Seq<char>, V> {
    Map::new(
        |k: Seq<char>| keys_of(entries).contains(k),
        |k: Seq<char>| entries[keys_of(entries).index_of(k)].1,
    )
}

/// In a sequence without repeats, the index of an element is where it is.
proof fn lemma_index_of_unique(s: Seq<Seq<char>>, j: int)
    requires
        s.no_duplicates(),
        0 <= j < s.len(),
    ensures
        s.index_of(s[j]) == j,
        s.contains(s[j]),
{
    assert(s.contains(s[j]));
}

impl<V> View for Table<V> {
    type V = Map<Seq<char>, V>;

    closed spec fn view(&self) -> Map<Seq<char>, V> {
        map_of(self.entries@)
    }
}

impl<V> Table<V> {
    #[verifier::type_invariant]
    closed spec fn distinct(&self) -> bool {
        keys_of(self.entries@).no_duplicates()
    }

    /// The keys, in insertion order.
    pub closed spec fn keys(&self) -> Seq<Seq<char>> {
        keys_of(self.entries@)
    }

    /// The values, in the order of `keys`.
    pub closed spec fn values(&self) -> Seq<V> {
        self.entries@.map_values(|e: (String, V)| e.1)
    }

    pub fn new() -> (r: Self)
        ensures
            r@ == Map::<Seq<char>, V>::empty(),
            r.keys() == Seq::<Seq<char>>::empty(),
    {
        let r = Table { entries: Vec::new() };
        assert(r@ =~= Map::<Seq<char>, V>::empty());
        assert(r.keys() =~= Seq::<Seq<char>>::empty());
        r
    }

    /// The number of keys; the map lists each of them once, with its value
    /// beside it.
    pub fn len(&self) -> (n: usize)
        ensures
            n == self.keys().len(),
            n == self.values().len(),
            self.keys().no_duplicates(),
            forall|i: int|
                0 <= i < self.keys().len() ==> #[trigger] self@.contains_key(self.keys()[i])
                    && self@[self.keys()[i]] == self.values()[i],
            forall|k: Seq<char>| #[trigger]
                self@.contains_key(k) ==> exists|i: int|
                    0 <= i < self.keys().len() && self.keys()[i] == k,
            self@.dom().finite(),
            self@.dom().len() == n,
    {
        proof {
            use_type_invariant(self);
            let ks = self.keys();
            assert forall|i: int| 0 <= i < ks.len() implies #[trigger] self@.contains_key(ks[i])
                && self@[ks[i]] == self.values()[i] by {
                lemma_index_of_unique(ks, i);
            }
            assert(self@.dom() =~= ks.to_set());
            ks.unique_seq_to_set();
        }
        self.entries.len()
    }

    /// Where `k` sits, if it is a key.
    fn position(&self, k: &str) -> (r: Option<usize>)
        ensures
            match r {
                Some(i) => i < self.entries@.len() && self.entries@[i as int].0@ == k@
                    && self@.contains_key(k@),
                None => !self@.contains_key(k@),
            },
    {
        let n = self.entries.len();
        let mut i: usize = 0;
        while i < n
            invariant
                n == self.entries@.len(),
                i <= n,
                forall|j: int| 0 <= j < i ==> #[trigger] self.entries@[j].0@ != k@,
            decreases n - i,
        {
            if str_eq(self.entries[i].0.as_str(), k) {
                assert(keys_of(self.entries@)[i as int] == k@);
                return Some(i);
            }
            i = i + 1;
        }
        assert(!keys_of(self.entries@).contains(k@)) by {
            if keys_of(self.entries@).contains(k@) {
                let j = choose|j: int| 0 <= j < n && keys_of(self.entries@)[j] == k@;
                assert(self.entries@[j].0@ == k@);
            }
        }
        None
    }

    pub fn contains_key(&self, k: &str) -> (r: bool)
        ensures
            r == self@.contains_key(k@),
    {
        self.position(k).is_some()
    }

    pub fn get(&self, k: &str) -> (r: Option<&V>)
        ensures
            match r {
                Some(v) => self@.contains_key(k@) && *v == self@[k@],
                None => !self@.contains_key(k@),
            },
    {
        proof {
            use_type_invariant(self);
        }
        match self.position(k) {
            Some(i) => {
                proof {
                    lemma_index_of_unique(keys_of(self.entries@), i as int);
                }
                Some(&self.entries[i].1)
            },
            None => None,
        }
    }

    /// The key at `i` in insertion order.
    pub fn key_at(&self, i: usize) -> (r: &String)
        requires
            i < self.keys().len(),
        ensures
            r@ == self.keys()[i as int],
    {
        &self.entries[i].0
    }

    /// The value at `i` in insertion order.
    pub fn value_at(&self, i: usize) -> (r: &V)
        requires
            i < self.keys().len(),
        ensures
            *r == self.values()[i as int],
    {
        &self.entries[i].1
    }

    /// Sets `k` to `v`, in place when `k` is already a key, else at the end.
    pub fn insert(&mut self, k: String, v: V)
        ensures
            final(self)@ == old(self)@.insert(k@, v),
            old(self)@.contains_key(k@) ==> final(self).keys() == old(self).keys(),
            !old(self)@.contains_key(k@) ==> final(self).keys() == old(self).keys().push(k@),
    {
        proof {
            use_type_invariant(&*self);
        }
        let ghost old_entries = self.entries@;
        let ghost ks = keys_of(old_entries);
        match self.position(k.as_str()) {
            Some(i) => {
                let mut entries = Vec::new();
                std::mem::swap(&mut entries, &mut self.entries);
                entries.set(i, (k, v));
                proof {
                    let ne = entries@;
                    assert(keys_of(ne) =~= ks);
                    assert forall|kk: Seq<char>| #[trigger] map_of(ne).contains_key(kk)
                        == old_entries.map_values(|e: (String, V)| e.0@).contains(kk) by {}
                    assert forall|kk: Seq<char>| map_of(ne).contains_key(kk) implies map_of(ne)[kk]
                        == map_of(old_entries).insert(k@, v)[kk] by {
                        let j = ks.index_of(kk);
                        assert(0 <= j < ks.len() && ks[j] == kk);
                        lemma_index_of_unique(ks, j);
                        lemma_index_of_unique(ks, i as int);
                    }
                    assert(map_of(ne) =~= map_of(old_entries).insert(k@, v));
                }
                self.entries = entries;
            },
            None => {
                let ghost kv = k@;
                let mut entries = Vec::new();
                std::mem::swap(&mut entries, &mut self.entries);
                entries.push((k, v));
                proof {
                    let ne = entries@;
                    assert(keys_of(ne) =~= ks.push(kv));
                    assert(keys_of(ne).no_duplicates()) by {
                        assert forall|a: int, b: int|
                            0 <= a < keys_of(ne).len() && 0 <= b < keys_of(ne).len() && a != b
                                implies keys_of(ne)[a] != keys_of(ne)[b] by {
                            if a < ks.len() && b < ks.len() {
                            } else if a < ks.len() {
                                assert(ks.contains(ks[a]));
                            } else {
                                assert(ks.contains(ks[b]));
                            }
                        }
                    }
                    assert forall|kk: Seq<char>| map_of(ne).contains_key(kk) implies map_of(ne)[kk]
                        == map_of(old_entries).insert(kv, v)[kk] by {
                        let j = keys_of(ne).index_of(kk);
                        lemma_index_of_unique(keys_of(ne), j);
                        if kk != kv {
                            assert(j < ks.len());
                            lemma_index_of_unique(ks, j);
                        }
                    }
                    assert forall|kk: Seq<char>| #[trigger] map_of(ne).contains_key(kk)
                        == map_of(old_entries).insert(kv, v).contains_key(kk) by {
                        assert(keys_of(ne)[ks.len() as int] == kv);
                        if kk != kv && map_of(ne).contains_key(kk) {
                            let j = choose|j: int| 0 <= j < keys_of(ne).len() && keys_of(ne)[j] == kk;
                            assert(j < ks.len());
                            assert(ks[j] == kk);
                        }
                        if map_of(old_entries).contains_key(kk) {
                            let j = choose|j: int| 0 <= j < ks.len() && ks[j] == kk;
                            assert(keys_of(ne)[j] == kk);
                        }
                    }
                    assert(map_of(ne) =~= map_of(old_entries).insert(kv, v));
                }
                self.entries = entries;
            },
        }
    }

    /// Takes `k` out, handing back its value.
    pub fn remove(&mut self, k: &str) -> (r: Option<V>)
        ensures
            final(self)@ == old(self)@.remove(k@),
            r == (if old(self)@.contains_key(k@) {
                Some(old(self)@[k@])
            } else {
                None::<V>
            }),
    {
        proof {
            use_type_invariant(&*self);
        }
        let ghost old_entries = self.entries@;
        let ghost ks = keys_of(old_entries);
        match self.position(k) {
            Some(i) => {
                let mut entries = Vec::new();
                std::mem::swap(&mut entries, &mut self.entries);
                let (_, v) = entries.remove(i);
                proof {
                    let ne = entries@;
                    lemma_index_of_unique(ks, i as int);
                    assert(keys_of(ne) =~= ks.remove(i as int));
                    assert(keys_of(ne).no_duplicates()) by {
                        assert forall|a: int, b: int|
                            0 <= a < keys_of(ne).len() && 0 <= b < keys_of(ne).len() && a != b
                                implies keys_of(ne)[a] != keys_of(ne)[b] by {
                            let oa = if a < i { a } else { a + 1 };
                            let ob = if b < i { b } else { b + 1 };
                            assert(keys_of(ne)[a] == ks[oa]);
                            assert(keys_of(ne)[b] == ks[ob]);
                        }
                    }
                    assert forall|kk: Seq<char>| #[trigger] map_of(ne).contains_key(kk)
                        == map_of(old_entries).remove(k@).contains_key(kk) by {
                        if map_of(ne).contains_key(kk) {
                            let j = choose|j: int| 0 <= j < keys_of(ne).len() && keys_of(ne)[j] == kk;
                            let oj = if j < i { j } else { j + 1 };
                            assert(ks[oj] == kk);
                            assert(oj != i);
                        }
                        if map_of(old_entries).remove(k@).contains_key(kk) {
                            let j = choose|j: int| 0 <= j < ks.len() && ks[j] == kk;
                            assert(j != i);
                            let nj = if j < i { j } else { j - 1 };
                            assert(keys_of(ne)[nj] == kk);
                        }
                    }
                    assert forall|kk: Seq<char>| map_of(ne).contains_key(kk) implies map_of(ne)[kk]
                        == map_of(old_entries).remove(k@)[kk] by {
                        let j = keys_of(ne).index_of(kk);
                        lemma_index_of_unique(keys_of(ne), j);
                        let oj = if j < i { j } else { j + 1 };
                        assert(ks[oj] == kk);
                        lemma_index_of_unique(ks, oj);
                    }
                    assert(map_of(ne) =~= map_of(old_entries).remove(k@));
                }
                self.entries = entries;
                Some(v)
            },
            None => {
                proof {
                    assert(map_of(old_entries) =~= map_of(old_entries).remove(k@));
                }
                None
            },
        }
    }
}

impl Table<String> {
    /// A copy with the same keys and texts.
    pub fn copy(&self) -> (r: Self)
        ensures
            r@ == self@,
    {
        let n = self.len();
        let mut r: Table<String> = Table::new();
        let mut i: usize = 0;
        while i < n
            invariant
                n == self.keys().len(),
                i <= n,
                self.keys().no_duplicates(),
                forall|j: int|
                    0 <= j < self.keys().len() ==> #[trigger] self@.contains_key(self.keys()[j])
                        && self@[self.keys()[j]] == self.values()[j],
                forall|k: Seq<char>| #[trigger]
                    self@.contains_key(k) ==> exists|j: int|
                        0 <= j < self.keys().len() && self.keys()[j] == k,
                r@ == Map::new(
                    |k: Seq<char>| self.keys().take(i as int).contains(k),
                    |k: Seq<char>| self@[k],
                ),
            decreases n - i,
        {
            let k = self.key_at(i).clone();
            let v = self.value_at(i).clone();
            let ghost before = r@;
            r.insert(k, v);
            proof {
                let ks = self.keys();
                let t0 = ks.take(i as int);
                let t1 = ks.take(i + 1);
                assert(t1 =~= t0.push(ks[i as int]));
                assert forall|kk: Seq<char>| #[trigger] t1.contains(kk) == (t0.contains(kk) || kk == ks[i as int]) by {
                    if t1.contains(kk) && kk != ks[i as int] {
                        let w = choose|w: int| 0 <= w < t1.len() && t1[w] == kk;
                        assert(t0[w] == kk);
                    }
                    if t0.contains(kk) {
                        let w = choose|w: int| 0 <= w < t0.len() && t0[w] == kk;
                        assert(t1[w] == kk);
                    }
                    assert(t1[i as int] == ks[i as int]);
                }
                assert(r@ =~= Map::new(
                    |k: Seq<char>| self.keys().take(i + 1).contains(k),
                    |k: Seq<char>| self@[k],
                ));
            }
            i = i + 1;
        }
        proof {
            let ks = self.keys();
            assert(ks.take(n as int) =~= ks);
            assert forall|kk: Seq<char>| #[trigger] r@.contains_key(kk) == self@.contains_key(kk) by {
                if self@.contains_key(kk) {
                    let w = choose|w: int| 0 <= w < ks.len() && ks[w] == kk;
                    assert(ks.contains(kk));
                }
            }
            assert(r@ =~= self@);
        }
        r
    }
}

/// A set of text keys.
pub struct KeySet {
    items: Table<()>,
}

impl View for KeySet {
    type V = Set<Seq<char>>;

    closed spec fn view(&self) -> Set<Seq<char>> {
        self.items@.dom()
    }
}

impl KeySet {
    pub fn new() -> (r: Self)
        ensures
            r@ == Set::<Seq<char>>::empty(),
    {
        let r = KeySet { items: Table::new() };
        assert(r@ =~= Set::<Seq<char>>::empty());
        r
    }

    pub fn contains(&self, k: &str) -> (r: bool)
        ensures
            r == self@.contains(k@),
    {
        self.items.contains_key(k)
    }

    /// Adds `k`; true when it was not there yet.
    pub fn insert(&mut self, k: String) -> (r: bool)
        ensures
            final(self)@ == old(self)@.insert(k@),
            r == !old(self)@.contains(k@),
    {
        let fresh = !self.items.contains_key(k.as_str());
        self.items.insert(k, ());
        proof {
            assert(self@ =~= old(self)@.insert(k@));
        }
        fresh
    }

    /// The keys, each once, in the order they were added.
    pub fn to_vec(&self) -> (r: Vec<String>)
        ensures
            r@.map_values(|s: String| s@).no_duplicates(),
            r@.map_values(|s: String| s@).to_set() == self@,
    {
        let n = self.items.len();
        let ghost ks = self.items.keys();
        let mut out: Vec<String> = Vec::new();
        let mut i: usize = 0;
        while i < n
            invariant
                n == ks.len(),
                ks == self.items.keys(),
                i <= n,
                out@.map_values(|s: String| s@) =~= ks.take(i as int),
            decreases n - i,
        {
            let ghost prev = out@;
            let k = self.items.key_at(i).clone();
            out.push(k);
            assert(out@ =~= prev.push(k));
            assert(ks.take(i + 1) =~= ks.take(i as int).push(ks[i as int]));
            i = i + 1;
        }
        proof {
            assert(ks.take(n as int) =~= ks);
            assert(ks.to_set() =~= self@) by {
                assert forall|k: Seq<char>| ks.to_set().contains(k) implies self@.contains(k) by {
                    let j = ks.index_of(k);
                    assert(self.items@.contains_key(ks[j]));
                }
                assert forall|k: Seq<char>| self@.contains(k) implies ks.to_set().contains(k) by {
                    assert(self.items@.contains_key(k));
                    let j = choose|j: int| 0 <= j < ks.len() && ks[j] == k;
                    assert(ks.contains(k));
                }
            }
        }
        out
    }

    /// Takes `k` out; true when it was there.
    pub fn remove(&mut self, k: &str) -> (r: bool)
        ensures
            final(self)@ == old(self)@.remove(k@),
            r == old(self)@.contains(k@),
    {
        let r = self.items.remove(k).is_some();
        proof {
            assert(self@ =~= old(self)@.remove(k@));
        }
        r
    }
}

} // verus!
