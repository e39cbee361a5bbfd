//! A map keyed by strings that remembers its keys in insertion order.
//!
//! Lookups go through a `StringHashMap` index; the keys and values are kept
//! side by side in two vectors, so the map can also be walked by position.
use vstd::hash_map::StringHashMap;
use vstd::prelude::*;

verus! {

/// A map from strings to values.
///
/// Its view is a `Map<Seq<char>, V>`.  Beside the view, `key_seq` gives the
/// keys in the order in which they were first inserted (a removal moves the
/// last key into the freed place).
pub struct StrMap<V> {
    index: StringHashMap<usize>,
    keys: Vec<String>,
    vals: Vec<V>,
}

impl<V> StrMap<V> {
    #[verifier::type_invariant]
    closed spec fn inv(self) -> bool {
        &&& self.keys@.len() == self.vals@.len()
        &&& forall|i: int|
            0 <= i < self.keys@.len() ==> {
                &&& #[trigger] self.index@.contains_key(self.keys@[i]@)
                &&& self.index@[self.keys@[i]@] == i
            }
        &&& forall|k: Seq<char>|
            #[trigger] self.index@.contains_key(k) ==> {
                &&& self.index@[k] < self.keys@.len()
                &&& self.keys@[self.index@[k] as int]@ == k
            }
    }

    /// The keys, in their order of storage.
    pub closed spec fn key_seq(self) -> Seq<Seq<char>> {
        self.keys@.map_values(|k: String| k@)
    }

    /// Where a key is stored.
    pub closed spec fn position_of(self, k: Seq<char>) -> int {
        self.index@[k] as int
    }

    pub closed spec fn spec_len(self) -> nat {
        self.keys@.len()
    }

    /// Facts that the invariant gives about keys, positions and the view.
    /// It computes nothing; a caller calls it to learn them.
    pub fn layout_facts(&self)
        ensures
            self.layout(),
    {
        proof {
            use_type_invariant(self);
            self.lemma_layout();
        }
    }

    /// How keys, positions and the view fit together.
    pub open spec fn layout(self) -> bool {
        &&& self.key_seq().len() == self.spec_len()
        &&& self.spec_len() <= usize::MAX
        &&& self@.dom().finite()
        &&& self@.len() == self.spec_len()
        &&& forall|i: int|
            0 <= i < self.spec_len() ==> {
                &&& #[trigger] self@.contains_key(self.key_seq()[i])
                &&& self.position_of(self.key_seq()[i]) == i
            }
        &&& forall|k: Seq<char>|
            #[trigger] self@.contains_key(k) ==> {
                &&& 0 <= self.position_of(k) < self.spec_len()
                &&& self.key_seq()[self.position_of(k)] == k
            }
        &&& forall|i: int, j: int|
            0 <= i < self.spec_len() && 0 <= j < self.spec_len() && i != j
                ==> #[trigger] self.key_seq()[i] != #[trigger] self.key_seq()[j]
    }

    proof fn lemma_layout(self)
        requires
            self.inv(),
        ensures
            self.layout(),
    {
        assert forall|i: int, j: int|
            0 <= i < self.spec_len() && 0 <= j < self.spec_len() && i != j
                implies #[trigger] self.key_seq()[i] != #[trigger] self.key_seq()[j] by {
            assert(self.index@.contains_key(self.keys@[i]@));
            assert(self.index@.contains_key(self.keys@[j]@));
        }
        self.lemma_len();
        assert(self.keys.len() == self.keys@.len());
    }

    /// An empty map.
    pub fn new() -> (m: Self)
        ensures
            m@ == Map::<Seq<char>, V>::empty(),
            m.key_seq() == Seq::<Seq<char>>::empty(),
    {
        let m = StrMap { index: StringHashMap::new(), keys: Vec::new(), vals: Vec::new() };
        assert(m@ =~= Map::<Seq<char>, V>::empty());
        assert(m.key_seq() =~= Seq::<Seq<char>>::empty());
        m
    }

    /// The number of entries.
    pub fn len(&self) -> (n: usize)
        ensures
            n == self.spec_len(),
            n == self@.len(),
    {
        proof {
            use_type_invariant(self);
            self.lemma_len();
        }
        self.keys.len()
    }

    proof fn lemma_len(self)
        requires
            self.inv(),
        ensures
            self@.len() == self.spec_len(),
            self@.dom().finite(),
    {
        let f = |i: int| self.keys@[i]@;
        let dom = Set::new(|i: int| 0 <= i < self.keys@.len());
        vstd::set_lib::lemma_int_range(0, self.keys@.len() as int);
        assert(dom =~= vstd::set_lib::set_int_range(0, self.keys@.len() as int));
        assert forall|a: int, b: int| dom.contains(a) && dom.contains(b) && f(a) == f(b) implies a
            == b by {
            assert(self.index@.contains_key(self.keys@[a]@));
            assert(self.index@.contains_key(self.keys@[b]@));
        }
        assert(vstd::relations::injective_on(f, dom));
        vstd::set_lib::lemma_map_size(dom, dom.map(f), f);
        assert(dom.map(f) =~= self@.dom()) by {
            assert forall|k: Seq<char>| self@.dom().contains(k) implies dom.map(f).contains(k) by {
                assert(self.index@.contains_key(k));
                assert(dom.contains(self.index@[k] as int));
                assert(f(self.index@[k] as int) == k);
            }
        }
    }

    /// Whether `k` is a key.
    pub fn contains_key(&self, k: &str) -> (b: bool)
        ensures
            b == self@.contains_key(k@),
    {
        self.index.contains_key(k)
    }

    /// The value stored under `k`, if any.
    pub fn get(&self, k: &str) -> (r: Option<&V>)
        ensures
            match r {
                Some(v) => self@.contains_key(k@) && *v == self@[k@],
                None => !self@.contains_key(k@),
            },
    {
        proof {
            use_type_invariant(self);
        }
        match self.index.get(k) {
            Some(i) => Some(&self.vals[*i]),
            None => None,
        }
    }

    /// The position at which `k` is stored, if it is a key.
    pub fn position(&self, k: &str) -> (r: Option<usize>)
        ensures
            match r {
                Some(i) => self@.contains_key(k@) && i == self.position_of(k@),
                None => !self@.contains_key(k@),
            },
    {
        match self.index.get(k) {
            Some(i) => Some(*i),
            None => None,
        }
    }

    /// The key stored at position `i`.
    pub fn key_at(&self, i: usize) -> (k: &String)
        requires
            i < self.spec_len(),
        ensures
            k@ == self.key_seq()[i as int],
    {
        proof {
            use_type_invariant(self);
        }
        &self.keys[i]
    }

    /// The value stored at position `i`.
    pub fn value_at(&self, i: usize) -> (v: &V)
        requires
            i < self.spec_len(),
        ensures
            *v == self@[self.key_seq()[i as int]],
    {
        proof {
            use_type_invariant(self);
        }
        &self.vals[i]
    }

    /// Puts `v` under `k`, replacing the value that was there.
    pub fn insert(&mut self, k: String, v: V)
        ensures
            final(self)@ == old(self)@.insert(k@, v),
            old(self)@.contains_key(k@) ==> final(self).key_seq() == old(self).key_seq(),
            !old(self)@.contains_key(k@) ==> final(self).key_seq() == old(self).key_seq().push(
                k@,
            ),
    {
        proof {
            use_type_invariant(&*self);
        }
        let ghost old_map = self@;
        let ghost old_keys = self.key_seq();
        let mut tmp = StrMap::new();
        std::mem::swap(&mut tmp, self);
        let StrMap { mut index, mut keys, mut vals } = tmp;
        match index.get(k.as_str()) {
            Some(i) => {
                let i = *i;
                vals[i] = v;
                let m = StrMap { index, keys, vals };
                assert(m@ =~= old_map.insert(k@, v));
                assert(m.key_seq() =~= old_keys);
                *self = m;
            },
            None => {
                let n = keys.len();
                let kc = k.clone();
                index.insert(kc, n);
                keys.push(k);
                vals.push(v);
                let m = StrMap { index, keys, vals };
                assert(m@ =~= old_map.insert(k@, v));
                assert(m.key_seq() =~= old_keys.push(k@));
                *self = m;
            },
        }
    }

    /// Takes the value stored under `k` out of the map.
    pub fn remove(&mut self, k: &str) -> (r: Option<V>)
        ensures
            final(self)@ == old(self)@.remove(k@),
            !old(self)@.contains_key(k@) ==> final(self).key_seq() == old(self).key_seq(),
            old(self)@.contains_key(k@) ==> final(self).key_seq() == old(self).key_seq().update(
                old(self).position_of(k@),
                old(self).key_seq().last(),
            ).drop_last(),
            match r {
                Some(v) => old(self)@.contains_key(k@) && v == old(self)@[k@],
                None => !old(self)@.contains_key(k@),
            },
    {
        proof {
            use_type_invariant(&*self);
        }
        let ghost old_map = self@;
        let ghost old_key_seq = self.key_seq();
        let mut tmp = StrMap::new();
        std::mem::swap(&mut tmp, self);
        let StrMap { mut index, mut keys, mut vals } = tmp;
        let found = match index.get(k) {
            Some(i) => Some(*i),
            None => None,
        };
        match found {
            Some(i) => {
                let ghost old_keys = keys@;
                let ghost old_vals = vals@;
                let ghost old_index = index@;
                let last = keys.len() - 1;
                index.remove(k);
                let _ = keys.swap_remove(i);
                let v = vals.swap_remove(i);
                if i < last {
                    let moved = keys[i].clone();
                    index.insert(moved, i);
                }
                assert forall|j: int| 0 <= j < keys@.len() implies {
                    &&& #[trigger] index@.contains_key(keys@[j]@)
                    &&& index@[keys@[j]@] == j
                } by {
                    if j != i {
                        assert(old_index.contains_key(old_keys[j]@));
                        assert(old_keys[j]@ != k@);
                        assert(old_keys[last as int]@ != old_keys[j]@ || j == last) by {
                            assert(old_index.contains_key(old_keys[last as int]@));
                        }
                    }
                }
                assert forall|kk: Seq<char>| #[trigger] index@.contains_key(kk) implies {
                    &&& index@[kk] < keys@.len()
                    &&& keys@[index@[kk] as int]@ == kk
                } by {
                    if i < last && kk == old_keys[last as int]@ {
                    } else {
                        assert(old_index.contains_key(kk));
                        assert(old_index[kk] != i);
                        if old_index[kk] == last {
                            assert(old_keys[last as int]@ == kk);
                        }
                    }
                }
                let m = StrMap { index, keys, vals };
                assert(m@ =~= old_map.remove(k@)) by {
                    assert forall|kk: Seq<char>| #[trigger] m@.contains_key(kk) implies m@[kk]
                        == old_map[kk] by {
                        if i < last && kk == old_keys[last as int]@ {
                            assert(old_index.contains_key(kk));
                        } else {
                            assert(old_index.contains_key(kk));
                        }
                    }
                }
                assert(m.key_seq() =~= old_key_seq.update(i as int, old_key_seq.last()).drop_last());
                *self = m;
                Some(v)
            },
            None => {
                let m = StrMap { index, keys, vals };
                assert(m@ =~= old_map.remove(k@));
                assert(m.key_seq() =~= old_key_seq);
                *self = m;
                None
            },
        }
    }
}

impl<T> StrMap<Vec<T>> {
    /// Appends `item` to the list stored under `k`, starting an empty list
    /// when `k` is not a key yet.
    pub fn push_to(&mut self, k: String, item: T)
        ensures
            final(self)@.dom() == old(self)@.dom().insert(k@),
            final(self)@[k@]@ == (if old(self)@.contains_key(k@) {
                old(self)@[k@]@
            } else {
                Seq::<T>::empty()
            }).push(item),
            forall|kk: Seq<char>|
                kk != k@ && #[trigger] old(self)@.contains_key(kk) ==> final(self)@[kk] == old(
                    self,
                )@[kk],
            old(self)@.contains_key(k@) ==> final(self).key_seq() == old(self).key_seq(),
            !old(self)@.contains_key(k@) ==> final(self).key_seq() == old(self).key_seq().push(
                k@,
            ),
    {
        proof {
            use_type_invariant(&*self);
        }
        let ghost old_map = self@;
        let ghost old_keys = self.key_seq();
        let mut tmp = StrMap::new();
        std::mem::swap(&mut tmp, self);
        let StrMap { mut index, mut keys, mut vals } = tmp;
        match index.get(k.as_str()) {
            Some(i) => {
                let i = *i;
                vals[i].push(item);
                let m = StrMap { index, keys, vals };
                assert(m@.dom() =~= old_map.dom().insert(k@));
                assert(m.key_seq() =~= old_keys);
                *self = m;
            },
            None => {
                let n = keys.len();
                let kc = k.clone();
                index.insert(kc, n);
                keys.push(k);
                let mut fresh = Vec::new();
                fresh.push(item);
                vals.push(fresh);
                let m = StrMap { index, keys, vals };
                assert(m@.dom() =~= old_map.dom().insert(k@));
                assert(m.key_seq() =~= old_keys.push(k@));
                assert(m@[k@]@ =~= Seq::<T>::empty().push(item));
                *self = m;
            },
        }
    }
}

impl Clone for StrMap<String> {
    /// A copy with the same keys, in the same order, and equal values.
    fn clone(&self) -> (r: Self)
        ensures
            r@ == self@,
            r.key_seq() == self.key_seq(),
    {
        proof {
            use_type_invariant(self);
        }
        let mut r = StrMap::new();
        let n = self.keys.len();
        let mut i: usize = 0;
        while i < n
            invariant
                n == self.keys@.len(),
                self.inv(),
                i <= n,
                r.key_seq() == self.key_seq().take(i as int),
                r@.dom() == Set::new(|k: Seq<char>| self.key_seq().take(i as int).contains(k)),
                forall|k: Seq<char>| #[trigger] r@.contains_key(k) ==> r@[k] == self@[k],
            decreases n - i,
        {
            proof {
                self.lemma_layout();
            }
            r.layout_facts();
            let k = self.keys[i].clone();
            let v = self.vals[i].clone();
            assert(self.index@.contains_key(self.keys@[i as int]@));
            assert(self@[k@] == v);
            let ghost before = r@.dom();
            assert(!r@.contains_key(k@)) by {
                if r@.contains_key(k@) {
                    let j = choose|j: int| 0 <= j < i && self.key_seq().take(i as int)[j] == k@;
                    assert(self.key_seq()[j] == self.key_seq()[i as int]);
                }
            }
            r.insert(k, v);
            i = i + 1;
            assert(r@.dom() =~= Set::new(|k: Seq<char>| self.key_seq().take(i as int).contains(k))) by {
                let t = self.key_seq().take(i as int);
                let t0 = self.key_seq().take(i - 1);
                assert(t =~= t0.push(self.key_seq()[i - 1]));
                assert forall|kk: Seq<char>| t.contains(kk) <==> (t0.contains(kk) || kk == self.key_seq()[i - 1]) by {
                    if t.contains(kk) {
                        let j = choose|j: int| 0 <= j < t.len() && t[j] == kk;
                        if j < i - 1 {
                            assert(t0[j] == kk);
                        }
                    }
                    if t0.contains(kk) {
                        let j = choose|j: int| 0 <= j < t0.len() && t0[j] == kk;
                        assert(t[j] == kk);
                    }
                    if kk == self.key_seq()[i - 1] {
                        assert(t[i - 1] == kk);
                    }
                }
            }
            assert(r.key_seq() =~= self.key_seq().take(i as int));
        }
        proof {
            self.lemma_layout();
        }
        assert(self.key_seq().take(n as int) =~= self.key_seq());
        assert(r@ =~= self@) by {
            assert forall|k: Seq<char>| self@.contains_key(k) implies r@.contains_key(k) by {
                assert(self.key_seq()[self.position_of(k)] == k);
            }
        }
        r
    }
}

impl<V> View for StrMap<V> {
    type V = Map<Seq<char>, V>;

    closed spec fn view(&self) -> Map<Seq<char>, V> {
        Map::new(
            |k: Seq<char>| self.index@.contains_key(k),
            |k: Seq<char>| self.vals@[self.index@[k] as int],
        )
    }
}

} // verus!
