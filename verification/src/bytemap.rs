//! A map keyed by byte strings, kept sorted by key: the storage of the object store, the
//! index, the worktree and the branches.
use crate::bytes::{bytes_order, lemma_seq_order_antisym, lemma_seq_order_equal, seq_order, Order};
use vstd::prelude::*;

verus! {

/// `seq_order` is transitive on `Less`.
pub proof fn lemma_seq_order_trans(a: Seq<u8>, b: Seq<u8>, c: Seq<u8>)
    requires
        seq_order(a, b) == Order::Less,
        seq_order(b, c) == Order::Less,
    ensures
        seq_order(a, c) == Order::Less,
    decreases a.len(),
{
    if a.len() > 0 && b.len() > 0 && c.len() > 0 {
        if a[0] == b[0] && b[0] == c[0] {
            lemma_seq_order_trans(a.drop_first(), b.drop_first(), c.drop_first());
        }
    }
}

/// `seq_order` is total: one of `Less`, `Equal`, `Greater`, the last meaning `b` before `a`.
pub proof fn lemma_seq_order_total(a: Seq<u8>, b: Seq<u8>)
    ensures
        seq_order(a, b) == Order::Greater <==> seq_order(b, a) == Order::Less,
        seq_order(a, b) == Order::Equal <==> a == b,
{
    lemma_seq_order_antisym(b, a);
    lemma_seq_order_equal(a, b);
}

/// Keys listed in strictly increasing order.
pub open spec fn keys_sorted(keys: Seq<Seq<u8>>) -> bool {
    forall|i: int, j: int|
        0 <= i < j < keys.len() ==> seq_order(#[trigger] keys[i], #[trigger] keys[j]) == Order::Less
}

pub open spec fn keys_view(keys: Seq<Vec<u8>>) -> Seq<Seq<u8>> {
    keys.map_values(|k: Vec<u8>| k@)
}

/// The position of a key among the keys.
pub open spec fn index_of_key(keys: Seq<Seq<u8>>, k: Seq<u8>) -> int {
    choose|i: int| 0 <= i < keys.len() && keys[i] == k
}

/// A map from byte strings to values, with the keys kept in increasing byte order.
pub struct ByteMap<V> {
    entries: Vec<(Vec<u8>, V)>,
}

pub open spec fn entries_keys<V>(e: Seq<(Vec<u8>, V)>) -> Seq<Seq<u8>> {
    e.map_values(|x: (Vec<u8>, V)| x.0@)
}

pub open spec fn entries_vals<V>(e: Seq<(Vec<u8>, V)>) -> Seq<V> {
    e.map_values(|x: (Vec<u8>, V)| x.1)
}

impl<V> ByteMap<V> {
    /// The keys, in increasing order.
    pub closed spec fn spec_keys(&self) -> Seq<Seq<u8>> {
        entries_keys(self.entries@)
    }

    /// The values, in the order of their keys.
    pub closed spec fn spec_vals(&self) -> Seq<V> {
        entries_vals(self.entries@)
    }

    /// The map from keys to values.
    pub open spec fn spec_map(&self) -> Map<Seq<u8>, V> {
        Map::new(
            |k: Seq<u8>| self.spec_keys().contains(k),
            |k: Seq<u8>| self.spec_vals()[index_of_key(self.spec_keys(), k)],
        )
    }

    #[verifier::type_invariant]
    closed spec fn inv(self) -> bool {
        keys_sorted(entries_keys(self.entries@))
    }

    /// The keys are sorted and as many as the values.
    pub fn well_formed(&self)
        ensures
            self.spec_keys().len() == self.spec_vals().len(),
            keys_sorted(self.spec_keys()),
    {
        proof {
            use_type_invariant(self);
        }
    }

    /// Position `i` is where the key at position `i` is found.
    pub proof fn lemma_entry(keys: Seq<Seq<u8>>, i: int)
        requires
            keys_sorted(keys),
            0 <= i < keys.len(),
        ensures
            index_of_key(keys, keys[i]) == i,
    {
        let j = index_of_key(keys, keys[i]);
        assert(0 <= j < keys.len() && keys[j] == keys[i]);
        if j != i {
            if j < i {
                assert(seq_order(keys[j], keys[i]) == Order::Less);
            } else {
                assert(seq_order(keys[i], keys[j]) == Order::Less);
            }
            lemma_seq_order_equal(keys[i], keys[j]);
        }
    }

    /// With sorted keys, key `i` maps to value `i`, and every key of the map is listed.
    pub proof fn lemma_list(&self)
        requires
            keys_sorted(self.spec_keys()),
            self.spec_keys().len() == self.spec_vals().len(),
        ensures
            forall|i: int|
                0 <= i < self.spec_keys().len() ==> self.spec_map().contains_key(
                    #[trigger] self.spec_keys()[i],
                ) && self.spec_map()[self.spec_keys()[i]] == self.spec_vals()[i],
            forall|k: Seq<u8>|
                #[trigger] self.spec_map().contains_key(k) ==> exists|i: int|
                    0 <= i < self.spec_keys().len() && self.spec_keys()[i] == k,
    {
        assert forall|i: int| 0 <= i < self.spec_keys().len() implies self.spec_map().contains_key(
            #[trigger] self.spec_keys()[i],
        ) && self.spec_map()[self.spec_keys()[i]] == self.spec_vals()[i] by {
            Self::lemma_entry(self.spec_keys(), i);
        }
    }

    pub fn new() -> (r: Self)
        ensures
            r.spec_keys() == Seq::<Seq<u8>>::empty(),
            r.spec_vals() == Seq::<V>::empty(),
            r.spec_map() == Map::<Seq<u8>, V>::empty(),
    {
        let r = ByteMap { entries: Vec::new() };
        proof {
            assert(r.spec_keys() =~= Seq::<Seq<u8>>::empty());
            assert(r.spec_vals() =~= Seq::<V>::empty());
            assert(r.spec_map() =~= Map::<Seq<u8>, V>::empty());
        }
        r
    }

    pub fn len(&self) -> (r: usize)
        ensures
            r == self.spec_keys().len(),
            r == self.spec_vals().len(),
    {
        self.entries.len()
    }

    /// The key at position `i`.
    pub fn key_at(&self, i: usize) -> (r: &Vec<u8>)
        requires
            i < self.spec_keys().len(),
        ensures
            r@ == self.spec_keys()[i as int],
    {
        &self.entries[i].0
    }

    /// The value at position `i`.
    pub fn val_at(&self, i: usize) -> (r: &V)
        requires
            i < self.spec_vals().len(),
        ensures
            *r == self.spec_vals()[i as int],
    {
        &self.entries[i].1
    }

    /// Moves the entries out, leaving the map empty.
    fn take_entries(&mut self) -> (r: Vec<(Vec<u8>, V)>)
        ensures
            r@ == old(self).entries@,
            keys_sorted(entries_keys(r@)),
    {
        proof {
            use_type_invariant(&*self);
        }
        let mut tmp = ByteMap { entries: Vec::new() };
        proof {
            assert(entries_keys(tmp.entries@) =~= Seq::<Seq<u8>>::empty());
        }
        std::mem::swap(self, &mut tmp);
        let ByteMap { entries } = tmp;
        entries
    }

    /// Finds the first position whose key is not below `k`.
    fn lower_bound(&self, k: &[u8]) -> (r: usize)
        ensures
            r <= self.spec_keys().len(),
            forall|i: int| 0 <= i < r ==> seq_order(#[trigger] self.spec_keys()[i], k@) == Order::Less,
            r < self.spec_keys().len() ==> seq_order(self.spec_keys()[r as int], k@) != Order::Less,
    {
        let mut i: usize = 0;
        while i < self.entries.len()
            invariant
                0 <= i <= self.entries@.len(),
                forall|j: int| 0 <= j < i ==> seq_order(#[trigger] entries_keys(self.entries@)[j], k@) == Order::Less,
            decreases self.entries@.len() - i,
        {
            if bytes_order(self.entries[i].0.as_slice(), k) != Order::Less {
                return i;
            }
            i = i + 1;
        }
        i
    }

    /// The position of `k`, if it is a key.
    pub fn position(&self, k: &[u8]) -> (r: Option<usize>)
        ensures
            r matches Some(i) ==> i < self.spec_keys().len() && self.spec_keys()[i as int] == k@,
            r is None <==> !self.spec_keys().contains(k@),
    {
        proof {
            use_type_invariant(self);
        }
        let p = self.lower_bound(k);
        if p < self.entries.len() && bytes_order(self.entries[p].0.as_slice(), k) == Order::Equal {
            proof {
                lemma_seq_order_equal(self.spec_keys()[p as int], k@);
            }
            Some(p)
        } else {
            proof {
                if self.spec_keys().contains(k@) {
                    let j = choose|j: int| 0 <= j < self.spec_keys().len() && self.spec_keys()[j] == k@;
                    lemma_seq_order_equal(k@, k@);
                    if j < p {
                    } else if j == p {
                        lemma_seq_order_equal(self.spec_keys()[p as int], k@);
                    } else {
                        assert(seq_order(self.spec_keys()[p as int], self.spec_keys()[j]) == Order::Less);
                        lemma_seq_order_total(self.spec_keys()[p as int], k@);
                    }
                }
            }
            None
        }
    }

    /// Whether `k` is a key.
    pub fn contains_key(&self, k: &[u8]) -> (r: bool)
        ensures
            r == self.spec_map().contains_key(k@),
    {
        self.position(k).is_some()
    }

    /// The value of `k`.
    pub fn get(&self, k: &[u8]) -> (r: Option<&V>)
        ensures
            r is Some <==> self.spec_map().contains_key(k@),
            r matches Some(v) ==> *v == self.spec_map()[k@],
    {
        proof {
            use_type_invariant(self);
        }
        match self.position(k) {
            Some(i) => {
                proof {
                    Self::lemma_entry(self.spec_keys(), i as int);
                }
                Some(&self.entries[i].1)
            },
            None => None,
        }
    }

    /// Sets the value of `k` (replacing any value it had).
    pub fn insert(&mut self, k: Vec<u8>, v: V)
        ensures
            final(self).spec_map() == old(self).spec_map().insert(k@, v),
    {
        proof {
            use_type_invariant(&*self);
        }
        let ghost ok = self.spec_keys();
        let ghost ov = self.spec_vals();
        let ghost kv = k@;
        let p = self.lower_bound(k.as_slice());
        if p < self.entries.len() && bytes_order(self.entries[p].0.as_slice(), k.as_slice())
            == Order::Equal {
            proof {
                lemma_seq_order_equal(self.spec_keys()[p as int], k@);
                assert(entries_keys(self.entries@.update(p as int, (k, v))) =~= ok);
            }
            let mut entries = self.take_entries();
            entries.set(p, (k, v));
            *self = ByteMap { entries };
            proof {
                let nk = self.spec_keys();
                let nv = self.spec_vals();
                assert(nk =~= ok);
                assert(nv =~= ov.update(p as int, v));
                assert forall|x: Seq<u8>| #[trigger] self.spec_map().contains_key(x)
                    == old(self).spec_map().insert(kv, v).contains_key(x) by {}
                assert forall|x: Seq<u8>| self.spec_map().contains_key(x) implies #[trigger] self.spec_map()[x]
                    == old(self).spec_map().insert(kv, v)[x] by {
                    let j = index_of_key(nk, x);
                    Self::lemma_entry(nk, j);
                    Self::lemma_entry(ok, j);
                }
                assert(self.spec_map() =~= old(self).spec_map().insert(kv, v));
            }
        } else {
            proof {
                let nk = entries_keys(self.entries@.insert(p as int, (k, v)));
                assert(nk =~= ok.insert(p as int, kv));
                assert forall|i: int, j: int| 0 <= i < j < nk.len() implies seq_order(
                    #[trigger] nk[i],
                    #[trigger] nk[j],
                ) == Order::Less by {
                    if p < ok.len() {
                        lemma_seq_order_total(ok[p as int], kv);
                        lemma_seq_order_equal(ok[p as int], kv);
                    }
                    if i < p && j == p {
                    } else if i == p && j > p {
                        assert(nk[j] == ok[j - 1]);
                        if j - 1 > p {
                            assert(seq_order(ok[p as int], ok[j - 1]) == Order::Less);
                            lemma_seq_order_trans(kv, ok[p as int], ok[j - 1]);
                        }
                    } else if i < p && j > p {
                        assert(nk[j] == ok[j - 1]);
                        assert(nk[i] == ok[i]);
                        assert(seq_order(ok[i], ok[j - 1]) == Order::Less);
                    } else if j < p {
                    } else {
                        assert(nk[j] == ok[j - 1]);
                        assert(nk[i] == ok[i - 1]);
                        assert(seq_order(ok[i - 1], ok[j - 1]) == Order::Less);
                    }
                }
            }
            let mut entries = self.take_entries();
            entries.insert(p, (k, v));
            *self = ByteMap { entries };
            proof {
                let nk = self.spec_keys();
                let nv = self.spec_vals();
                assert(nk =~= ok.insert(p as int, kv));
                assert(nv =~= ov.insert(p as int, v));
                assert forall|x: Seq<u8>| #[trigger] self.spec_map().contains_key(x)
                    == old(self).spec_map().insert(kv, v).contains_key(x) by {
                    if x == kv {
                        assert(nk[p as int] == kv);
                    }
                    if ok.contains(x) {
                        let j = choose|j: int| 0 <= j < ok.len() && ok[j] == x;
                        if j < p {
                            assert(nk[j] == x);
                        } else {
                            assert(nk[j + 1] == x);
                        }
                    }
                    if nk.contains(x) {
                        let j = choose|j: int| 0 <= j < nk.len() && nk[j] == x;
                        if j < p {
                            assert(ok[j] == x);
                        } else if j > p {
                            assert(ok[j - 1] == x);
                        }
                    }
                }
                assert forall|x: Seq<u8>| self.spec_map().contains_key(x) implies #[trigger] self.spec_map()[x]
                    == old(self).spec_map().insert(kv, v)[x] by {
                    let j = index_of_key(nk, x);
                    Self::lemma_entry(nk, j);
                    Self::lemma_entry(nk, p as int);
                    if j < p {
                        assert(nk[j] == ok[j]);
                        assert(nv[j] == ov[j]);
                        Self::lemma_entry(ok, j);
                    } else if j > p {
                        assert(nk[j] == ok[j - 1]);
                        assert(nv[j] == ov[j - 1]);
                        Self::lemma_entry(ok, j - 1);
                    } else {
                        assert(nv[p as int] == v);
                    }
                }
                assert(self.spec_map() =~= old(self).spec_map().insert(kv, v));
            }
        }
    }

    /// Removes `k` and returns its value.
    pub fn remove(&mut self, k: &[u8]) -> (r: Option<V>)
        ensures
            final(self).spec_map() == old(self).spec_map().remove(k@),
            r is Some <==> old(self).spec_map().contains_key(k@),
            r matches Some(v) ==> v == old(self).spec_map()[k@],
    {
        proof {
            use_type_invariant(&*self);
        }
        let ghost ok = self.spec_keys();
        let ghost ov = self.spec_vals();
        match self.position(k) {
            None => {
                proof {
                    assert(self.spec_map() =~= old(self).spec_map().remove(k@));
                }
                None
            },
            Some(p) => {
                proof {
                    let nk = entries_keys(self.entries@.remove(p as int));
                    assert(nk =~= ok.remove(p as int));
                    assert forall|i: int, j: int| 0 <= i < j < nk.len() implies seq_order(
                        #[trigger] nk[i],
                        #[trigger] nk[j],
                    ) == Order::Less by {
                        if i < p && j < p {
                        } else if i < p {
                            assert(nk[j] == ok[j + 1]);
                            assert(seq_order(ok[i], ok[j + 1]) == Order::Less);
                        } else {
                            assert(nk[j] == ok[j + 1]);
                            assert(nk[i] == ok[i + 1]);
                            assert(seq_order(ok[i + 1], ok[j + 1]) == Order::Less);
                        }
                    }
                    Self::lemma_entry(ok, p as int);
                }
                let mut entries = self.take_entries();
                let (_, v) = entries.remove(p);
                *self = ByteMap { entries };
                proof {
                    let nk = self.spec_keys();
                    let nv = self.spec_vals();
                    assert(nk =~= ok.remove(p as int));
                    assert(nv =~= ov.remove(p as int));
                    assert forall|x: Seq<u8>| #[trigger] self.spec_map().contains_key(x)
                        == old(self).spec_map().remove(k@).contains_key(x) by {
                        if ok.contains(x) && x != k@ {
                            let j = choose|j: int| 0 <= j < ok.len() && ok[j] == x;
                            if j < p {
                                assert(nk[j] == x);
                            } else {
                                assert(j != p);
                                assert(nk[j - 1] == x);
                            }
                        }
                        if nk.contains(x) {
                            let j = choose|j: int| 0 <= j < nk.len() && nk[j] == x;
                            if j < p {
                                assert(ok[j] == x);
                                assert(seq_order(ok[j], ok[p as int]) == Order::Less);
                                lemma_seq_order_equal(ok[j], ok[p as int]);
                            } else {
                                assert(ok[j + 1] == x);
                                assert(seq_order(ok[p as int], ok[j + 1]) == Order::Less);
                                lemma_seq_order_equal(ok[p as int], ok[j + 1]);
                            }
                        }
                    }
                    assert forall|x: Seq<u8>| self.spec_map().contains_key(x) implies #[trigger] self.spec_map()[x]
                        == old(self).spec_map().remove(k@)[x] by {
                        let j = index_of_key(nk, x);
                        Self::lemma_entry(nk, j);
                        if j < p {
                            Self::lemma_entry(ok, j);
                        } else {
                            Self::lemma_entry(ok, j + 1);
                        }
                    }
                    assert(self.spec_map() =~= old(self).spec_map().remove(k@));
                }
                Some(v)
            },
        }
    }
}

} // verus!
