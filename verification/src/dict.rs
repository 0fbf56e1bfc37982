//! An association map with unique keys and insertion-order iteration.
//!
//! The map is modelled in specifications as a sequence of (key view, value)
//! pairs; `dict_insert` overwrites the value of an existing key in place and
//! appends a fresh key at the end, which is exactly the order-sensitive
//! behaviour the report builders rely on.

use vstd::prelude::*;

verus! {

/// Key types for [`Dict`]: equality decides view equality and cloning
/// yields the very same value.
pub trait DictKey: View + Sized {
    /// Equality test that agrees with view equality.
    fn key_eq(&self, other: &Self) -> (r: bool)
        ensures
            r == (self@ == other@),
    ;

    /// A clone that yields the same value.
    fn key_clone(&self) -> (r: Self)
        ensures
            r == *self,
    ;
}

impl DictKey for String {
    fn key_eq(&self, other: &Self) -> (r: bool) {
        *self == *other
    }

    fn key_clone(&self) -> (r: Self) {
        self.clone()
    }
}

impl DictKey for usize {
    fn key_eq(&self, other: &Self) -> (r: bool) {
        *self == *other
    }

    fn key_clone(&self) -> (r: Self) {
        *self
    }
}

/// Index of the first pair with key `k`, or -1 when no pair has it.
pub open spec fn dict_index_of<KV, V>(s: Seq<(KV, V)>, k: KV) -> int
    decreases s.len(),
{
    if s.len() == 0 {
        -1
    } else if s[0].0 == k {
        0
    } else {
        let r = dict_index_of(s.drop_first(), k);
        if r < 0 {
            -1
        } else {
            r + 1
        }
    }
}

pub open spec fn dict_contains<KV, V>(s: Seq<(KV, V)>, k: KV) -> bool {
    dict_index_of(s, k) >= 0
}

/// Value of the first pair with key `k`.
pub open spec fn dict_get<KV, V>(s: Seq<(KV, V)>, k: KV) -> V
    recommends
        dict_contains(s, k),
{
    s[dict_index_of(s, k)].1
}

/// Overwrite the value of the first pair with key `k`, or append the pair.
pub open spec fn dict_insert<KV, V>(s: Seq<(KV, V)>, k: KV, v: V) -> Seq<(KV, V)> {
    if dict_contains(s, k) {
        s.update(dict_index_of(s, k), (k, v))
    } else {
        s.push((k, v))
    }
}

/// All keys of the sequence are distinct.
pub open spec fn dict_wf<KV, V>(s: Seq<(KV, V)>) -> bool {
    forall|i: int, j: int| 0 <= i < j < s.len() ==> s[i].0 != s[j].0
}

/// `dict_index_of` finds the first pair with the key, when there is one.
pub proof fn lemma_dict_index_of<KV, V>(s: Seq<(KV, V)>, k: KV)
    ensures
        -1 <= dict_index_of(s, k) < s.len(),
        dict_index_of(s, k) >= 0 ==> s[dict_index_of(s, k)].0 == k,
        forall|i: int| 0 <= i < dict_index_of(s, k) ==> s[i].0 != k,
        dict_index_of(s, k) == -1 ==> forall|i: int| 0 <= i < s.len() ==> s[i].0 != k,
    decreases s.len(),
{
    if s.len() > 0 && s[0].0 != k {
        lemma_dict_index_of(s.drop_first(), k);
        assert forall|i: int| 0 <= i < dict_index_of(s, k) implies s[i].0 != k by {
            if i >= 1 {
                assert(s[i] == s.drop_first()[i - 1]);
            }
        }
        if dict_index_of(s, k) == -1 {
            assert forall|i: int| 0 <= i < s.len() implies s[i].0 != k by {
                if i >= 1 {
                    assert(s[i] == s.drop_first()[i - 1]);
                }
            }
        }
    }
}

/// The first pair with key `k` sits at `i` when `i` holds `k` and nothing
/// before it does.
pub proof fn lemma_dict_index_of_at<KV, V>(s: Seq<(KV, V)>, k: KV, i: int)
    requires
        0 <= i < s.len(),
        s[i].0 == k,
        forall|j: int| 0 <= j < i ==> s[j].0 != k,
    ensures
        dict_index_of(s, k) == i,
    decreases s.len(),
{
    if i > 0 {
        assert forall|j: int| 0 <= j < i - 1 implies s.drop_first()[j].0 != k by {
            assert(s.drop_first()[j] == s[j + 1]);
        }
        assert(s.drop_first()[i - 1] == s[i]);
        lemma_dict_index_of_at(s.drop_first(), k, i - 1);
    }
}

/// Two pair sequences with the same keys in the same order agree on where
/// any key first occurs.
pub proof fn lemma_dict_index_of_same_keys<KV, V1, V2>(
    s1: Seq<(KV, V1)>,
    s2: Seq<(KV, V2)>,
    k: KV,
)
    requires
        s1.len() == s2.len(),
        forall|i: int| 0 <= i < s1.len() ==> s1[i].0 == s2[i].0,
    ensures
        dict_index_of(s1, k) == dict_index_of(s2, k),
    decreases s1.len(),
{
    if s1.len() > 0 && s1[0].0 != k {
        assert forall|i: int| 0 <= i < s1.drop_first().len() implies s1.drop_first()[i].0
            == s2.drop_first()[i].0 by {
            assert(s1.drop_first()[i] == s1[i + 1]);
            assert(s2.drop_first()[i] == s2[i + 1]);
        }
        lemma_dict_index_of_same_keys(s1.drop_first(), s2.drop_first(), k);
    }
}

/// An association map over exec values, iterated in insertion order.
#[derive(Clone)]
pub struct Dict<K, V> {
    entries: Vec<(K, V)>,
}

impl<K: DictKey, V> Dict<K, V> {
    /// The entries as they are stored, in iteration order.
    pub closed spec fn raw_model(&self) -> Seq<(K, V)> {
        self.entries@
    }

    /// The (key view, value) pairs in iteration order.
    pub open spec fn model(&self) -> Seq<(<K as View>::V, V)> {
        self.raw_model().map(|i: int, e: (K, V)| (e.0@, e.1))
    }

    /// All keys are distinct.
    pub open spec fn wf(&self) -> bool {
        dict_wf(self.model())
    }

    pub fn new() -> (r: Self)
        ensures
            r.model() == Seq::<(<K as View>::V, V)>::empty(),
            r.wf(),
    {
        let r = Dict { entries: Vec::new() };
        proof {
            assert(r.model() =~= Seq::<(<K as View>::V, V)>::empty());
        }
        r
    }

    pub fn len(&self) -> (n: usize)
        ensures
            n == self.model().len(),
    {
        self.entries.len()
    }

    /// Position of the first entry with the key, if any.
    pub fn index_of_key(&self, k: &K) -> (r: Option<usize>)
        ensures
            match r {
                Some(i) => i < self.model().len() && i as int == dict_index_of(
                    self.model(),
                    k@,
                ),
                None => !dict_contains(self.model(), k@),
            },
    {
        let mut i: usize = 0;
        while i < self.entries.len()
            invariant
                i <= self.entries.len(),
                forall|j: int| 0 <= j < i ==> self.model()[j].0 != k@,
            decreases self.entries.len() - i,
        {
            let e = &self.entries[i];
            if e.0.key_eq(k) {
                proof {
                    assert(self.model()[i as int].0 == k@);
                    lemma_dict_index_of_at(self.model(), k@, i as int);
                }
                return Some(i);
            }
            assert(self.model()[i as int].0 != k@);
            i += 1;
        }
        proof {
            lemma_dict_index_of(self.model(), k@);
        }
        None
    }

    pub fn contains_key(&self, k: &K) -> (r: bool)
        ensures
            r == dict_contains(self.model(), k@),
    {
        let r = self.index_of_key(k);
        proof {
            lemma_dict_index_of(self.model(), k@);
        }
        r.is_some()
    }

    /// The value stored under the key, if any.
    pub fn get<'a>(&'a self, k: &K) -> (r: Option<&'a V>)
        ensures
            match r {
                Some(v) => dict_contains(self.model(), k@) && *v == dict_get(self.model(), k@),
                None => !dict_contains(self.model(), k@),
            },
    {
        match self.index_of_key(k) {
            Some(i) => {
                let e = &self.entries[i];
                Some(&e.1)
            },
            None => None,
        }
    }

    /// Insert with overwrite: an existing key keeps its position, a fresh
    /// key goes to the end.
    pub fn insert(&mut self, k: K, v: V)
        ensures
            final(self).model() == dict_insert(old(self).model(), k@, v),
    {
        let ghost m = old(self).model();
        match self.index_of_key(&k) {
            Some(i) => {
                self.entries.push((k, v));
                let _replaced = self.entries.swap_remove(i);
                proof {
                    assert(self.model() =~= dict_insert(m, k@, v));
                }
            },
            None => {
                self.entries.push((k, v));
                proof {
                    assert(self.model() =~= dict_insert(m, k@, v));
                }
            },
        }
    }

    /// The key of the entry at a position.
    pub fn key_at(&self, i: usize) -> (k: &K)
        requires
            i < self.model().len(),
        ensures
            *k == self.raw_model()[i as int].0,
            k@ == self.model()[i as int].0,
    {
        let e = &self.entries[i];
        &e.0
    }

    /// The value of the entry at a position.
    pub fn value_at(&self, i: usize) -> (v: &V)
        requires
            i < self.model().len(),
        ensures
            *v == self.model()[i as int].1,
    {
        let e = &self.entries[i];
        &e.1
    }

    /// Swap the value at a position for a new one, handing the old one back.
    pub fn replace_value_at(&mut self, i: usize, v: V) -> (old_v: V)
        requires
            i < old(self).model().len(),
        ensures
            old_v == old(self).model()[i as int].1,
            final(self).model() == old(self).model().update(
                i as int,
                (old(self).model()[i as int].0, v),
            ),
    {
        let ghost m = old(self).model();
        let k = {
            let e = &self.entries[i];
            e.0.key_clone()
        };
        self.entries.push((k, v));
        let replaced = self.entries.swap_remove(i);
        proof {
            assert(self.model() =~= m.update(i as int, (m[i as int].0, v)));
        }
        replaced.1
    }

    /// Hand the entries out, in iteration order.
    pub fn into_vec(self) -> (r: Vec<(K, V)>)
        ensures
            r@ == self.raw_model(),
            r@.map(|i: int, e: (K, V)| (e.0@, e.1)) == self.model(),
    {
        self.entries
    }
}

} // verus!
