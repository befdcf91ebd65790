//! An insertion-ordered map with byte-string keys, backed by a vector of
//! entries with pairwise-distinct keys. Inserting an existing key replaces
//! its value in place; a fresh key is appended at the end, so iteration
//! order is the order of first insertion.

use vstd::prelude::*;

use crate::byteops::bytes_eq;

verus! {

/// Index of the first entry with key `k`, or `entries.len()` when absent.
pub open spec fn key_index<T>(entries: Seq<(Seq<u8>, T)>, k: Seq<u8>) -> int
    decreases entries.len(),
{
    if entries.len() == 0 {
        0
    } else if entries[0].0 == k {
        0
    } else {
        1 + key_index(entries.drop_first(), k)
    }
}

/// Whether some entry has key `k`.
pub open spec fn has_key<T>(entries: Seq<(Seq<u8>, T)>, k: Seq<u8>) -> bool {
    key_index(entries, k) < entries.len()
}

/// The value stored under `k`, if any.
pub open spec fn entries_get<T>(entries: Seq<(Seq<u8>, T)>, k: Seq<u8>) -> Option<T> {
    if has_key(entries, k) {
        Some(entries[key_index(entries, k)].1)
    } else {
        None
    }
}

/// Map insertion: replaces the value of an existing key in place, or appends
/// a fresh key at the end.
pub open spec fn entries_insert<T>(entries: Seq<(Seq<u8>, T)>, k: Seq<u8>, v: T) -> Seq<
    (Seq<u8>, T),
> {
    if has_key(entries, k) {
        entries.update(key_index(entries, k), (k, v))
    } else {
        entries.push((k, v))
    }
}

/// All keys are pairwise distinct.
pub open spec fn unique_keys<T>(entries: Seq<(Seq<u8>, T)>) -> bool {
    forall|i: int, j: int|
        0 <= i < j < entries.len() ==> (#[trigger] entries[i]).0 != (#[trigger] entries[j]).0
}

/// `key_index` points at the first entry with key `k`: it is in bounds iff
/// the key occurs, it hits the key, and nothing before it does.
pub proof fn lemma_key_index<T>(entries: Seq<(Seq<u8>, T)>, k: Seq<u8>)
    ensures
        0 <= key_index(entries, k) <= entries.len(),
        key_index(entries, k) < entries.len() ==> entries[key_index(entries, k)].0 == k,
        forall|m: int| 0 <= m < key_index(entries, k) ==> (#[trigger] entries[m]).0 != k,
    decreases entries.len(),
{
    if entries.len() == 0 {
    } else if entries[0].0 == k {
    } else {
        lemma_key_index(entries.drop_first(), k);
        assert forall|m: int| 0 <= m < key_index(entries, k) implies (#[trigger] entries[m]).0
            != k by {
            if m > 0 {
                assert(entries.drop_first()[m - 1] == entries[m]);
            }
        }
    }
}

/// If position `i` holds `k` and no earlier position does, then `key_index`
/// is exactly `i`; if no position holds `k`, it is `entries.len()`.
pub proof fn lemma_key_index_at<T>(entries: Seq<(Seq<u8>, T)>, k: Seq<u8>, i: int)
    requires
        0 <= i <= entries.len(),
        forall|m: int| 0 <= m < i ==> (#[trigger] entries[m]).0 != k,
        i < entries.len() ==> entries[i].0 == k,
    ensures
        i < entries.len() ==> key_index(entries, k) == i,
        i == entries.len() ==> key_index(entries, k) >= entries.len(),
    decreases entries.len(),
{
    if entries.len() == 0 {
    } else if entries[0].0 == k {
        assert(i == 0);
    } else {
        assert(forall|m: int|
            0 <= m < i - 1 ==> (#[trigger] entries.drop_first()[m]) == entries[m + 1]);
        lemma_key_index_at(entries.drop_first(), k, if i >= 1 {
            i - 1
        } else {
            0
        });
    }
}

/// Insertion preserves key uniqueness.
pub proof fn lemma_insert_unique<T>(entries: Seq<(Seq<u8>, T)>, k: Seq<u8>, v: T)
    requires
        unique_keys(entries),
    ensures
        unique_keys(entries_insert(entries, k, v)),
{
    lemma_key_index(entries, k);
    let out = entries_insert(entries, k, v);
    if has_key(entries, k) {
        assert forall|i: int, j: int| 0 <= i < j < out.len() implies (#[trigger] out[i]).0 != (
        #[trigger] out[j]).0 by {
            assert(entries[i].0 != entries[j].0);
        }
    } else {
        assert forall|i: int, j: int| 0 <= i < j < out.len() implies (#[trigger] out[i]).0 != (
        #[trigger] out[j]).0 by {
            if j < entries.len() {
                assert(entries[i].0 != entries[j].0);
            } else {
                assert(out[j].0 == k);
                assert(entries[i].0 != k);
            }
        }
    }
}

/// An insertion-ordered map from byte-string keys to values.
pub struct VecMap<V> {
    pub entries: Vec<(Vec<u8>, V)>,
}

impl<V: View> View for VecMap<V> {
    type V = Seq<(Seq<u8>, V::V)>;

    open spec fn view(&self) -> Seq<(Seq<u8>, V::V)> {
        self.entries@.map_values(|e: (Vec<u8>, V)| (e.0@, e.1@))
    }
}

impl<V: View> VecMap<V> {
    /// Well-formed: all keys pairwise distinct.
    pub open spec fn wf(&self) -> bool {
        unique_keys(self@)
    }

    /// An empty map.
    pub fn new() -> (r: Self)
        ensures
            r@ == Seq::<(Seq<u8>, V::V)>::empty(),
            r.wf(),
    {
        let r = VecMap { entries: Vec::new() };
        proof {
            assert(r@ =~= Seq::<(Seq<u8>, V::V)>::empty());
        }
        r
    }

    /// Number of entries.
    pub fn len(&self) -> (r: usize)
        ensures
            r == self@.len(),
    {
        self.entries.len()
    }

    /// The position of key `k`, or `self.entries.len()` when absent.
    fn find(&self, k: &Vec<u8>) -> (r: usize)
        ensures
            r == key_index(self@, k@),
            r <= self@.len(),
            r < self@.len() ==> self@[r as int].0 == k@,
    {
        let n = self.entries.len();
        let mut i: usize = 0;
        while i < n
            invariant
                n == self@.len(),
                n == self.entries@.len(),
                i <= n,
                forall|m: int| 0 <= m < i ==> (#[trigger] self@[m]).0 != k@,
            decreases n - i,
        {
            if bytes_eq(&self.entries[i].0, k) {
                proof {
                    assert(self@[i as int].0 == k@);
                    lemma_key_index_at(self@, k@, i as int);
                }
                return i;
            }
            proof {
                assert(self@[i as int].0 == self.entries@[i as int].0@);
            }
            i = i + 1;
        }
        proof {
            lemma_key_index_at(self@, k@, n as int);
            lemma_key_index(self@, k@);
        }
        n
    }

    /// Whether `k` is present.
    pub fn contains_key(&self, k: &Vec<u8>) -> (r: bool)
        ensures
            r == has_key(self@, k@),
    {
        let i = self.find(k);
        i < self.entries.len()
    }

    /// A reference to the value stored under `k`, if any.
    pub fn get(&self, k: &Vec<u8>) -> (r: Option<&V>)
        ensures
            (r is Some) == has_key(self@, k@),
            r matches Some(v) ==> entries_get(self@, k@) == Some(v@),
    {
        let i = self.find(k);
        if i < self.entries.len() {
            proof {
                assert(self@[i as int].1 == self.entries@[i as int].1@);
            }
            Some(&self.entries[i].1)
        } else {
            None
        }
    }

    /// Inserts `v` under `k`: replaces the value of an existing key in
    /// place, or appends a fresh entry at the end.
    pub fn insert(&mut self, k: Vec<u8>, v: V)
        requires
            old(self).wf(),
        ensures
            final(self)@ == entries_insert(old(self)@, k@, v@),
            final(self).wf(),
    {
        proof {
            lemma_insert_unique(old(self)@, k@, v@);
        }
        let i = self.find(&k);
        if i < self.entries.len() {
            vstd::pervasive::VecAdditionalExecFns::set(&mut self.entries, i, (k, v));
            proof {
                assert(self@ =~= entries_insert(old(self)@, k@, v@));
            }
        } else {
            self.entries.push((k, v));
            proof {
                assert(self@ =~= entries_insert(old(self)@, k@, v@));
            }
        }
    }
}

} // verus!
