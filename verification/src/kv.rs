//! A small association store keyed by `u64` ids, with unique keys. It backs
//! the attack catalogue, per-actor cooldown maps and active-skill maps.

use vstd::prelude::*;

verus! {

/// One key/value pair of a [`KeyedVec`].
pub struct Pair<V> {
    pub key: u64,
    pub val: V,
}

pub open spec fn pair_keys_unique<V>(s: Seq<Pair<V>>) -> bool {
    forall|i: int, j: int| 0 <= i < j < s.len() ==> s[i].key != s[j].key
}

/// The index of the pair keyed `k`, if one is present.
pub open spec fn pair_idx<V>(s: Seq<Pair<V>>, k: u64) -> Option<int>
    decreases s.len(),
{
    if s.len() == 0 {
        None
    } else if s.last().key == k {
        Some(s.len() - 1)
    } else {
        pair_idx(s.drop_last(), k)
    }
}

pub proof fn lemma_pair_idx_props<V>(s: Seq<Pair<V>>, k: u64)
    ensures
        match pair_idx(s, k) {
            Some(i) => 0 <= i < s.len() && s[i].key == k,
            None => forall|j: int| 0 <= j < s.len() ==> s[j].key != k,
        },
    decreases s.len(),
{
    if s.len() > 0 && s.last().key != k {
        lemma_pair_idx_props(s.drop_last(), k);
        assert(forall|j: int| 0 <= j < s.len() - 1 ==> s.drop_last()[j] == s[j]);
        assert(s[s.len() - 1] == s.last());
    }
}

/// With unique keys, any pair that carries `k` is the one `pair_idx` finds.
pub proof fn lemma_pair_idx_unique<V>(s: Seq<Pair<V>>, k: u64, i: int)
    requires
        pair_keys_unique(s),
        0 <= i < s.len(),
        s[i].key == k,
    ensures
        pair_idx(s, k) == Some(i),
{
    lemma_pair_idx_props(s, k);
}

/// Appending a pair leaves every other key's lookup unchanged.
pub proof fn lemma_pair_idx_push<V>(s: Seq<Pair<V>>, e: Pair<V>, k: u64)
    ensures
        pair_idx(s.push(e), k) == if e.key == k {
            Some(s.len() as int)
        } else {
            pair_idx(s, k)
        },
{
    assert(s.push(e).last() == e);
    assert(s.push(e).drop_last() =~= s);
}

/// `pair_idx` depends only on the sequence of keys.
pub proof fn lemma_pair_idx_same_keys<V>(s1: Seq<Pair<V>>, s2: Seq<Pair<V>>, k: u64)
    requires
        s1.len() == s2.len(),
        forall|i: int| 0 <= i < s1.len() ==> s1[i].key == s2[i].key,
    ensures
        pair_idx(s1, k) == pair_idx(s2, k),
    decreases s1.len(),
{
    if s1.len() > 0 {
        assert(s1.last().key == s2.last().key);
        if s1.last().key != k {
            assert(forall|i: int|
                0 <= i < s1.len() - 1 ==> s1.drop_last()[i].key == s2.drop_last()[i].key);
            lemma_pair_idx_same_keys(s1.drop_last(), s2.drop_last(), k);
        }
    }
}

/// Removing the pair of `k` keeps keys unique, drops `k`, and leaves every
/// other key bound to the same value.
pub proof fn lemma_pair_remove<V>(pre: Seq<Pair<V>>, i: int, k: u64)
    requires
        pair_keys_unique(pre),
        0 <= i < pre.len(),
        pre[i].key == k,
    ensures
        pair_keys_unique(pre.remove(i)),
        pair_idx(pre.remove(i), k) is None,
        forall|other: u64|
            other != k ==> (#[trigger] (pair_idx(pre.remove(i), other) is Some) == (pair_idx(
                pre,
                other,
            ) is Some)),
        forall|other: u64|
            other != k && pair_idx(pre, other) is Some ==> pre.remove(i)[pair_idx(
                pre.remove(i),
                other,
            )->Some_0].val == pre[pair_idx(pre, other)->Some_0].val,
{
    let s = pre.remove(i);
    assert(forall|j: int| 0 <= j < i ==> s[j] == pre[j]);
    assert(forall|j: int| i <= j < s.len() ==> s[j] == pre[j + 1]);
    assert forall|j1: int, j2: int| 0 <= j1 < j2 < s.len() implies s[j1].key != s[j2].key by {
        let w1 = if j1 < i {
            j1
        } else {
            j1 + 1
        };
        let w2 = if j2 < i {
            j2
        } else {
            j2 + 1
        };
        assert(pre[w1].key != pre[w2].key);
    }
    lemma_pair_idx_props(s, k);
    if pair_idx(s, k) is Some {
        let j = pair_idx(s, k)->Some_0;
        let w = if j < i {
            j
        } else {
            j + 1
        };
        assert(pre[w].key == k);
        assert(w != i);
        assert(false);
    }
    assert forall|other: u64| other != k implies (#[trigger] (pair_idx(s, other) is Some) == (
    pair_idx(pre, other) is Some)) by {
        lemma_pair_idx_props(s, other);
        lemma_pair_idx_props(pre, other);
        match pair_idx(s, other) {
            Some(j) => {
                let w = if j < i {
                    j
                } else {
                    j + 1
                };
                assert(pre[w].key == other);
            },
            None => {
                if pair_idx(pre, other) is Some {
                    let w = pair_idx(pre, other)->Some_0;
                    assert(w != i);
                    let j = if w < i {
                        w
                    } else {
                        w - 1
                    };
                    assert(s[j].key == other);
                }
            },
        }
    }
    assert forall|other: u64| other != k && pair_idx(pre, other) is Some implies s[pair_idx(
        s,
        other,
    )->Some_0].val == pre[pair_idx(pre, other)->Some_0].val by {
        lemma_pair_idx_props(s, other);
        lemma_pair_idx_props(pre, other);
        let w = pair_idx(pre, other)->Some_0;
        assert(w != i);
        let j = if w < i {
            w
        } else {
            w - 1
        };
        assert(s[j].key == other);
        lemma_pair_idx_unique(s, other, j);
        assert(s[j].val == pre[w].val);
    }
}

/// A dictionary from `u64` keys to values, stored as a vector of pairs with
/// unique keys.
#[verifier::reject_recursive_types(V)]
pub struct KeyedVec<V> {
    items: Vec<Pair<V>>,
}

impl<V> KeyedVec<V> {
    pub closed spec fn entries(self) -> Seq<Pair<V>> {
        self.items@
    }

    pub open spec fn wf(self) -> bool {
        pair_keys_unique(self.entries())
    }

    pub open spec fn spec_has(self, k: u64) -> bool {
        pair_idx(self.entries(), k) is Some
    }

    /// The value under `k` (meaningful only when the key is present).
    pub open spec fn spec_get(self, k: u64) -> V
        recommends
            self.spec_has(k),
    {
        self.entries()[pair_idx(self.entries(), k)->Some_0].val
    }

    pub fn new() -> (r: KeyedVec<V>)
        ensures
            r.wf(),
            r.entries().len() == 0,
            forall|k: u64| !r.spec_has(k),
    {
        KeyedVec { items: Vec::new() }
    }

    pub fn len(&self) -> (r: usize)
        ensures
            r == self.entries().len(),
    {
        self.items.len()
    }

    /// Mutable access to the value at entry `i`; the key there is untouched.
    pub fn val_mut_at(&mut self, i: usize) -> (v: &mut V)
        requires
            i < old(self).entries().len(),
        ensures
            *v == old(self).entries()[i as int].val,
            final(self).entries() == old(self).entries().update(
                i as int,
                Pair { key: old(self).entries()[i as int].key, val: *final(v) },
            ),
    {
        let entry = &mut self.items[i];
        &mut entry.val
    }

    fn find(&self, k: u64) -> (r: Option<usize>)
        requires
            self.wf(),
        ensures
            match r {
                Some(i) => pair_idx(self.entries(), k) == Some(i as int),
                None => pair_idx(self.entries(), k) is None,
            },
    {
        let n = self.items.len();
        let mut i: usize = 0;
        while i < n
            invariant
                self.wf(),
                n == self.entries().len(),
                i <= n,
                forall|j: int| 0 <= j < i as int ==> self.entries()[j].key != k,
            decreases n - i,
        {
            if self.items[i].key == k {
                proof {
                    lemma_pair_idx_unique(self.entries(), k, i as int);
                }
                return Some(i);
            }
            i = i + 1;
        }
        proof {
            lemma_pair_idx_props(self.entries(), k);
        }
        None
    }

    pub fn get(&self, k: u64) -> (r: Option<&V>)
        requires
            self.wf(),
        ensures
            match r {
                Some(v) => self.spec_has(k) && *v == self.spec_get(k),
                None => !self.spec_has(k),
            },
    {
        match self.find(k) {
            Some(i) => {
                proof {
                    lemma_pair_idx_props(self.entries(), k);
                }
                Some(&self.items[i].val)
            },
            None => None,
        }
    }

    /// Mutable access to the value of an existing key. The rest of the store
    /// is untouched: only the value under `k` follows the returned reference.
    pub fn get_mut(&mut self, k: u64) -> (v: &mut V)
        requires
            old(self).wf(),
            old(self).spec_has(k),
        ensures
            *v == old(self).spec_get(k),
            final(self).entries() == old(self).entries().update(
                pair_idx(old(self).entries(), k)->Some_0,
                Pair { key: k, val: *final(v) },
            ),
    {
        proof {
            lemma_pair_idx_props(self.entries(), k);
        }
        let i = match self.find(k) {
            Some(i) => i,
            None => {
                proof {
                    assert(false);
                }
                0
            },
        };
        let entry = &mut self.items[i];
        proof {
            assert(entry.key == k);
        }
        &mut entry.val
    }

    /// After mutating through `get_mut`: the store is well-formed, `k` still
    /// maps to the new value, and every other key is untouched.
    pub proof fn lemma_after_val_update(pre: KeyedVec<V>, post: KeyedVec<V>, k: u64, v: V)
        requires
            pre.wf(),
            pre.spec_has(k),
            post.entries() == pre.entries().update(
                pair_idx(pre.entries(), k)->Some_0,
                Pair { key: k, val: v },
            ),
        ensures
            post.wf(),
            post.spec_has(k),
            post.spec_get(k) == v,
            forall|other: u64|
                other != k ==> (#[trigger] post.spec_has(other) == pre.spec_has(other) && (
                pre.spec_has(other) ==> post.spec_get(other) == pre.spec_get(other))),
    {
        lemma_pair_idx_props(pre.entries(), k);
        assert(forall|j: int| 0 <= j < post.entries().len() ==> post.entries()[j].key
            == pre.entries()[j].key);
        assert forall|other: u64|
            pair_idx(post.entries(), other) == pair_idx(pre.entries(), other) by {
            lemma_pair_idx_same_keys(post.entries(), pre.entries(), other);
        }
        assert forall|other: u64| other != k implies (#[trigger] post.spec_has(other)
            == pre.spec_has(other) && (pre.spec_has(other) ==> post.spec_get(other)
            == pre.spec_get(other))) by {
            lemma_pair_idx_props(pre.entries(), other);
        }
    }

    /// Bind `k` to `v`, replacing any existing binding.
    pub fn set(&mut self, k: u64, v: V)
        requires
            old(self).wf(),
        ensures
            final(self).wf(),
            final(self).spec_has(k),
            final(self).spec_get(k) == v,
            forall|other: u64|
                other != k ==> (#[trigger] final(self).spec_has(other) == old(self).spec_has(other)
                    && (old(self).spec_has(other) ==> final(self).spec_get(other) == old(
                    self,
                ).spec_get(other))),
    {
        match self.find(k) {
            Some(i) => {
                let ghost pre = *self;
                proof {
                    lemma_pair_idx_props(self.entries(), k);
                }
                let entry = &mut self.items[i];
                proof {
                    assert(entry.key == k);
                }
                entry.val = v;
                proof {
                    Self::lemma_after_val_update(pre, *self, k, v);
                }
            },
            None => {
                let ghost pre_entries = self.items@;
                proof {
                    lemma_pair_idx_props(self.entries(), k);
                }
                let pair = Pair { key: k, val: v };
                let ghost ge = pair;
                self.items.push(pair);
                proof {
                    let s = self.items@;
                    assert(s == pre_entries.push(ge));
                    assert(forall|j: int| 0 <= j < pre_entries.len() ==> s[j] == pre_entries[j]);
                    assert forall|j1: int, j2: int| 0 <= j1 < j2 < s.len() implies s[j1].key
                        != s[j2].key by {
                        if j2 == pre_entries.len() as int {
                            assert(s[j1].key != k);
                        }
                    }
                    assert forall|other: u64|
                        pair_idx(s, other) == if other == k {
                            Some(pre_entries.len() as int)
                        } else {
                            pair_idx(pre_entries, other)
                        } by {
                        lemma_pair_idx_push(pre_entries, ge, other);
                    }
                    assert forall|other: u64| other != k implies (#[trigger] self.spec_has(other)
                        == old(self).spec_has(other) && (old(self).spec_has(other)
                        ==> self.spec_get(other) == old(self).spec_get(other))) by {
                        lemma_pair_idx_props(pre_entries, other);
                    }
                }
            },
        }
    }

    /// Drop the binding of `k`, if any.
    pub fn remove(&mut self, k: u64)
        requires
            old(self).wf(),
        ensures
            final(self).wf(),
            !final(self).spec_has(k),
            forall|other: u64|
                other != k ==> (#[trigger] final(self).spec_has(other) == old(self).spec_has(other)
                    && (old(self).spec_has(other) ==> final(self).spec_get(other) == old(
                    self,
                ).spec_get(other))),
    {
        match self.find(k) {
            Some(i) => {
                let ghost pre_entries = self.items@;
                proof {
                    lemma_pair_idx_props(self.entries(), k);
                }
                self.items.remove(i);
                proof {
                    lemma_pair_remove(pre_entries, i as int, k);
                    assert(self.entries() == pre_entries.remove(i as int));
                }
            },
            None => {
                proof {
                    lemma_pair_idx_props(self.entries(), k);
                }
            },
        }
    }
}

} // verus!
