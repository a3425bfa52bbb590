//! An association map from `u64` keys to values, backed by a pair of
//! vectors with unique keys. Its abstract value is a `Map<u64, V>`, and the
//! underlying key/value sequence is also exposed so that clients can reason
//! by counting over the entries.

use vstd::prelude::*;

verus! {

/// Holds once no key occurs twice in the sequence.
pub open spec fn assoc_nodup<V>(s: Seq<(u64, V)>) -> bool {
    forall|i: int, j: int| 0 <= i < j < s.len() ==> (#[trigger] s[i]).0 != (#[trigger] s[j]).0
}

/// Holds once some entry of the sequence carries key `k`.
pub open spec fn assoc_has<V>(s: Seq<(u64, V)>, k: u64) -> bool {
    exists|i: int| 0 <= i < s.len() && (#[trigger] s[i]).0 == k
}

/// The index of the entry carrying key `k`, unique under `assoc_nodup`.
pub open spec fn assoc_idx<V>(s: Seq<(u64, V)>, k: u64) -> int {
    choose|i: int| 0 <= i < s.len() && (#[trigger] s[i]).0 == k
}

/// The finite map that the sequence of entries stands for.
pub open spec fn assoc_map<V>(s: Seq<(u64, V)>) -> Map<u64, V> {
    Map::new(|k: u64| assoc_has(s, k), |k: u64| s[assoc_idx(s, k)].1)
}

/// Under `assoc_nodup`, any entry holding key `k` is the one that
/// `assoc_idx` picks.
pub proof fn lemma_assoc_at<V>(s: Seq<(u64, V)>, k: u64, i: int)
    requires
        assoc_nodup(s),
        0 <= i < s.len(),
        s[i].0 == k,
    ensures
        assoc_has(s, k),
        assoc_idx(s, k) == i,
        assoc_map(s)[k] == s[i].1,
{
    assert(assoc_has(s, k));
    let j = assoc_idx(s, k);
    if j != i {
        assert(s[i].0 != s[j].0);
    }
}

pub struct KvMap<V> {
    keys: Vec<u64>,
    vals: Vec<V>,
}

impl<V> View for KvMap<V> {
    type V = Map<u64, V>;

    open spec fn view(&self) -> Map<u64, V> {
        assoc_map(self.pairs())
    }
}

impl<V> KvMap<V> {
    /// The key/value entries in storage order.
    pub closed spec fn pairs(&self) -> Seq<(u64, V)> {
        Seq::new(self.keys@.len() as nat, |i: int| (self.keys@[i], self.vals@[i]))
    }

    /// Well-formed: parallel vectors of equal length, keys unique.
    pub open spec fn wf(&self) -> bool {
        assoc_nodup(self.pairs())
    }

    pub closed spec fn lengths_ok(&self) -> bool {
        self.keys@.len() == self.vals@.len()
    }

    /// Builds the empty map.
    pub fn new() -> (r: KvMap<V>)
        ensures
            r.wf(),
            r.lengths_ok(),
            r.pairs() =~= Seq::<(u64, V)>::empty(),
            r@ =~= Map::<u64, V>::empty(),
    {
        let r = KvMap { keys: Vec::new(), vals: Vec::new() };
        proof {
            assert(r.pairs() =~= Seq::<(u64, V)>::empty());
            assert forall|k: u64| !assoc_has(r.pairs(), k) by {}
            assert(r@ =~= Map::<u64, V>::empty());
        }
        r
    }

    /// The number of entries.
    pub fn len(&self) -> (n: usize)
        ensures
            n == self.pairs().len(),
    {
        self.keys.len()
    }

    /// The key of the `i`-th entry.
    pub fn key_at(&self, i: usize) -> (k: u64)
        requires
            i < self.pairs().len(),
        ensures
            k == self.pairs()[i as int].0,
    {
        self.keys[i]
    }

    fn find(&self, k: u64) -> (r: Option<usize>)
        ensures
            match r {
                Some(i) => i < self.pairs().len() && self.pairs()[i as int].0 == k,
                None => !assoc_has(self.pairs(), k),
            },
    {
        let mut i: usize = 0;
        while i < self.keys.len()
            invariant
                i <= self.keys@.len(),
                forall|j: int| 0 <= j < i ==> (#[trigger] self.pairs()[j]).0 != k,
            decreases self.keys@.len() - i,
        {
            if self.keys[i] == k {
                return Some(i);
            }
            i = i + 1;
        }
        None
    }

    /// Looks a key up.
    pub fn get(&self, k: u64) -> (r: Option<&V>)
        requires
            self.wf(),
            self.lengths_ok(),
        ensures
            match r {
                Some(v) => self@.contains_key(k) && *v == self@[k],
                None => !self@.contains_key(k),
            },
            r is Some <==> assoc_has(self.pairs(), k),
    {
        match self.find(k) {
            Some(i) => {
                proof {
                    lemma_assoc_at(self.pairs(), k, i as int);
                }
                Some(&self.vals[i])
            },
            None => None,
        }
    }

    /// Decides whether a key is present.
    pub fn contains(&self, k: u64) -> (r: bool)
        requires
            self.wf(),
            self.lengths_ok(),
        ensures
            r == self@.contains_key(k),
            r == assoc_has(self.pairs(), k),
    {
        match self.get(k) {
            Some(_) => true,
            None => false,
        }
    }
}

/// Inserting a fresh key appends an entry and adds one binding to the map.
pub proof fn lemma_assoc_push<V>(s: Seq<(u64, V)>, k: u64, v: V)
    requires
        assoc_nodup(s),
        !assoc_has(s, k),
    ensures
        assoc_nodup(s.push((k, v))),
        assoc_map(s.push((k, v))) == assoc_map(s).insert(k, v),
{
    let t = s.push((k, v));
    assert forall|i: int, j: int| 0 <= i < j < t.len() implies (#[trigger] t[i]).0 != (
    #[trigger] t[j]).0 by {
        if j == s.len() {
            if t[i].0 == k {
                assert(s[i].0 == k);
                assert(assoc_has(s, k));
            }
        }
    }
    assert forall|x: u64| #[trigger] assoc_map(t).contains_key(x) <==> assoc_map(s).insert(
        k,
        v,
    ).contains_key(x) by {
        if x == k {
            assert(t[s.len() as int].0 == k);
            assert(assoc_has(t, k));
        } else {
            if assoc_has(s, x) {
                let i = assoc_idx(s, x);
                assert(t[i].0 == x);
                assert(assoc_has(t, x));
            }
            if assoc_has(t, x) {
                let i = assoc_idx(t, x);
                assert(t[i].0 == x);
                assert(i < s.len());
                assert(s[i].0 == x);
                assert(assoc_has(s, x));
            }
        }
    }
    assert forall|x: u64| assoc_map(t).contains_key(x) implies #[trigger] assoc_map(t)[x]
        == assoc_map(s).insert(k, v)[x] by {
        if x == k {
            lemma_assoc_at(t, k, s.len() as int);
        } else {
            let i = assoc_idx(s, x);
            assert(0 <= i < s.len() && s[i].0 == x);
            assert(t[i].0 == x);
            lemma_assoc_at(t, x, i);
            lemma_assoc_at(s, x, i);
        }
    }
    assert(assoc_map(t) =~= assoc_map(s).insert(k, v));
}

/// Updating the entry at a key's index rebinds that key and nothing else.
pub proof fn lemma_assoc_update<V>(s: Seq<(u64, V)>, i: int, k: u64, v: V)
    requires
        assoc_nodup(s),
        0 <= i < s.len(),
        s[i].0 == k,
    ensures
        assoc_nodup(s.update(i, (k, v))),
        assoc_map(s.update(i, (k, v))) == assoc_map(s).insert(k, v),
{
    let t = s.update(i, (k, v));
    assert forall|a: int, b: int| 0 <= a < b < t.len() implies (#[trigger] t[a]).0 != (
    #[trigger] t[b]).0 by {
        assert(s[a].0 != s[b].0);
        assert(t[a].0 == s[a].0 && t[b].0 == s[b].0);
    }
    assert forall|x: u64| #[trigger] assoc_has(t, x) <==> assoc_has(s, x) by {
        if assoc_has(s, x) {
            let a = assoc_idx(s, x);
            assert(t[a].0 == s[a].0);
            assert(assoc_has(t, x));
        }
        if assoc_has(t, x) {
            let a = assoc_idx(t, x);
            assert(s[a].0 == t[a].0);
            assert(assoc_has(s, x));
        }
    }
    assert forall|x: u64| assoc_map(t).contains_key(x) implies #[trigger] assoc_map(t)[x]
        == assoc_map(s).insert(k, v)[x] by {
        if x == k {
            lemma_assoc_at(t, k, i);
        } else {
            let a = assoc_idx(s, x);
            assert(0 <= a < s.len() && s[a].0 == x);
            assert(a != i);
            assert(t[a].0 == x);
            lemma_assoc_at(t, x, a);
            lemma_assoc_at(s, x, a);
        }
    }
    assert(assoc_map(t) =~= assoc_map(s).insert(k, v));
}

/// Removing the entry at a key's index removes exactly that binding.
pub proof fn lemma_assoc_remove<V>(s: Seq<(u64, V)>, i: int)
    requires
        assoc_nodup(s),
        0 <= i < s.len(),
    ensures
        assoc_nodup(s.remove(i)),
        assoc_map(s.remove(i)) == assoc_map(s).remove(s[i].0),
{
    let k = s[i].0;
    let t = s.remove(i);
    assert forall|a: int, b: int| 0 <= a < b < t.len() implies (#[trigger] t[a]).0 != (
    #[trigger] t[b]).0 by {
        let a0 = if a < i { a } else { a + 1 };
        let b0 = if b < i { b } else { b + 1 };
        assert(t[a].0 == s[a0].0 && t[b].0 == s[b0].0);
        assert(s[a0].0 != s[b0].0);
    }
    assert forall|x: u64| #[trigger] assoc_has(t, x) <==> (assoc_has(s, x) && x != k) by {
        if assoc_has(t, x) {
            let a = assoc_idx(t, x);
            let a0 = if a < i { a } else { a + 1 };
            assert(s[a0].0 == x);
            assert(assoc_has(s, x));
            if x == k {
                assert(s[i].0 == s[a0].0 && i != a0);
            }
        }
        if assoc_has(s, x) && x != k {
            let a0 = assoc_idx(s, x);
            assert(s[a0].0 == x);
            assert(a0 != i);
            let a = if a0 < i { a0 } else { a0 - 1 };
            assert(t[a].0 == s[a0].0);
            assert(assoc_has(t, x));
        }
    }
    assert forall|x: u64| assoc_map(t).contains_key(x) implies #[trigger] assoc_map(t)[x]
        == assoc_map(s).remove(k)[x] by {
        let a0 = assoc_idx(s, x);
        assert(0 <= a0 < s.len() && s[a0].0 == x);
        assert(a0 != i);
        let a = if a0 < i { a0 } else { a0 - 1 };
        assert(t[a].0 == x && t[a].1 == s[a0].1);
        lemma_assoc_at(t, x, a);
        lemma_assoc_at(s, x, a0);
    }
    assert(assoc_map(t) =~= assoc_map(s).remove(k));
}

impl<V> KvMap<V> {
    /// Binds `k` to `v`, replacing any previous binding.
    pub fn insert(&mut self, k: u64, v: V)
        requires
            old(self).wf(),
            old(self).lengths_ok(),
        ensures
            final(self).wf(),
            final(self).lengths_ok(),
            final(self)@ == old(self)@.insert(k, v),
            assoc_has(old(self).pairs(), k) ==> final(self).pairs() == old(self).pairs().update(
                assoc_idx(old(self).pairs(), k),
                (k, v),
            ),
            !assoc_has(old(self).pairs(), k) ==> final(self).pairs() == old(self).pairs().push(
                (k, v),
            ),
    {
        match self.find(k) {
            Some(i) => {
                self.vals[i] = v;
                proof {
                    lemma_assoc_at(old(self).pairs(), k, i as int);
                    assert(self.pairs() =~= old(self).pairs().update(i as int, (k, v)));
                    lemma_assoc_update(old(self).pairs(), i as int, k, v);
                }
            },
            None => {
                self.keys.push(k);
                self.vals.push(v);
                proof {
                    assert(self.pairs() =~= old(self).pairs().push((k, v)));
                    lemma_assoc_push(old(self).pairs(), k, v);
                }
            },
        }
    }

    /// Removes the binding of `k`, returning the value it held.
    pub fn remove(&mut self, k: u64) -> (r: Option<V>)
        requires
            old(self).wf(),
            old(self).lengths_ok(),
        ensures
            final(self).wf(),
            final(self).lengths_ok(),
            final(self)@ == old(self)@.remove(k),
            match r {
                Some(v) => old(self)@.contains_key(k) && v == old(self)@[k] && final(self).pairs()
                    == old(self).pairs().remove(assoc_idx(old(self).pairs(), k)),
                None => !old(self)@.contains_key(k) && final(self).pairs() == old(self).pairs(),
            },
    {
        match self.find(k) {
            Some(i) => {
                let _ = self.keys.remove(i);
                let v = self.vals.remove(i);
                proof {
                    lemma_assoc_at(old(self).pairs(), k, i as int);
                    assert(self.pairs() =~= old(self).pairs().remove(i as int));
                    lemma_assoc_remove(old(self).pairs(), i as int);
                }
                Some(v)
            },
            None => {
                proof {
                    assert(self@ =~= self@.remove(k));
                }
                None
            },
        }
    }

    /// Hands out the value bound to `k` for mutation in place.
    pub fn get_mut(&mut self, k: u64) -> (r: &mut V)
        requires
            old(self).wf(),
            old(self).lengths_ok(),
            old(self)@.contains_key(k),
        ensures
            *r == old(self)@[k],
            assoc_has(old(self).pairs(), k),
            final(self).lengths_ok(),
            final(self).pairs() =~= old(self).pairs().update(
                assoc_idx(old(self).pairs(), k),
                (k, *final(r)),
            ),
    {
        let r = self.find(k);
        let i: usize = match r {
            Some(i) => i,
            None => {
                proof {
                    assert(false);
                }
                0
            },
        };
        proof {
            lemma_assoc_at(old(self).pairs(), k, i as int);
        }
        &mut self.vals[i]
    }
}

} // verus!
