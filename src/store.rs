//! An association map keyed by byte strings, kept as a list of distinct keys.
use vstd::prelude::*;

verus! {

/// Whether two byte strings are equal.
pub fn bytes_equal(a: &[u8], b: &[u8]) -> (r: bool)
    ensures
        r == (a@ == b@),
{
    if a.len() != b.len() {
        return false;
    }
    let mut i: usize = 0;
    while i < a.len()
        invariant
            a@.len() == b@.len(),
            i <= a@.len(),
            a@.take(i as int) == b@.take(i as int),
        decreases a@.len() - i,
    {
        if a[i] != b[i] {
            assert(a@[i as int] != b@[i as int]);
            return false;
        }
        i = i + 1;
        assert(a@.take(i as int) =~= b@.take(i as int));
    }
    assert(a@ =~= a@.take(i as int));
    assert(b@ =~= b@.take(i as int));
    true
}

/// Whether `k` starts with `p`.
pub open spec fn has_prefix(p: Seq<u8>, k: Seq<u8>) -> bool {
    p.len() <= k.len() && k.take(p.len() as int) == p
}

/// Whether `k` starts with `p`.
pub fn starts_with(k: &[u8], p: &[u8]) -> (r: bool)
    ensures
        r == has_prefix(p@, k@),
{
    if p.len() > k.len() {
        return false;
    }
    let mut i: usize = 0;
    while i < p.len()
        invariant
            p@.len() <= k@.len(),
            i <= p@.len(),
            k@.take(i as int) == p@.take(i as int),
        decreases p@.len() - i,
    {
        if k[i] != p[i] {
            assert(k@.take(p@.len() as int)[i as int] != p@[i as int]);
            return false;
        }
        i = i + 1;
        assert(k@.take(i as int) =~= p@.take(i as int));
    }
    assert(p@.take(i as int) =~= p@);
    true
}

/// A finite map from byte strings to values.
pub struct ByteMap<V> {
    entries: Vec<(Vec<u8>, V)>,
}

impl<V> ByteMap<V> {
    /// No key stands twice in the list.
    pub closed spec fn wf(&self) -> bool {
        forall|i: int, j: int|
            0 <= i < j < self.entries@.len() ==> #[trigger] self.entries@[i].0@
                != #[trigger] self.entries@[j].0@
    }

    spec fn holds_at(&self, k: Seq<u8>, i: int) -> bool {
        0 <= i < self.entries@.len() && self.entries@[i].0@ == k
    }

    /// The map that the list stands for.
    pub closed spec fn map(&self) -> Map<Seq<u8>, V> {
        Map::new(
            |k: Seq<u8>| exists|i: int| self.holds_at(k, i),
            |k: Seq<u8>| self.entries@[choose|i: int| self.holds_at(k, i)].1,
        )
    }

    proof fn lemma_at(&self, i: int)
        requires
            self.wf(),
            0 <= i < self.entries@.len(),
        ensures
            self.map().contains_key(self.entries@[i].0@),
            self.map()[self.entries@[i].0@] == self.entries@[i].1,
    {
        let k = self.entries@[i].0@;
        assert(self.holds_at(k, i));
        let j = choose|j: int| self.holds_at(k, j);
        if j != i {
            if j < i {
                assert(self.entries@[j].0@ != self.entries@[i].0@);
            } else {
                assert(self.entries@[i].0@ != self.entries@[j].0@);
            }
        }
    }

    /// An empty map.
    pub fn new() -> (r: ByteMap<V>)
        ensures
            r.wf(),
            r.map() == Map::<Seq<u8>, V>::empty(),
    {
        let r = ByteMap { entries: Vec::new() };
        assert(r.map() =~= Map::<Seq<u8>, V>::empty());
        r
    }

    fn find(&self, key: &[u8]) -> (r: Option<usize>)
        requires
            self.wf(),
        ensures
            match r {
                Some(i) => i < self.entries@.len() && self.entries@[i as int].0@ == key@,
                None => !self.map().contains_key(key@),
            },
    {
        let mut i: usize = 0;
        while i < self.entries.len()
            invariant
                i <= self.entries@.len(),
                forall|j: int| 0 <= j < i ==> self.entries@[j].0@ != key@,
            decreases self.entries@.len() - i,
        {
            if bytes_equal(self.entries[i].0.as_slice(), key) {
                return Some(i);
            }
            i = i + 1;
        }
        None
    }

    /// The value under `key`, if any.
    pub fn get(&self, key: &[u8]) -> (r: Option<&V>)
        requires
            self.wf(),
        ensures
            match r {
                Some(v) => self.map().contains_key(key@) && self.map()[key@] == *v,
                None => !self.map().contains_key(key@),
            },
    {
        match self.find(key) {
            Some(i) => {
                proof { self.lemma_at(i as int); }
                Some(&self.entries[i].1)
            },
            None => None,
        }
    }

    /// Puts `value` under `key`, replacing what stood there.
    pub fn insert(&mut self, key: Vec<u8>, value: V)
        requires
            old(self).wf(),
        ensures
            final(self).wf(),
            final(self).map() == old(self).map().insert(key@, value),
    {
        let ghost k = key@;
        let ghost before = self.map();
        match self.find(key.as_slice()) {
            Some(i) => {
                self.entries.set(i, (key, value));
                proof {
                    assert forall|a: int, b: int|
                        0 <= a < b < self.entries@.len() implies #[trigger] self.entries@[a].0@
                        != #[trigger] self.entries@[b].0@ by {
                        assert(old(self).entries@[a].0@ != old(self).entries@[b].0@);
                    }
                    self.lemma_at(i as int);
                    assert forall|q: Seq<u8>| q != k implies (#[trigger] self.map().contains_key(q)
                        == before.contains_key(q)) && (self.map().contains_key(q) ==> self.map()[q]
                        == before[q]) by {
                        if self.map().contains_key(q) {
                            let j = choose|j: int| self.holds_at(q, j);
                            self.lemma_at(j);
                            old(self).lemma_at(j);
                        }
                        if before.contains_key(q) {
                            let j = choose|j: int| old(self).holds_at(q, j);
                            self.lemma_at(j);
                        }
                    }
                    assert(self.map() =~= before.insert(k, value));
                }
            },
            None => {
                self.entries.push((key, value));
                proof {
                    let n = self.entries@.len() - 1;
                    assert forall|a: int, b: int|
                        0 <= a < b < self.entries@.len() implies #[trigger] self.entries@[a].0@
                        != #[trigger] self.entries@[b].0@ by {
                        if b == n {
                            assert(old(self).holds_at(old(self).entries@[a].0@, a));
                        } else {
                            assert(old(self).entries@[a].0@ != old(self).entries@[b].0@);
                        }
                    }
                    self.lemma_at(n);
                    assert forall|q: Seq<u8>| q != k implies (#[trigger] self.map().contains_key(q)
                        == before.contains_key(q)) && (self.map().contains_key(q) ==> self.map()[q]
                        == before[q]) by {
                        if self.map().contains_key(q) {
                            let j = choose|j: int| self.holds_at(q, j);
                            self.lemma_at(j);
                            old(self).lemma_at(j);
                        }
                        if before.contains_key(q) {
                            let j = choose|j: int| old(self).holds_at(q, j);
                            self.lemma_at(j);
                        }
                    }
                    assert(self.map() =~= before.insert(k, value));
                }
            },
        }
    }

    /// Takes `key` and its value out of the map.
    pub fn remove(&mut self, key: &[u8])
        requires
            old(self).wf(),
        ensures
            final(self).wf(),
            final(self).map() == old(self).map().remove(key@),
    {
        let ghost before = self.map();
        match self.find(key) {
            Some(i) => {
                let ghost olds = self.entries@;
                let _gone = self.entries.remove(i);
                proof {
                    assert forall|a: int, b: int|
                        0 <= a < b < self.entries@.len() implies #[trigger] self.entries@[a].0@
                        != #[trigger] self.entries@[b].0@ by {
                        let a0 = if a < i { a } else { a + 1 };
                        let b0 = if b < i { b } else { b + 1 };
                        assert(olds[a0].0@ != olds[b0].0@);
                    }
                    assert forall|q: Seq<u8>| q != key@ implies (#[trigger] self.map().contains_key(q)
                        == before.contains_key(q)) && (self.map().contains_key(q) ==> self.map()[q]
                        == before[q]) by {
                        if self.map().contains_key(q) {
                            let j = choose|j: int| self.holds_at(q, j);
                            self.lemma_at(j);
                            let j0 = if j < i { j } else { j + 1 };
                            old(self).lemma_at(j0);
                        }
                        if before.contains_key(q) {
                            let j0 = choose|j: int| old(self).holds_at(q, j);
                            assert(j0 != i);
                            let j = if j0 < i { j0 } else { j0 - 1 };
                            self.lemma_at(j);
                        }
                    }
                    assert forall|j: int| !self.holds_at(key@, j) by {
                        if 0 <= j < self.entries@.len() {
                            let j0 = if j < i { j } else { j + 1 };
                            if j0 < i {
                                assert(olds[j0].0@ != olds[i as int].0@);
                            } else {
                                assert(olds[i as int].0@ != olds[j0].0@);
                            }
                        }
                    }
                    assert(self.map() =~= before.remove(key@));
                }
            },
            None => {
                assert(self.map() =~= before.remove(key@));
            },
        }
    }

    /// Takes every key that starts with `prefix`, and its value, out of the map.
    pub fn remove_prefixed(&mut self, prefix: &[u8])
        requires
            old(self).wf(),
        ensures
            final(self).wf(),
            final(self).map() == old(self).map().restrict(
                old(self).map().dom().filter(|k: Seq<u8>| !has_prefix(prefix@, k)),
            ),
    {
        let ghost orig = self.entries@;
        let ghost before = self.map();
        let mut kept: Vec<(Vec<u8>, V)> = Vec::new();
        let ghost mut idx: Seq<int> = Seq::empty();
        while self.entries.len() > 0
            invariant
                old(self).wf(),
                orig == old(self).entries@,
                before == old(self).map(),
                self.entries@ == orig.take(self.entries@.len() as int),
                self.entries@.len() <= orig.len(),
                idx.len() == kept@.len(),
                forall|j: int| 0 <= j < idx.len() ==> self.entries@.len() <= #[trigger] idx[j]
                    < orig.len() && kept@[j] == orig[idx[j]] && !has_prefix(prefix@, orig[idx[j]].0@),
                forall|a: int, b: int| 0 <= a < b < idx.len() ==> #[trigger] idx[a] > #[trigger] idx[b],
                forall|i: int| self.entries@.len() <= i < orig.len() && !has_prefix(prefix@,
                    #[trigger] orig[i].0@) ==> exists|j: int| 0 <= j < idx.len() && idx[j] == i,
            decreases self.entries@.len(),
        {
            let ghost n = self.entries@.len() - 1;
            let e = self.entries.pop().unwrap();
            proof {
                assert(self.entries@ =~= orig.take(n));
            }
            if !starts_with(e.0.as_slice(), prefix) {
                kept.push(e);
                proof {
                    let old_idx = idx;
                    idx = idx.push(n);
                    assert forall|i: int| self.entries@.len() <= i < orig.len() && !has_prefix(
                        prefix@, #[trigger] orig[i].0@) implies exists|j: int| 0 <= j < idx.len()
                        && idx[j] == i by {
                        if i == n {
                            assert(idx[idx.len() - 1] == i);
                        } else {
                            let j = choose|j: int| 0 <= j < old_idx.len() && old_idx[j] == i;
                            assert(idx[j] == i);
                        }
                    }
                }
            } else {
                proof {
                    assert forall|i: int| self.entries@.len() <= i < orig.len() && !has_prefix(
                        prefix@, #[trigger] orig[i].0@) implies exists|j: int| 0 <= j < idx.len()
                        && idx[j] == i by {
                        assert(i != n);
                    }
                }
            }
        }
        self.entries = kept;
        proof {
            assert forall|a: int, b: int|
                0 <= a < b < self.entries@.len() implies #[trigger] self.entries@[a].0@
                != #[trigger] self.entries@[b].0@ by {
                assert(idx[a] > idx[b]);
                assert(orig[idx[b]].0@ != orig[idx[a]].0@);
            }
            let target = before.restrict(before.dom().filter(|k: Seq<u8>| !has_prefix(prefix@, k)));
            assert forall|q: Seq<u8>| #[trigger] self.map().contains_key(q) == target.contains_key(q)
                && (self.map().contains_key(q) ==> self.map()[q] == target[q]) by {
                if self.map().contains_key(q) {
                    let j = choose|j: int| self.holds_at(q, j);
                    self.lemma_at(j);
                    old(self).lemma_at(idx[j]);
                }
                if target.contains_key(q) {
                    let i = choose|i: int| old(self).holds_at(q, i);
                    let j = choose|j: int| 0 <= j < idx.len() && idx[j] == i;
                    self.lemma_at(j);
                }
            }
            assert(self.map() =~= target);
        }
    }
}

} // verus!
