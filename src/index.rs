//! The in-memory index: for each key, the offset of its latest record.

use vstd::prelude::*;

verus! {

/// A map from keys to log offsets, held as a list of entries with distinct keys.
pub struct KeyIndex {
    entries: Vec<(Vec<u8>, u64)>,
    model: Ghost<Map<Seq<u8>, u64>>,
}

impl View for KeyIndex {
    type V = Map<Seq<u8>, u64>;

    closed spec fn view(&self) -> Map<Seq<u8>, u64> {
        self.model@
    }
}

impl KeyIndex {
    /// The entries have distinct keys and hold exactly the map.
    pub closed spec fn wf(&self) -> bool {
        &&& forall|i: int, j: int|
            0 <= i < j < self.entries@.len() ==> #[trigger] self.entries@[i].0@ != #[trigger] self.entries@[j].0@
        &&& forall|i: int|
            0 <= i < self.entries@.len() ==> #[trigger] self.model@.contains_key(self.entries@[i].0@)
                && self.model@[self.entries@[i].0@] == self.entries@[i].1
        &&& forall|k: Seq<u8>|
            #[trigger] self.model@.contains_key(k) ==> exists|i: int|
                0 <= i < self.entries@.len() && #[trigger] self.entries@[i].0@ == k
    }

    /// An empty index.
    pub fn new() -> (r: KeyIndex)
        ensures
            r.wf(),
            r@ == Map::<Seq<u8>, u64>::empty(),
    {
        KeyIndex { entries: Vec::new(), model: Ghost(Map::empty()) }
    }

    /// Number of keys in the index.
    pub fn len(&self) -> (r: usize)
        requires
            self.wf(),
        ensures
            r as nat == self@.len(),
    {
        proof {
            self.lemma_dom_len();
        }
        self.entries.len()
    }

    proof fn lemma_dom_len(&self)
        requires
            self.wf(),
        ensures
            self@.dom().finite(),
            self@.len() == self.entries@.len(),
        decreases self.entries@.len(),
    {
        let keys = self.entries@.map_values(|e: (Vec<u8>, u64)| e.0@);
        assert forall|i: int, j: int| 0 <= i < keys.len() && 0 <= j < keys.len() && i != j implies keys[i] != keys[j] by {
            if i < j {
                assert(self.entries@[i].0@ != self.entries@[j].0@);
            } else {
                assert(self.entries@[j].0@ != self.entries@[i].0@);
            }
        }
        assert(keys.no_duplicates());
        keys.unique_seq_to_set();
        assert(self@.dom() =~= keys.to_set()) by {
            assert forall|k: Seq<u8>| self@.dom().contains(k) implies keys.to_set().contains(k) by {
                let i = choose|i: int| 0 <= i < self.entries@.len() && #[trigger] self.entries@[i].0@ == k;
                assert(keys[i] == k);
            }
            assert forall|k: Seq<u8>| keys.to_set().contains(k) implies self@.dom().contains(k) by {
                let i = choose|i: int| 0 <= i < keys.len() && keys[i] == k;
                assert(self.model@.contains_key(self.entries@[i].0@));
            }
        }
    }

    fn find_slot(&self, key: &[u8]) -> (r: Option<usize>)
        requires
            self.wf(),
        ensures
            match r {
                Some(i) => i < self.entries@.len() && self.entries@[i as int].0@ == key@,
                None => !self@.contains_key(key@),
            },
    {
        let mut i: usize = 0;
        while i < self.entries.len()
            invariant
                self.wf(),
                i <= self.entries@.len(),
                forall|j: int| 0 <= j < i ==> #[trigger] self.entries@[j].0@ != key@,
            decreases self.entries@.len() - i,
        {
            if slice_eq(self.entries[i].0.as_slice(), key) {
                return Some(i);
            }
            i = i + 1;
        }
        None
    }

    /// The offset stored for `key`, if any.
    pub fn get(&self, key: &[u8]) -> (r: Option<u64>)
        requires
            self.wf(),
        ensures
            r == (if self@.contains_key(key@) { Some(self@[key@]) } else { None::<u64> }),
    {
        match self.find_slot(key) {
            Some(i) => {
                assert(self.model@.contains_key(self.entries@[i as int].0@));
                Some(self.entries[i].1)
            },
            None => None,
        }
    }

    /// Sets the offset of `key`, replacing any earlier one.
    pub fn insert(&mut self, key: Vec<u8>, pos: u64)
        requires
            old(self).wf(),
        ensures
            final(self).wf(),
            final(self)@ == old(self)@.insert(key@, pos),
    {
        let ghost k = key@;
        let ghost new_model = self.model@.insert(k, pos);
        let ghost mut slot: int = 0;
        match self.find_slot(key.as_slice()) {
            Some(i) => {
                self.entries.set(i, (key, pos));
                proof {
                    slot = i as int;
                }
            },
            None => {
                proof {
                    slot = self.entries@.len() as int;
                }
                self.entries.push((key, pos));
            },
        }
        assert(self.entries@[slot].0@ == k);
        self.model = Ghost(new_model);
        assert forall|k2: Seq<u8>| #[trigger] self.model@.contains_key(k2) implies exists|i: int|
            0 <= i < self.entries@.len() && #[trigger] self.entries@[i].0@ == k2 by {
            if k2 != k {
                let j = choose|j: int| 0 <= j < old(self).entries@.len() && #[trigger] old(self).entries@[j].0@ == k2;
                assert(self.entries@[j].0@ == k2);
            } else {
                assert(self.entries@[slot].0@ == k2);
            }
        }
    }

    /// Drops `key` from the index.
    pub fn remove(&mut self, key: &[u8])
        requires
            old(self).wf(),
        ensures
            final(self).wf(),
            final(self)@ == old(self)@.remove(key@),
    {
        let ghost new_model = self.model@.remove(key@);
        match self.find_slot(key) {
            Some(i) => {
                let ghost old_entries = self.entries@;
                self.entries.remove(i);
                self.model = Ghost(new_model);
                assert forall|j: int| 0 <= j < self.entries@.len() implies #[trigger] self.entries@[j] == (
                if j < i {
                    old_entries[j]
                } else {
                    old_entries[j + 1]
                }) by {}
                assert forall|a: int, b: int|
                    0 <= a < b < self.entries@.len() implies #[trigger] self.entries@[a].0@ != #[trigger] self.entries@[b].0@ by {
                    let a0 = if a < i { a } else { a + 1 };
                    let b0 = if b < i { b } else { b + 1 };
                    assert(old_entries[a0].0@ != old_entries[b0].0@);
                }
                assert forall|j: int| 0 <= j < self.entries@.len() implies #[trigger] self.model@.contains_key(self.entries@[j].0@)
                    && self.model@[self.entries@[j].0@] == self.entries@[j].1 by {
                    let j0 = if j < i { j } else { j + 1 };
                    assert(old_entries[j0].0@ != old_entries[i as int].0@);
                }
                assert forall|k2: Seq<u8>| #[trigger] self.model@.contains_key(k2) implies exists|j: int|
                    0 <= j < self.entries@.len() && #[trigger] self.entries@[j].0@ == k2 by {
                    let j = choose|j: int| 0 <= j < old(self).entries@.len() && #[trigger] old(self).entries@[j].0@ == k2;
                    if j < i {
                        assert(self.entries@[j].0@ == k2);
                    } else if j > i {
                        assert(self.entries@[j - 1].0@ == k2);
                    }
                }
            },
            None => {
                assert(new_model =~= self.model@);
            },
        }
    }
}

/// The entries `e` have distinct keys and list exactly the map `m`.
pub open spec fn lists_exactly(e: Seq<(Seq<u8>, u64)>, m: Map<Seq<u8>, u64>) -> bool {
    &&& forall|i: int, j: int| 0 <= i < j < e.len() ==> #[trigger] e[i].0 != #[trigger] e[j].0
    &&& forall|i: int| 0 <= i < e.len() ==> #[trigger] m.contains_key(e[i].0) && m[e[i].0] == e[i].1
    &&& forall|k: Seq<u8>| #[trigger] m.contains_key(k) ==> exists|i: int| 0 <= i < e.len() && #[trigger] e[i].0 == k
}

/// Entries as keys and offsets.
pub open spec fn entries_view(v: Seq<(Vec<u8>, u64)>) -> Seq<(Seq<u8>, u64)> {
    v.map_values(|x: (Vec<u8>, u64)| (x.0@, x.1))
}

impl KeyIndex {
    /// Copies of all entries but the one of `key`.
    pub fn entries_except(&self, key: &[u8]) -> (r: Vec<(Vec<u8>, u64)>)
        requires
            self.wf(),
        ensures
            lists_exactly(entries_view(r@), self@.remove(key@)),
    {
        let mut out: Vec<(Vec<u8>, u64)> = Vec::new();
        let mut i: usize = 0;
        while i < self.entries.len()
            invariant
                self.wf(),
                i <= self.entries@.len(),
                out@.len() == i,
                forall|a: int|
                    0 <= a < i ==> #[trigger] out@[a].0@ == self.entries@[a].0@ && out@[a].1 == self.entries@[a].1,
            decreases self.entries@.len() - i,
        {
            let k = vstd::slice::slice_to_vec(self.entries[i].0.as_slice());
            out.push((k, self.entries[i].1));
            i = i + 1;
        }
        let ghost all = out@;
        let ghost m = self@.remove(key@);
        let slot = self.find_slot(key);
        let ghost j: int = match slot {
            Some(j) => j as int,
            None => all.len() as int,
        };
        if let Some(j) = slot {
            out.remove(j);
        }
        let ghost e = entries_view(out@);
        assert(e.len() == out@.len());
        assert forall|a: int| 0 <= a < e.len() implies #[trigger] e[a] == (
        if a < j {
            (self.entries@[a].0@, self.entries@[a].1)
        } else {
            (self.entries@[a + 1].0@, self.entries@[a + 1].1)
        }) by {
            if a < j {
                assert(out@[a] == all[a]);
            } else {
                assert(out@[a] == all[a + 1]);
            }
        }
        assert forall|a: int| 0 <= a < e.len() implies #[trigger] m.contains_key(e[a].0) && m[e[a].0] == e[a].1 by {
            let b = if a < j { a } else { a + 1 };
            assert(self.model@.contains_key(self.entries@[b].0@));
            if slot is Some {
                assert(self.entries@[b].0@ != self.entries@[j].0@);
            }
        }
        assert forall|k: Seq<u8>| #[trigger] m.contains_key(k) implies exists|a: int| 0 <= a < e.len() && #[trigger] e[a].0 == k by {
            let b = choose|b: int| 0 <= b < self.entries@.len() && #[trigger] self.entries@[b].0@ == k;
            if b < j {
                assert(e[b].0 == k);
            } else {
                assert(b != j);
                assert(e[b - 1].0 == k);
            }
        }
        assert forall|a: int, c: int| 0 <= a < c < e.len() implies #[trigger] e[a].0 != #[trigger] e[c].0 by {
            let a0 = if a < j { a } else { a + 1 };
            let c0 = if c < j { c } else { c + 1 };
            assert(self.entries@[a0].0@ != self.entries@[c0].0@);
        }
        out
    }
}

/// Whether two byte strings are equal.
pub fn slice_eq(a: &[u8], b: &[u8]) -> (r: bool)
    ensures
        r == (a@ == b@),
{
    if a.len() != b.len() {
        return false;
    }
    let mut i: usize = 0;
    while i < a.len()
        invariant
            a@.len() == b@.len(),
            i <= a@.len(),
            a@.subrange(0, i as int) == b@.subrange(0, i as int),
        decreases a@.len() - i,
    {
        if a[i] != b[i] {
            assert(a@[i as int] != b@[i as int]);
            return false;
        }
        assert(a@.subrange(0, i + 1) =~= a@.subrange(0, i as int).push(a@[i as int]));
        assert(b@.subrange(0, i + 1) =~= b@.subrange(0, i as int).push(b@[i as int]));
        i = i + 1;
    }
    assert(a@ =~= a@.subrange(0, i as int));
    assert(b@ =~= b@.subrange(0, i as int));
    true
}

} // verus!
