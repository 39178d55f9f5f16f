//! The in-memory index: for each key, the log offset of one record.

use vstd::prelude::*;

verus! {

/// One key of the index with the offset it maps to.
pub struct IndexEntry {
    key: Vec<u8>,
    offset: u64,
}

/// A map from keys to offsets in which every key occurs once.
pub struct Index {
    entries: Vec<IndexEntry>,
    model: Ghost<Map<Seq<u8>, u64>>,
}

/// Whether two byte strings hold the same bytes.
pub fn bytes_equal(a: &[u8], b: &[u8]) -> (same: bool)
    ensures
        same == (a@ == b@),
{
    if a.len() != b.len() {
        return false;
    }
    let mut i: usize = 0;
    while i < a.len()
        invariant
            i <= a.len(),
            a.len() == b.len(),
            forall|j: int| 0 <= j < i ==> a@[j] == b@[j],
        decreases a.len() - i,
    {
        if a[i] != b[i] {
            return false;
        }
        i += 1;
    }
    assert(a@ =~= b@);
    true
}

impl View for Index {
    type V = Map<Seq<u8>, u64>;

    closed spec fn view(&self) -> Map<Seq<u8>, u64> {
        self.model@
    }
}

impl Index {
    /// The entries and the map they stand for agree, and no key occurs in
    /// two entries.
    pub closed spec fn wf(&self) -> bool {
        &&& self.model@.dom().finite()
        &&& self.model@.dom().len() == self.entries@.len()
        &&& forall|i: int|
            0 <= i < self.entries@.len() ==> {
                &&& self.model@.contains_key(#[trigger] self.entries@[i].key@)
                &&& self.model@[self.entries@[i].key@] == self.entries@[i].offset
            }
        &&& forall|k: Seq<u8>| #[trigger]
            self.model@.contains_key(k) ==> exists|i: int|
                0 <= i < self.entries@.len() && #[trigger] self.entries@[i].key@ == k
        &&& forall|i: int, j: int|
            0 <= i < j < self.entries@.len() ==> #[trigger] self.entries@[i].key@
                != #[trigger] self.entries@[j].key@
    }

    /// An index without keys.
    pub fn new() -> (index: Index)
        ensures
            index.wf(),
            index@ == Map::<Seq<u8>, u64>::empty(),
    {
        Index { entries: Vec::new(), model: Ghost(Map::empty()) }
    }

    /// The position of the entry for `key`, if there is one.
    fn find(&self, key: &[u8]) -> (found: Option<usize>)
        requires
            self.wf(),
        ensures
            match found {
                Some(i) => i < self.entries@.len() && self.entries@[i as int].key@ == key@,
                None => !self@.contains_key(key@),
            },
    {
        let mut i: usize = 0;
        while i < self.entries.len()
            invariant
                i <= self.entries@.len(),
                forall|j: int| 0 <= j < i ==> self.entries@[j].key@ != key@,
            decreases self.entries@.len() - i,
        {
            if bytes_equal(self.entries[i].key.as_slice(), key) {
                return Some(i);
            }
            i += 1;
        }
        None
    }

    /// The offset that `key` maps to, if the index holds the key.
    pub fn get(&self, key: &[u8]) -> (offset: Option<u64>)
        requires
            self.wf(),
        ensures
            offset == if self@.contains_key(key@) {
                Some(self@[key@])
            } else {
                None
            },
    {
        match self.find(key) {
            Some(i) => Some(self.entries[i].offset),
            None => None,
        }
    }

    /// Maps `key` to `offset`, in place of what it mapped to before.
    pub fn insert(&mut self, key: Vec<u8>, offset: u64)
        requires
            old(self).wf(),
        ensures
            final(self).wf(),
            final(self)@ == old(self)@.insert(key@, offset),
    {
        let ghost before = *self;
        let ghost k = key@;
        match self.find(key.as_slice()) {
            Some(i) => {
                self.entries.set(i, IndexEntry { key, offset });
                self.model = Ghost(self.model@.insert(k, offset));
                proof {
                    assert(before.model@.contains_key(before.entries@[i as int].key@));
                    assert(self.model@.dom() =~= before.model@.dom());
                    assert forall|j: int| 0 <= j < self.entries@.len() implies self.entries@[j].key@
                        == before.entries@[j].key@ by {}
                    assert forall|q: Seq<u8>| #[trigger] self.model@.contains_key(q) implies exists|
                        j: int,
                    |
                        0 <= j < self.entries@.len() && #[trigger] self.entries@[j].key@ == q by {
                        let j = choose|j: int|
                            0 <= j < before.entries@.len() && #[trigger] before.entries@[j].key@
                                == q;
                        assert(self.entries@[j].key@ == q);
                    }
                }
            },
            None => {
                self.entries.push(IndexEntry { key, offset });
                self.model = Ghost(self.model@.insert(k, offset));
                proof {
                    let n = before.entries@.len() as int;
                    assert(self.entries@[n].key@ == k);
                    assert forall|j: int| 0 <= j < n implies self.entries@[j].key@
                        == before.entries@[j].key@ by {}
                    assert forall|q: Seq<u8>| #[trigger] self.model@.contains_key(q) implies exists|
                        j: int,
                    |
                        0 <= j < self.entries@.len() && #[trigger] self.entries@[j].key@ == q by {
                        if q == k {
                            assert(self.entries@[n].key@ == q);
                        } else {
                            let j = choose|j: int|
                                0 <= j < before.entries@.len() && #[trigger] before.entries@[j].key@
                                    == q;
                            assert(self.entries@[j].key@ == q);
                        }
                    }
                }
            },
        }
    }

    /// Removes every key.
    pub fn clear(&mut self)
        ensures
            final(self).wf(),
            final(self)@ == Map::<Seq<u8>, u64>::empty(),
    {
        self.entries.clear();
        self.model = Ghost(Map::empty());
    }

    /// The number of keys.
    pub fn len(&self) -> (n: usize)
        requires
            self.wf(),
        ensures
            n == self@.dom().len(),
            self@.dom().finite(),
    {
        self.entries.len()
    }
}

} // verus!
