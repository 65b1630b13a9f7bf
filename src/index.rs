//! An index from byte-string keys to log offsets, with each key held once.
use vstd::prelude::*;
use vstd::slice::slice_to_vec;

verus! {

/// Whether two byte strings are equal.
pub fn bytes_equal(a: &[u8], b: &[u8]) -> (r: bool)
    ensures
        r == (a@ == b@),
{
    if a.len() != b.len() {
        return false;
    }
    let mut i: usize = 0;
    while i < a.len()
        invariant
            a@.len() == b@.len(),
            i <= a@.len(),
            forall|j: int| 0 <= j < i ==> a@[j] == b@[j],
        decreases a@.len() - i,
    {
        if a[i] != b[i] {
            return false;
        }
        i = i + 1;
    }
    assert(a@ =~= b@);
    true
}

/// Maps each key to the offset of its newest record. Keys are unique.
pub struct KeyIndex {
    keys: Vec<Vec<u8>>,
    offsets: Vec<u64>,
    map: Ghost<Map<Seq<u8>, u64>>,
}

impl View for KeyIndex {
    type V = Map<Seq<u8>, u64>;

    closed spec fn view(&self) -> Map<Seq<u8>, u64> {
        self.map@
    }
}

impl KeyIndex {
    /// The parallel vectors hold exactly the entries of the map, each key once.
    pub closed spec fn wf(&self) -> bool {
        &&& self.keys@.len() == self.offsets@.len()
        &&& forall|i: int|
            0 <= i < self.keys@.len() ==> #[trigger] self.map@.contains_key(self.keys@[i]@)
                && self.map@[self.keys@[i]@] == self.offsets@[i]
        &&& forall|k: Seq<u8>|
            #[trigger] self.map@.contains_key(k) ==> exists|i: int|
                0 <= i < self.keys@.len() && #[trigger] self.keys@[i]@ == k
        &&& forall|i: int, j: int|
            0 <= i < self.keys@.len() && 0 <= j < self.keys@.len() && i != j
                ==> #[trigger] self.keys@[i]@ != #[trigger] self.keys@[j]@
    }

    /// An empty index.
    pub fn new() -> (r: KeyIndex)
        ensures
            r.wf(),
            r@ == Map::<Seq<u8>, u64>::empty(),
    {
        KeyIndex { keys: Vec::new(), offsets: Vec::new(), map: Ghost(Map::empty()) }
    }

    /// The position of `key` among the stored keys, if it is there.
    fn find(&self, key: &[u8]) -> (r: Option<usize>)
        requires
            self.wf(),
        ensures
            match r {
                Some(i) => i < self.keys@.len() && self.keys@[i as int]@ == key@,
                None => !self@.contains_key(key@),
            },
    {
        let mut i: usize = 0;
        while i < self.keys.len()
            invariant
                self.wf(),
                i <= self.keys@.len(),
                forall|j: int| 0 <= j < i ==> self.keys@[j]@ != key@,
            decreases self.keys@.len() - i,
        {
            if bytes_equal(self.keys[i].as_slice(), key) {
                return Some(i);
            }
            i = i + 1;
        }
        None
    }

    /// The offset recorded for `key`, if any.
    pub fn get(&self, key: &[u8]) -> (r: Option<u64>)
        requires
            self.wf(),
        ensures
            r == (if self@.contains_key(key@) {
                Some(self@[key@])
            } else {
                None::<u64>
            }),
    {
        match self.find(key) {
            Some(i) => Some(self.offsets[i]),
            None => None,
        }
    }

    /// Records `offset` for `key`, replacing any earlier offset of that key.
    pub fn put(&mut self, key: &[u8], offset: u64)
        requires
            old(self).wf(),
        ensures
            final(self).wf(),
            final(self)@ == old(self)@.insert(key@, offset),
    {
        let ghost new_map = self.map@.insert(key@, offset);
        match self.find(key) {
            Some(i) => {
                self.offsets.set(i, offset);
                self.map = Ghost(new_map);
                assert forall|k: Seq<u8>| #[trigger] self.map@.contains_key(k) implies exists|j: int|
                    0 <= j < self.keys@.len() && #[trigger] self.keys@[j]@ == k by {
                    if k != key@ {
                        assert(old(self).map@.contains_key(k));
                    }
                }
            },
            None => {
                self.keys.push(slice_to_vec(key));
                self.offsets.push(offset);
                self.map = Ghost(new_map);
                let ghost n = self.keys@.len() - 1;
                assert(self.keys@[n]@ == key@);
                assert forall|k: Seq<u8>| #[trigger] self.map@.contains_key(k) implies exists|j: int|
                    0 <= j < self.keys@.len() && #[trigger] self.keys@[j]@ == k by {
                    if k != key@ {
                        assert(old(self).map@.contains_key(k));
                        let j = choose|j: int|
                            0 <= j < old(self).keys@.len() && #[trigger] old(self).keys@[j]@ == k;
                        assert(self.keys@[j] == old(self).keys@[j]);
                    }
                }
                assert forall|i: int| 0 <= i < self.keys@.len() implies #[trigger] self.map@.contains_key(self.keys@[i]@)
                    && self.map@[self.keys@[i]@] == self.offsets@[i] by {
                    if i < n {
                        assert(self.keys@[i] == old(self).keys@[i]);
                        assert(old(self).map@.contains_key(old(self).keys@[i]@));
                    }
                }
            },
        }
    }
}

} // verus!
