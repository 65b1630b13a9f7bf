//! A plain in-memory map from text keys to text values, where a later insert
//! of a key replaces its value.
use vstd::prelude::*;

verus! {

/// Text keys with their values, each key held once.
pub struct Database {
    keys: Vec<String>,
    values: Vec<String>,
    map: Ghost<Map<Seq<char>, Seq<char>>>,
}

impl View for Database {
    type V = Map<Seq<char>, Seq<char>>;

    closed spec fn view(&self) -> Map<Seq<char>, Seq<char>> {
        self.map@
    }
}

impl Database {
    /// The parallel vectors hold exactly the entries of the map, each key once.
    pub closed spec fn wf(&self) -> bool {
        &&& self.keys@.len() == self.values@.len()
        &&& forall|i: int|
            0 <= i < self.keys@.len() ==> #[trigger] self.map@.contains_key(self.keys@[i]@)
                && self.map@[self.keys@[i]@] == self.values@[i]@
        &&& forall|k: Seq<char>|
            #[trigger] self.map@.contains_key(k) ==> exists|i: int|
                0 <= i < self.keys@.len() && #[trigger] self.keys@[i]@ == k
        &&& forall|i: int, j: int|
            0 <= i < self.keys@.len() && 0 <= j < self.keys@.len() && i != j
                ==> #[trigger] self.keys@[i]@ != #[trigger] self.keys@[j]@
    }

    /// An empty database.
    pub fn new() -> (r: Database)
        ensures
            r.wf(),
            r@ == Map::<Seq<char>, Seq<char>>::empty(),
    {
        Database { keys: Vec::new(), values: Vec::new(), map: Ghost(Map::empty()) }
    }

    /// The position of `key` among the stored keys, if it is there.
    fn find(&self, key: &String) -> (r: Option<usize>)
        requires
            self.wf(),
        ensures
            match r {
                Some(i) => i < self.keys@.len() && self.keys@[i as int]@ == key@,
                None => !self@.contains_key(key@),
            },
    {
        let mut i: usize = 0;
        while i < self.keys.len()
            invariant
                self.wf(),
                i <= self.keys@.len(),
                forall|j: int| 0 <= j < i ==> self.keys@[j]@ != key@,
            decreases self.keys@.len() - i,
        {
            if self.keys[i] == *key {
                return Some(i);
            }
            i = i + 1;
        }
        None
    }

    /// The value stored for `key`, if any.
    pub fn get(&self, key: &String) -> (r: Option<String>)
        requires
            self.wf(),
        ensures
            match r {
                Some(v) => self@.contains_key(key@) && v@ == self@[key@],
                None => !self@.contains_key(key@),
            },
    {
        match self.find(key) {
            Some(i) => {
                assert(self.map@.contains_key(self.keys@[i as int]@));
                Some(self.values[i].clone())
            },
            None => None,
        }
    }

    /// Stores `value` for `key`, replacing any earlier value of that key.
    pub fn insert(&mut self, key: String, value: String)
        requires
            old(self).wf(),
        ensures
            final(self).wf(),
            final(self)@ == old(self)@.insert(key@, value@),
    {
        let ghost new_map = self.map@.insert(key@, value@);
        match self.find(&key) {
            Some(i) => {
                self.values.set(i, value);
                self.map = Ghost(new_map);
                assert forall|k: Seq<char>| #[trigger] self.map@.contains_key(k) implies exists|j: int|
                    0 <= j < self.keys@.len() && #[trigger] self.keys@[j]@ == k by {
                    if k != key@ {
                        assert(old(self).map@.contains_key(k));
                    }
                }
            },
            None => {
                let ghost key_view = key@;
                self.keys.push(key);
                self.values.push(value);
                self.map = Ghost(new_map);
                let ghost n = self.keys@.len() - 1;
                assert(self.keys@[n]@ == key_view);
                assert forall|k: Seq<char>| #[trigger] self.map@.contains_key(k) implies exists|j: int|
                    0 <= j < self.keys@.len() && #[trigger] self.keys@[j]@ == k by {
                    if k != key_view {
                        assert(old(self).map@.contains_key(k));
                        let j = choose|j: int|
                            0 <= j < old(self).keys@.len() && #[trigger] old(self).keys@[j]@ == k;
                        assert(self.keys@[j] == old(self).keys@[j]);
                    }
                }
                assert forall|i: int| 0 <= i < self.keys@.len() implies #[trigger] self.map@.contains_key(self.keys@[i]@)
                    && self.map@[self.keys@[i]@] == self.values@[i]@ by {
                    if i < n {
                        assert(self.keys@[i] == old(self).keys@[i]);
                        assert(old(self).map@.contains_key(old(self).keys@[i]@));
                    }
                }
            },
        }
    }
}

} // verus!
