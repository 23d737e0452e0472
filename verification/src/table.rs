//! An association list from names to values.

use vstd::prelude::*;

verus! {

/// A map keyed by name that remembers the order in which names came in.
pub struct Table<V> {
    keys: Vec<String>,
    vals: Vec<V>,
}

impl<V: View> View for Table<V> {
    type V = Map<Seq<char>, V::V>;

    closed spec fn view(&self) -> Map<Seq<char>, V::V> {
        Map::new(
            |k: Seq<char>| self.holds(k),
            |k: Seq<char>| self.vals[self.place(k)]@,
        )
    }
}

impl<V> Table<V> {
    spec fn holds(&self, k: Seq<char>) -> bool {
        exists|i: int| 0 <= i < self.keys.len() && #[trigger] self.keys[i]@ == k
    }

    spec fn place(&self, k: Seq<char>) -> int {
        choose|i: int| 0 <= i < self.keys.len() && #[trigger] self.keys[i]@ == k
    }

    /// Each name occurs once and has a value.
    pub closed spec fn wf(&self) -> bool {
        &&& self.keys.len() == self.vals.len()
        &&& forall|i: int, j: int|
            0 <= i < self.keys.len() && 0 <= j < self.keys.len() && #[trigger] self.keys[i]@
                == #[trigger] self.keys[j]@ ==> i == j
    }

    /// The names, in the order in which they first came in.
    pub closed spec fn names(&self) -> Seq<Seq<char>> {
        self.keys@.map_values(|k: String| k@)
    }

    /// Where `key` stands, or the length where it does not occur.
    fn find(&self, key: &String) -> (r: usize)
        ensures
            r <= self.keys.len(),
            r < self.keys.len() ==> self.keys[r as int]@ == key@,
            r == self.keys.len() ==> !self.holds(key@),
    {
        let mut i: usize = 0;
        while i < self.keys.len()
            invariant
                i <= self.keys.len(),
                forall|j: int| 0 <= j < i ==> #[trigger] self.keys[j]@ != key@,
            decreases self.keys.len() - i,
        {
            if self.keys[i] == *key {
                return i;
            }
            i = i + 1;
        }
        i
    }
}

impl<V: View> Table<V> {
    /// The empty table.
    pub fn new() -> (r: Self)
        ensures
            r.wf(),
            r@ == Map::<Seq<char>, V::V>::empty(),
            r.names() == Seq::<Seq<char>>::empty(),
    {
        let r = Table { keys: Vec::new(), vals: Vec::new() };
        assert(r@ =~= Map::<Seq<char>, V::V>::empty());
        assert(r.names() =~= Seq::<Seq<char>>::empty());
        r
    }

    /// Enters `val` under `key`; an earlier value under that name is replaced.
    pub fn insert(&mut self, key: String, val: V)
        requires
            old(self).wf(),
        ensures
            final(self).wf(),
            final(self)@ == old(self)@.insert(key@, val@),
            final(self).names() == (if old(self)@.contains_key(key@) {
                old(self).names()
            } else {
                old(self).names().push(key@)
            }),
    {
        let at: usize = self.find(&key);
        if at < self.keys.len() {
            let ghost before = *self;
            self.vals.set(at, val);
            proof {
                assert(self.keys == before.keys);
                assert(before.holds(key@));
                assert forall|k: Seq<char>| self.holds(k) == before.holds(k) by {}
                assert forall|k: Seq<char>| #[trigger] self.holds(k) implies self.place(k)
                    == before.place(k) by {}
                assert(self.keys[self.place(key@)]@ == key@);
                assert(self.place(key@) == at);
                assert forall|k: Seq<char>| #[trigger] self.holds(k) && k != key@ implies self.place(
                    k,
                ) != at by {
                    assert(self.keys[self.place(k)]@ == k);
                }
                assert(self@ =~= before@.insert(key@, val@));
                assert(self.names() =~= before.names());
            }
        } else {
            let ghost before = *self;
            let ghost name = key@;
            self.keys.push(key);
            self.vals.push(val);
            proof {
                let n = before.keys.len() as int;
                assert(self.keys[n]@ == name);
                assert(forall|i: int| 0 <= i < n ==> self.keys[i] == before.keys[i]);
                assert forall|k: Seq<char>| self.holds(k) == (before.holds(k) || k == name) by {
                    if before.holds(k) {
                        let i = before.place(k);
                        assert(self.keys[i]@ == k);
                    }
                    if self.holds(k) {
                        let i = self.place(k);
                        assert(self.keys[i]@ == k);
                        if i < n {
                            assert(before.keys[i]@ == k);
                        }
                    }
                }
                assert forall|k: Seq<char>| #[trigger] before.holds(k) implies self.place(k)
                    == before.place(k) by {
                    let i = before.place(k);
                    assert(self.keys[i]@ == k);
                    let j = self.place(k);
                    assert(self.keys[j]@ == k);
                    if j < n {
                        assert(before.keys[j]@ == k);
                    }
                }
                assert(self.keys[self.place(name)]@ == name);
                assert(self.place(name) == n) by {
                    let j = self.place(name);
                    if j < n {
                        assert(before.keys[j]@ == name);
                    }
                }
                assert(self@ =~= before@.insert(name, val@));
                assert(self.names() =~= before.names().push(name));
            }
        }
    }

    /// The value under `key`.
    pub fn get(&self, key: &str) -> (r: Option<&V>)
        requires
            self.wf(),
        ensures
            match r {
                Some(v) => self@.contains_key(key@) && v@ == self@[key@],
                None => !self@.contains_key(key@),
            },
    {
        let wanted: String = key.to_owned();
        let at: usize = self.find(&wanted);
        if at < self.keys.len() {
            proof {
                assert(self.holds(key@));
                assert(self.keys[self.place(key@)]@ == key@);
            }
            Some(&self.vals[at])
        } else {
            None
        }
    }

    /// How many names there are.
    pub fn len(&self) -> (r: usize)
        requires
            self.wf(),
        ensures
            r == self.names().len(),
    {
        self.keys.len()
    }

    /// The `i`-th name, in the order in which they first came in, and its value.
    pub fn entry(&self, i: usize) -> (r: (&String, &V))
        requires
            self.wf(),
            i < self.names().len(),
        ensures
            r.0@ == self.names()[i as int],
            self@.contains_key(r.0@),
            r.1@ == self@[r.0@],
    {
        proof {
            let k = self.keys[i as int]@;
            assert(self.holds(k));
            assert(self.keys[self.place(k)]@ == k);
        }
        (&self.keys[i], &self.vals[i])
    }

    /// The names are those of the map, each once.
    pub proof fn lemma_names(&self)
        requires
            self.wf(),
        ensures
            self.names().no_duplicates(),
            forall|k: Seq<char>| #[trigger] self.names().contains(k) <==> self@.contains_key(k),
    {
        let names = self.names();
        assert forall|i: int, j: int|
            0 <= i < names.len() && 0 <= j < names.len() && i != j implies names[i] != names[j] by {
            assert(names[i] == self.keys[i]@);
            assert(names[j] == self.keys[j]@);
        }
        assert forall|k: Seq<char>| #[trigger] names.contains(k) <==> self@.contains_key(k) by {
            if names.contains(k) {
                let i = choose|i: int| 0 <= i < names.len() && names[i] == k;
                assert(self.keys[i]@ == k);
            }
            if self@.contains_key(k) {
                let i = self.place(k);
                assert(self.keys[i]@ == k);
                assert(names[i] == k);
            }
        }
    }
}

} // verus!
