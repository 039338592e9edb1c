//! The table of named data blocks: each name maps to the address and the
//! length of its bytes in program memory.
use vstd::prelude::*;

verus! {

/// One named data block.
pub struct DataEntry {
    pub name: String,
    pub addr: u16,
    pub len: u16,
}

/// Named data blocks, each name at most once.
pub struct DataTable {
    entries: Vec<DataEntry>,
}

impl DataTable {
    #[verifier::type_invariant]
    spec fn inv(self) -> bool {
        forall|a: int, b: int|
            0 <= a < b < self.entries@.len() ==> #[trigger] self.entries@[a].name@
                != #[trigger] self.entries@[b].name@
    }

    spec fn has(self, k: Seq<char>) -> bool {
        exists|j: int| 0 <= j < self.entries@.len() && #[trigger] self.entries@[j].name@ == k
    }

    spec fn at(self, k: Seq<char>) -> (u16, u16) {
        let j = choose|j: int| 0 <= j < self.entries@.len() && #[trigger] self.entries@[j].name@ == k;
        (self.entries@[j].addr, self.entries@[j].len)
    }

    /// The blocks by name: address and length.
    pub closed spec fn view(&self) -> Map<Seq<char>, (u16, u16)> {
        Map::new(|k: Seq<char>| self.has(k), |k: Seq<char>| self.at(k))
    }

    /// An empty table.
    pub fn new() -> (t: Self)
        ensures
            t@ == Map::<Seq<char>, (u16, u16)>::empty(),
    {
        let t = DataTable { entries: Vec::new() };
        assert(t@ =~= Map::<Seq<char>, (u16, u16)>::empty());
        t
    }

    fn find(&self, name: &str) -> (r: Option<usize>)
        ensures
            match r {
                Some(j) => j < self.entries@.len() && self.entries@[j as int].name@ == name@,
                None => !self.has(name@),
            },
    {
        let key = name.to_owned();
        let mut j: usize = 0;
        while j < self.entries.len()
            invariant
                j <= self.entries@.len(),
                key@ == name@,
                forall|a: int| 0 <= a < j ==> #[trigger] self.entries@[a].name@ != name@,
            decreases self.entries@.len() - j,
        {
            if self.entries[j].name == key {
                return Some(j);
            }
            j += 1;
        }
        None
    }

    /// The address and length of the block called `name`.
    pub fn get(&self, name: &str) -> (r: Option<(u16, u16)>)
        ensures
            r == (if self@.contains_key(name@) { Some(self@[name@]) } else { None::<(u16, u16)> }),
    {
        proof {
            use_type_invariant(self);
        }
        match self.find(name) {
            Some(j) => {
                let e = &self.entries[j];
                proof {
                    assert(self.has(name@));
                    let c = choose|c: int| 0 <= c < self.entries@.len() && #[trigger] self.entries@[c].name@ == name@;
                    assert(c == j as int);
                }
                Some((e.addr, e.len))
            },
            None => None,
        }
    }

    /// Records the block `name` at `addr` with `len` bytes, replacing an
    /// earlier block of that name.
    pub fn insert(&mut self, name: &str, addr: u16, len: u16)
        ensures
            final(self)@ == old(self)@.insert(name@, (addr, len)),
    {
        proof {
            use_type_invariant(&*self);
        }
        let ghost old_entries = self.entries@;
        let entry = DataEntry { name: name.to_owned(), addr, len };
        match self.find(name) {
            Some(j) => {
                let mut entries = Vec::new();
                std::mem::swap(&mut entries, &mut self.entries);
                entries.set(j, entry);
                self.entries = entries;
                proof {
                    assert forall|k: Seq<char>| self.has(k) == (k == name@ || old(self).has(k)) by {
                        if old(self).has(k) {
                            let c = choose|c: int| 0 <= c < old_entries.len() && #[trigger] old_entries[c].name@ == k;
                            assert(self.entries@[c].name@ == k || c == j as int);
                        }
                        if k == name@ {
                            assert(self.entries@[j as int].name@ == k);
                        }
                        if self.has(k) {
                            let c = choose|c: int| 0 <= c < self.entries@.len() && #[trigger] self.entries@[c].name@ == k;
                            if c != j as int {
                                assert(old_entries[c].name@ == k);
                            }
                        }
                    }
                    assert forall|k: Seq<char>| self.has(k) implies self.at(k) == (if k == name@ { (addr, len) } else { old(self).at(k) }) by {
                        let c = choose|c: int| 0 <= c < self.entries@.len() && #[trigger] self.entries@[c].name@ == k;
                        if k == name@ {
                            assert(self.entries@[j as int].name@ == k);
                            assert(c == j as int);
                        } else {
                            assert(c != j as int);
                            assert(old_entries[c].name@ == k);
                            let c2 = choose|c2: int| 0 <= c2 < old_entries.len() && #[trigger] old_entries[c2].name@ == k;
                            assert(c2 == c);
                        }
                    }
                    assert(self@ =~= old(self)@.insert(name@, (addr, len)));
                }
            },
            None => {
                let mut entries = Vec::new();
                std::mem::swap(&mut entries, &mut self.entries);
                entries.push(entry);
                self.entries = entries;
                proof {
                    let last = old_entries.len() as int;
                    assert forall|k: Seq<char>| self.has(k) == (k == name@ || old(self).has(k)) by {
                        if old(self).has(k) {
                            let c = choose|c: int| 0 <= c < old_entries.len() && #[trigger] old_entries[c].name@ == k;
                            assert(self.entries@[c].name@ == k);
                        }
                        if k == name@ {
                            assert(self.entries@[last].name@ == k);
                        }
                        if self.has(k) {
                            let c = choose|c: int| 0 <= c < self.entries@.len() && #[trigger] self.entries@[c].name@ == k;
                            if c != last {
                                assert(old_entries[c].name@ == k);
                            }
                        }
                    }
                    assert forall|k: Seq<char>| self.has(k) implies self.at(k) == (if k == name@ { (addr, len) } else { old(self).at(k) }) by {
                        let c = choose|c: int| 0 <= c < self.entries@.len() && #[trigger] self.entries@[c].name@ == k;
                        if k == name@ {
                            assert(self.entries@[last].name@ == k);
                            assert(c == last);
                        } else {
                            assert(c != last);
                            assert(old_entries[c].name@ == k);
                            let c2 = choose|c2: int| 0 <= c2 < old_entries.len() && #[trigger] old_entries[c2].name@ == k;
                            assert(c2 == c);
                        }
                    }
                    assert(self@ =~= old(self)@.insert(name@, (addr, len)));
                }
            },
        }
    }
}

} // verus!
