use vstd::prelude::*;

verus! {

/// A map from names to values, kept as a list of named entries.
pub struct NameMap<V> {
    entries: Vec<(String, V)>,
}

impl<V> NameMap<V> {
    /// No two entries share a name.
    pub closed spec fn wf(&self) -> bool {
        forall|i: int, j: int|
            0 <= i < j < self.entries@.len() ==> #[trigger] self.entries@[i].0@
                != #[trigger] self.entries@[j].0@
    }

    closed spec fn has_name(&self, name: Seq<char>) -> bool {
        exists|i: int| 0 <= i < self.entries@.len() && #[trigger] self.entries@[i].0@ == name
    }

    closed spec fn index_of(&self, name: Seq<char>) -> int {
        choose|i: int| 0 <= i < self.entries@.len() && #[trigger] self.entries@[i].0@ == name
    }
}

impl<V> View for NameMap<V> {
    type V = Map<Seq<char>, V>;

    /// The value stored under each name.
    closed spec fn view(&self) -> Map<Seq<char>, V> {
        Map::new(
            |name: Seq<char>| self.has_name(name),
            |name: Seq<char>| self.entries@[self.index_of(name)].1,
        )
    }
}

impl<V> NameMap<V> {
    /// An empty map.
    pub fn new() -> (m: Self)
        ensures
            m.wf(),
            m@ == Map::<Seq<char>, V>::empty(),
    {
        let m = NameMap { entries: Vec::new() };
        assert(m@ =~= Map::<Seq<char>, V>::empty());
        m
    }

    /// The position of the entry named `name`, if any.
    fn position(&self, name: &String) -> (r: Option<usize>)
        requires
            self.wf(),
        ensures
            match r {
                Some(i) => {
                    &&& i < self.entries@.len()
                    &&& self.entries@[i as int].0@ == name@
                    &&& self@.contains_key(name@)
                    &&& self.index_of(name@) == i
                },
                None => !self@.contains_key(name@),
            },
    {
        let mut i: usize = 0;
        while i < self.entries.len()
            invariant
                self.wf(),
                i <= self.entries@.len(),
                forall|k: int| 0 <= k < i ==> #[trigger] self.entries@[k].0@ != name@,
            decreases self.entries.len() - i,
        {
            if self.entries[i].0 == *name {
                assert(self.has_name(name@));
                let ghost j = self.index_of(name@);
                assert(self.entries@[j].0@ == name@);
                assert(j == i as int) by {
                    if j < i {
                        assert(self.entries@[j].0@ != self.entries@[i as int].0@);
                    } else if j > i {
                        assert(self.entries@[i as int].0@ != self.entries@[j].0@);
                    }
                }
                return Some(i);
            }
            i = i + 1;
        }
        None
    }

    /// The value stored under `name`, if any.
    pub fn get(&self, name: &String) -> (r: Option<&V>)
        requires
            self.wf(),
        ensures
            match r {
                Some(value) => self@.contains_key(name@) && *value == self@[name@],
                None => !self@.contains_key(name@),
            },
    {
        match self.position(name) {
            Some(i) => Some(&self.entries[i].1),
            None => None,
        }
    }

    /// Stores `value` under `name`, replacing the value stored there before.
    pub fn insert(&mut self, name: String, value: V)
        requires
            old(self).wf(),
        ensures
            final(self).wf(),
            final(self)@ == old(self)@.insert(name@, value),
    {
        let ghost old_map = *self;
        match self.position(&name) {
            Some(i) => {
                let ghost key = name@;
                let ghost val = value;
                self.entries.set(i, (name, value));
                assert forall|a: int, b: int|
                    0 <= a < b < self.entries@.len() implies #[trigger] self.entries@[a].0@
                    != #[trigger] self.entries@[b].0@ by {
                    assert(old_map.entries@[a].0@ != old_map.entries@[b].0@);
                }
                assert forall|k: Seq<char>| #[trigger] self.has_name(k) == old_map.has_name(k) by {
                    if old_map.has_name(k) {
                        let m = choose|m: int|
                            0 <= m < old_map.entries@.len() && #[trigger] old_map.entries@[m].0@
                                == k;
                        assert(self.entries@[m].0@ == k);
                    }
                    if self.has_name(k) {
                        let m = choose|m: int|
                            0 <= m < self.entries@.len() && #[trigger] self.entries@[m].0@ == k;
                        assert(old_map.entries@[m].0@ == k);
                    }
                }
                assert forall|k: Seq<char>| #[trigger] self.has_name(k) implies self.index_of(k)
                    == if k == key { i as int } else { old_map.index_of(k) } by {
                    let a = self.index_of(k);
                    if k == key {
                        assert(self.entries@[i as int].0@ == k);
                        if a != i {
                            assert(self.entries@[a].0@ != self.entries@[i as int].0@);
                        }
                    } else {
                        let b = old_map.index_of(k);
                        assert(old_map.entries@[b].0@ == k);
                        assert(self.entries@[b].0@ == k);
                        if a < b {
                            assert(self.entries@[a].0@ != self.entries@[b].0@);
                        } else if a > b {
                            assert(self.entries@[b].0@ != self.entries@[a].0@);
                        }
                    }
                }
                assert(self@ =~= old_map@.insert(key, val));
            },
            None => {
                let ghost key = name@;
                let ghost val = value;
                self.entries.push((name, value));
                let ghost n = old_map.entries@.len() as int;
                assert(self.entries@[n].0@ == key);
                assert forall|a: int, b: int|
                    0 <= a < b < self.entries@.len() implies #[trigger] self.entries@[a].0@
                    != #[trigger] self.entries@[b].0@ by {
                    if b == n {
                        assert(old_map.entries@[a].0@ == self.entries@[a].0@);
                        assert(!old_map.has_name(key));
                    } else {
                        assert(old_map.entries@[a].0@ != old_map.entries@[b].0@);
                    }
                }
                assert forall|k: Seq<char>| #[trigger] self.has_name(k) == (old_map.has_name(k)
                    || k == key) by {
                    if old_map.has_name(k) {
                        let m = choose|m: int|
                            0 <= m < old_map.entries@.len() && #[trigger] old_map.entries@[m].0@
                                == k;
                        assert(self.entries@[m].0@ == k);
                    }
                    if self.has_name(k) && k != key {
                        let m = choose|m: int|
                            0 <= m < self.entries@.len() && #[trigger] self.entries@[m].0@ == k;
                        assert(m != n);
                        assert(old_map.entries@[m].0@ == k);
                    }
                }
                assert forall|k: Seq<char>| #[trigger] self.has_name(k) implies self.index_of(k)
                    == if k == key { n } else { old_map.index_of(k) } by {
                    let a = self.index_of(k);
                    if k == key {
                        if a != n {
                            assert(self.entries@[a].0@ != self.entries@[n].0@);
                        }
                    } else {
                        let b = old_map.index_of(k);
                        assert(old_map.entries@[b].0@ == k);
                        assert(self.entries@[b].0@ == k);
                        if a < b {
                            assert(self.entries@[a].0@ != self.entries@[b].0@);
                        } else if a > b {
                            assert(self.entries@[b].0@ != self.entries@[a].0@);
                        }
                    }
                }
                assert(self@ =~= old_map@.insert(key, val));
            },
        }
    }
}

} // verus!
