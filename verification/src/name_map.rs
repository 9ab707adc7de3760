//! A map from names to values that keeps the names in the order in which they
//! were first inserted.

use vstd::prelude::*;

verus! {

/// One name of a [`NameMap`] with the value that stands under it.
#[derive(Debug)]
struct Entry<V> {
    name: String,
    value: V,
}

/// A map keyed by strings. Looking a name up walks the entries, so the map is
/// meant for the few agents of a workflow and the few dependencies of a task.
#[derive(Debug)]
pub struct NameMap<V> {
    entries: Vec<Entry<V>>,
}

impl<V> View for NameMap<V> {
    type V = Map<Seq<char>, V>;

    closed spec fn view(&self) -> Map<Seq<char>, V> {
        Map::new(
            |name: Seq<char>| self.names().contains(name),
            |name: Seq<char>| self.entries[self.names().index_of(name)].value,
        )
    }
}

impl<V: Clone> Clone for NameMap<V> {
    fn clone(&self) -> (copy: Self)
        ensures
            copy.names() == self.names(),
            copy@.dom() == self@.dom(),
            forall|name: Seq<char>|
                self@.contains_key(name) ==> cloned(self@[name], #[trigger] copy@[name]),
    {
        proof {
            use_type_invariant(self);
        }
        let mut entries: Vec<Entry<V>> = Vec::new();
        let mut i: usize = 0;
        while i < self.entries.len()
            invariant
                i <= self.entries.len(),
                entries.len() == i,
                forall|j: int|
                    0 <= j < i ==> (#[trigger] entries[j]).name@ == self.entries[j].name@ && cloned(
                        self.entries[j].value,
                        entries[j].value,
                    ),
            decreases self.entries.len() - i,
        {
            let name = self.entries[i].name.clone();
            let value = self.entries[i].value.clone();
            entries.push(Entry { name, value });
            i += 1;
        }
        proof {
            let copied = Seq::new(entries.len() as nat, |i: int| entries[i].name@);
            assert(copied =~= self.names());
        }
        let copy = NameMap { entries };
        proof {
            assert(copy.names() =~= self.names());
            assert(copy@.dom() =~= self@.dom());
        }
        copy
    }
}

impl<V> NameMap<V> {
    #[verifier::type_invariant]
    spec fn inv(&self) -> bool {
        self.names().no_duplicates()
    }

    /// The names of the map, in the order in which they were first inserted.
    pub closed spec fn names(&self) -> Seq<Seq<char>> {
        Seq::new(self.entries.len() as nat, |i: int| self.entries[i].name@)
    }

    /// An empty map.
    pub fn new() -> (map: Self)
        ensures
            map@ == Map::<Seq<char>, V>::empty(),
            map.names() == Seq::<Seq<char>>::empty(),
    {
        let map = NameMap { entries: Vec::new() };
        assert(map.names() =~= Seq::<Seq<char>>::empty());
        assert(map@ =~= Map::<Seq<char>, V>::empty());
        map
    }

    /// How many names the map holds.
    pub fn len(&self) -> (count: usize)
        ensures
            count == self.names().len(),
            count == self@.dom().len(),
            self@.dom().finite(),
    {
        proof {
            use_type_invariant(self);
            self.names().unique_seq_to_set();
            assert(self@.dom() =~= self.names().to_set());
        }
        self.entries.len()
    }

    /// The index of `name` among the names.
    fn find(&self, name: &String) -> (found: Option<usize>)
        ensures
            match found {
                Some(i) => i < self.entries.len() && self.names()[i as int] == name@
                    && self.names().index_of(name@) == i,
                None => !self.names().contains(name@),
            },
    {
        proof {
            use_type_invariant(self);
        }
        let ghost names = self.names();
        let mut i: usize = 0;
        while i < self.entries.len()
            invariant
                i <= self.entries.len(),
                names == self.names(),
                names.no_duplicates(),
                forall|j: int| 0 <= j < i ==> names[j] != name@,
            decreases self.entries.len() - i,
        {
            if self.entries[i].name == *name {
                assert(names[i as int] == name@);
                assert(names.contains(name@));
                return Some(i);
            }
            i += 1;
        }
        None
    }

    /// Whether the map holds `name`.
    pub fn contains_key(&self, name: &str) -> (held: bool)
        ensures
            held == self@.contains_key(name@),
    {
        let wanted = name.to_owned();
        self.find(&wanted).is_some()
    }

    /// The value under `name`, if the map holds it.
    pub fn get(&self, name: &str) -> (value: Option<&V>)
        ensures
            match value {
                Some(v) => self@.contains_key(name@) && *v == self@[name@],
                None => !self@.contains_key(name@),
            },
    {
        let wanted = name.to_owned();
        match self.find(&wanted) {
            Some(i) => Some(&self.entries[i].value),
            None => None,
        }
    }

    /// Puts `value` under `name`. A value that stood under the same name is
    /// replaced, and the name keeps its place.
    pub fn insert(&mut self, name: String, value: V)
        ensures
            final(self)@ == old(self)@.insert(name@, value),
            final(self).names() == if old(self)@.contains_key(name@) {
                old(self).names()
            } else {
                old(self).names().push(name@)
            },
    {
        proof {
            use_type_invariant(&*self);
        }
        let found = self.find(&name);
        let ghost before = *self;
        let ghost old_names = self.names();
        let mut entries: Vec<Entry<V>> = Vec::new();
        std::mem::swap(&mut entries, &mut self.entries);
        match found {
            Some(i) => {
                entries.set(i, Entry { name, value });
            },
            None => {
                entries.push(Entry { name, value });
            },
        }
        let ghost after = NameMap { entries };
        proof {
            let new_names = after.names();
            match found {
                Some(i) => {
                    assert(new_names =~= old_names);
                },
                None => {
                    assert(new_names =~= old_names.push(name@));
                },
            }
            assert(new_names.no_duplicates());
            assert forall|k: Seq<char>|
                after@.contains_key(k) <==> before@.insert(name@, value).contains_key(k) by {
                if before@.insert(name@, value).contains_key(k) {
                    if k == name@ {
                        match found {
                            Some(i) => {
                                assert(new_names[i as int] == k);
                            },
                            None => {
                                assert(new_names[old_names.len() as int] == k);
                            },
                        }
                    } else {
                        let j = old_names.index_of(k);
                        assert(old_names[j] == k);
                        assert(new_names[j] == k);
                    }
                }
            }
            assert forall|k: Seq<char>|
                after@.contains_key(k) implies after@[k] == before@.insert(name@, value)[k] by {
                let j = new_names.index_of(k);
                assert(new_names[j] == k);
                if k != name@ {
                    assert(old_names[j] == k);
                    assert(old_names.index_of(k) == j);
                } else {
                    match found {
                        Some(i) => {
                            assert(new_names[i as int] == k);
                            assert(j == i);
                        },
                        None => {
                            assert(new_names[old_names.len() as int] == k);
                            assert(j == old_names.len());
                        },
                    }
                }
            }
            assert(after@ =~= before@.insert(name@, value));
        }
        self.entries = entries;
    }
}

} // verus!
