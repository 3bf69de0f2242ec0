//! A table of values keyed by room name.
//!
//! Names are kept in insertion order with no name stored twice; the table is viewed as a
//! finite map from the name's characters to the value.
use vstd::prelude::*;

verus! {

/// Values keyed by room name.
#[derive(Debug, Clone)]
pub struct RoomMap<V> {
    names: Vec<String>,
    values: Vec<V>,
}

impl<V> RoomMap<V> {
    /// The stored names, as character sequences, in storage order.
    pub closed spec fn name_seq(&self) -> Seq<Seq<char>> {
        self.names@.map_values(|s: String| s@)
    }

    /// The stored values, in storage order.
    pub closed spec fn value_seq(&self) -> Seq<V> {
        self.values@
    }

    /// One value per name, and no name stored twice.
    pub closed spec fn wf(&self) -> bool {
        &&& self.names@.len() == self.values@.len()
        &&& self.name_seq().no_duplicates()
    }

    /// The storage order lists each key of the map exactly once, next to its value.
    pub proof fn lemma_entries(&self)
        requires
            self.wf(),
        ensures
            self.name_seq().len() == self.value_seq().len(),
            self.name_seq().no_duplicates(),
            forall|i: int|
                0 <= i < self.name_seq().len() ==> #[trigger] self@.contains_key(self.name_seq()[i])
                    && self@[self.name_seq()[i]] == self.value_seq()[i],
            forall|k: Seq<char>| #[trigger] self@.contains_key(k) ==> self.name_seq().contains(k),
    {
        assert forall|i: int| 0 <= i < self.name_seq().len() implies #[trigger] self@.contains_key(
            self.name_seq()[i],
        ) && self@[self.name_seq()[i]] == self.value_seq()[i] by {
            lemma_index_of_distinct(self.name_seq(), i);
        }
    }

    /// An empty table.
    pub fn new() -> (res: Self)
        ensures
            res.wf(),
            res@ == Map::<Seq<char>, V>::empty(),
    {
        let res = RoomMap { names: Vec::new(), values: Vec::new() };
        assert(res@ =~= Map::<Seq<char>, V>::empty());
        res
    }

    /// Number of stored names.
    pub fn len(&self) -> (res: usize)
        requires
            self.wf(),
        ensures
            res == self.name_seq().len(),
            res == self@.len(),
    {
        proof {
            self.lemma_len();
        }
        self.names.len()
    }

    proof fn lemma_len(&self)
        requires
            self.wf(),
        ensures
            self@.dom().finite(),
            self@.len() == self.name_seq().len(),
    {
        assert(self@.dom() =~= self.name_seq().to_set());
        self.name_seq().unique_seq_to_set();
    }

    /// Position of `name` in storage order, if stored.
    fn find(&self, name: &String) -> (res: Option<usize>)
        requires
            self.wf(),
        ensures
            match res {
                Some(i) => i < self.name_seq().len() && self.name_seq()[i as int] == name@,
                None => !self.name_seq().contains(name@),
            },
    {
        let n = self.names.len();
        let mut i: usize = 0;
        while i < n
            invariant
                n == self.names@.len(),
                0 <= i <= n,
                forall|j: int| 0 <= j < i ==> self.name_seq()[j] != name@,
            decreases n - i,
        {
            if self.names[i] == *name {
                return Some(i);
            }
            i = i + 1;
        }
        None
    }

    /// Whether `name` is stored.
    pub fn contains_key(&self, name: &str) -> (res: bool)
        requires
            self.wf(),
        ensures
            res == self@.contains_key(name@),
    {
        let key = name.to_owned();
        match self.find(&key) {
            Some(_) => true,
            None => false,
        }
    }

    /// The value stored under `name`, if any.
    pub fn get(&self, name: &str) -> (res: Option<&V>)
        requires
            self.wf(),
        ensures
            match res {
                Some(v) => self@.contains_key(name@) && *v == self@[name@],
                None => !self@.contains_key(name@),
            },
    {
        let key = name.to_owned();
        match self.find(&key) {
            Some(i) => {
                proof {
                    lemma_index_of_distinct(self.name_seq(), i as int);
                }
                Some(&self.values[i])
            },
            None => None,
        }
    }

    /// Store `value` under `name`, replacing any earlier value.
    pub fn insert(&mut self, name: &str, value: V)
        requires
            old(self).wf(),
        ensures
            final(self).wf(),
            final(self)@ == old(self)@.insert(name@, value),
    {
        let key = name.to_owned();
        let ghost old_names = self.name_seq();
        let ghost old_map = self@;
        match self.find(&key) {
            Some(i) => {
                self.values.set(i, value);
                proof {
                    assert(self.name_seq() == old_names);
                    assert forall|k: Seq<char>| #[trigger] self@.contains_key(k) implies self@[k]
                        == old_map.insert(name@, value)[k] by {
                        let j = old_names.index_of(k);
                        lemma_index_of_distinct(old_names, j);
                        lemma_index_of_distinct(old_names, i as int);
                    }
                    assert(self@ =~= old_map.insert(name@, value));
                }
            },
            None => {
                self.names.push(key);
                self.values.push(value);
                proof {
                    let new_names = self.name_seq();
                    assert(new_names =~= old_names.push(name@));
                    assert forall|a: int, b: int|
                        0 <= a < new_names.len() && 0 <= b < new_names.len() && a != b implies
                        new_names[a] != new_names[b] by {
                        if a < old_names.len() && b < old_names.len() {
                        } else if a < old_names.len() {
                            assert(old_names.contains(new_names[a]));
                        } else {
                            assert(old_names.contains(new_names[b]));
                        }
                    }
                    let n = old_names.len() as int;
                    lemma_index_of_distinct(new_names, n);
                    assert forall|k: Seq<char>| #[trigger] self@.contains_key(k) implies self@[k]
                        == old_map.insert(name@, value)[k] by {
                        let j = new_names.index_of(k);
                        lemma_index_of_distinct(new_names, j);
                        if k != name@ {
                            let j0 = old_names.index_of(k);
                            lemma_index_of_distinct(old_names, j0);
                            lemma_index_of_distinct(new_names, j0);
                        }
                    }
                    assert forall|k: Seq<char>| #[trigger] old_map.insert(name@, value).contains_key(
                        k,
                    ) implies self@.contains_key(k) by {
                        if k != name@ {
                            let j0 = old_names.index_of(k);
                            assert(new_names[j0] == k);
                        }
                    }
                    assert(self@ =~= old_map.insert(name@, value));
                }
            },
        }
    }

    /// Remove the value stored under `name`, returning it if there was one.
    pub fn remove(&mut self, name: &str) -> (res: Option<V>)
        requires
            old(self).wf(),
        ensures
            final(self).wf(),
            final(self)@ == old(self)@.remove(name@),
            res == (if old(self)@.contains_key(name@) {
                Some(old(self)@[name@])
            } else {
                None
            }),
    {
        let key = name.to_owned();
        let ghost old_names = self.name_seq();
        let ghost old_map = self@;
        match self.find(&key) {
            Some(i) => {
                proof {
                    lemma_index_of_distinct(old_names, i as int);
                }
                self.names.remove(i);
                let v = self.values.remove(i);
                proof {
                    let new_names = self.name_seq();
                    assert(new_names =~= old_names.remove(i as int));
                    assert forall|a: int, b: int|
                        0 <= a < new_names.len() && 0 <= b < new_names.len() && a != b implies
                        new_names[a] != new_names[b] by {
                        let a0 = if a < i { a } else { a + 1 };
                        let b0 = if b < i { b } else { b + 1 };
                        assert(new_names[a] == old_names[a0]);
                        assert(new_names[b] == old_names[b0]);
                    }
                    assert forall|k: Seq<char>| #[trigger] self@.contains_key(k) implies k != name@
                        && old_map.contains_key(k) && self@[k] == old_map[k] by {
                        let j = new_names.index_of(k);
                        let j0 = if j < i { j } else { j + 1 };
                        assert(new_names[j] == old_names[j0]);
                        lemma_index_of_distinct(new_names, j);
                        lemma_index_of_distinct(old_names, j0);
                    }
                    assert forall|k: Seq<char>| #[trigger] old_map.contains_key(k) && k != name@ implies self@.contains_key(
                        k,
                    ) by {
                        let j0 = old_names.index_of(k);
                        assert(j0 != i);
                        let j = if j0 < i { j0 } else { j0 - 1 };
                        assert(new_names[j] == k);
                    }
                    assert(self@ =~= old_map.remove(name@));
                }
                Some(v)
            },
            None => {
                proof {
                    assert(self@ =~= old_map.remove(name@));
                }
                None
            },
        }
    }

    /// The name stored at position `i` in storage order.
    pub fn name_at(&self, i: usize) -> (res: &String)
        requires
            self.wf(),
            i < self.name_seq().len(),
        ensures
            res@ == self.name_seq()[i as int],
    {
        &self.names[i]
    }

    /// The value stored at position `i` in storage order.
    pub fn value_at(&self, i: usize) -> (res: &V)
        requires
            self.wf(),
            i < self.name_seq().len(),
        ensures
            *res == self.value_seq()[i as int],
    {
        &self.values[i]
    }
}

impl<V> View for RoomMap<V> {
    type V = Map<Seq<char>, V>;

    closed spec fn view(&self) -> Map<Seq<char>, V> {
        Map::new(
            |k: Seq<char>| self.name_seq().contains(k),
            |k: Seq<char>| self.values@[self.name_seq().index_of(k)],
        )
    }
}

/// In a sequence without repeats, the chosen position of an element is its only position.
proof fn lemma_index_of_distinct<A>(s: Seq<A>, i: int)
    requires
        s.no_duplicates(),
        0 <= i < s.len(),
    ensures
        s.contains(s[i]),
        s.index_of(s[i]) == i,
{
    assert(s.contains(s[i]));
}

} // verus!
