//! An in-memory key-value store: owned string keys mapped to owned string
//! values, with insert-or-overwrite, lookup, removal, membership and size
//! operations.
//!
//! The store is modelled as a `Map<Seq<char>, Seq<char>>`; every operation's
//! contract says exactly how it reads or changes that map.

use vstd::prelude::*;

verus! {

/// The map described by a sequence of key-value entries: each entry binds its
/// key to its value, later entries taking precedence.
spec fn map_of(entries: Seq<(String, String)>) -> Map<Seq<char>, Seq<char>>
    decreases entries.len(),
{
    if entries.len() == 0 {
        Map::empty()
    } else {
        map_of(entries.drop_last()).insert(entries.last().0@, entries.last().1@)
    }
}

/// No two entries share a key.
spec fn keys_unique(entries: Seq<(String, String)>) -> bool {
    forall|i: int, j: int|
        0 <= i < j < entries.len() ==> entries[i].0@ != entries[j].0@
}

/// Under unique keys, the entry at index `i` is what the map binds its key to.
proof fn lemma_map_of_index(entries: Seq<(String, String)>, i: int)
    requires
        keys_unique(entries),
        0 <= i < entries.len(),
    ensures
        map_of(entries).contains_key(entries[i].0@),
        map_of(entries)[entries[i].0@] == entries[i].1@,
    decreases entries.len(),
{
    if i < entries.len() - 1 {
        assert(entries.drop_last()[i] == entries[i]);
        lemma_map_of_index(entries.drop_last(), i);
        assert(entries.last().0@ != entries[i].0@);
    }
}

/// The map contains a key exactly when some entry carries it.
proof fn lemma_map_of_contains(entries: Seq<(String, String)>, k: Seq<char>)
    ensures
        map_of(entries).contains_key(k) <==> exists|i: int|
            0 <= i < entries.len() && entries[i].0@ == k,
    decreases entries.len(),
{
    if entries.len() > 0 {
        lemma_map_of_contains(entries.drop_last(), k);
        if entries.last().0@ == k {
            assert(entries[entries.len() - 1].0@ == k);
        } else {
            if exists|i: int| 0 <= i < entries.len() && entries[i].0@ == k {
                let i = choose|i: int| 0 <= i < entries.len() && entries[i].0@ == k;
                assert(entries.drop_last()[i] == entries[i]);
            }
            if exists|i: int| 0 <= i < entries.len() - 1 && entries.drop_last()[i].0@ == k {
                let i = choose|i: int|
                    0 <= i < entries.len() - 1 && entries.drop_last()[i].0@ == k;
                assert(entries[i].0@ == k);
            }
        }
    }
}

/// Under unique keys the map has exactly one binding per entry.
proof fn lemma_map_of_len(entries: Seq<(String, String)>)
    requires
        keys_unique(entries),
    ensures
        map_of(entries).dom().finite(),
        map_of(entries).dom().len() == entries.len(),
    decreases entries.len(),
{
    if entries.len() == 0 {
        assert(map_of(entries).dom() =~= Set::empty());
    } else {
        lemma_map_of_len(entries.drop_last());
        lemma_map_of_contains(entries.drop_last(), entries.last().0@);
        assert(forall|i: int|
            0 <= i < entries.len() - 1 ==> entries.drop_last()[i] == entries[i]);
        assert(!map_of(entries.drop_last()).contains_key(entries.last().0@));
    }
}

/// Removing the entry at index `i` removes exactly its key from the map.
proof fn lemma_map_of_remove(entries: Seq<(String, String)>, i: int)
    requires
        keys_unique(entries),
        0 <= i < entries.len(),
    ensures
        keys_unique(entries.remove(i)),
        map_of(entries.remove(i)) == map_of(entries).remove(entries[i].0@),
    decreases entries.len(),
{
    entries.remove_ensures(i);
    let k0 = entries[i].0@;
    assert forall|a: int, b: int|
        0 <= a < b < entries.remove(i).len() implies entries.remove(i)[a].0@
        != entries.remove(i)[b].0@ by {
        let ea: int = if a < i { a } else { a + 1 };
        let eb: int = if b < i { b } else { b + 1 };
        assert(entries.remove(i)[a] == entries[ea]);
        assert(entries.remove(i)[b] == entries[eb]);
    }
    assert(forall|a: int|
        0 <= a < entries.len() - 1 ==> entries.drop_last()[a] == entries[a]);
    if i == entries.len() - 1 {
        assert(entries.remove(i) =~= entries.drop_last());
        lemma_map_of_contains(entries.drop_last(), k0);
        assert(!map_of(entries.drop_last()).contains_key(k0));
        assert(map_of(entries.drop_last()) =~= map_of(entries).remove(k0));
    } else {
        lemma_map_of_remove(entries.drop_last(), i);
        assert(entries.remove(i).drop_last() =~= entries.drop_last().remove(i));
        assert(entries.remove(i).last() == entries.last());
        assert(entries.last().0@ != k0);
        assert(map_of(entries.remove(i)) == map_of(entries.drop_last()).remove(k0).insert(
            entries.last().0@,
            entries.last().1@,
        ));
        assert(map_of(entries.drop_last()).remove(k0).insert(
            entries.last().0@,
            entries.last().1@,
        ) =~= map_of(entries).remove(k0));
    }
}

/// A simple key-value store.
pub struct Store {
    data: Vec<(String, String)>,
}

impl View for Store {
    type V = Map<Seq<char>, Seq<char>>;

    closed spec fn view(&self) -> Map<Seq<char>, Seq<char>> {
        map_of(self.data@)
    }
}

impl Store {
    #[verifier::type_invariant]
    spec fn well_formed(self) -> bool {
        keys_unique(self.data@)
    }

    /// Number of entries, as the model sees it.
    pub open spec fn spec_len(&self) -> nat {
        self@.dom().len()
    }

    /// Whether the store holds no entry, as the model sees it.
    pub open spec fn spec_is_empty(&self) -> bool {
        self@.dom().len() == 0
    }

    /// Create a new empty store.
    pub fn new() -> (s: Self)
        ensures
            s@ == Map::<Seq<char>, Seq<char>>::empty(),
    {
        Store { data: Vec::new() }
    }

    /// Index of the entry carrying `key`, if any.
    fn find_index(data: &Vec<(String, String)>, key: &str) -> (r: Option<usize>)
        ensures
            match r {
                Some(i) => i < data@.len() && data@[i as int].0@ == key@,
                None => forall|j: int| 0 <= j < data@.len() ==> data@[j].0@ != key@,
            },
    {
        let k: String = key.to_owned();
        let mut i: usize = 0;
        while i < data.len()
            invariant
                i <= data@.len(),
                k@ == key@,
                forall|j: int| 0 <= j < i ==> data@[j].0@ != key@,
            decreases data@.len() - i,
        {
            if data[i].0 == k {
                return Some(i);
            }
            i = i + 1;
        }
        None
    }

    /// Get a value by key.
    pub fn get(&self, key: &str) -> (r: Option<&String>)
        ensures
            match r {
                Some(v) => self@.contains_key(key@) && v@ == self@[key@],
                None => !self@.contains_key(key@),
            },
    {
        proof {
            use_type_invariant(&*self);
        }
        match Self::find_index(&self.data, key) {
            Some(i) => {
                proof {
                    lemma_map_of_index(self.data@, i as int);
                }
                Some(&self.data[i].1)
            },
            None => {
                proof {
                    lemma_map_of_contains(self.data@, key@);
                }
                None
            },
        }
    }

    /// Check if a key exists.
    pub fn contains(&self, key: &str) -> (r: bool)
        ensures
            r == self@.contains_key(key@),
    {
        proof {
            use_type_invariant(&*self);
        }
        match Self::find_index(&self.data, key) {
            Some(i) => {
                proof {
                    lemma_map_of_index(self.data@, i as int);
                }
                true
            },
            None => {
                proof {
                    lemma_map_of_contains(self.data@, key@);
                }
                false
            },
        }
    }

    /// Set a key-value pair.
    pub fn set(&mut self, key: &str, value: &str)
        ensures
            final(self)@ == old(self)@.insert(key@, value@),
    {
        self.delete(key);
        proof {
            use_type_invariant(&*self);
        }
        let ghost mid = self.data@;
        let mut data: Vec<(String, String)> = Vec::new();
        std::mem::swap(&mut data, &mut self.data);
        data.push((key.to_owned(), value.to_owned()));
        proof {
            lemma_map_of_contains(mid, key@);
            assert(data@.drop_last() =~= mid);
            assert(keys_unique(data@));
            assert(map_of(data@) =~= old(self)@.insert(key@, value@));
        }
        self.data = data;
    }

    /// Delete a key-value pair.
    pub fn delete(&mut self, key: &str) -> (removed: bool)
        ensures
            removed == old(self)@.contains_key(key@),
            final(self)@ == old(self)@.remove(key@),
    {
        proof {
            use_type_invariant(&*self);
        }
        let mut data: Vec<(String, String)> = Vec::new();
        std::mem::swap(&mut data, &mut self.data);
        let ghost entries = data@;
        let removed: bool = match Self::find_index(&data, key) {
            Some(i) => {
                proof {
                    lemma_map_of_index(entries, i as int);
                    lemma_map_of_remove(entries, i as int);
                }
                data.remove(i);
                true
            },
            None => {
                proof {
                    lemma_map_of_contains(entries, key@);
                    assert(map_of(entries).remove(key@) =~= map_of(entries));
                }
                false
            },
        };
        self.data = data;
        removed
    }

    /// Get the number of entries.
    pub fn len(&self) -> (n: usize)
        ensures
            n == self.spec_len(),
    {
        proof {
            use_type_invariant(&*self);
            lemma_map_of_len(self.data@);
        }
        self.data.len()
    }

    /// Check if the store is empty.
    pub fn is_empty(&self) -> (r: bool)
        ensures
            r == self.spec_is_empty(),
            r == (self@ == Map::<Seq<char>, Seq<char>>::empty()),
    {
        proof {
            use_type_invariant(&*self);
            lemma_map_of_len(self.data@);
            if self.data@.len() > 0 {
                lemma_map_of_index(self.data@, 0);
            } else {
                assert(self@ =~= Map::<Seq<char>, Seq<char>>::empty());
            }
        }
        self.data.len() == 0
    }
}

impl Default for Store {
    /// Same as `Store::new`: an empty store.
    fn default() -> (s: Self)
        ensures
            s@ == Map::<Seq<char>, Seq<char>>::empty(),
    {
        Store::new()
    }
}

/// After `set(k, v)` the store maps `k` to `v`: setting makes the view
/// `m.insert(k, v)`, and a lookup of `k` in that view yields `v`.
pub proof fn lemma_set_then_get(m: Map<Seq<char>, Seq<char>>, k: Seq<char>, v: Seq<char>)
    ensures
        m.insert(k, v).contains_key(k),
        m.insert(k, v)[k] == v,
{
}

/// After `delete(k)` the key is gone: deleting makes the view `m.remove(k)`,
/// and that view no longer contains `k`, so `contains(k)` returns false.
pub proof fn lemma_delete_then_absent(m: Map<Seq<char>, Seq<char>>, k: Seq<char>)
    ensures
        !m.remove(k).contains_key(k),
{
}

/// `is_empty()` agrees with `len() == 0`: the two contracts speak of the same
/// entry count.
pub proof fn lemma_is_empty_iff_len_zero(s: &Store)
    ensures
        s.spec_is_empty() <==> s.spec_len() == 0,
{
}

} // verus!
