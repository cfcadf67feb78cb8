use vstd::prelude::*;

verus! {

use crate::utils::arg_parser::Value;

/// Mapping from option identifiers to resolved values.
///
/// It is backed by an association list whose keys are pairwise distinct;
/// inserting an identifier that is already present overwrites the earlier
/// entry, so the abstract view is an ordinary finite map.
#[derive(Debug)]
pub struct ValueMap<T> {
    entries: Vec<(String, Value<T>)>,
}

spec fn unique_keys<T>(entries: Seq<(String, Value<T>)>) -> bool {
    forall|i: int, j: int| 0 <= i < j < entries.len() ==> entries[i].0@ != entries[j].0@
}

spec fn assoc_map<T>(entries: Seq<(String, Value<T>)>) -> Map<Seq<char>, Value<T>>
    decreases entries.len(),
{
    if entries.len() == 0 {
        Map::empty()
    } else {
        assoc_map(entries.drop_last()).insert(entries.last().0@, entries.last().1)
    }
}

impl<T> View for ValueMap<T> {
    type V = Map<Seq<char>, Value<T>>;

    closed spec fn view(&self) -> Map<Seq<char>, Value<T>> {
        assoc_map(self.entries@)
    }
}

proof fn lemma_unique_keys_drop_last<T>(entries: Seq<(String, Value<T>)>)
    requires
        unique_keys(entries),
        entries.len() > 0,
    ensures
        unique_keys(entries.drop_last()),
{
    assert forall|i: int, j: int|
        0 <= i < j < entries.drop_last().len() implies entries.drop_last()[i].0@
        != entries.drop_last()[j].0@ by {
        assert(entries.drop_last()[i] == entries[i]);
        assert(entries.drop_last()[j] == entries[j]);
    }
}

proof fn lemma_assoc_map_key_present<T>(entries: Seq<(String, Value<T>)>, k: Seq<char>)
    ensures
        assoc_map(entries).contains_key(k) <==> exists|i: int|
            0 <= i < entries.len() && entries[i].0@ == k,
    decreases entries.len(),
{
    if entries.len() > 0 {
        lemma_assoc_map_key_present(entries.drop_last(), k);
        if entries.last().0@ == k {
            assert(entries[entries.len() - 1].0@ == k);
        } else {
            if assoc_map(entries).contains_key(k) {
                let i = choose|i: int|
                    0 <= i < entries.drop_last().len() && entries.drop_last()[i].0@ == k;
                assert(entries[i].0@ == k);
            }
            if exists|i: int| 0 <= i < entries.len() && entries[i].0@ == k {
                let i = choose|i: int| 0 <= i < entries.len() && entries[i].0@ == k;
                assert(entries.drop_last()[i].0@ == k);
            }
        }
    }
}

proof fn lemma_assoc_map_entry<T>(entries: Seq<(String, Value<T>)>, i: int)
    requires
        unique_keys(entries),
        0 <= i < entries.len(),
    ensures
        assoc_map(entries).contains_key(entries[i].0@),
        assoc_map(entries)[entries[i].0@] == entries[i].1,
    decreases entries.len(),
{
    if i < entries.len() - 1 {
        lemma_unique_keys_drop_last(entries);
        lemma_assoc_map_entry(entries.drop_last(), i);
        assert(entries.drop_last()[i] == entries[i]);
        assert(entries.last().0@ != entries[i].0@);
    }
}

proof fn lemma_assoc_map_dom_len<T>(entries: Seq<(String, Value<T>)>)
    requires
        unique_keys(entries),
    ensures
        assoc_map(entries).dom().finite(),
        assoc_map(entries).dom().len() == entries.len(),
    decreases entries.len(),
{
    if entries.len() == 0 {
        assert(assoc_map(entries).dom() =~= Set::<Seq<char>>::empty());
    } else {
        lemma_unique_keys_drop_last(entries);
        lemma_assoc_map_dom_len(entries.drop_last());
        lemma_assoc_map_key_present(entries.drop_last(), entries.last().0@);
        assert forall|i: int|
            0 <= i < entries.drop_last().len() implies entries.drop_last()[i].0@
            != entries.last().0@ by {
            assert(entries.drop_last()[i] == entries[i]);
        }
        assert(!assoc_map(entries.drop_last()).contains_key(entries.last().0@));
        assert(assoc_map(entries).dom() =~= assoc_map(entries.drop_last()).dom().insert(
            entries.last().0@,
        ));
    }
}

proof fn lemma_assoc_map_update<T>(entries: Seq<(String, Value<T>)>, i: int, e: (String, Value<T>))
    requires
        unique_keys(entries),
        0 <= i < entries.len(),
        e.0@ == entries[i].0@,
    ensures
        assoc_map(entries.update(i, e)) == assoc_map(entries).insert(e.0@, e.1),
    decreases entries.len(),
{
    if i == entries.len() - 1 {
        assert(entries.update(i, e).drop_last() =~= entries.drop_last());
        assert(entries.update(i, e).last() == e);
        assert(assoc_map(entries.update(i, e)) =~= assoc_map(entries).insert(e.0@, e.1));
    } else {
        lemma_unique_keys_drop_last(entries);
        assert(entries.drop_last()[i] == entries[i]);
        lemma_assoc_map_update(entries.drop_last(), i, e);
        assert(entries.update(i, e).drop_last() =~= entries.drop_last().update(i, e));
        assert(entries.update(i, e).last() == entries.last());
        assert(entries.last().0@ != e.0@);
        assert(assoc_map(entries.update(i, e)) =~= assoc_map(entries).insert(e.0@, e.1));
    }
}

impl<T> ValueMap<T> {
    #[verifier::type_invariant]
    spec fn well_formed(self) -> bool {
        unique_keys(self.entries@)
    }

    /// The empty mapping.
    pub fn new() -> (m: Self)
        ensures
            m@ == Map::<Seq<char>, Value<T>>::empty(),
    {
        let m = ValueMap { entries: Vec::new() };
        proof {
            assert(m@ =~= Map::<Seq<char>, Value<T>>::empty());
        }
        m
    }

    fn index_of(&self, key: &String) -> (r: Option<usize>)
        ensures
            match r {
                Some(i) => i < self.entries@.len() && self.entries@[i as int].0@ == key@,
                None => forall|j: int| 0 <= j < self.entries@.len() ==> self.entries@[j].0@ != key@,
            },
    {
        let n = self.entries.len();
        let mut i: usize = 0;
        while i < n
            invariant
                n == self.entries@.len(),
                i <= n,
                forall|j: int| 0 <= j < i ==> self.entries@[j].0@ != key@,
            decreases n - i,
        {
            if self.entries[i].0 == *key {
                return Some(i);
            }
            i = i + 1;
        }
        None
    }

    /// Binds `key` to `value`, overwriting any earlier binding for `key`.
    pub fn insert(&mut self, key: String, value: Value<T>)
        ensures
            final(self)@ == old(self)@.insert(key@, value),
    {
        proof {
            use_type_invariant(&*self);
        }
        let idx = self.index_of(&key);
        let mut entries: Vec<(String, Value<T>)> = Vec::new();
        core::mem::swap(&mut entries, &mut self.entries);
        match idx {
            Some(i) => {
                proof {
                    lemma_assoc_map_update(entries@, i as int, (key, value));
                }
                entries[i] = (key, value);
                proof {
                    assert forall|a: int, b: int|
                        0 <= a < b < entries@.len() implies entries@[a].0@ != entries@[b].0@ by {
                        assert(old(self).entries@[a].0@ != old(self).entries@[b].0@);
                    }
                }
            },
            None => {
                entries.push((key, value));
                proof {
                    assert(entries@.drop_last() =~= old(self).entries@);
                    assert forall|a: int, b: int|
                        0 <= a < b < entries@.len() implies entries@[a].0@ != entries@[b].0@ by {
                        if b < entries@.len() - 1 {
                            assert(old(self).entries@[a].0@ != old(self).entries@[b].0@);
                        }
                    }
                }
            },
        }
        self.entries = entries;
    }

    /// Looks `key` up; `None` when `key` was never bound.
    pub fn get(&self, key: &str) -> (r: Option<&Value<T>>)
        ensures
            match r {
                Some(v) => self@.contains_key(key@) && *v == self@[key@],
                None => !self@.contains_key(key@),
            },
    {
        proof {
            use_type_invariant(&*self);
        }
        let owned: String = key.to_owned();
        let idx = self.index_of(&owned);
        match idx {
            Some(i) => {
                proof {
                    lemma_assoc_map_entry(self.entries@, i as int);
                }
                Some(&self.entries[i].1)
            },
            None => {
                proof {
                    lemma_assoc_map_key_present(self.entries@, key@);
                }
                None
            },
        }
    }

    /// The number of identifiers bound.
    pub fn len(&self) -> (n: usize)
        ensures
            n as int == self@.dom().len(),
    {
        proof {
            use_type_invariant(&*self);
            lemma_assoc_map_dom_len(self.entries@);
        }
        self.entries.len()
    }
}

} // verus!
