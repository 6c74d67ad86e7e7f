//! A small map keyed by syntax identifiers, kept as a list of distinct keys.

use vstd::prelude::*;

use crate::syntax::LuaSyntaxId;

verus! {

/// A finite map from syntax identifiers to values; each key occurs at most once.
pub struct IdMap<V> {
    entries: Vec<(LuaSyntaxId, V)>,
}

/// The map that a list of entries with distinct keys stands for.
pub open spec fn entries_map<V>(entries: Seq<(LuaSyntaxId, V)>) -> Map<LuaSyntaxId, V>
    decreases entries.len(),
{
    if entries.len() == 0 {
        Map::empty()
    } else {
        entries_map(entries.drop_last()).insert(entries.last().0, entries.last().1)
    }
}

/// The keys of `entries` are pairwise distinct.
pub open spec fn distinct_keys<V>(entries: Seq<(LuaSyntaxId, V)>) -> bool {
    forall|i: int, j: int|
        0 <= i < j < entries.len() ==> #[trigger] entries[i].0 != #[trigger] entries[j].0
}

proof fn lemma_entries_map_dom<V>(entries: Seq<(LuaSyntaxId, V)>)
    ensures
        forall|k: LuaSyntaxId|
            #[trigger] entries_map(entries).contains_key(k) <==> exists|i: int|
                0 <= i < entries.len() && entries[i].0 == k,
    decreases entries.len(),
{
    if entries.len() > 0 {
        lemma_entries_map_dom(entries.drop_last());
        assert forall|k: LuaSyntaxId| #[trigger]
            entries_map(entries).contains_key(k) <==> exists|i: int|
                0 <= i < entries.len() && entries[i].0 == k by {
            if entries_map(entries).contains_key(k) && k != entries.last().0 {
                assert(entries_map(entries.drop_last()).contains_key(k));
                let i = choose|i: int|
                    0 <= i < entries.drop_last().len() && entries.drop_last()[i].0 == k;
                assert(entries[i].0 == k);
            }
            if exists|i: int| 0 <= i < entries.len() && entries[i].0 == k {
                let i = choose|i: int| 0 <= i < entries.len() && entries[i].0 == k;
                if i < entries.len() - 1 {
                    assert(entries.drop_last()[i].0 == k);
                    assert(entries_map(entries.drop_last()).contains_key(k));
                }
            }
        }
    }
}

proof fn lemma_entries_map_at<V>(entries: Seq<(LuaSyntaxId, V)>, i: int)
    requires
        distinct_keys(entries),
        0 <= i < entries.len(),
    ensures
        entries_map(entries).contains_key(entries[i].0),
        entries_map(entries)[entries[i].0] == entries[i].1,
    decreases entries.len(),
{
    if i < entries.len() - 1 {
        assert(entries.drop_last()[i] == entries[i]);
        assert(distinct_keys(entries.drop_last())) by {
            assert forall|a: int, b: int|
                0 <= a < b < entries.drop_last().len() implies #[trigger] entries.drop_last()[a].0
                != #[trigger] entries.drop_last()[b].0 by {
                assert(entries.drop_last()[a] == entries[a]);
                assert(entries.drop_last()[b] == entries[b]);
            }
        }
        lemma_entries_map_at(entries.drop_last(), i);
        assert(entries[i].0 != entries.last().0);
    }
}

proof fn lemma_entries_map_update<V>(entries: Seq<(LuaSyntaxId, V)>, i: int, v: V)
    requires
        distinct_keys(entries),
        0 <= i < entries.len(),
    ensures
        entries_map(entries.update(i, (entries[i].0, v))) == entries_map(entries).insert(
            entries[i].0,
            v,
        ),
    decreases entries.len(),
{
    let new = entries.update(i, (entries[i].0, v));
    if i == entries.len() - 1 {
        assert(new.drop_last() == entries.drop_last());
    } else {
        assert(new.drop_last() == entries.drop_last().update(i, (entries[i].0, v)));
        assert(distinct_keys(entries.drop_last())) by {
            assert forall|a: int, b: int|
                0 <= a < b < entries.drop_last().len() implies #[trigger] entries.drop_last()[a].0
                != #[trigger] entries.drop_last()[b].0 by {
                assert(entries.drop_last()[a] == entries[a]);
                assert(entries.drop_last()[b] == entries[b]);
            }
        }
        lemma_entries_map_update(entries.drop_last(), i, v);
        assert(entries[i].0 != entries.last().0);
        assert(entries_map(new) == entries_map(entries).insert(entries[i].0, v));
    }
}

impl<V> View for IdMap<V> {
    type V = Map<LuaSyntaxId, V>;

    open spec fn view(&self) -> Map<LuaSyntaxId, V> {
        entries_map(self.spec_entries())
    }
}

impl<V> IdMap<V> {
    /// The entries in insertion order.
    pub closed spec fn spec_entries(&self) -> Seq<(LuaSyntaxId, V)> {
        self.entries@
    }

    /// Every key occurs once.
    pub closed spec fn wf(&self) -> bool {
        distinct_keys(self.entries@)
    }

    /// An empty map.
    pub fn new() -> (r: Self)
        ensures
            r.wf(),
            r@ == Map::<LuaSyntaxId, V>::empty(),
    {
        IdMap { entries: Vec::new() }
    }

    /// The position of `key` among the entries, if it is there.
    fn find(&self, key: LuaSyntaxId) -> (r: Option<usize>)
        requires
            self.wf(),
        ensures
            match r {
                Some(i) => i < self.entries.len() && self.entries@[i as int].0 == key,
                None => !self@.contains_key(key),
            },
    {
        proof {
            lemma_entries_map_dom(self.entries@);
        }
        let mut i: usize = 0;
        while i < self.entries.len()
            invariant
                i <= self.entries.len(),
                forall|j: int| 0 <= j < i ==> self.entries@[j].0 != key,
            decreases self.entries.len() - i,
        {
            if self.entries[i].0 == key {
                return Some(i);
            }
            i = i + 1;
        }
        None
    }

    /// Binds `key` to `value`, replacing an earlier binding.
    pub fn insert(&mut self, key: LuaSyntaxId, value: V)
        requires
            old(self).wf(),
        ensures
            final(self).wf(),
            final(self)@ == old(self)@.insert(key, value),
    {
        match self.find(key) {
            Some(i) => {
                proof {
                    lemma_entries_map_update(self.entries@, i as int, value);
                }
                self.entries.set(i, (key, value));
                assert(distinct_keys(self.entries@)) by {
                    assert forall|a: int, b: int|
                        0 <= a < b < self.entries@.len() implies #[trigger] self.entries@[a].0
                        != #[trigger] self.entries@[b].0 by {
                        assert(old(self).entries@[a].0 == self.entries@[a].0);
                        assert(old(self).entries@[b].0 == self.entries@[b].0);
                    }
                }
            },
            None => {
                proof {
                    lemma_entries_map_dom(self.entries@);
                }
                let ghost before = self.entries@;
                self.entries.push((key, value));
                assert(self.entries@.drop_last() == before);
                assert(distinct_keys(self.entries@)) by {
                    assert forall|a: int, b: int|
                        0 <= a < b < self.entries@.len() implies #[trigger] self.entries@[a].0
                        != #[trigger] self.entries@[b].0 by {
                        if b == self.entries@.len() - 1 {
                            assert(before[a].0 != key);
                        } else {
                            assert(before[a] == self.entries@[a]);
                            assert(before[b] == self.entries@[b]);
                        }
                    }
                }
            },
        }
    }

    /// The value bound to `key`.
    pub fn get(&self, key: LuaSyntaxId) -> (r: Option<&V>)
        requires
            self.wf(),
        ensures
            match r {
                Some(v) => self@.contains_key(key) && self@[key] == *v,
                None => !self@.contains_key(key),
            },
    {
        match self.find(key) {
            Some(i) => {
                proof {
                    lemma_entries_map_at(self.entries@, i as int);
                }
                Some(&self.entries[i].1)
            },
            None => None,
        }
    }

    /// Whether `key` is bound.
    pub fn contains_key(&self, key: LuaSyntaxId) -> (r: bool)
        requires
            self.wf(),
        ensures
            r == self@.contains_key(key),
    {
        proof {
            lemma_entries_map_dom(self.entries@);
        }
        match self.find(key) {
            Some(i) => {
                assert(self.entries@[i as int].0 == key);
                true
            },
            None => false,
        }
    }

    /// The number of bindings.
    pub fn len(&self) -> (r: usize)
        requires
            self.wf(),
        ensures
            r == self@.len(),
    {
        proof {
            lemma_entries_map_len(self.entries@);
        }
        self.entries.len()
    }
}

proof fn lemma_entries_map_len<V>(entries: Seq<(LuaSyntaxId, V)>)
    requires
        distinct_keys(entries),
    ensures
        entries_map(entries).dom().finite(),
        entries_map(entries).len() == entries.len(),
    decreases entries.len(),
{
    if entries.len() > 0 {
        assert(distinct_keys(entries.drop_last())) by {
            assert forall|a: int, b: int|
                0 <= a < b < entries.drop_last().len() implies #[trigger] entries.drop_last()[a].0
                != #[trigger] entries.drop_last()[b].0 by {
                assert(entries.drop_last()[a] == entries[a]);
                assert(entries.drop_last()[b] == entries[b]);
            }
        }
        lemma_entries_map_len(entries.drop_last());
        lemma_entries_map_dom(entries.drop_last());
        if entries_map(entries.drop_last()).contains_key(entries.last().0) {
            let i = choose|i: int|
                0 <= i < entries.drop_last().len() && entries.drop_last()[i].0
                    == entries.last().0;
            assert(entries[i].0 == entries[entries.len() - 1].0);
        }
    }
}

} // verus!
