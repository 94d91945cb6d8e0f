//! The object store: an exclusive-owning keyed container mapping an
//! identifier to a value. Keys are unique; insertion order is irrelevant.
//!
//! The store is a vector of key-value entries with pairwise-distinct keys,
//! and its specification view is the finite map those entries denote.

use crate::update::{UpdateDelta, UpdateRule};
use vstd::prelude::*;

verus! {

/// The map denoted by a sequence of key-value entries, where a later entry
/// overrides an earlier one with the same key.
pub open spec fn map_of<T>(s: Seq<(u64, T)>) -> Map<u64, T>
    decreases s.len(),
{
    if s.len() == 0 {
        Map::empty()
    } else {
        map_of(s.drop_last()).insert(s.last().0, s.last().1)
    }
}

/// Pairwise-distinct keys in a sequence of key-value entries.
pub open spec fn unique_keys<T>(s: Seq<(u64, T)>) -> bool {
    forall|i: int, j: int|
        0 <= i < j < s.len() ==> s[i].0 != s[j].0
}

/// A key is in the denoted map exactly when some entry carries it.
proof fn lemma_map_of_dom<T>(s: Seq<(u64, T)>, k: u64)
    ensures
        map_of(s).contains_key(k) <==> exists|i: int| 0 <= i < s.len() && s[i].0 == k,
    decreases s.len(),
{
    if s.len() > 0 {
        lemma_map_of_dom(s.drop_last(), k);
        if s.last().0 == k {
            assert(s[s.len() - 1].0 == k);
        } else if exists|i: int| 0 <= i < s.len() && s[i].0 == k {
            let i = choose|i: int| 0 <= i < s.len() && s[i].0 == k;
            assert(s.drop_last()[i].0 == k);
        }
    }
}

/// Under unique keys, the denoted map sends each entry's key to its value.
proof fn lemma_map_of_index<T>(s: Seq<(u64, T)>, i: int)
    requires
        unique_keys(s),
        0 <= i < s.len(),
    ensures
        map_of(s).contains_key(s[i].0),
        map_of(s)[s[i].0] == s[i].1,
    decreases s.len(),
{
    if i < s.len() - 1 {
        assert(s.drop_last()[i] == s[i]);
        lemma_map_of_index(s.drop_last(), i);
    }
}

/// Removing the entry at a position removes exactly its key from the map.
proof fn lemma_map_of_remove<T>(s: Seq<(u64, T)>, i: int)
    requires
        unique_keys(s),
        0 <= i < s.len(),
    ensures
        map_of(s.remove(i)) == map_of(s).remove(s[i].0),
    decreases s.len(),
{
    if i == s.len() - 1 {
        assert(s.remove(i) =~= s.drop_last());
        lemma_map_of_dom(s.drop_last(), s[i].0);
        assert(forall|j: int| 0 <= j < s.drop_last().len() ==> s.drop_last()[j].0 != s[i].0);
        assert(map_of(s.drop_last()) =~= map_of(s).remove(s[i].0));
    } else {
        assert(s.remove(i).drop_last() =~= s.drop_last().remove(i));
        assert(s.remove(i).last() == s.last());
        lemma_map_of_remove(s.drop_last(), i);
        assert(s.drop_last()[i] == s[i]);
        assert(s[i].0 != s.last().0);
        assert(map_of(s.drop_last()).remove(s[i].0).insert(s.last().0, s.last().1) =~= map_of(
            s,
        ).remove(s[i].0));
    }
}

/// Replacing the value of the entry at a position updates exactly its key.
proof fn lemma_map_of_update<T>(s: Seq<(u64, T)>, i: int, v: T)
    requires
        unique_keys(s),
        0 <= i < s.len(),
    ensures
        map_of(s.update(i, (s[i].0, v))) == map_of(s).insert(s[i].0, v),
    decreases s.len(),
{
    let t = s.update(i, (s[i].0, v));
    if i == s.len() - 1 {
        assert(t.drop_last() =~= s.drop_last());
        assert(map_of(t.drop_last()).insert(t.last().0, t.last().1) =~= map_of(s).insert(
            s[i].0,
            v,
        ));
    } else {
        assert(t.drop_last() =~= s.drop_last().update(i, (s[i].0, v)));
        assert(t.last() == s.last());
        assert(s.drop_last()[i] == s[i]);
        lemma_map_of_update(s.drop_last(), i, v);
        assert(s[i].0 != s.last().0);
        assert(map_of(s.drop_last()).insert(s[i].0, v).insert(s.last().0, s.last().1) =~= map_of(
            s,
        ).insert(s[i].0, v));
    }
}

/// The denoted map is finite, and under unique keys its size is the number
/// of entries.
proof fn lemma_map_of_len<T>(s: Seq<(u64, T)>)
    requires
        unique_keys(s),
    ensures
        map_of(s).dom().finite(),
        map_of(s).dom().len() == s.len(),
    decreases s.len(),
{
    if s.len() > 0 {
        lemma_map_of_len(s.drop_last());
        lemma_map_of_dom(s.drop_last(), s.last().0);
        assert(forall|j: int| 0 <= j < s.drop_last().len() ==> s.drop_last()[j].0 != s.last().0);
        assert(!map_of(s.drop_last()).contains_key(s.last().0));
    }
}

/// An exclusive-owning keyed collection of values: a mapping from a `u64`
/// identifier to a value of type `T`.
pub struct ObjectStore<T> {
    entries: Vec<(u64, T)>,
}

impl<T> View for ObjectStore<T> {
    type V = Map<u64, T>;

    closed spec fn view(&self) -> Map<u64, T> {
        map_of(self.entries@)
    }
}

impl<T> ObjectStore<T> {
    /// Well-formedness: the entries carry pairwise-distinct keys.
    pub closed spec fn wf(&self) -> bool {
        unique_keys(self.entries@)
    }

    /// Creates an empty store.
    pub fn new() -> (r: Self)
        ensures
            r.wf(),
            r@ == Map::<u64, T>::empty(),
    {
        ObjectStore { entries: Vec::new() }
    }

    /// The number of entries in the store.
    pub fn len(&self) -> (r: usize)
        requires
            self.wf(),
        ensures
            r == self@.len(),
    {
        proof {
            lemma_map_of_len(self.entries@);
        }
        self.entries.len()
    }

    /// The position of the entry carrying `id`, if any.
    fn index_of(&self, id: u64) -> (r: Option<usize>)
        ensures
            match r {
                Some(i) => i < self.entries@.len() && self.entries@[i as int].0 == id,
                None => forall|j: int| 0 <= j < self.entries@.len() ==> self.entries@[j].0 != id,
            },
    {
        let n = self.entries.len();
        let mut i: usize = 0;
        while i < n
            invariant
                i <= n,
                n == self.entries@.len(),
                forall|j: int| 0 <= j < i ==> self.entries@[j].0 != id,
            decreases n - i,
        {
            if self.entries[i].0 == id {
                return Some(i);
            }
            i = i + 1;
        }
        None
    }

    /// Whether the store holds an entry for `id`.
    pub fn contains(&self, id: u64) -> (r: bool)
        requires
            self.wf(),
        ensures
            r <==> self@.contains_key(id),
    {
        proof {
            lemma_map_of_dom(self.entries@, id);
        }
        self.index_of(id).is_some()
    }

    /// A read-only reference to the value held for `id`, if any.
    pub fn get(&self, id: u64) -> (r: Option<&T>)
        requires
            self.wf(),
        ensures
            match r {
                Some(v) => self@.contains_key(id) && *v == self@[id],
                None => !self@.contains_key(id),
            },
    {
        proof {
            lemma_map_of_dom(self.entries@, id);
        }
        match self.index_of(id) {
            Some(i) => {
                proof {
                    lemma_map_of_index(self.entries@, i as int);
                }
                Some(&self.entries[i].1)
            },
            None => None,
        }
    }

    /// A mutable reference to the value held for `id`, if any. What the
    /// caller writes through the reference becomes the stored value.
    pub fn get_mut(&mut self, id: u64) -> (r: Option<&mut T>)
        requires
            old(self).wf(),
        ensures
            r is Some <==> old(self)@.contains_key(id),
            r matches Some(v) ==> *v == old(self)@[id] && final(self).wf() && final(self)@ == old(
                self,
            )@.insert(id, *final(v)),
            r is None ==> *final(self) == *old(self),
    {
        proof {
            lemma_map_of_dom(self.entries@, id);
        }
        match self.index_of(id) {
            Some(i) => {
                proof {
                    lemma_map_of_index(self.entries@, i as int);
                    assert forall|v: T|
                        unique_keys(self.entries@.update(i as int, (id, v))) && map_of(
                            self.entries@.update(i as int, (id, v)),
                        ) == map_of(self.entries@).insert(id, v) by {
                        lemma_map_of_update(self.entries@, i as int, v);
                    }
                }
                Some(&mut self.entries[i].1)
            },
            None => None,
        }
    }

    /// Inserts `value` for `id`, replacing any value the store held for it.
    pub fn insert(&mut self, id: u64, value: T)
        requires
            old(self).wf(),
        ensures
            final(self).wf(),
            final(self)@ == old(self)@.insert(id, value),
    {
        let _ = self.remove(id);
        proof {
            lemma_map_of_dom(self.entries@, id);
        }
        let ghost before_push = self.entries@;
        self.entries.push((id, value));
        proof {
            assert(self.entries@.drop_last() =~= before_push);
            assert(self@ =~= old(self)@.insert(id, value));
        }
    }

    /// Detaches and returns the value held for `id`; the store is unchanged
    /// if it held none.
    pub fn remove(&mut self, id: u64) -> (r: Option<T>)
        requires
            old(self).wf(),
        ensures
            final(self).wf(),
            final(self)@ == old(self)@.remove(id),
            match r {
                Some(v) => old(self)@.contains_key(id) && v == old(self)@[id],
                None => !old(self)@.contains_key(id) && *final(self) == *old(self),
            },
    {
        proof {
            lemma_map_of_dom(self.entries@, id);
        }
        match self.index_of(id) {
            Some(i) => {
                proof {
                    lemma_map_of_index(self.entries@, i as int);
                    lemma_map_of_remove(self.entries@, i as int);
                    assert(unique_keys(self.entries@.remove(i as int)));
                }
                let (_, v) = self.entries.remove(i);
                Some(v)
            },
            None => {
                proof {
                    assert(old(self)@.remove(id) =~= old(self)@);
                }
                None
            },
        }
    }

    /// Atomically detaches the value held for `id` and inserts it into
    /// `to`, replacing any value `to` held for `id`. Reports whether a value
    /// moved; both stores are unchanged when this store held none.
    pub fn transfer(&mut self, id: u64, to: &mut ObjectStore<T>) -> (moved: bool)
        requires
            old(self).wf(),
            old(to).wf(),
        ensures
            final(self).wf(),
            final(to).wf(),
            moved <==> old(self)@.contains_key(id),
            final(self)@ == old(self)@.remove(id),
            moved ==> final(to)@ == old(to)@.insert(id, old(self)@[id]),
            !moved ==> *final(self) == *old(self) && *final(to) == *old(to),
    {
        match self.remove(id) {
            Some(v) => {
                to.insert(id, v);
                true
            },
            None => false,
        }
    }

    /// Applies `rule` exactly once to each value in the store, in place,
    /// passing the tick's delta value. The keys are untouched.
    pub fn apply_rule<F: UpdateRule<T>>(&mut self, rule: &F, delta: &F::Delta)
        requires
            old(self).wf(),
        ensures
            final(self).wf(),
            final(self)@.dom() == old(self)@.dom(),
            forall|k: u64|
                old(self)@.contains_key(k) ==> final(self)@[k] == rule.applied(
                    old(self)@[k],
                    *delta,
                ),
    {
        let n = self.entries.len();
        let mut i: usize = 0;
        while i < n
            invariant
                i <= n,
                n == self.entries@.len(),
                n == old(self).entries@.len(),
                unique_keys(self.entries@),
                forall|j: int|
                    0 <= j < n ==> (#[trigger] self.entries@[j]).0 == old(self).entries@[j].0,
                forall|j: int|
                    0 <= j < i ==> (#[trigger] self.entries@[j]).1 == rule.applied(
                        old(self).entries@[j].1,
                        *delta,
                    ),
                forall|j: int| i <= j < n ==> (#[trigger] self.entries@[j]).1 == old(self).entries@[j].1,
            decreases n - i,
        {
            let ghost before = self.entries@;
            let (k, mut v) = self.entries.remove(i);
            rule.apply(&mut v, delta);
            self.entries.insert(i, (k, v));
            proof {
                assert(self.entries@ =~= before.update(i as int, (k, v)));
            }
            i = i + 1;
        }
        proof {
            assert forall|k: u64| self@.contains_key(k) <==> old(self)@.contains_key(k) by {
                lemma_map_of_dom(self.entries@, k);
                lemma_map_of_dom(old(self).entries@, k);
                if self@.contains_key(k) {
                    let j = choose|j: int|
                        0 <= j < self.entries@.len() && self.entries@[j].0 == k;
                    assert(old(self).entries@[j].0 == k);
                }
                if old(self)@.contains_key(k) {
                    let j = choose|j: int|
                        0 <= j < old(self).entries@.len() && old(self).entries@[j].0 == k;
                    assert(self.entries@[j].0 == k);
                }
            }
            assert(self@.dom() =~= old(self)@.dom());
            assert forall|k: u64| old(self)@.contains_key(k) implies self@[k] == rule.applied(
                old(self)@[k],
                *delta,
            ) by {
                lemma_map_of_dom(old(self).entries@, k);
                let j = choose|j: int|
                    0 <= j < old(self).entries@.len() && old(self).entries@[j].0 == k;
                lemma_map_of_index(old(self).entries@, j);
                lemma_map_of_index(self.entries@, j);
            }
        }
    }

    /// Lets each value in the store update itself exactly once by the
    /// tick's delta value. The keys are untouched.
    pub fn update_all<D>(&mut self, delta: &D) where T: UpdateDelta<D>
        requires
            old(self).wf(),
        ensures
            final(self).wf(),
            final(self)@.dom() == old(self)@.dom(),
            forall|k: u64|
                old(self)@.contains_key(k) ==> final(self)@[k] == old(self)@[k].updated(*delta),
    {
        let n = self.entries.len();
        let mut i: usize = 0;
        while i < n
            invariant
                i <= n,
                n == self.entries@.len(),
                n == old(self).entries@.len(),
                unique_keys(self.entries@),
                forall|j: int|
                    0 <= j < n ==> (#[trigger] self.entries@[j]).0 == old(self).entries@[j].0,
                forall|j: int|
                    0 <= j < i ==> (#[trigger] self.entries@[j]).1 == old(
                        self,
                    ).entries@[j].1.updated(*delta),
                forall|j: int| i <= j < n ==> (#[trigger] self.entries@[j]).1 == old(self).entries@[j].1,
            decreases n - i,
        {
            let ghost before = self.entries@;
            let (k, mut v) = self.entries.remove(i);
            v.update(delta);
            self.entries.insert(i, (k, v));
            proof {
                assert(self.entries@ =~= before.update(i as int, (k, v)));
            }
            i = i + 1;
        }
        proof {
            assert forall|k: u64| self@.contains_key(k) <==> old(self)@.contains_key(k) by {
                lemma_map_of_dom(self.entries@, k);
                lemma_map_of_dom(old(self).entries@, k);
                if self@.contains_key(k) {
                    let j = choose|j: int|
                        0 <= j < self.entries@.len() && self.entries@[j].0 == k;
                    assert(old(self).entries@[j].0 == k);
                }
                if old(self)@.contains_key(k) {
                    let j = choose|j: int|
                        0 <= j < old(self).entries@.len() && old(self).entries@[j].0 == k;
                    assert(self.entries@[j].0 == k);
                }
            }
            assert(self@.dom() =~= old(self)@.dom());
            assert forall|k: u64| old(self)@.contains_key(k) implies self@[k] == old(
                self,
            )@[k].updated(*delta) by {
                lemma_map_of_dom(old(self).entries@, k);
                let j = choose|j: int|
                    0 <= j < old(self).entries@.len() && old(self).entries@[j].0 == k;
                lemma_map_of_index(old(self).entries@, j);
                lemma_map_of_index(self.entries@, j);
            }
        }
    }

    /// The identifiers of all entries, without duplicates.
    pub fn ids(&self) -> (r: Vec<u64>)
        requires
            self.wf(),
        ensures
            r@.no_duplicates(),
            r@.len() == self@.len(),
            forall|k: u64| r@.contains(k) <==> self@.contains_key(k),
    {
        let n = self.entries.len();
        let mut r: Vec<u64> = Vec::new();
        let mut i: usize = 0;
        while i < n
            invariant
                i <= n,
                n == self.entries@.len(),
                r@.len() == i,
                forall|j: int| 0 <= j < i ==> r@[j] == self.entries@[j].0,
            decreases n - i,
        {
            r.push(self.entries[i].0);
            i = i + 1;
        }
        proof {
            lemma_map_of_len(self.entries@);
            assert forall|k: u64| r@.contains(k) <==> self@.contains_key(k) by {
                lemma_map_of_dom(self.entries@, k);
                if r@.contains(k) {
                    let j = choose|j: int| 0 <= j < r@.len() && r@[j] == k;
                    assert(self.entries@[j].0 == k);
                }
                if self@.contains_key(k) {
                    let j = choose|j: int| 0 <= j < self.entries@.len() && self.entries@[j].0 == k;
                    assert(r@[j] == k);
                }
            }
        }
        r
    }
}

} // verus!
