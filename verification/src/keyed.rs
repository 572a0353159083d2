//! Maps over keys that are compared by their views.

use crate::model::{lemma_views_push, views, Same};
use vstd::prelude::*;

verus! {

/// A map whose keys are told apart by their views.
#[derive(Debug)]
pub struct KeyedMap<K: View, V> {
    entries: Vec<(K, V)>,
}

impl<K: Same, V: DeepView> View for KeyedMap<K, V> {
    type V = Map<K::V, V::V>;

    closed spec fn view(&self) -> Map<K::V, V::V> {
        Map::new(
            |key: K::V| keys_of(self.entries@).contains(key),
            |key: K::V|
                self.entries@[keys_of(self.entries@).index_of(key)].1.deep_view(),
        )
    }
}

/// The keys of `entries`.
spec fn keys_of<K: View, V>(entries: Seq<(K, V)>) -> Seq<K::V> {
    Seq::new(entries.len(), |i: int| entries[i].0@)
}

/// In entries without a repeated key, each entry is the one found under its key.
proof fn lemma_entry<K: Same, V: DeepView>(map: KeyedMap<K, V>, i: int)
    requires
        keys_of(map.entries@).no_duplicates(),
        0 <= i < map.entries@.len(),
    ensures
        map@.contains_key(map.entries@[i].0@),
        map@[map.entries@[i].0@] == map.entries@[i].1.deep_view(),
{
    let keys = keys_of(map.entries@);
    assert(keys[i] == map.entries@[i].0@);
    assert(keys.contains(keys[i]));
}

impl<K: View, V> KeyedMap<K, V> {
    /// No key is stored twice.
    #[verifier::type_invariant]
    spec fn distinct(&self) -> bool {
        keys_of(self.entries@).no_duplicates()
    }
}

impl<K: Same, V: DeepView> KeyedMap<K, V> {
    /// The empty map.
    pub fn new() -> (map: KeyedMap<K, V>)
        ensures
            map@ == Map::<K::V, V::V>::empty(),
    {
        let map = KeyedMap { entries: Vec::new() };
        proof {
            assert(map@ =~= Map::<K::V, V::V>::empty());
        }
        map
    }

    /// There are finitely many keys.
    pub proof fn lemma_finite(&self)
        ensures
            self@.dom().finite(),
    {
        assert(self@.dom() =~= keys_of(self.entries@).to_set());
    }

    /// Where `key` is stored.
    fn position(&self, key: &K) -> (position: Option<usize>)
        ensures
            match position {
                Some(i) => i < self.entries@.len() && self.entries@[i as int].0@ == key@,
                None => !self@.contains_key(key@),
            },
    {
        let mut i: usize = 0;
        while i < self.entries.len()
            invariant
                i <= self.entries@.len(),
                forall|j: int| 0 <= j < i ==> #[trigger] self.entries@[j].0@ != key@,
            decreases self.entries@.len() - i,
        {
            if self.entries[i].0.same(key) {
                return Some(i);
            }
            i += 1;
        }
        None
    }

    pub fn get(&self, key: &K) -> (value: Option<&V>)
        ensures
            match value {
                Some(v) => self@.contains_key(key@) && v.deep_view() == self@[key@],
                None => !self@.contains_key(key@),
            },
    {
        proof {
            use_type_invariant(self);
        }
        match self.position(key) {
            Some(i) => {
                proof {
                    lemma_entry(*self, i as int);
                }
                Some(&self.entries[i].1)
            },
            None => None,
        }
    }

    pub fn contains_key(&self, key: &K) -> (result: bool)
        ensures
            result == self@.contains_key(key@),
    {
        self.get(key).is_some()
    }

    /// Stores `value` under `key`, in place of what was there.
    pub fn insert(&mut self, key: K, value: V)
        ensures
            final(self)@ == old(self)@.insert(key@, value.deep_view()),
    {
        proof {
            use_type_invariant(&*self);
        }
        let position = self.position(&key);
        let mut entries: Vec<(K, V)> = Vec::new();
        std::mem::swap(&mut entries, &mut self.entries);
        let ghost before = entries@;
        let ghost at = match position {
            Some(i) => i as int,
            None => before.len() as int,
        };
        match position {
            Some(i) => {
                entries.set(i, (key, value));
                proof {
                    assert(keys_of(entries@) =~= keys_of(before));
                }
            },
            None => {
                entries.push((key, value));
                proof {
                    assert(keys_of(entries@) =~= keys_of(before).push(key@));
                }
            },
        }
        self.entries = entries;
        proof {
            lemma_stored(*old(self), *self, at, key@, value.deep_view());
        }
    }

    /// The keys, each once.
    pub fn keys(&self) -> (keys: Vec<&K>)
        ensures
            views(keys@).no_duplicates(),
            views(keys@).to_set() == self@.dom(),
    {
        let mut keys: Vec<&K> = Vec::new();
        let mut i: usize = 0;
        while i < self.entries.len()
            invariant
                i <= self.entries@.len(),
                views(keys@) == keys_of(self.entries@).take(i as int),
            decreases self.entries@.len() - i,
        {
            let key = &self.entries[i].0;
            proof {
                lemma_views_push(keys@, key);
            }
            keys.push(key);
            proof {
                assert(views(keys@) =~= keys_of(self.entries@).take(i + 1));
            }
            i += 1;
        }
        proof {
            use_type_invariant(self);
            assert(views(keys@) == keys_of(self.entries@));
            assert(views(keys@).to_set() =~= self@.dom());
        }
        keys
    }
}

/// What storing an entry does to the contents of a map.
proof fn lemma_stored<K: Same, V: DeepView>(
    before: KeyedMap<K, V>,
    after: KeyedMap<K, V>,
    at: int,
    key: K::V,
    value: V::V,
)
    requires
        keys_of(before.entries@).no_duplicates(),
        keys_of(after.entries@).no_duplicates(),
        before.entries@.len() <= after.entries@.len(),
        forall|i: int|
            0 <= i < before.entries@.len() ==> {
                ||| #[trigger] after.entries@[i] == before.entries@[i]
                ||| after.entries@[i].0@ == key && before.entries@[i].0@ == key
            },
        forall|i: int|
            before.entries@.len() <= i < after.entries@.len() ==> #[trigger] after.entries@[i].0@
                == key,
        0 <= at < after.entries@.len(),
        after.entries@[at].0@ == key,
        after.entries@[at].1.deep_view() == value,
    ensures
        after@ == before@.insert(key, value),
{
    lemma_entry(after, at);
    assert forall|k: K::V| #[trigger] after@.contains_key(k) implies before@.insert(
        key,
        value,
    ).contains_key(k) && after@[k] == before@.insert(key, value)[k] by {
        let i = keys_of(after.entries@).index_of(k);
        if k != key {
            assert(after.entries@[i].0@ == k);
            lemma_entry(after, i);
            lemma_entry(before, i);
        }
    }
    assert forall|k: K::V| #[trigger] before@.contains_key(k) implies after@.contains_key(
        k,
    ) by {
        let i = keys_of(before.entries@).index_of(k);
        assert(before.entries@[i].0@ == k);
        lemma_entry(after, i);
    }
    assert(after@ =~= before@.insert(key, value));
}

impl<K: Same, T: DeepView> KeyedMap<K, Vec<T>> {
    /// Puts `item` behind the items listed under `key`.
    pub fn append(&mut self, key: K, item: T)
        ensures
            final(self)@ == old(self)@.insert(key@, listed(old(self)@, key@).push(item.deep_view())),
    {
        proof {
            use_type_invariant(&*self);
        }
        let position = self.position(&key);
        let mut entries: Vec<(K, Vec<T>)> = Vec::new();
        std::mem::swap(&mut entries, &mut self.entries);
        let ghost before = entries@;
        let ghost at = match position {
            Some(i) => i as int,
            None => before.len() as int,
        };
        match position {
            Some(i) => {
                proof {
                    lemma_entry(*old(self), i as int);
                }
                entries[i].1.push(item);
                proof {
                    assert(keys_of(entries@) =~= keys_of(before));
                    assert(entries@[i as int].1.deep_view() =~= before[i as int].1.deep_view().push(
                        item.deep_view(),
                    ));
                }
            },
            None => {
                let mut list: Vec<T> = Vec::new();
                list.push(item);
                proof {
                    assert(list.deep_view() =~= Seq::<T::V>::empty().push(item.deep_view()));
                }
                entries.push((key, list));
                proof {
                    assert(keys_of(entries@) =~= keys_of(before).push(key@));
                }
            },
        }
        self.entries = entries;
        proof {
            let list = listed(old(self)@, key@).push(item.deep_view());
            lemma_stored(*old(self), *self, at, key@, list);
        }
    }
}

/// What `map` lists under `key`: nothing, where it has no such key.
pub open spec fn listed<A, B>(map: Map<A, Seq<B>>, key: A) -> Seq<B> {
    if map.contains_key(key) {
        map[key]
    } else {
        Seq::empty()
    }
}

} // verus!
