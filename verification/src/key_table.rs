//! A table from string keys to values.
//!
//! The hash lookup is `dashmap`'s: it maps a key to the number of the slot that
//! holds the key's value. The slots themselves are a plain vector, so the table
//! can be walked by position.
use crate::text::texts;
use dashmap::DashMap;
use vstd::prelude::*;

verus! {

/// `dashmap::DashMap`, a hash map.
#[verifier::external_type_specification]
#[verifier::external_body]
#[verifier::reject_recursive_types(K)]
#[verifier::reject_recursive_types(V)]
#[verifier::reject_recursive_types(S)]
pub struct ExDashMap<K, V, S>(dashmap::DashMap<K, V, S>);

/// What a `DashMap` from strings to slot numbers holds.
pub uninterp spec fn index_contents(index: DashMap<String, usize>) -> Map<Seq<char>, usize>;

/// `DashMap::new` makes a map that holds nothing.
#[verifier::external_body]
fn index_new() -> (index: DashMap<String, usize>)
    ensures
        index_contents(index) == (Map::<Seq<char>, usize>::empty()),
{
    DashMap::new()
}

/// `DashMap::get` finds what is stored under the key, and nothing where no such
/// key is stored. The value is handed out as a copy.
#[verifier::external_body]
fn index_get(index: &DashMap<String, usize>, key: &str) -> (slot: Option<usize>)
    ensures
        slot == (if index_contents(*index).contains_key(key@) {
            Some(index_contents(*index)[key@])
        } else {
            None
        }),
{
    index.get(key).map(|slot| *slot)
}

/// `DashMap::insert` stores the value under the key, in place of what was stored
/// under it before, and leaves every other key as it was.
#[verifier::external_body]
fn index_insert(index: &mut DashMap<String, usize>, key: String, slot: usize)
    ensures
        index_contents(*final(index)) == index_contents(*old(index)).insert(key@, slot),
{
    index.insert(key, slot);
}

/// `DashMap::remove` takes the key out, and leaves every other key as it was.
#[verifier::external_body]
fn index_remove(index: &mut DashMap<String, usize>, key: &str)
    ensures
        index_contents(*final(index)) == index_contents(*old(index)).remove(key@),
{
    index.remove(key);
}

/// A table from string keys to values.
#[verifier::reject_recursive_types(V)]
pub struct KeyTable<V> {
    index: DashMap<String, usize>,
    slots: Vec<(String, V)>,
}

impl<V> View for KeyTable<V> {
    type V = Map<Seq<char>, V>;

    closed spec fn view(&self) -> Map<Seq<char>, V> {
        Map::new(
            |k: Seq<char>| index_contents(self.index).contains_key(k),
            |k: Seq<char>| self.slots@[index_contents(self.index)[k] as int].1,
        )
    }
}

impl<V> KeyTable<V> {
    /// The lookup and the slots agree.
    pub closed spec fn wf(&self) -> bool {
        &&& forall|i: int|
            0 <= i < self.slots@.len() ==> {
                &&& index_contents(self.index).contains_key(#[trigger] self.slots@[i].0@)
                &&& index_contents(self.index)[self.slots@[i].0@] == i
            }
        &&& forall|k: Seq<char>| #[trigger]
            index_contents(self.index).contains_key(k) ==> {
                let i = index_contents(self.index)[k] as int;
                0 <= i < self.slots@.len() && self.slots@[i].0@ == k
            }
    }

    /// The keys in slot order.
    pub closed spec fn keys_in_order(&self) -> Seq<Seq<char>> {
        Seq::new(self.slots@.len(), |i: int| self.slots@[i].0@)
    }

    /// Each key of the table stands in exactly one slot.
    pub proof fn lemma_keys_in_order(&self)
        requires
            self.wf(),
        ensures
            self.keys_in_order().no_duplicates(),
            self.keys_in_order().to_set() == self@.dom(),
            self@.dom().finite(),
            self@.dom().len() == self.keys_in_order().len(),
    {
        let keys = self.keys_in_order();
        assert forall|i: int, j: int| 0 <= i < keys.len() && 0 <= j < keys.len() && i != j implies
            keys[i] != keys[j] by {
            assert(index_contents(self.index)[self.slots@[i].0@] == i);
            assert(index_contents(self.index)[self.slots@[j].0@] == j);
        }
        assert forall|k: Seq<char>| keys.to_set().contains(k) <==> self@.dom().contains(k) by {
            if self@.dom().contains(k) {
                let i = index_contents(self.index)[k] as int;
                assert(keys[i] == k);
            }
            if keys.to_set().contains(k) {
                let i = choose|i: int| 0 <= i < keys.len() && keys[i] == k;
                assert(self.slots@[i].0@ == k);
            }
        }
        assert(keys.to_set() =~= self@.dom());
        keys.unique_seq_to_set();
    }

    /// An empty table.
    pub fn new() -> (r: Self)
        ensures
            r.wf(),
            r@ == (Map::<Seq<char>, V>::empty()),
            r.keys_in_order() == Seq::<Seq<char>>::empty(),
    {
        let r = KeyTable { index: index_new(), slots: Vec::new() };
        assert(r@ =~= Map::<Seq<char>, V>::empty());
        assert(r.keys_in_order() =~= Seq::<Seq<char>>::empty());
        r
    }

    /// The number of keys.
    pub fn len(&self) -> (r: usize)
        requires
            self.wf(),
        ensures
            r == self@.dom().len(),
            r == self.keys_in_order().len(),
            self@.dom().finite(),
    {
        proof {
            self.lemma_keys_in_order();
        }
        self.slots.len()
    }

    /// Whether the table holds `key`.
    pub fn contains(&self, key: &str) -> (r: bool)
        ensures
            r == self@.contains_key(key@),
    {
        index_get(&self.index, key).is_some()
    }

    /// The value stored under `key`.
    pub fn get(&self, key: &str) -> (r: Option<&V>)
        requires
            self.wf(),
        ensures
            match r {
                Some(v) => self@.contains_key(key@) && *v == self@[key@],
                None => !self@.contains_key(key@),
            },
    {
        match index_get(&self.index, key) {
            Some(i) => Some(&self.slots[i].1),
            None => None,
        }
    }

    /// The key in slot `i`.
    pub fn key_at(&self, i: usize) -> (r: &String)
        requires
            self.wf(),
            i < self.keys_in_order().len(),
        ensures
            r@ == self.keys_in_order()[i as int],
            self@.contains_key(r@),
    {
        &self.slots[i].0
    }

    /// The value in slot `i`.
    pub fn value_at(&self, i: usize) -> (r: &V)
        requires
            self.wf(),
            i < self.keys_in_order().len(),
        ensures
            self@.contains_key(self.keys_in_order()[i as int]),
            *r == self@[self.keys_in_order()[i as int]],
    {
        assert(index_contents(self.index).contains_key(self.slots@[i as int].0@));
        &self.slots[i].1
    }

    /// A copy of every key, each once.
    pub fn keys(&self) -> (r: Vec<String>)
        requires
            self.wf(),
        ensures
            texts(r@) == self.keys_in_order(),
            texts(r@).no_duplicates(),
            texts(r@).to_set() == self@.dom(),
            self@.dom().finite(),
            self@.dom().len() == r@.len(),
    {
        let mut out: Vec<String> = Vec::new();
        let n = self.slots.len();
        for i in 0..n
            invariant
                n == self.slots@.len(),
                texts(out@) == self.keys_in_order().take(i as int),
        {
            let ghost before = out@;
            let key = self.slots[i].0.clone();
            out.push(key);
            assert(texts(out@) =~= texts(before).push(self.keys_in_order()[i as int]));
            assert(self.keys_in_order().take(i + 1) =~= self.keys_in_order().take(i as int).push(
                self.keys_in_order()[i as int],
            ));
        }
        proof {
            self.lemma_keys_in_order();
            assert(self.keys_in_order().take(n as int) =~= self.keys_in_order());
        }
        out
    }

    /// A copy of every key that `pick` picks, each once.
    pub(crate) fn keys_where<F: Fn(&str, &V) -> bool>(
        &self,
        pick: F,
        Ghost(picked): Ghost<spec_fn(Seq<char>) -> bool>,
    ) -> (r: Vec<String>)
        requires
            self.wf(),
            forall|k: &str, v: &V|
                self@.contains_key(k@) && self@[k@] == *v ==> #[trigger] call_requires(pick, (k, v)),
            forall|k: &str, v: &V, b: bool|
                self@.contains_key(k@) && self@[k@] == *v && #[trigger] call_ensures(
                    pick,
                    (k, v),
                    b,
                ) ==> b == picked(k@),
        ensures
            texts(r@).no_duplicates(),
            texts(r@).to_set() == self@.dom().filter(picked),
    {
        let ghost keys = self.keys_in_order();
        let mut out: Vec<String> = Vec::new();
        let n = self.slots.len();
        proof {
            self.lemma_keys_in_order();
        }
        for slot in 0..n
            invariant
                self.wf(),
                forall|k: &str, v: &V|
                    self@.contains_key(k@) && self@[k@] == *v ==> #[trigger] call_requires(
                        pick,
                        (k, v),
                    ),
                forall|k: &str, v: &V, b: bool|
                    self@.contains_key(k@) && self@[k@] == *v && #[trigger] call_ensures(
                        pick,
                        (k, v),
                        b,
                    ) ==> b == picked(k@),
                keys == self.keys_in_order(),
                keys.no_duplicates(),
                n == keys.len(),
                n == self.slots@.len(),
                texts(out@).no_duplicates(),
                forall|k: Seq<char>| #[trigger]
                    texts(out@).contains(k) <==> keys.take(slot as int).contains(k) && picked(k),
        {
            let ghost before = texts(out@);
            let ghost seen = keys.take(slot as int);
            let ghost next = keys.take(slot + 1);
            let key = self.key_at(slot);
            let value = self.value_at(slot);
            proof {
                assert(next =~= seen.push(keys[slot as int]));
                assert(next[slot as int] == key@);
                if seen.contains(key@) {
                    let j = choose|j: int| 0 <= j < seen.len() && seen[j] == key@;
                    assert(keys[j] == keys[slot as int]);
                }
                assert forall|k: Seq<char>| next.contains(k) <==> seen.contains(k) || k == key@ by {
                    if seen.contains(k) {
                        let j = choose|j: int| 0 <= j < seen.len() && seen[j] == k;
                        assert(next[j] == k);
                    }
                }
                assert(!before.contains(key@));
            }
            if pick(key.as_str(), value) {
                out.push(key.clone());
                proof {
                    assert(texts(out@) =~= before.push(key@));
                    assert forall|k: Seq<char>| #[trigger] texts(out@).contains(k) <==> before.contains(
                        k,
                    ) || k == key@ by {
                        if before.contains(k) {
                            let j = choose|j: int| 0 <= j < before.len() && before[j] == k;
                            assert(texts(out@)[j] == k);
                        }
                        assert(texts(out@)[before.len() as int] == key@);
                    }
                }
            }
        }
        proof {
            assert(keys.take(n as int) =~= keys);
            assert forall|k: Seq<char>| texts(out@).to_set().contains(k) <==> self@.dom().filter(
                picked,
            ).contains(k) by {
                assert(texts(out@).to_set().contains(k) <==> texts(out@).contains(k));
                assert(keys.contains(k) <==> keys.to_set().contains(k));
            }
            assert(texts(out@).to_set() =~= self@.dom().filter(picked));
        }
        out
    }

    /// Store `value` under `key`.
    pub fn insert(&mut self, key: String, value: V)
        requires
            old(self).wf(),
        ensures
            final(self).wf(),
            final(self)@ == old(self)@.insert(key@, value),
            final(self).keys_in_order() == (if old(self)@.contains_key(key@) {
                old(self).keys_in_order()
            } else {
                old(self).keys_in_order().push(key@)
            }),
    {
        let ghost before = *self;
        match index_get(&self.index, key.as_str()) {
            Some(i) => {
                self.slots.set(i, (key, value));
                assert(self.keys_in_order() =~= before.keys_in_order());
            },
            None => {
                let i = self.slots.len();
                let stored = key.clone();
                index_insert(&mut self.index, stored, i);
                self.slots.push((key, value));
                assert(self.keys_in_order() =~= before.keys_in_order().push(key@));
            },
        }
        proof {
            assert forall|i: int| 0 <= i < self.slots@.len() implies {
                &&& index_contents(self.index).contains_key(#[trigger] self.slots@[i].0@)
                &&& index_contents(self.index)[self.slots@[i].0@] == i
            } by {
                if i < before.slots@.len() {
                    assert(index_contents(before.index).contains_key(before.slots@[i].0@));
                    assert(index_contents(before.index)[before.slots@[i].0@] == i);
                }
            }
            assert(self@ =~= before@.insert(key@, value));
        }
    }

    /// Take `key` out and hand back the value that was stored under it.
    pub fn remove(&mut self, key: &str) -> (r: Option<V>)
        requires
            old(self).wf(),
        ensures
            final(self).wf(),
            final(self)@ == old(self)@.remove(key@),
            match r {
                Some(v) => old(self)@.contains_key(key@) && v == old(self)@[key@],
                None => !old(self)@.contains_key(key@) && *final(self) == *old(self),
            },
    {
        let ghost before = *self;
        match index_get(&self.index, key) {
            Some(i) => {
                let ghost n = self.slots@.len();
                index_remove(&mut self.index, key);
                let (_, value) = self.slots.swap_remove(i);
                proof {
                    assert(before.slots@[i as int].0@ == key@);
                    assert forall|j: int| 0 <= j < n && j != i implies before.slots@[j].0@ != key@ by {
                        assert(index_contents(before.index)[before.slots@[j].0@] == j);
                    }
                }
                if i < self.slots.len() {
                    let moved = self.slots[i].0.clone();
                    proof {
                        assert(moved@ == before.slots@[n - 1].0@);
                    }
                    index_insert(&mut self.index, moved, i);
                }
                proof {
                    assert forall|j: int| 0 <= j < self.slots@.len() implies {
                        &&& index_contents(self.index).contains_key(#[trigger] self.slots@[j].0@)
                        &&& index_contents(self.index)[self.slots@[j].0@] == j
                    } by {
                        if j != i {
                            assert(self.slots@[j] == before.slots@[j]);
                            assert(index_contents(before.index).contains_key(
                                before.slots@[j].0@,
                            ));
                            assert(index_contents(before.index)[before.slots@[j].0@] == j);
                            assert(index_contents(before.index)[before.slots@[n - 1].0@] == n - 1);
                        }
                    }
                    assert forall|k: Seq<char>| #[trigger]
                        index_contents(self.index).contains_key(k) implies {
                        let j = index_contents(self.index)[k] as int;
                        0 <= j < self.slots@.len() && self.slots@[j].0@ == k
                    } by {
                        assert(index_contents(before.index).contains_key(k) || k
                            == before.slots@[n - 1].0@);
                        assert(index_contents(before.index).contains_key(
                            before.slots@[n - 1].0@,
                        ));
                    }
                    assert forall|k: Seq<char>| #[trigger]
                        before@.remove(key@).contains_key(k) implies self@.contains_key(k)
                        && self@[k] == before@[k] by {
                        let j = index_contents(before.index)[k] as int;
                        assert(before.slots@[j].0@ == k);
                        assert(index_contents(before.index).contains_key(
                            before.slots@[n - 1].0@,
                        ));
                    }
                    assert(self@.dom() =~= before@.remove(key@).dom());
                    assert(self@ =~= before@.remove(key@));
                }
                Some(value)
            },
            None => {
                proof {
                    assert(self@ =~= before@.remove(key@));
                }
                None
            },
        }
    }
}

} // verus!
