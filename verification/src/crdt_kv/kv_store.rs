//! Live values by key, with a counter of their changes.
use crate::key_table::KeyTable;
use crate::text::{copy_bytes, opt_bytes, texts};
use vstd::prelude::*;

verus! {

/// What `map` holds under `key`.
pub open spec fn lookup<V>(map: Map<Seq<char>, V>, key: Seq<char>) -> Option<V> {
    if map.contains_key(key) {
        Some(map[key])
    } else {
        None
    }
}

/// A counter after one more change. At its largest value it stays there.
pub open spec fn bumped(counter: u64) -> u64 {
    if counter < u64::MAX {
        (counter + 1) as u64
    } else {
        counter
    }
}

/// A counter after one more change.
pub fn bump(counter: u64) -> (r: u64)
    ensures
        r == bumped(counter),
{
    if counter < u64::MAX {
        counter + 1
    } else {
        counter
    }
}

/// Live values by key.
pub struct KvStore {
    table: KeyTable<Vec<u8>>,
    generation: u64,
}

impl View for KvStore {
    type V = Map<Seq<char>, Seq<u8>>;

    closed spec fn view(&self) -> Map<Seq<char>, Seq<u8>> {
        self.table@.map_values(|v: Vec<u8>| v@)
    }
}

impl KvStore {
    /// The underlying table is sound.
    pub closed spec fn wf(&self) -> bool {
        self.table.wf()
    }

    /// How often a live value changed.
    pub closed spec fn changes(&self) -> u64 {
        self.generation
    }

    /// A store without values.
    pub fn new() -> (r: Self)
        ensures
            r.wf(),
            r@ == (Map::<Seq<char>, Seq<u8>>::empty()),
            r.changes() == 0,
    {
        let r = KvStore { table: KeyTable::new(), generation: 0 };
        assert(r@ =~= Map::<Seq<char>, Seq<u8>>::empty());
        r
    }

    /// A copy of the value stored under `key`.
    pub fn get(&self, key: &str) -> (r: Option<Vec<u8>>)
        requires
            self.wf(),
        ensures
            opt_bytes(r) == lookup(self@, key@),
    {
        match self.table.get(key) {
            Some(v) => Some(copy_bytes(v)),
            None => None,
        }
    }

    /// Whether a value is stored under `key`.
    pub fn contains_key(&self, key: &str) -> (r: bool)
        ensures
            r == self@.contains_key(key@),
    {
        self.table.contains(key)
    }

    /// Store `value` under `key`.
    pub fn insert(&mut self, key: String, value: Vec<u8>)
        requires
            old(self).wf(),
        ensures
            final(self).wf(),
            final(self)@ == old(self)@.insert(key@, value@),
            final(self).changes() == bumped(old(self).changes()),
    {
        self.table.insert(key, value);
        self.generation = bump(self.generation);
        assert(self@ =~= old(self)@.insert(key@, value@));
    }

    /// Take the value stored under `key` out.
    pub fn remove(&mut self, key: &str) -> (r: Option<Vec<u8>>)
        requires
            old(self).wf(),
        ensures
            final(self).wf(),
            final(self)@ == old(self)@.remove(key@),
            opt_bytes(r) == lookup(old(self)@, key@),
            final(self).changes() == (if old(self)@.contains_key(key@) {
                bumped(old(self).changes())
            } else {
                old(self).changes()
            }),
    {
        let removed = self.table.remove(key);
        if removed.is_some() {
            self.generation = bump(self.generation);
        }
        assert(self@ =~= old(self)@.remove(key@));
        removed
    }

    /// The keys that have a value, each once.
    pub fn keys(&self) -> (r: Vec<String>)
        requires
            self.wf(),
        ensures
            texts(r@).no_duplicates(),
            texts(r@).to_set() == self@.dom(),
            self@.dom().finite(),
    {
        assert(self@.dom() =~= self.table@.dom());
        self.table.keys()
    }

    /// How many keys have a value.
    pub fn len(&self) -> (r: usize)
        requires
            self.wf(),
        ensures
            r == self@.dom().len(),
            self@.dom().finite(),
    {
        assert(self@.dom() =~= self.table@.dom());
        self.table.len()
    }

    /// How often a live value changed.
    pub fn generation(&self) -> (r: u64)
        ensures
            r == self.changes(),
    {
        self.generation
    }
}

} // verus!
