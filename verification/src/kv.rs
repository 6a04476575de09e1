//! The key-value handle of a mesh node.
//!
//! A node keeps replicated keys in a [`CrdtOrMap`]. Beside them it hands
//! transient values on: to all peers, or to one of them. They are not kept, only
//! sent with the next round.
use crate::crdt_kv::crdt::{
    after_collecting, after_merging, after_write, capped_usize, goes_at, joined_log, sum_over, value_of,
    CrdtOrMap, MapView, DEFAULT_TOMBSTONE_GRACE,
};
use crate::crdt_kv::engine::any::{dead_keys, fresh_engine, EngineView, MergeStrategy};
use crate::crdt_kv::engine::{changes_view, reports};
use crate::crdt_kv::operation::{CrdtChange, OpView, OperationLog};
use crate::text::{has_prefix, opt_bytes};
use crate::transport::chunk_assembler::ChunkAssembler;
use crate::transport::chunking::contents;
use bytes::Bytes;
use std::sync::Arc;
use vstd::prelude::*;

verus! {

/// What a node sends in one round.
#[derive(Debug)]
pub struct RoundBatch {
    /// Key and value for every peer.
    pub drain_entries: Vec<(String, Bytes)>,
    /// Peer, key and value for that peer alone.
    pub targeted_entries: Vec<(String, String, Bytes)>,
    /// The log of replicated operations.
    pub crdt_ops: Arc<OperationLog>,
}

/// What entries for every peer say.
pub open spec fn drain_view(entries: Seq<(String, Bytes)>) -> Seq<(Seq<char>, Seq<u8>)> {
    entries.map_values(|e: (String, Bytes)| (e.0@, contents(e.1)))
}

/// What entries for single peers say.
pub open spec fn targeted_view(
    entries: Seq<(String, String, Bytes)>,
) -> Seq<(Seq<char>, Seq<char>, Seq<u8>)> {
    entries.map_values(|e: (String, String, Bytes)| (e.0@, e.1@, contents(e.2)))
}

/// What a round says.
#[verifier::ext_equal]
pub struct RoundView {
    pub drain: Seq<(Seq<char>, Seq<u8>)>,
    pub targeted: Seq<(Seq<char>, Seq<char>, Seq<u8>)>,
    pub ops: Seq<OpView>,
}

impl View for RoundBatch {
    type V = RoundView;

    open spec fn view(&self) -> RoundView {
        RoundView {
            drain: drain_view(self.drain_entries@),
            targeted: targeted_view(self.targeted_entries@),
            ops: self.crdt_ops@,
        }
    }
}

/// A prefix was registered and stands at `at`.
pub open spec fn registers_at(
    before: MapView,
    after: MapView,
    prefix: Seq<char>,
    strategy: MergeStrategy,
    at: int,
) -> bool {
    &&& goes_at(before.prefixes, prefix, at)
    &&& after.prefixes == before.prefixes.insert(at, prefix)
    &&& after.slots == before.slots.insert(at, fresh_engine(strategy))
}

/// The key-value handle of a mesh node.
pub struct MeshKV {
    name: String,
    store: CrdtOrMap,
    assembler: ChunkAssembler,
    drain: Vec<(String, Bytes)>,
    targeted: Vec<(String, String, Bytes)>,
}

/// Access to the keys with one prefix.
#[derive(Debug)]
pub struct CrdtNamespace {
    prefix: String,
}

impl View for CrdtNamespace {
    type V = Seq<char>;

    closed spec fn view(&self) -> Seq<char> {
        self.prefix@
    }
}

impl MeshKV {
    /// The replicated keys.
    pub closed spec fn map(&self) -> MapView {
        self.store@
    }

    /// The highest reading of the clock that an operation on them was done at.
    pub closed spec fn last_reading(&self) -> u128 {
        self.store.last_reading()
    }

    /// The node's name.
    pub closed spec fn node(&self) -> Seq<char> {
        self.name@
    }

    /// The values whose chunks are still arriving.
    pub closed spec fn arriving(&self) -> ChunkAssembler {
        self.assembler
    }

    /// What waits for the next round, for every peer.
    pub closed spec fn queued(&self) -> Seq<(Seq<char>, Seq<u8>)> {
        drain_view(self.drain@)
    }

    /// What waits for the next round, for single peers.
    pub closed spec fn queued_for(&self) -> Seq<(Seq<char>, Seq<char>, Seq<u8>)> {
        targeted_view(self.targeted@)
    }

    /// The store and the assembler are sound.
    pub closed spec fn wf(&self) -> bool {
        self.store.wf() && self.assembler.wf()
    }

    /// What well-formedness says of the assembler.
    pub proof fn lemma_wf(&self)
        requires
            self.wf(),
        ensures
            self.arriving().wf(),
            self.map().slots.len() == self.map().prefixes.len() + 1,
    {
        self.store.lemma_wf();
    }

    /// A node without keys.
    pub fn new(name: String) -> (r: Self)
        ensures
            r.wf(),
            r.node() == name@,
            r.map().prefixes == Seq::<Seq<char>>::empty(),
            r.map().slots == seq![fresh_engine(MergeStrategy::LastWriterWins)],
            r.map().clock == 0,
            r.queued() == Seq::<(Seq<char>, Seq<u8>)>::empty(),
            r.queued_for() == Seq::<(Seq<char>, Seq<char>, Seq<u8>)>::empty(),
            forall|p: Seq<char>, k: Seq<char>| #[trigger] r.arriving().pending(p, k) is None,
    {
        let r = MeshKV {
            name,
            store: CrdtOrMap::new(),
            assembler: ChunkAssembler::new(),
            drain: Vec::new(),
            targeted: Vec::new(),
        };
        assert(r.queued() =~= Seq::<(Seq<char>, Seq<u8>)>::empty());
        assert(r.queued_for() =~= Seq::<(Seq<char>, Seq<char>, Seq<u8>)>::empty());
        r
    }

    /// The node's name.
    pub fn name(&self) -> (r: &str)
        ensures
            r@ == self.node(),
    {
        self.name.as_str()
    }

    /// Whether a prefix has been configured.
    pub fn is_configured(&self, prefix: &str) -> (r: bool)
        ensures
            r == self.map().prefixes.contains(prefix@),
    {
        self.store.is_registered(prefix)
    }

    /// Choose how the keys with `prefix` resolve conflicts. Each prefix can be
    /// configured once.
    pub fn configure_crdt_prefix(&mut self, prefix: &str, strategy: MergeStrategy) -> (r: CrdtNamespace)
        requires
            old(self).wf(),
            !old(self).map().prefixes.contains(prefix@),
        ensures
            final(self).wf(),
            r@ == prefix@,
            final(self).map().prefixes.to_set() == old(self).map().prefixes.to_set().insert(
                prefix@,
            ),
            exists|at: int| #[trigger]
                registers_at(old(self).map(), final(self).map(), prefix@, strategy, at),
            final(self).map().clock == old(self).map().clock,
            final(self).map().replica == old(self).map().replica,
            final(self).last_reading() == old(self).last_reading(),
            final(self).queued() == old(self).queued(),
            final(self).queued_for() == old(self).queued_for(),
            final(self).arriving() == old(self).arriving(),
            final(self).node() == old(self).node(),
    {
        let ghost before = self.map();
        self.store.register_merge_strategy(prefix.to_owned(), strategy);
        proof {
            let after = self.map();
            let at = choose|at: int| #[trigger]
                goes_at(before.prefixes, prefix@, at) && after.prefixes == before.prefixes.insert(
                    at,
                    prefix@,
                ) && after.slots == before.slots.insert(at, fresh_engine(strategy));
            assert(registers_at(before, after, prefix@, strategy, at));
            assert forall|p: Seq<char>| after.prefixes.to_set().contains(p)
                <==> before.prefixes.to_set().insert(prefix@).contains(p) by {
                if after.prefixes.contains(p) {
                    let i = choose|i: int| 0 <= i < after.prefixes.len() && after.prefixes[i] == p;
                    if i < at {
                        assert(before.prefixes[i] == p);
                    } else if i > at {
                        assert(before.prefixes[i - 1] == p);
                    }
                }
                if before.prefixes.contains(p) {
                    let i = choose|i: int| 0 <= i < before.prefixes.len() && before.prefixes[i] == p;
                    if i < at {
                        assert(after.prefixes[i] == p);
                    } else {
                        assert(after.prefixes[i + 1] == p);
                    }
                }
                assert(after.prefixes[at] == prefix@);
            }
            assert(after.prefixes.to_set() =~= before.prefixes.to_set().insert(prefix@));
        }
        CrdtNamespace { prefix: prefix.to_owned() }
    }

    /// Send `value` under `key` to every peer with the next round.
    pub fn publish(&mut self, key: String, value: Bytes)
        requires
            old(self).wf(),
        ensures
            final(self).wf(),
            final(self).queued() == old(self).queued().push((key@, contents(value))),
            final(self).queued_for() == old(self).queued_for(),
            final(self).map() == old(self).map(),
            final(self).last_reading() == old(self).last_reading(),
            final(self).arriving() == old(self).arriving(),
            final(self).node() == old(self).node(),
    {
        self.drain.push((key, value));
        assert(self.queued() =~= old(self).queued().push((key@, contents(value))));
    }

    /// Send `value` under `key` to `peer` with the next round.
    pub fn publish_to(&mut self, peer: String, key: String, value: Bytes)
        requires
            old(self).wf(),
        ensures
            final(self).wf(),
            final(self).queued_for() == old(self).queued_for().push(
                (peer@, key@, contents(value)),
            ),
            final(self).queued() == old(self).queued(),
            final(self).map() == old(self).map(),
            final(self).last_reading() == old(self).last_reading(),
            final(self).arriving() == old(self).arriving(),
            final(self).node() == old(self).node(),
    {
        self.targeted.push((peer, key, value));
        assert(self.queued_for() =~= old(self).queued_for().push((peer@, key@, contents(value))));
    }

    /// What this round sends. What was queued is taken along and queued no more.
    pub fn collect_round_batch(&mut self) -> (r: RoundBatch)
        requires
            old(self).wf(),
        ensures
            final(self).wf(),
            r@ == (RoundView {
                drain: old(self).queued(),
                targeted: old(self).queued_for(),
                ops: joined_log(old(self).map().slots),
            }),
            final(self).queued() == Seq::<(Seq<char>, Seq<u8>)>::empty(),
            final(self).queued_for() == Seq::<(Seq<char>, Seq<char>, Seq<u8>)>::empty(),
            final(self).map() == old(self).map(),
            final(self).last_reading() == old(self).last_reading(),
            final(self).arriving() == old(self).arriving(),
            final(self).node() == old(self).node(),
    {
        let crdt_ops = self.store.operation_log_snapshot();
        let mut drain_entries: Vec<(String, Bytes)> = Vec::new();
        std::mem::swap(&mut drain_entries, &mut self.drain);
        let mut targeted_entries: Vec<(String, String, Bytes)> = Vec::new();
        std::mem::swap(&mut targeted_entries, &mut self.targeted);
        assert(self.queued() =~= Seq::<(Seq<char>, Seq<u8>)>::empty());
        assert(self.queued_for() =~= Seq::<(Seq<char>, Seq<char>, Seq<u8>)>::empty());
        RoundBatch { drain_entries, targeted_entries, crdt_ops }
    }

    /// Merge a log from another node. Returns the keys whose value changed.
    pub fn merge(&mut self, log: &OperationLog) -> (r: Vec<CrdtChange>)
        requires
            old(self).wf(),
        ensures
            final(self).wf(),
            final(self).last_reading() >= old(self).last_reading(),
            final(self).map() == after_merging(
                old(self).map(),
                log@,
                final(self).last_reading(),
            ),
            reports(
                changes_view(r@),
                |k: Seq<char>| value_of(old(self).map(), k),
                |k: Seq<char>| value_of(final(self).map(), k),
            ),
            final(self).queued() == old(self).queued(),
            final(self).queued_for() == old(self).queued_for(),
            final(self).arriving() == old(self).arriving(),
            final(self).node() == old(self).node(),
    {
        let ghost before = *self;
        let changes = self.store.merge(log);
        proof {
            let now = choose|now: u128|
                self.store@ == #[trigger] after_merging(before.store@, log@, now);
            assert(self.map() == after_merging(before.map(), log@, now));
        }
        changes
    }

    /// Forget the tombstones that have outlived the default grace period.
    pub fn gc_tombstones(&mut self) -> (r: usize)
        requires
            old(self).wf(),
        ensures
            final(self).wf(),
            final(self).last_reading() >= old(self).last_reading(),
            final(self).map() == after_collecting(
                old(self).map(),
                final(self).last_reading(),
                DEFAULT_TOMBSTONE_GRACE,
            ),
            r == capped_usize(
                sum_over(
                    old(self).map().slots,
                    |e: EngineView|
                        dead_keys(e, final(self).last_reading(), DEFAULT_TOMBSTONE_GRACE).len(),
                ),
            ),
            final(self).queued() == old(self).queued(),
            final(self).queued_for() == old(self).queued_for(),
            final(self).arriving() == old(self).arriving(),
            final(self).node() == old(self).node(),
    {
        let ghost before = *self;
        let removed = self.store.gc_tombstones();
        proof {
            let now = choose|now: u128|
                self.store@ == #[trigger] after_collecting(
                    before.store@,
                    now,
                    DEFAULT_TOMBSTONE_GRACE,
                ) && removed == capped_usize(
                    sum_over(
                        before.store@.slots,
                        |e: EngineView| dead_keys(e, now, DEFAULT_TOMBSTONE_GRACE).len(),
                    ),
                );
            assert(self.map() == after_collecting(before.map(), now, DEFAULT_TOMBSTONE_GRACE));
        }
        removed
    }

    /// The values whose chunks are still arriving.
    pub fn chunk_assembler(&mut self) -> (r: &mut ChunkAssembler)
        requires
            old(self).wf(),
        ensures
            r.wf(),
            *r == old(self).arriving(),
            final(self).arriving() == *final(r),
            final(r).wf() ==> final(self).wf(),
            final(self).map() == old(self).map(),
            final(self).last_reading() == old(self).last_reading(),
            final(self).queued() == old(self).queued(),
            final(self).queued_for() == old(self).queued_for(),
            final(self).node() == old(self).node(),
    {
        &mut self.assembler
    }
}

impl CrdtNamespace {
    /// The prefix of the namespace.
    pub fn prefix(&self) -> (r: &str)
        ensures
            r@ == self@,
    {
        self.prefix.as_str()
    }

    /// Put `value` under `key`, which must start with the prefix.
    pub fn put(&self, mesh: &mut MeshKV, key: &str, value: Vec<u8>)
        requires
            old(mesh).wf(),
            has_prefix(key@, self@),
        ensures
            final(mesh).wf(),
            final(mesh).last_reading() >= old(mesh).last_reading(),
            final(mesh).map() == after_write(
                old(mesh).map(),
                key@,
                Some(value@),
                final(mesh).last_reading(),
            ),
            final(mesh).queued() == old(mesh).queued(),
            final(mesh).queued_for() == old(mesh).queued_for(),
            final(mesh).arriving() == old(mesh).arriving(),
            final(mesh).node() == old(mesh).node(),
    {
        let ghost before = *mesh;
        let ghost payload = value@;
        let _ = mesh.store.insert(key.to_owned(), value);
        proof {
            let now = choose|now: u128|
                mesh.store@ == #[trigger] after_write(before.store@, key@, Some(payload), now);
            assert(mesh.map() == after_write(before.map(), key@, Some(payload), now));
        }
    }

    /// Delete `key`, which must start with the prefix.
    pub fn delete(&self, mesh: &mut MeshKV, key: &str)
        requires
            old(mesh).wf(),
            has_prefix(key@, self@),
        ensures
            final(mesh).wf(),
            final(mesh).last_reading() >= old(mesh).last_reading(),
            final(mesh).map() == after_write(
                old(mesh).map(),
                key@,
                None,
                final(mesh).last_reading(),
            ),
            final(mesh).queued() == old(mesh).queued(),
            final(mesh).queued_for() == old(mesh).queued_for(),
            final(mesh).arriving() == old(mesh).arriving(),
            final(mesh).node() == old(mesh).node(),
    {
        let ghost before = *mesh;
        let _ = mesh.store.remove(key);
        proof {
            let now = choose|now: u128|
                mesh.store@ == #[trigger] after_write(before.store@, key@, None, now);
            assert(mesh.map() == after_write(before.map(), key@, None, now));
        }
    }

    /// The value of `key`, which must start with the prefix.
    pub fn get(&self, mesh: &MeshKV, key: &str) -> (r: Option<Vec<u8>>)
        requires
            mesh.wf(),
            has_prefix(key@, self@),
        ensures
            opt_bytes(r) == value_of(mesh.map(), key@),
    {
        mesh.store.get(key)
    }
}

} // verus!
