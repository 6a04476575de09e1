//! The last-writer-wins engine.
//!
//! Versions decide: the newer operation wins, whether it inserts or removes. A
//! remove also beats an insert of its own version.
use super::super::kv_store::{bump, bumped, lookup, KvStore};
use super::super::operation::{
    compacted, copy_ops, folds_as, group_of, lemma_compacted_members, lemma_filter_all,
    lemma_filter_members, lemma_group_members, lemma_newest, lemma_sort_ops, mentions, newest,
    newest_op, ops_view, opt_op, sort_by_version, sort_ops, CrdtChange, OpView, Operation,
    OperationLog, AUTO_COMPACT_THRESHOLD, TRUNCATED_LEN,
};
use super::super::replica::{next_time, LamportClock, ReplicaId, Version};
use super::{
    aged, appended, changed_since, changes_view, has_aged, observed_all, over_trigger, purge_log,
    reports, snapshot, COMPACT_FLOOR,
};
use crate::key_table::KeyTable;
use crate::text::{copy_bytes, opt_bytes, texts};
use vstd::prelude::*;

verus! {

/// What is known of the winning operation on a key.
#[derive(Debug, Clone, Copy)]
pub struct ValueMetadata {
    pub version: Version,
    pub is_tombstone: bool,
    /// When the operation was recorded here, in nanoseconds.
    pub created_at: u128,
}

/// Live values and what is known of each key's winner.
#[verifier::ext_equal]
pub struct LwwState {
    pub live: Map<Seq<char>, Seq<u8>>,
    pub meta: Map<Seq<char>, ValueMetadata>,
    pub generation: u64,
}

/// Whether `op` wins over what is recorded.
pub open spec fn accepts(recorded: Option<ValueMetadata>, op: OpView) -> bool {
    match recorded {
        None => true,
        Some(m) => m.version.before(op.version) || (m.version == op.version && op.value is None
            && !m.is_tombstone),
    }
}

/// The state after `op` was applied at time `now`.
pub open spec fn apply_op(s: LwwState, op: OpView, now: u128) -> LwwState {
    if accepts(lookup(s.meta, op.key), op) {
        LwwState {
            live: match op.value {
                Some(value) => s.live.insert(op.key, value),
                None => s.live.remove(op.key),
            },
            meta: s.meta.insert(
                op.key,
                ValueMetadata {
                    version: op.version,
                    is_tombstone: op.value is None,
                    created_at: now,
                },
            ),
            generation: if op.value is Some || s.live.contains_key(op.key) {
                bumped(s.generation)
            } else {
                s.generation
            },
        }
    } else {
        s
    }
}

/// The state after `ops` were applied one after another.
pub open spec fn apply_all(s: LwwState, ops: Seq<OpView>, now: u128) -> LwwState
    decreases ops.len(),
{
    if ops.len() == 0 {
        s
    } else {
        apply_op(apply_all(s, ops.drop_last(), now), ops.last(), now)
    }
}

/// A key is live exactly when its winner is no tombstone.
pub open spec fn consistent(s: LwwState) -> bool {
    forall|k: Seq<char>| #[trigger]
        s.live.contains_key(k) <==> s.meta.contains_key(k) && !s.meta[k].is_tombstone
}

/// The log holds an operation of this version.
pub open spec fn seen_in(log: Seq<OpView>, version: Version) -> bool {
    exists|i: int| 0 <= i < log.len() && #[trigger] log[i].version == version
}

/// The operations whose version the log does not hold.
pub open spec fn unseen(ops: Seq<OpView>, log: Seq<OpView>) -> Seq<OpView> {
    ops.filter(|op: OpView| !seen_in(log, op.version))
}

/// No operation of the log would win any more.
pub open spec fn covered(meta: Map<Seq<char>, ValueMetadata>, log: Seq<OpView>) -> bool {
    forall|i: int| 0 <= i < log.len() ==> !accepts(lookup(meta, (#[trigger] log[i]).key), log[i])
}

/// A key whose tombstone has outlived `grace` at `now`.
pub open spec fn collectable(
    s: LwwState,
    key: Seq<char>,
    now: u128,
    grace: u128,
) -> bool {
    &&& s.meta.contains_key(key)
    &&& !s.live.contains_key(key)
    &&& s.meta[key].is_tombstone
    &&& aged(now, s.meta[key].created_at, grace)
}

/// The keys whose tombstones have outlived `grace` at `now`.
pub open spec fn collectable_keys(s: LwwState, now: u128, grace: u128) -> Set<Seq<char>> {
    s.meta.dom().filter(|k: Seq<char>| collectable(s, k, now, grace))
}

/// The log without the operations that collected tombstones dominate.
pub open spec fn purged(log: Seq<OpView>, s: LwwState, now: u128, grace: u128) -> Seq<OpView> {
    log.filter(
        |op: OpView|
            !collectable(s, op.key, now, grace) || s.meta[op.key].version.before(op.version),
    )
}

/// The last-writer-wins fold: of a key's operations the newest stays.
pub open spec fn lww_model() -> spec_fn(Seq<OpView>) -> Option<OpView> {
    |ops: Seq<OpView>| newest(ops)
}

/// The last-writer-wins engine.
pub struct LwwEngine {
    store: KvStore,
    metadata: KeyTable<ValueMetadata>,
    log: OperationLog,
    op_generation: u64,
    replica_id: ReplicaId,
}

impl LwwEngine {
    /// Live values and winners.
    pub closed spec fn state(&self) -> LwwState {
        LwwState {
            live: self.store@,
            meta: self.metadata@,
            generation: self.store.changes(),
        }
    }

    /// The operations kept for other replicas.
    pub closed spec fn ops(&self) -> Seq<OpView> {
        self.log@
    }

    /// How often the log changed.
    pub closed spec fn log_changes(&self) -> u64 {
        self.op_generation
    }

    /// Whose operations are stamped here.
    pub closed spec fn replica(&self) -> ReplicaId {
        self.replica_id
    }

    closed spec fn tables_wf(&self) -> bool {
        self.store.wf() && self.metadata.wf()
    }

    /// The tables are sound, live values and winners agree, and everything in
    /// the log has been applied.
    pub closed spec fn wf(&self) -> bool {
        &&& self.tables_wf()
        &&& consistent(self.state())
        &&& covered(self.state().meta, self.ops())
    }

    /// What well-formedness says of the state and the log.
    pub proof fn lemma_wf(&self)
        requires
            self.wf(),
        ensures
            consistent(self.state()),
            covered(self.state().meta, self.ops()),
            self.state().meta.dom().finite(),
            self.state().live.dom().finite(),
    {
        self.metadata.lemma_keys_in_order();
        assert(self.state().live.dom().subset_of(self.state().meta.dom()));
        vstd::set_lib::lemma_set_subset_finite(self.state().meta.dom(), self.state().live.dom());
    }

    /// An engine that knows no key.
    pub fn new(replica_id: ReplicaId) -> (r: Self)
        ensures
            r.wf(),
            r.state().live == (Map::<Seq<char>, Seq<u8>>::empty()),
            r.state().meta == (Map::<Seq<char>, ValueMetadata>::empty()),
            r.state().generation == 0,
            r.ops() == Seq::<OpView>::empty(),
            r.log_changes() == 0,
            r.replica() == replica_id,
    {
        LwwEngine {
            store: KvStore::new(),
            metadata: KeyTable::new(),
            log: OperationLog::new(),
            op_generation: 0,
            replica_id,
        }
    }

    /// Record `new` as the winner of `key`, if it wins.
    fn record_insert_metadata(&mut self, key: &str, version: Version, now: u128) -> (r: bool)
        requires
            old(self).tables_wf(),
        ensures
            final(self).tables_wf(),
            final(self).store == old(self).store,
            final(self).log == old(self).log,
            final(self).op_generation == old(self).op_generation,
            final(self).replica_id == old(self).replica_id,
            r == (!old(self).metadata@.contains_key(key@)
                || old(self).metadata@[key@].version.before(version)),
            final(self).metadata@ == (if r {
                old(self).metadata@.insert(
                    key@,
                    ValueMetadata { version, is_tombstone: false, created_at: now },
                )
            } else {
                old(self).metadata@
            }),
    {
        let accepted = match self.metadata.get(key) {
            Some(winner) => winner.version.is_before(&version),
            None => true,
        };
        if accepted {
            let new_metadata = ValueMetadata { version, is_tombstone: false, created_at: now };
            self.metadata.insert(key.to_owned(), new_metadata);
        }
        accepted
    }

    /// Record a tombstone as the winner of `key`, if it wins. A key that was
    /// never seen gets one too, so that an older insert that is still on its way
    /// stays suppressed.
    fn record_remove_metadata(&mut self, key: &str, version: Version, now: u128) -> (r: bool)
        requires
            old(self).tables_wf(),
        ensures
            final(self).tables_wf(),
            final(self).store == old(self).store,
            final(self).log == old(self).log,
            final(self).op_generation == old(self).op_generation,
            final(self).replica_id == old(self).replica_id,
            r == (match lookup(old(self).metadata@, key@) {
                Some(m) => m.version.before(version) || (m.version == version && !m.is_tombstone),
                None => true,
            }),
            final(self).metadata@ == (if r {
                old(self).metadata@.insert(
                    key@,
                    ValueMetadata { version, is_tombstone: true, created_at: now },
                )
            } else {
                old(self).metadata@
            }),
    {
        let accepted = match self.metadata.get(key) {
            Some(winner) => winner.version.is_before(&version) || (winner.version == version
                && !winner.is_tombstone),
            None => true,
        };
        if accepted {
            let tombstone = ValueMetadata { version, is_tombstone: true, created_at: now };
            self.metadata.insert(key.to_owned(), tombstone);
        }
        accepted
    }

    /// Apply one operation to the live state.
    fn apply(&mut self, op: Operation, now: u128)
        requires
            old(self).tables_wf(),
            consistent(old(self).state()),
        ensures
            final(self).tables_wf(),
            consistent(final(self).state()),
            final(self).state() == apply_op(old(self).state(), op@, now),
            final(self).log == old(self).log,
            final(self).op_generation == old(self).op_generation,
            final(self).replica_id == old(self).replica_id,
    {
        let version = op.version();
        match op {
            Operation::Insert { key, value, .. } => {
                if self.record_insert_metadata(key.as_str(), version, now) {
                    self.store.insert(key, value);
                }
            },
            Operation::Remove { key, .. } => {
                if self.record_remove_metadata(key.as_str(), version, now) {
                    let _ = self.store.remove(key.as_str());
                }
            },
        }
        assert(self.state() =~= apply_op(old(self).state(), op@, now));
    }

    fn compact_log(&mut self)
        ensures
            final(self).log@ == compacted(old(self).log@, lww_model()),
            final(self).store == old(self).store,
            final(self).metadata == old(self).metadata,
            final(self).op_generation == old(self).op_generation,
            final(self).replica_id == old(self).replica_id,
    {
        let fold = |ops: &[Operation]| -> (r: Option<Operation>)
            ensures
                opt_op(r) == newest(ops_view(ops@)),
            { newest_op(ops) };
        assert(folds_as(fold, lww_model()));
        self.log.compact_by_key(fold);
    }

    fn append_op(&mut self, op: Operation)
        requires
            old(self).metadata.wf(),
        ensures
            final(self).log@ == appended(
                old(self).log@,
                op@,
                old(self).metadata@.dom().len(),
                lww_model(),
            ),
            final(self).store == old(self).store,
            final(self).metadata == old(self).metadata,
            final(self).op_generation == bumped(old(self).op_generation),
            final(self).replica_id == old(self).replica_id,
    {
        self.log.append(op);
        self.op_generation = bump(self.op_generation);
        let keys = self.metadata.len();
        if over_trigger(self.log.len(), keys) {
            self.compact_log();
            let _ = self.log.truncate_oldest_over_threshold();
        }
    }
}

// ---- How winners move ----

/// An operation that would not win does not win later either, and one that was
/// applied would not win again.
pub proof fn lemma_apply_op_monotone(s: LwwState, op: OpView, now: u128, other: OpView)
    ensures
        !accepts(lookup(apply_op(s, op, now).meta, op.key), op),
        !accepts(lookup(s.meta, other.key), other) ==> !accepts(
            lookup(apply_op(s, op, now).meta, other.key),
            other,
        ),
        consistent(s) ==> consistent(apply_op(s, op, now)),
{
}

/// The same over many operations.
pub proof fn lemma_apply_all_monotone(s: LwwState, ops: Seq<OpView>, now: u128)
    ensures
        consistent(s) ==> consistent(apply_all(s, ops, now)),
        forall|other: OpView|
            !(#[trigger] accepts(lookup(s.meta, other.key), other)) ==> !accepts(
                lookup(apply_all(s, ops, now).meta, other.key),
                other,
            ),
        covered(apply_all(s, ops, now).meta, ops),
    decreases ops.len(),
{
    if ops.len() > 0 {
        let init = ops.drop_last();
        let mid = apply_all(s, init, now);
        lemma_apply_all_monotone(s, init, now);
        lemma_apply_op_monotone(mid, ops.last(), now, ops.last());
        assert forall|other: OpView|
            !(#[trigger] accepts(lookup(s.meta, other.key), other)) implies !accepts(
            lookup(apply_all(s, ops, now).meta, other.key),
            other,
        ) by {
            lemma_apply_op_monotone(mid, ops.last(), now, other);
        }
        assert forall|i: int| 0 <= i < ops.len() implies !accepts(
            lookup(apply_all(s, ops, now).meta, (#[trigger] ops[i]).key),
            ops[i],
        ) by {
            if i < init.len() {
                assert(init[i] == ops[i]);
                lemma_apply_op_monotone(mid, ops.last(), now, ops[i]);
            }
        }
    }
}

/// Keys that no operation speaks of are left alone.
pub proof fn lemma_apply_all_frame(s: LwwState, ops: Seq<OpView>, now: u128, key: Seq<char>)
    requires
        !mentions(ops, key),
    ensures
        lookup(apply_all(s, ops, now).live, key) == lookup(s.live, key),
        lookup(apply_all(s, ops, now).meta, key) == lookup(s.meta, key),
    decreases ops.len(),
{
    if ops.len() > 0 {
        let init = ops.drop_last();
        assert(ops[ops.len() - 1].key != key);
        assert forall|i: int| 0 <= i < init.len() implies #[trigger] init[i].key != key by {
            assert(ops[i].key != key);
        }
        lemma_apply_all_frame(s, init, now, key);
    }
}

proof fn lemma_covered_subset(
    meta: Map<Seq<char>, ValueMetadata>,
    smaller: Seq<OpView>,
    log: Seq<OpView>,
)
    requires
        covered(meta, log),
        forall|op: OpView| #[trigger] smaller.contains(op) ==> log.contains(op),
    ensures
        covered(meta, smaller),
{
    assert forall|i: int| 0 <= i < smaller.len() implies !accepts(
        lookup(meta, (#[trigger] smaller[i]).key),
        smaller[i],
    ) by {
        assert(smaller.contains(smaller[i]));
        let j = choose|j: int| 0 <= j < log.len() && log[j] == smaller[i];
        assert(log[j] == smaller[i]);
    }
}

/// Every operation that compaction keeps was in the log before.
pub proof fn lemma_lww_compacted_subset(log: Seq<OpView>)
    ensures
        forall|op: OpView| #[trigger] compacted(log, lww_model()).contains(op) ==> log.contains(op),
{
    assert forall|op: OpView| #[trigger] compacted(log, lww_model()).contains(op) implies log.contains(
        op,
    ) by {
        lemma_compacted_members(log, lww_model(), op);
        let key = choose|key: Seq<char>|
            mentions(log, key) && #[trigger] lww_model()(group_of(log, key)) == Some(op);
        lemma_newest(group_of(log, key));
        lemma_group_members(log, key);
    }
}

proof fn lemma_appended_subset(log: Seq<OpView>, op: OpView, keys: nat)
    ensures
        forall|x: OpView| #[trigger]
            appended(log, op, keys, lww_model()).contains(x) ==> log.push(op).contains(x),
{
    let longer = log.push(op);
    let short = compacted(longer, lww_model());
    lemma_lww_compacted_subset(longer);
    assert forall|x: OpView| #[trigger]
        appended(log, op, keys, lww_model()).contains(x) implies longer.contains(x) by {
        let r = appended(log, op, keys, lww_model());
        let i = choose|i: int| 0 <= i < r.len() && r[i] == x;
        if longer.len() > COMPACT_FLOOR && longer.len() > 2 * keys {
            if short.len() > AUTO_COMPACT_THRESHOLD {
                assert(short[i + short.len() - TRUNCATED_LEN] == x);
            }
            assert(short.contains(x));
        }
    }
}

impl LwwEngine {
    /// A local put. Returns the value that was live before.
    ///
    /// The put is stamped with the next reading of the clock. It wins unless the
    /// key's recorded version is as new as the stamp.
    pub fn put_local(
        &mut self,
        key: &str,
        value: Vec<u8>,
        now: u128,
        clock: &mut LamportClock,
    ) -> (r: Option<Vec<u8>>)
        requires
            old(self).wf(),
        ensures
            final(self).wf(),
            final(self).replica() == old(self).replica(),
            final(clock)@ == next_time(old(clock)@),
            opt_bytes(r) == lookup(old(self).state().live, key@),
            ({
                let op = OpView {
                    key: key@,
                    value: Some(value@),
                    version: Version {
                        timestamp: next_time(old(clock)@),
                        replica_id: old(self).replica(),
                    },
                };
                let s = apply_op(old(self).state(), op, now);
                &&& final(self).state() == s
                &&& if accepts(lookup(old(self).state().meta, key@), op) {
                    &&& final(self).ops() == appended(
                        old(self).ops(),
                        op,
                        s.meta.dom().len(),
                        lww_model(),
                    )
                    &&& final(self).log_changes() == bumped(old(self).log_changes())
                } else {
                    &&& final(self).ops() == old(self).ops()
                    &&& final(self).log_changes() == old(self).log_changes()
                }
            }),
    {
        let previous = self.store.get(key);
        let timestamp = clock.tick();
        let version = Version::new(timestamp, self.replica_id);
        let ghost op = OpView { key: key@, value: Some(value@), version };
        let ghost before = *self;
        let accepted = self.record_insert_metadata(key, version, now);
        if accepted {
            let stored = copy_bytes(&value);
            let entry = Operation::insert(key.to_owned(), value, timestamp, self.replica_id);
            self.store.insert(key.to_owned(), stored);
            self.append_op(entry);
        }
        proof {
            assert(self.state() =~= apply_op(before.state(), op, now));
            lemma_apply_op_monotone(before.state(), op, now, op);
            lemma_covered_push(before.state(), before.ops(), op, now);
            if accepted {
                lemma_appended_subset(before.ops(), op, self.state().meta.dom().len());
                lemma_covered_subset(self.state().meta, self.ops(), before.ops().push(op));
            }
        }
        previous
    }

    /// A local delete. Returns the value that it removed.
    pub fn delete_local(&mut self, key: &str, now: u128, clock: &mut LamportClock) -> (r: Option<
        Vec<u8>,
    >)
        requires
            old(self).wf(),
        ensures
            final(self).wf(),
            final(self).replica() == old(self).replica(),
            final(clock)@ == next_time(old(clock)@),
            ({
                let op = OpView {
                    key: key@,
                    value: None,
                    version: Version {
                        timestamp: next_time(old(clock)@),
                        replica_id: old(self).replica(),
                    },
                };
                let s = apply_op(old(self).state(), op, now);
                &&& final(self).state() == s
                &&& if accepts(lookup(old(self).state().meta, key@), op) {
                    &&& opt_bytes(r) == lookup(old(self).state().live, key@)
                    &&& final(self).ops() == appended(
                        old(self).ops(),
                        op,
                        s.meta.dom().len(),
                        lww_model(),
                    )
                    &&& final(self).log_changes() == bumped(old(self).log_changes())
                } else {
                    &&& r is None
                    &&& final(self).ops() == old(self).ops()
                    &&& final(self).log_changes() == old(self).log_changes()
                }
            }),
    {
        let timestamp = clock.tick();
        let version = Version::new(timestamp, self.replica_id);
        let ghost op = OpView { key: key@, value: None, version };
        let ghost before = *self;
        let accepted = self.record_remove_metadata(key, version, now);
        let removed = if accepted {
            let entry = Operation::remove(key.to_owned(), timestamp, self.replica_id);
            self.append_op(entry);
            self.store.remove(key)
        } else {
            None
        };
        proof {
            assert(self.state() =~= apply_op(before.state(), op, now));
            lemma_apply_op_monotone(before.state(), op, now, op);
            lemma_covered_push(before.state(), before.ops(), op, now);
            if accepted {
                lemma_appended_subset(before.ops(), op, self.state().meta.dom().len());
                lemma_covered_subset(self.state().meta, self.ops(), before.ops().push(op));
            }
        }
        removed
    }

    /// The live value of `key`.
    pub fn get(&self, key: &str) -> (r: Option<Vec<u8>>)
        requires
            self.wf(),
        ensures
            opt_bytes(r) == lookup(self.state().live, key@),
    {
        self.store.get(key)
    }

    /// Whether `key` is live.
    pub fn contains_key(&self, key: &str) -> (r: bool)
        ensures
            r == self.state().live.contains_key(key@),
    {
        self.store.contains_key(key)
    }

    /// The live keys, each once.
    pub fn keys(&self) -> (r: Vec<String>)
        requires
            self.wf(),
        ensures
            texts(r@).no_duplicates(),
            texts(r@).to_set() == self.state().live.dom(),
    {
        self.store.keys()
    }

    /// How many keys are live.
    pub fn len(&self) -> (r: usize)
        requires
            self.wf(),
        ensures
            r == self.state().live.dom().len(),
    {
        self.store.len()
    }

    /// How often a live value changed.
    pub fn generation(&self) -> (r: u64)
        ensures
            r == self.state().generation,
    {
        self.store.generation()
    }

    /// How often the log changed.
    pub fn op_generation(&self) -> (r: u64)
        ensures
            r == self.log_changes(),
    {
        self.op_generation
    }

    /// A copy of the log.
    pub fn export_ops(&self) -> (r: Vec<Operation>)
        ensures
            ops_view(r@) == self.ops(),
    {
        copy_ops(self.log.operations())
    }
}

proof fn lemma_covered_push(s: LwwState, log: Seq<OpView>, op: OpView, now: u128)
    requires
        covered(s.meta, log),
    ensures
        covered(apply_op(s, op, now).meta, log),
        covered(apply_op(s, op, now).meta, log.push(op)),
{
    let t = apply_op(s, op, now);
    assert forall|i: int| 0 <= i < log.len() implies !accepts(
        lookup(t.meta, (#[trigger] log[i]).key),
        log[i],
    ) by {
        lemma_apply_op_monotone(s, op, now, log[i]);
    }
    lemma_apply_op_monotone(s, op, now, op);
    let longer = log.push(op);
    assert forall|i: int| 0 <= i < longer.len() implies !accepts(
        lookup(t.meta, (#[trigger] longer[i]).key),
        longer[i],
    ) by {
        if i < log.len() {
            assert(longer[i] == log[i]);
        }
    }
}

impl LwwEngine {
    fn log_has(&self, version: Version) -> (r: bool)
        ensures
            r == seen_in(self.ops(), version),
    {
        let ops = self.log.operations();
        let n = ops.len();
        for i in 0..n
            invariant
                n == ops@.len(),
                ops_view(ops@) == self.ops(),
                forall|j: int| 0 <= j < i ==> #[trigger] self.ops()[j].version != version,
        {
            assert(self.ops()[i as int] == ops@[i as int]@);
            if ops[i].version() == version {
                return true;
            }
        }
        assert(self.ops().len() == n);
        false
    }

    /// The operations of a batch that the log does not hold yet. Operations that
    /// share a version within the batch all stay.
    fn keep_unseen(&self, ops: Vec<Operation>) -> (r: Vec<Operation>)
        ensures
            ops_view(r@) == unseen(ops_view(ops@), self.ops()),
    {
        let ghost all = ops_view(ops@);
        let ghost p = |op: OpView| !seen_in(self.ops(), op.version);
        let mut kept: Vec<Operation> = Vec::new();
        proof {
            reveal(Seq::filter);
            assert(ops_view(kept@) =~= all.take(0).filter(p));
        }
        for op in it: ops.into_iter()
            invariant
                it.seq() == ops@,
                all == ops_view(ops@),
                p == (|op: OpView| !seen_in(self.ops(), op.version)),
                ops_view(kept@) == all.take(it.index() as int).filter(p),
        {
            let ghost before = kept@;
            let ghost stamp = op@;
            proof {
                reveal(Seq::filter);
                assert(all.take(it.index() + 1).drop_last() =~= all.take(it.index() as int));
                assert(all.take(it.index() + 1).last() == stamp);
            }
            if !self.log_has(op.version()) {
                kept.push(op);
                assert(ops_view(kept@) =~= ops_view(before).push(stamp));
            }
        }
        assert(all.take(all.len() as int) =~= all);
        kept
    }

    /// Merge a batch of operations from another replica.
    ///
    /// Operations that the log holds already are passed over. The others are
    /// applied in order of version, and the log takes them in and is compacted.
    /// Returns the keys whose live value changed.
    pub fn apply_remote_ops(
        &mut self,
        ops: Vec<Operation>,
        now: u128,
        clock: &mut LamportClock,
    ) -> (r: Vec<CrdtChange>)
        requires
            old(self).wf(),
        ensures
            final(self).wf(),
            final(self).replica() == old(self).replica(),
            ({
                let fresh = sort_ops(unseen(ops_view(ops@), old(self).ops()));
                let s = old(self).state();
                let t = apply_all(s, fresh, now);
                &&& final(self).state() == t
                &&& final(clock)@ == observed_all(old(clock)@, fresh)
                &&& reports(
                    changes_view(r@),
                    |k: Seq<char>| lookup(s.live, k),
                    |k: Seq<char>| lookup(t.live, k),
                )
                &&& if fresh.len() == 0 {
                    &&& final(self).ops() == old(self).ops()
                    &&& final(self).log_changes() == old(self).log_changes()
                } else {
                    &&& final(self).ops() == compacted(old(self).ops() + fresh, lww_model())
                    &&& final(self).log_changes() == bumped(old(self).log_changes())
                }
            }),
    {
        let ghost batch = ops_view(ops@);
        let ghost s = self.state();
        let ghost log = self.ops();
        let kept = self.keep_unseen(ops);
        proof {
            lemma_sort_ops(unseen(batch, log));
        }
        if kept.len() == 0 {
            let r: Vec<CrdtChange> = Vec::new();
            assert(changes_view(r@).len() == 0);
            return r;
        }
        let fresh = sort_by_version(kept);
        let ghost views = ops_view(fresh@);
        self.log.append_all(fresh.as_slice());
        self.compact_log();
        self.op_generation = bump(self.op_generation);
        let ghost frozen = *self;
        let before = {
            let store = &self.store;
            let get = |key: &str| -> (r: Option<Vec<u8>>)
                ensures
                    opt_bytes(r) == lookup(store@, key@),
                { store.get(key) };
            snapshot(&fresh, get, Ghost(|k: Seq<char>| lookup(s.live, k)))
        };
        for op in it: fresh.into_iter()
            invariant
                it.seq() == fresh@,
                views == ops_view(fresh@),
                self.tables_wf(),
                consistent(self.state()),
                self.state() == apply_all(s, views.take(it.index() as int), now),
                self.log == frozen.log,
                self.op_generation == frozen.op_generation,
                self.replica_id == frozen.replica_id,
                clock@ == observed_all(old(clock)@, views.take(it.index() as int)),
        {
            proof {
                assert(views.take(it.index() + 1).drop_last() =~= views.take(it.index() as int));
                assert(views.take(it.index() + 1).last() == op@);
            }
            clock.update(op.timestamp());
            self.apply(op, now);
        }
        let changes = {
            let store = &self.store;
            let ghost live = self.state().live;
            let get = |key: &str| -> (r: Option<Vec<u8>>)
                ensures
                    opt_bytes(r) == lookup(store@, key@),
                { store.get(key) };
            changed_since(&before, get, Ghost(|k: Seq<char>| lookup(live, k)))
        };
        proof {
            assert(views.take(views.len() as int) =~= views);
            let t = self.state();
            lemma_apply_all_monotone(s, views, now);
            let joined = log + views;
            assert forall|i: int| 0 <= i < joined.len() implies !accepts(
                lookup(t.meta, (#[trigger] joined[i]).key),
                joined[i],
            ) by {
                if i < log.len() {
                    assert(joined[i] == log[i]);
                } else {
                    assert(joined[i] == views[i - log.len()]);
                }
            }
            lemma_lww_compacted_subset(joined);
            lemma_covered_subset(t.meta, self.ops(), joined);
            let view = changes_view(changes@);
            let b = |k: Seq<char>| lookup(s.live, k);
            let a = |k: Seq<char>| lookup(t.live, k);
            assert forall|i: int| 0 <= i < view.len() implies {
                &&& (#[trigger] view[i]).value == a(view[i].key)
                &&& b(view[i].key) != a(view[i].key)
            } by {
                assert(view[i] == changes@[i]@);
            }
            assert forall|k: Seq<char>| #![trigger b(k)] b(k) != a(k) implies exists|i: int|
                0 <= i < view.len() && (#[trigger] view[i]).key == k by {
                if !mentions(views, k) {
                    lemma_apply_all_frame(s, views, now, k);
                }
                assert(before@.contains_key(k));
                let i = choose|i: int| 0 <= i < changes@.len() && (#[trigger] changes@[i]).key@ == k;
                assert(view[i].key == k);
            }
        }
        changes
    }
}

impl LwwEngine {
    /// The keys whose tombstones have outlived `grace`.
    fn collect_keys(&self, now: u128, grace: u128) -> (r: Vec<String>)
        requires
            self.tables_wf(),
        ensures
            texts(r@).no_duplicates(),
            texts(r@).to_set() == collectable_keys(self.state(), now, grace),
    {
        let ghost s = self.state();
        let store = &self.store;
        let pick = |key: &str, winner: &ValueMetadata| -> (r: bool)
            ensures
                r == (!store@.contains_key(key@) && winner.is_tombstone && aged(
                    now,
                    winner.created_at,
                    grace,
                )),
            {
                !store.contains_key(key) && winner.is_tombstone && has_aged(
                    now,
                    winner.created_at,
                    grace,
                )
            };
        self.metadata.keys_where(pick, Ghost(|k: Seq<char>| collectable(s, k, now, grace)))
    }

    /// Forget the tombstones that have outlived `grace`, and drop from the log
    /// the operations that they dominate. Returns how many were forgotten.
    pub fn gc_tombstones(&mut self, grace: u128, now: u128) -> (r: usize)
        requires
            old(self).wf(),
        ensures
            final(self).wf(),
            final(self).replica() == old(self).replica(),
            ({
                let s = old(self).state();
                let gone = collectable_keys(s, now, grace);
                &&& gone.finite()
                &&& r == gone.len()
                &&& final(self).state() == (LwwState { meta: s.meta.remove_keys(gone), ..s })
                &&& final(self).ops() == purged(old(self).ops(), s, now, grace)
                &&& final(self).log_changes() == (if r > 0 {
                    bumped(old(self).log_changes())
                } else {
                    old(self).log_changes()
                })
            }),
    {
        let ghost s = self.state();
        let ghost log = self.ops();
        let ghost gone = collectable_keys(s, now, grace);
        let keys = self.collect_keys(now, grace);
        let ghost names = texts(keys@);
        let mut versions: KeyTable<Version> = KeyTable::new();
        let n = keys.len();
        let ghost frozen = *self;
        proof {
            names.unique_seq_to_set();
            assert(names.take(0).to_set() =~= Set::empty());
            assert(self.metadata@ =~= s.meta.remove_keys(names.take(0).to_set()));
        }
        for i in 0..n
            invariant
                n == keys@.len(),
                names == texts(keys@),
                names.no_duplicates(),
                names.to_set() == collectable_keys(s, now, grace),
                self.tables_wf(),
                versions.wf(),
                self.store == frozen.store,
                self.log == frozen.log,
                self.op_generation == frozen.op_generation,
                self.replica_id == frozen.replica_id,
                self.metadata@ == s.meta.remove_keys(names.take(i as int).to_set()),
                forall|k: Seq<char>| #[trigger]
                    versions@.contains_key(k) <==> names.take(i as int).contains(k),
                forall|k: Seq<char>| #[trigger]
                    versions@.contains_key(k) ==> versions@[k] == s.meta[k].version,
        {
            let ghost seen = names.take(i as int);
            let ghost next = names.take(i + 1);
            let ghost before = versions@;
            let key = &keys[i];
            proof {
                assert(names[i as int] == key@);
                assert(names.to_set().contains(key@));
                assert(next =~= seen.push(key@));
                assert forall|k: Seq<char>| next.contains(k) <==> seen.contains(k) || k == key@ by {
                    if seen.contains(k) {
                        let j = choose|j: int| 0 <= j < seen.len() && seen[j] == k;
                        assert(next[j] == k);
                    }
                    assert(next[i as int] == key@);
                }
                if seen.contains(key@) {
                    let j = choose|j: int| 0 <= j < seen.len() && seen[j] == key@;
                    assert(names[j] == names[i as int]);
                }
                assert(next.to_set() =~= seen.to_set().insert(key@));
                assert(s.meta.remove_keys(next.to_set()) =~= s.meta.remove_keys(
                    seen.to_set(),
                ).remove(key@));
            }
            if let Some(winner) = self.metadata.remove(key.as_str()) {
                versions.insert(key.clone(), winner.version);
            }
        }
        proof {
            assert(names.take(n as int) =~= names);
            assert(self.state() =~= LwwState { meta: s.meta.remove_keys(gone), ..s });
        }
        if n > 0 {
            purge_log(&mut self.log, &versions);
            self.op_generation = bump(self.op_generation);
        }
        proof {
            let p = |op: OpView|
                !collectable(s, op.key, now, grace) || s.meta[op.key].version.before(op.version);
            let q = |op: OpView|
                !versions@.contains_key(op.key) || versions@[op.key].before(op.version);
            assert forall|k: Seq<char>| versions@.contains_key(k) <==> collectable(
                s,
                k,
                now,
                grace,
            ) by {
                assert(versions@.contains_key(k) <==> names.contains(k));
                assert(names.contains(k) <==> names.to_set().contains(k));
            }
            assert forall|op: OpView| #[trigger] p(op) == q(op) by {
                assert(versions@.contains_key(op.key) <==> collectable(s, op.key, now, grace));
            }
            assert(p =~= q);
            if n == 0 {
                assert forall|op: OpView| #[trigger] p(op) by {
                    assert(versions@.contains_key(op.key) <==> names.contains(op.key));
                }
                lemma_filter_all(log, p);
            }
            lemma_gc_keeps_wf(s, log, now, grace);
        }
        n
    }
}

proof fn lemma_gc_keeps_wf(s: LwwState, log: Seq<OpView>, now: u128, grace: u128)
    requires
        consistent(s),
        covered(s.meta, log),
    ensures
        consistent(
            LwwState { meta: s.meta.remove_keys(collectable_keys(s, now, grace)), ..s },
        ),
        covered(
            s.meta.remove_keys(collectable_keys(s, now, grace)),
            purged(log, s, now, grace),
        ),
{
    let gone = collectable_keys(s, now, grace);
    let meta = s.meta.remove_keys(gone);
    let kept = purged(log, s, now, grace);
    let p = |op: OpView|
        !collectable(s, op.key, now, grace) || s.meta[op.key].version.before(op.version);
    assert forall|i: int| 0 <= i < kept.len() implies !accepts(
        lookup(meta, (#[trigger] kept[i]).key),
        kept[i],
    ) by {
        let op = kept[i];
        assert(kept.contains(op));
        lemma_filter_members(log, p, op);
        let j = choose|j: int| 0 <= j < log.len() && log[j] == op;
        assert(!accepts(lookup(s.meta, log[j].key), log[j]));
        assert(p(op));
        assert(!gone.contains(op.key));
    }
}

} // verus!
