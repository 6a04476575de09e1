//! The rate-limit engine.
//!
//! Each key is a rate-limit shard: either live, with the points that may still
//! win and the latest remove before them, or a tombstone that suppresses what is
//! not newer.
use super::super::epoch_max_wins::{
    compact_operations, epoch_model, folded, insert_view, live_bytes, merged, op_says,
    state_from_insert_value, valid, LivePoint, RateLimitState, RateLimitVersion, RlView,
};
use super::super::kv_store::{bump, bumped, lookup};
use super::super::operation::{
    compacted, copy_ops, folds_as, mentions, ops_view, opt_op, sort_by_version, sort_ops,
    CrdtChange, OpView, Operation, OperationLog, lemma_filter_all, lemma_sort_ops,
};
use super::super::replica::{next_time, LamportClock, ReplicaId, Version};
use super::{
    aged, appended, changed_since, changes_view, has_aged, observed_all, over_trigger, purge_log,
    reports, snapshot,
};
use crate::key_table::KeyTable;
use crate::text::{opt_bytes, texts};
use vstd::prelude::*;

verus! {

/// What is known of a key and when its tombstone was first seen here.
#[derive(Debug)]
pub struct ShardEntry {
    state: RateLimitState,
    tombstoned_at: Option<u128>,
}

/// What an entry says.
#[verifier::ext_equal]
pub struct EntryView {
    pub known: RlView,
    pub tombstoned_at: Option<u128>,
}

impl View for ShardEntry {
    type V = EntryView;

    closed spec fn view(&self) -> EntryView {
        EntryView { known: self.state@, tombstoned_at: self.tombstoned_at }
    }
}

/// The entries, and how often one of them changed.
#[verifier::ext_equal]
pub struct RlState {
    pub entries: Map<Seq<char>, EntryView>,
    pub generation: u64,
}

/// No point is left.
pub open spec fn is_dead(known: RlView) -> bool {
    known.points == Set::<LivePoint>::empty()
}

/// The version of a tombstone.
pub open spec fn grave(known: RlView) -> Option<Version> {
    if is_dead(known) {
        known.tombstone
    } else {
        None
    }
}

/// An entry after more was learned of its key at `now`. The age of a tombstone
/// starts when the key dies or its tombstone moves on, and ends when the key
/// comes back to life. A remove that is dominated leaves it alone.
pub open spec fn entry_after(old: Option<EntryView>, more: RlView, now: u128) -> EntryView {
    match old {
        None => EntryView {
            known: more,
            tombstoned_at: if is_dead(more) {
                Some(now)
            } else {
                None
            },
        },
        Some(e) => {
            let known = merged(e.known, more);
            EntryView {
                known,
                tombstoned_at: match (grave(e.known), grave(known)) {
                    (None, Some(_)) => Some(now),
                    (Some(_), None) => None,
                    (Some(was), Some(is)) => if was != is {
                        Some(now)
                    } else {
                        e.tombstoned_at
                    },
                    (None, None) => e.tombstoned_at,
                },
            }
        },
    }
}

/// Learning `more` of `key` tells something new.
pub open spec fn is_news(s: RlState, key: Seq<char>, more: Option<RlView>) -> bool {
    match more {
        Some(more) => match lookup(s.entries, key) {
            Some(e) => merged(e.known, more) != e.known,
            None => true,
        },
        None => false,
    }
}

/// The state after `more` was learned of `key` at `now`.
pub open spec fn learned(s: RlState, key: Seq<char>, more: Option<RlView>, now: u128) -> RlState {
    if is_news(s, key, more) {
        RlState {
            entries: s.entries.insert(key, entry_after(lookup(s.entries, key), more.unwrap(), now)),
            generation: bumped(s.generation),
        }
    } else {
        s
    }
}

/// The state after `op` was applied at `now`.
pub open spec fn rl_apply(s: RlState, op: OpView, now: u128) -> RlState {
    learned(s, op.key, op_says(op), now)
}

/// The state after `ops` were applied one after another.
pub open spec fn rl_apply_all(s: RlState, ops: Seq<OpView>, now: u128) -> RlState
    decreases ops.len(),
{
    if ops.len() == 0 {
        s
    } else {
        rl_apply(rl_apply_all(s, ops.drop_last(), now), ops.last(), now)
    }
}

/// What a reader of `key` is given.
pub open spec fn rl_live(s: RlState, key: Seq<char>) -> Option<Seq<u8>> {
    match lookup(s.entries, key) {
        Some(e) => live_bytes(e.known),
        None => None,
    }
}

/// Every entry is valid, and has an age exactly when it is a tombstone.
pub open spec fn rl_valid(s: RlState) -> bool {
    forall|k: Seq<char>| #[trigger]
        s.entries.contains_key(k) ==> valid(s.entries[k].known) && (
        s.entries[k].tombstoned_at is Some) == is_dead(s.entries[k].known)
}

/// A key whose tombstone has outlived `grace` at `now`.
pub open spec fn rl_collectable(s: RlState, key: Seq<char>, now: u128, grace: u128) -> bool {
    &&& s.entries.contains_key(key)
    &&& is_dead(s.entries[key].known)
    &&& (s.entries[key].tombstoned_at matches Some(at) && aged(now, at, grace))
}

/// The keys whose tombstones have outlived `grace` at `now`.
pub open spec fn rl_collectable_keys(s: RlState, now: u128, grace: u128) -> Set<Seq<char>> {
    s.entries.dom().filter(|k: Seq<char>| rl_collectable(s, k, now, grace))
}

/// The log without the operations that collected tombstones dominate.
pub open spec fn rl_purged(log: Seq<OpView>, s: RlState, now: u128, grace: u128) -> Seq<OpView> {
    log.filter(
        |op: OpView|
            !rl_collectable(s, op.key, now, grace)
                || s.entries[op.key].known.tombstone.unwrap().before(op.version),
    )
}

/// The keys that are live.
pub open spec fn rl_live_keys(s: RlState) -> Set<Seq<char>> {
    s.entries.dom().filter(|k: Seq<char>| !is_dead(s.entries[k].known))
}

/// What came of merging something into one entry.
struct MergeOutcome {
    /// Whether the entry is another now.
    changed: bool,
    /// The bytes that readers were given before.
    prior_live: Option<Vec<u8>>,
    /// Whether the key is live now.
    new_is_live: bool,
}

/// The age of an entry's tombstone after its state became `merged`.
fn updated_age(
    entry: &ShardEntry,
    merged: &RateLimitState,
    now: u128,
) -> (r: Option<u128>)
    requires
        entry.state.wf(),
        merged.wf(),
    ensures
        r == (match (grave(entry@.known), grave(merged@)) {
            (None, Some(_)) => Some(now),
            (Some(_), None) => None,
            (Some(was), Some(is)) => if was != is {
                Some(now)
            } else {
                entry@.tombstoned_at
            },
            (None, None) => entry@.tombstoned_at,
        }),
{
    proof {
        entry.state.lemma_view();
        merged.lemma_view();
    }
    match (tombstone_version_of(&entry.state), tombstone_version_of(merged)) {
        (None, Some(_)) => Some(now),
        (Some(_), None) => None,
        (Some(was), Some(is)) => if was != is {
            Some(now)
        } else {
            entry.tombstoned_at
        },
        (None, None) => entry.tombstoned_at,
    }
}

/// The version of a tombstone.
fn tombstone_version_of(state: &RateLimitState) -> (r: Option<RateLimitVersion>)
    requires
        state.wf(),
    ensures
        r == grave(state@),
{
    proof {
        state.lemma_view();
    }
    match state {
        RateLimitState::Tombstone(version) => Some(*version),
        RateLimitState::Live(_) => None,
    }
}

/// The rate-limit engine.
pub struct RateLimitEngine {
    entries: KeyTable<ShardEntry>,
    log: OperationLog,
    generation: u64,
    op_generation: u64,
    replica_id: ReplicaId,
}

impl RateLimitEngine {
    /// The entries, and how often one of them changed.
    pub closed spec fn state(&self) -> RlState {
        RlState {
            entries: self.entries@.map_values(|e: ShardEntry| e@),
            generation: self.generation,
        }
    }

    /// The operations kept for other replicas.
    pub closed spec fn ops(&self) -> Seq<OpView> {
        self.log@
    }

    /// How often the log changed.
    pub closed spec fn log_changes(&self) -> u64 {
        self.op_generation
    }

    /// Whose operations are stamped here.
    pub closed spec fn replica(&self) -> ReplicaId {
        self.replica_id
    }

    /// The table is sound and every entry valid.
    pub closed spec fn wf(&self) -> bool {
        &&& self.entries.wf()
        &&& rl_valid(self.state())
        &&& forall|k: Seq<char>| #[trigger]
            self.entries@.contains_key(k) ==> self.entries@[k].state.wf()
    }

    /// What well-formedness says of the state.
    pub proof fn lemma_wf(&self)
        requires
            self.wf(),
        ensures
            rl_valid(self.state()),
            self.state().entries.dom().finite(),
    {
        self.entries.lemma_keys_in_order();
        assert(self.state().entries.dom() =~= self.entries@.dom());
    }

    /// An engine that knows no key.
    pub fn new(replica_id: ReplicaId) -> (r: Self)
        ensures
            r.wf(),
            r.state().entries == (Map::<Seq<char>, EntryView>::empty()),
            r.state().generation == 0,
            r.ops() == Seq::<OpView>::empty(),
            r.log_changes() == 0,
            r.replica() == replica_id,
    {
        let r = RateLimitEngine {
            entries: KeyTable::new(),
            log: OperationLog::new(),
            generation: 0,
            op_generation: 0,
            replica_id,
        };
        assert(r.state().entries =~= Map::<Seq<char>, EntryView>::empty());
        r
    }

    /// The bytes that readers of `key` are given.
    fn current_encoded(&self, key: &str) -> (r: Option<Vec<u8>>)
        requires
            self.wf(),
        ensures
            opt_bytes(r) == rl_live(self.state(), key@),
    {
        match self.entries.get(key) {
            Some(entry) => entry.state.encode_live(),
            None => None,
        }
    }

    /// Merge `incoming` into the entry of `key`.
    fn merge_incoming(&mut self, key: &str, incoming: RateLimitState, now: u128) -> (r: MergeOutcome)
        requires
            old(self).wf(),
            incoming.wf(),
        ensures
            final(self).wf(),
            final(self).log == old(self).log,
            final(self).op_generation == old(self).op_generation,
            final(self).generation == old(self).generation,
            final(self).replica_id == old(self).replica_id,
            final(self).state().entries == learned(
                old(self).state(),
                key@,
                Some(incoming@),
                now,
            ).entries,
            r.changed == is_news(old(self).state(), key@, Some(incoming@)),
            opt_bytes(r.prior_live) == rl_live(old(self).state(), key@),
            r.new_is_live == (rl_live(final(self).state(), key@) is Some),
    {
        let ghost s = self.state();
        proof {
            incoming.lemma_view();
        }
        match self.entries.get(key) {
            Some(entry) => {
                let prior_live = entry.state.encode_live();
                assert(s.entries[key@] == entry@);
                proof {
                    entry.state.lemma_view();
                }
                match entry.state.merge(&incoming) {
                    Some(merged_state) => {
                        let changed = !merged_state.same_as(&entry.state);
                        let new_is_live = merged_state.is_live();
                        proof {
                            merged_state.lemma_view();
                        }
                        if changed {
                            let tombstoned_at = updated_age(entry, &merged_state, now);
                            let next = ShardEntry { state: merged_state, tombstoned_at };
                            self.entries.insert(key.to_owned(), next);
                            assert(self.state().entries =~= s.entries.insert(key@, next@));
                        }
                        MergeOutcome { changed, prior_live, new_is_live }
                    },
                    None => {
                        let new_is_live = entry.state.is_live();
                        MergeOutcome { changed: false, prior_live, new_is_live }
                    },
                }
            },
            None => {
                let new_is_live = incoming.is_live();
                let tombstoned_at = if new_is_live {
                    None
                } else {
                    Some(now)
                };
                let next = ShardEntry { state: incoming, tombstoned_at };
                self.entries.insert(key.to_owned(), next);
                assert(self.state().entries =~= s.entries.insert(key@, next@));
                MergeOutcome { changed: true, prior_live: None, new_is_live }
            },
        }
    }

    /// Merge an insert into the entry of `key`. A malformed payload changes
    /// nothing.
    fn merge_insert(
        &mut self,
        key: &str,
        value: &[u8],
        version: RateLimitVersion,
        now: u128,
    ) -> (r: MergeOutcome)
        requires
            old(self).wf(),
        ensures
            final(self).wf(),
            final(self).log == old(self).log,
            final(self).op_generation == old(self).op_generation,
            final(self).generation == old(self).generation,
            final(self).replica_id == old(self).replica_id,
            final(self).state().entries == learned(
                old(self).state(),
                key@,
                insert_view(value@, version),
                now,
            ).entries,
            r.changed == is_news(old(self).state(), key@, insert_view(value@, version)),
            opt_bytes(r.prior_live) == rl_live(old(self).state(), key@),
            r.new_is_live == (rl_live(final(self).state(), key@) is Some),
    {
        match state_from_insert_value(value, version) {
            Some(incoming) => self.merge_incoming(key, incoming, now),
            None => {
                let prior_live = self.current_encoded(key);
                let new_is_live = prior_live.is_some();
                MergeOutcome { changed: false, prior_live, new_is_live }
            },
        }
    }

    /// Merge a remove into the entry of `key`.
    fn merge_remove(&mut self, key: &str, version: RateLimitVersion, now: u128) -> (r: MergeOutcome)
        requires
            old(self).wf(),
        ensures
            final(self).wf(),
            final(self).log == old(self).log,
            final(self).op_generation == old(self).op_generation,
            final(self).generation == old(self).generation,
            final(self).replica_id == old(self).replica_id,
            ({
                let more = Some(RlView { points: Set::empty(), tombstone: Some(version) });
                &&& final(self).state().entries == learned(
                    old(self).state(),
                    key@,
                    more,
                    now,
                ).entries
                &&& r.changed == is_news(old(self).state(), key@, more)
                &&& opt_bytes(r.prior_live) == rl_live(old(self).state(), key@)
                &&& r.new_is_live == (rl_live(final(self).state(), key@) is Some)
            }),
    {
        self.merge_incoming(key, RateLimitState::Tombstone(version), now)
    }

    /// Apply one operation.
    fn apply(&mut self, op: &Operation, now: u128)
        requires
            old(self).wf(),
        ensures
            final(self).wf(),
            final(self).log == old(self).log,
            final(self).op_generation == old(self).op_generation,
            final(self).replica_id == old(self).replica_id,
            final(self).state() == rl_apply(old(self).state(), op@, now),
    {
        let version = op.version();
        let outcome = match op {
            Operation::Insert { key, value, .. } => self.merge_insert(
                key.as_str(),
                value.as_slice(),
                version,
                now,
            ),
            Operation::Remove { key, .. } => self.merge_remove(key.as_str(), version, now),
        };
        if outcome.changed {
            self.generation = bump(self.generation);
        }
        assert(self.state() =~= rl_apply(old(self).state(), op@, now));
    }

    fn compact_log(&mut self)
        ensures
            final(self).log@ == compacted(old(self).log@, epoch_model()),
            final(self).entries == old(self).entries,
            final(self).generation == old(self).generation,
            final(self).op_generation == old(self).op_generation,
            final(self).replica_id == old(self).replica_id,
    {
        let fold = |ops: &[Operation]| -> (r: Option<Operation>)
            ensures
                opt_op(r) == folded(ops_view(ops@)),
            { compact_operations(ops) };
        assert(folds_as(fold, epoch_model()));
        self.log.compact_by_key(fold);
    }

    fn append_op(&mut self, op: Operation)
        requires
            old(self).entries.wf(),
        ensures
            final(self).log@ == appended(
                old(self).log@,
                op@,
                old(self).entries@.dom().len(),
                epoch_model(),
            ),
            final(self).entries == old(self).entries,
            final(self).generation == old(self).generation,
            final(self).op_generation == bumped(old(self).op_generation),
            final(self).replica_id == old(self).replica_id,
    {
        self.log.append(op);
        self.op_generation = bump(self.op_generation);
        let keys = self.entries.len();
        if over_trigger(self.log.len(), keys) {
            self.compact_log();
            let _ = self.log.truncate_oldest_over_threshold();
        }
    }

    /// A local put.
    ///
    /// Where it tells nothing new, or is malformed, the result is what readers
    /// are given, now as before. Where it kills a live shard, the result is that
    /// shard. Where the key is live afterwards, no value was displaced as a
    /// whole, and the result is `None`.
    pub fn put_local(
        &mut self,
        key: &str,
        value: Vec<u8>,
        now: u128,
        clock: &mut LamportClock,
    ) -> (r: Option<Vec<u8>>)
        requires
            old(self).wf(),
        ensures
            final(self).wf(),
            final(self).replica() == old(self).replica(),
            final(clock)@ == next_time(old(clock)@),
            ({
                let op = OpView {
                    key: key@,
                    value: Some(value@),
                    version: Version {
                        timestamp: next_time(old(clock)@),
                        replica_id: old(self).replica(),
                    },
                };
                let s = old(self).state();
                let t = rl_apply(s, op, now);
                &&& final(self).state() == t
                &&& if is_news(s, key@, op_says(op)) {
                    &&& opt_bytes(r) == (if rl_live(t, key@) is Some {
                        None
                    } else {
                        rl_live(s, key@)
                    })
                    &&& final(self).ops() == appended(
                        old(self).ops(),
                        op,
                        t.entries.dom().len(),
                        epoch_model(),
                    )
                    &&& final(self).log_changes() == bumped(old(self).log_changes())
                } else {
                    &&& opt_bytes(r) == rl_live(s, key@)
                    &&& final(self).ops() == old(self).ops()
                    &&& final(self).log_changes() == old(self).log_changes()
                }
            }),
    {
        let timestamp = clock.tick();
        let version = Version::new(timestamp, self.replica_id);
        let ghost op = OpView { key: key@, value: Some(value@), version };
        let ghost s = self.state();
        let outcome = self.merge_insert(key, value.as_slice(), version, now);
        if outcome.changed {
            let entry = Operation::insert(key.to_owned(), value, timestamp, self.replica_id);
            self.append_op(entry);
            self.generation = bump(self.generation);
        }
        proof {
            assert(self.state() =~= rl_apply(s, op, now));
            assert(self.state().entries.dom() =~= self.entries@.dom());
        }
        if outcome.changed && outcome.new_is_live {
            None
        } else {
            outcome.prior_live
        }
    }

    /// A local delete. Returns the shard that it killed, if it killed one.
    pub fn delete_local(&mut self, key: &str, now: u128, clock: &mut LamportClock) -> (r: Option<
        Vec<u8>,
    >)
        requires
            old(self).wf(),
        ensures
            final(self).wf(),
            final(self).replica() == old(self).replica(),
            final(clock)@ == next_time(old(clock)@),
            ({
                let op = OpView {
                    key: key@,
                    value: None,
                    version: Version {
                        timestamp: next_time(old(clock)@),
                        replica_id: old(self).replica(),
                    },
                };
                let s = old(self).state();
                let t = rl_apply(s, op, now);
                &&& final(self).state() == t
                &&& if is_news(s, key@, op_says(op)) {
                    &&& opt_bytes(r) == (if rl_live(t, key@) is Some {
                        None
                    } else {
                        rl_live(s, key@)
                    })
                    &&& final(self).ops() == appended(
                        old(self).ops(),
                        op,
                        t.entries.dom().len(),
                        epoch_model(),
                    )
                    &&& final(self).log_changes() == bumped(old(self).log_changes())
                } else {
                    &&& r is None
                    &&& final(self).ops() == old(self).ops()
                    &&& final(self).log_changes() == old(self).log_changes()
                }
            }),
    {
        let timestamp = clock.tick();
        let version = Version::new(timestamp, self.replica_id);
        let ghost op = OpView { key: key@, value: None, version };
        let ghost s = self.state();
        let outcome = self.merge_remove(key, version, now);
        if outcome.changed {
            let entry = Operation::remove(key.to_owned(), timestamp, self.replica_id);
            self.append_op(entry);
            self.generation = bump(self.generation);
        }
        proof {
            assert(self.state() =~= rl_apply(s, op, now));
            assert(self.state().entries.dom() =~= self.entries@.dom());
        }
        if outcome.changed && !outcome.new_is_live {
            outcome.prior_live
        } else {
            None
        }
    }

    /// The bytes of the live shard of `key`.
    pub fn get(&self, key: &str) -> (r: Option<Vec<u8>>)
        requires
            self.wf(),
        ensures
            opt_bytes(r) == rl_live(self.state(), key@),
    {
        self.current_encoded(key)
    }

    /// Whether `key` is live.
    pub fn contains_key(&self, key: &str) -> (r: bool)
        requires
            self.wf(),
        ensures
            r == (rl_live(self.state(), key@) is Some),
            r == rl_live_keys(self.state()).contains(key@),
    {
        match self.entries.get(key) {
            Some(entry) => {
                proof {
                    entry.state.lemma_view();
                }
                entry.state.is_live()
            },
            None => false,
        }
    }

    /// How often an entry changed.
    pub fn generation(&self) -> (r: u64)
        ensures
            r == self.state().generation,
    {
        self.generation
    }

    /// How often the log changed.
    pub fn op_generation(&self) -> (r: u64)
        ensures
            r == self.log_changes(),
    {
        self.op_generation
    }

    /// A copy of the log.
    pub fn export_ops(&self) -> (r: Vec<Operation>)
        ensures
            ops_view(r@) == self.ops(),
    {
        copy_ops(self.log.operations())
    }
}

/// Keys that no operation speaks of are left alone.
pub proof fn lemma_rl_frame(s: RlState, ops: Seq<OpView>, now: u128, key: Seq<char>)
    requires
        !mentions(ops, key),
    ensures
        lookup(rl_apply_all(s, ops, now).entries, key) == lookup(s.entries, key),
    decreases ops.len(),
{
    if ops.len() > 0 {
        let init = ops.drop_last();
        assert(ops[ops.len() - 1].key != key);
        assert forall|i: int| 0 <= i < init.len() implies #[trigger] init[i].key != key by {
            assert(ops[i].key != key);
        }
        lemma_rl_frame(s, init, now, key);
    }
}

impl RateLimitEngine {
    /// The live keys, each once.
    pub fn keys(&self) -> (r: Vec<String>)
        requires
            self.wf(),
        ensures
            texts(r@).no_duplicates(),
            texts(r@).to_set() == rl_live_keys(self.state()),
            rl_live_keys(self.state()).finite(),
            rl_live_keys(self.state()).len() == r@.len(),
    {
        let ghost s = self.state();
        let pick = |key: &str, entry: &ShardEntry| -> (r: bool)
            requires
                entry.state.wf(),
            ensures
                r == !is_dead(entry@.known),
            {
                proof {
                    entry.state.lemma_view();
                }
                entry.state.is_live()
            };
        let r = self.entries.keys_where(pick, Ghost(|k: Seq<char>| !is_dead(s.entries[k].known)));
        proof {
            assert(s.entries.dom() =~= self.entries@.dom());
            texts(r@).unique_seq_to_set();
        }
        r
    }

    /// How many keys are live.
    pub fn len(&self) -> (r: usize)
        requires
            self.wf(),
        ensures
            r == rl_live_keys(self.state()).len(),
    {
        self.keys().len()
    }

    /// Merge a batch of operations from another replica.
    ///
    /// Every operation is applied, in order of version: one that the log holds
    /// already may come again with more said in it. The log takes them all in and
    /// is compacted. Returns the keys whose live value changed.
    pub fn apply_remote_ops(
        &mut self,
        ops: Vec<Operation>,
        now: u128,
        clock: &mut LamportClock,
    ) -> (r: Vec<CrdtChange>)
        requires
            old(self).wf(),
        ensures
            final(self).wf(),
            final(self).replica() == old(self).replica(),
            ({
                let sorted = sort_ops(ops_view(ops@));
                let s = old(self).state();
                let t = rl_apply_all(s, sorted, now);
                &&& final(self).state() == t
                &&& final(clock)@ == observed_all(old(clock)@, sorted)
                &&& reports(
                    changes_view(r@),
                    |k: Seq<char>| rl_live(s, k),
                    |k: Seq<char>| rl_live(t, k),
                )
                &&& if sorted.len() == 0 {
                    &&& final(self).ops() == old(self).ops()
                    &&& final(self).log_changes() == old(self).log_changes()
                } else {
                    &&& final(self).ops() == compacted(old(self).ops() + sorted, epoch_model())
                    &&& final(self).log_changes() == bumped(old(self).log_changes())
                }
            }),
    {
        let ghost s = self.state();
        let ghost log = self.ops();
        proof {
            lemma_sort_ops(ops_view(ops@));
        }
        if ops.len() == 0 {
            let r: Vec<CrdtChange> = Vec::new();
            assert(changes_view(r@).len() == 0);
            return r;
        }
        let sorted = sort_by_version(ops);
        let ghost views = ops_view(sorted@);
        self.log.append_all(sorted.as_slice());
        self.compact_log();
        self.op_generation = bump(self.op_generation);
        let ghost frozen = *self;
        assert(self.state() == s);
        let before = {
            let engine: &RateLimitEngine = &*self;
            let get = |key: &str| -> (r: Option<Vec<u8>>)
                ensures
                    opt_bytes(r) == rl_live(engine.state(), key@),
                { engine.current_encoded(key) };
            snapshot(&sorted, get, Ghost(|k: Seq<char>| rl_live(s, k)))
        };
        let n = sorted.len();
        for i in 0..n
            invariant
                n == sorted@.len(),
                views == ops_view(sorted@),
                self.wf(),
                self.state() == rl_apply_all(s, views.take(i as int), now),
                self.log == frozen.log,
                self.op_generation == frozen.op_generation,
                self.replica_id == frozen.replica_id,
                clock@ == observed_all(old(clock)@, views.take(i as int)),
        {
            proof {
                assert(views.take(i + 1).drop_last() =~= views.take(i as int));
                assert(views.take(i + 1).last() == sorted@[i as int]@);
            }
            clock.update(sorted[i].timestamp());
            self.apply(&sorted[i], now);
        }
        let ghost t = self.state();
        let changes = {
            let engine: &RateLimitEngine = &*self;
            let get = |key: &str| -> (r: Option<Vec<u8>>)
                ensures
                    opt_bytes(r) == rl_live(engine.state(), key@),
                { engine.current_encoded(key) };
            changed_since(&before, get, Ghost(|k: Seq<char>| rl_live(t, k)))
        };
        proof {
            assert(views.take(n as int) =~= views);
            let view = changes_view(changes@);
            let b = |k: Seq<char>| rl_live(s, k);
            let a = |k: Seq<char>| rl_live(t, k);
            assert forall|i: int| 0 <= i < view.len() implies {
                &&& (#[trigger] view[i]).value == a(view[i].key)
                &&& b(view[i].key) != a(view[i].key)
            } by {
                assert(view[i] == changes@[i]@);
            }
            assert forall|k: Seq<char>| #![trigger b(k)] b(k) != a(k) implies exists|i: int|
                0 <= i < view.len() && (#[trigger] view[i]).key == k by {
                if !mentions(views, k) {
                    lemma_rl_frame(s, views, now, k);
                }
                assert(before@.contains_key(k));
                let i = choose|i: int| 0 <= i < changes@.len() && (#[trigger] changes@[i]).key@ == k;
                assert(view[i].key == k);
            }
        }
        changes
    }

    /// The keys whose tombstones have outlived `grace`.
    fn collect_keys(&self, now: u128, grace: u128) -> (r: Vec<String>)
        requires
            self.wf(),
        ensures
            texts(r@).no_duplicates(),
            texts(r@).to_set() == rl_collectable_keys(self.state(), now, grace),
    {
        let ghost s = self.state();
        let pick = |key: &str, entry: &ShardEntry| -> (r: bool)
            requires
                entry.state.wf(),
            ensures
                r == (is_dead(entry@.known) && (entry@.tombstoned_at matches Some(at) && aged(
                    now,
                    at,
                    grace,
                ))),
            {
                proof {
                    entry.state.lemma_view();
                }
                !entry.state.is_live() && match entry.tombstoned_at {
                    Some(at) => has_aged(now, at, grace),
                    None => false,
                }
            };
        let r = self.entries.keys_where(
            pick,
            Ghost(|k: Seq<char>| rl_collectable(s, k, now, grace)),
        );
        assert(s.entries.dom() =~= self.entries@.dom());
        r
    }

    /// Forget the tombstones that have outlived `grace`, and drop from the log
    /// the operations that they dominate. Returns how many were forgotten.
    pub fn gc_tombstones(&mut self, grace: u128, now: u128) -> (r: usize)
        requires
            old(self).wf(),
        ensures
            final(self).wf(),
            final(self).replica() == old(self).replica(),
            ({
                let s = old(self).state();
                let gone = rl_collectable_keys(s, now, grace);
                &&& gone.finite()
                &&& r == gone.len()
                &&& final(self).state() == (RlState { entries: s.entries.remove_keys(gone), ..s })
                &&& final(self).ops() == rl_purged(old(self).ops(), s, now, grace)
                &&& final(self).log_changes() == (if r > 0 {
                    bumped(old(self).log_changes())
                } else {
                    old(self).log_changes()
                })
            }),
    {
        let ghost s = self.state();
        let ghost log = self.ops();
        let ghost gone = rl_collectable_keys(s, now, grace);
        let keys = self.collect_keys(now, grace);
        let ghost names = texts(keys@);
        let mut versions: KeyTable<Version> = KeyTable::new();
        let n = keys.len();
        let ghost frozen = *self;
        proof {
            names.unique_seq_to_set();
            assert(names.take(0).to_set() =~= Set::empty());
            assert(s.entries.dom() =~= self.entries@.dom());
            assert(self.entries@ =~= frozen.entries@.remove_keys(names.take(0).to_set()));
        }
        for i in 0..n
            invariant
                n == keys@.len(),
                names == texts(keys@),
                names.no_duplicates(),
                names.to_set() == rl_collectable_keys(s, now, grace),
                s == frozen.state(),
                frozen.wf(),
                self.entries.wf(),
                versions.wf(),
                self.log == frozen.log,
                self.generation == frozen.generation,
                self.op_generation == frozen.op_generation,
                self.replica_id == frozen.replica_id,
                self.entries@ == frozen.entries@.remove_keys(names.take(i as int).to_set()),
                forall|k: Seq<char>| #[trigger]
                    versions@.contains_key(k) <==> names.take(i as int).contains(k),
                forall|k: Seq<char>| #[trigger]
                    versions@.contains_key(k) ==> Some(versions@[k])
                        == s.entries[k].known.tombstone,
        {
            let ghost seen = names.take(i as int);
            let ghost next = names.take(i + 1);
            let key = &keys[i];
            proof {
                assert(names[i as int] == key@);
                assert(names.to_set().contains(key@));
                assert(next =~= seen.push(key@));
                assert forall|k: Seq<char>| next.contains(k) <==> seen.contains(k) || k == key@ by {
                    if seen.contains(k) {
                        let j = choose|j: int| 0 <= j < seen.len() && seen[j] == k;
                        assert(next[j] == k);
                    }
                    assert(next[i as int] == key@);
                }
                if seen.contains(key@) {
                    let j = choose|j: int| 0 <= j < seen.len() && seen[j] == key@;
                    assert(names[j] == names[i as int]);
                }
                assert(next.to_set() =~= seen.to_set().insert(key@));
                assert(frozen.entries@.remove_keys(next.to_set()) =~= frozen.entries@.remove_keys(
                    seen.to_set(),
                ).remove(key@));
                assert(s.entries.contains_key(key@));
                assert(s.entries[key@] == frozen.entries@[key@]@);
                frozen.entries@[key@].state.lemma_view();
            }
            if let Some(entry) = self.entries.remove(key.as_str()) {
                if let RateLimitState::Tombstone(version) = entry.state {
                    versions.insert(key.clone(), version);
                }
            }
        }
        proof {
            assert(names.take(n as int) =~= names);
            assert(self.state().entries =~= s.entries.remove_keys(gone));
            assert(self.state() =~= RlState { entries: s.entries.remove_keys(gone), ..s });
        }
        if n > 0 {
            purge_log(&mut self.log, &versions);
            self.op_generation = bump(self.op_generation);
        }
        proof {
            let p = |op: OpView|
                !rl_collectable(s, op.key, now, grace)
                    || s.entries[op.key].known.tombstone.unwrap().before(op.version);
            let q = |op: OpView|
                !versions@.contains_key(op.key) || versions@[op.key].before(op.version);
            assert forall|k: Seq<char>| versions@.contains_key(k) <==> rl_collectable(
                s,
                k,
                now,
                grace,
            ) by {
                assert(versions@.contains_key(k) <==> names.contains(k));
                assert(names.contains(k) <==> names.to_set().contains(k));
            }
            assert forall|op: OpView| #[trigger] p(op) == q(op) by {
                assert(versions@.contains_key(op.key) <==> rl_collectable(s, op.key, now, grace));
                if versions@.contains_key(op.key) {
                    assert(Some(versions@[op.key]) == s.entries[op.key].known.tombstone);
                }
            }
            assert(p =~= q);
            if n == 0 {
                assert forall|op: OpView| #[trigger] p(op) by {
                    assert(versions@.contains_key(op.key) <==> names.contains(op.key));
                }
                lemma_filter_all(log, p);
            }
        }
        n
    }
}

} // verus!
