//! One engine of either kind.
use super::super::epoch_max_wins::{epoch_model, op_says};
use super::super::kv_store::{bumped, lookup};
use super::super::operation::{compacted, ops_view, sort_ops, CrdtChange, OpView, Operation};
use super::super::replica::{next_time, LamportClock, ReplicaId, Version};
use super::lww::{
    accepts, apply_all, apply_op, collectable_keys, lww_model, purged, unseen, LwwEngine, LwwState,
};
use super::rate_limit::{
    is_news, rl_apply, rl_apply_all, rl_collectable_keys, rl_live, rl_live_keys, rl_purged,
    RateLimitEngine, RlState,
};
use super::lww_laws::{clock_ahead, law_clock_stays_ahead};
use super::{appended, changes_view, lemma_observed_all, observed_all, reports};
use crate::text::{opt_bytes, texts};
use vstd::prelude::*;

verus! {

/// How a namespace resolves conflicts.
#[derive(Debug, Clone, Copy, PartialEq, Eq, Structural)]
pub enum MergeStrategy {
    /// The newest write wins.
    LastWriterWins,
    /// The largest count of the newest epoch wins.
    EpochMaxWins,
}

/// What an engine holds for its namespace.
pub enum Core {
    Lww(LwwState),
    RateLimit(RlState),
}

/// What an engine holds, its log, and how often the log changed.
#[verifier::ext_equal]
pub struct EngineView {
    pub core: Core,
    pub log: Seq<OpView>,
    pub log_changes: u64,
}

/// An engine that knows no key.
pub open spec fn fresh_engine(strategy: MergeStrategy) -> EngineView {
    EngineView {
        core: match strategy {
            MergeStrategy::LastWriterWins => Core::Lww(
                LwwState { live: Map::empty(), meta: Map::empty(), generation: 0 },
            ),
            MergeStrategy::EpochMaxWins => Core::RateLimit(
                RlState { entries: Map::empty(), generation: 0 },
            ),
        },
        log: Seq::empty(),
        log_changes: 0,
    }
}

/// What readers of `key` are given.
pub open spec fn live_value(e: EngineView, key: Seq<char>) -> Option<Seq<u8>> {
    match e.core {
        Core::Lww(s) => lookup(s.live, key),
        Core::RateLimit(s) => rl_live(s, key),
    }
}

/// The live keys.
pub open spec fn live_keys(e: EngineView) -> Set<Seq<char>> {
    match e.core {
        Core::Lww(s) => s.live.dom(),
        Core::RateLimit(s) => rl_live_keys(s),
    }
}

/// How often live state changed.
pub open spec fn generation_of(e: EngineView) -> u64 {
    match e.core {
        Core::Lww(s) => s.generation,
        Core::RateLimit(s) => s.generation,
    }
}

/// The operation takes effect.
pub open spec fn takes_effect(e: EngineView, op: OpView) -> bool {
    match e.core {
        Core::Lww(s) => accepts(lookup(s.meta, op.key), op),
        Core::RateLimit(s) => is_news(s, op.key, op_says(op)),
    }
}

/// The engine after the local operation `op`. One that takes no effect leaves
/// the engine as it is.
pub open spec fn after_local(e: EngineView, op: OpView, now: u128) -> EngineView {
    if !takes_effect(e, op) {
        e
    } else {
        match e.core {
            Core::Lww(s) => {
                let t = apply_op(s, op, now);
                EngineView {
                    core: Core::Lww(t),
                    log: appended(e.log, op, t.meta.dom().len(), lww_model()),
                    log_changes: bumped(e.log_changes),
                }
            },
            Core::RateLimit(s) => {
                let t = rl_apply(s, op, now);
                EngineView {
                    core: Core::RateLimit(t),
                    log: appended(e.log, op, t.entries.dom().len(), epoch_model()),
                    log_changes: bumped(e.log_changes),
                }
            },
        }
    }
}

/// What a local put returns.
pub open spec fn put_result(e: EngineView, op: OpView, now: u128) -> Option<Seq<u8>> {
    match e.core {
        Core::Lww(s) => lookup(s.live, op.key),
        Core::RateLimit(s) => if takes_effect(e, op) && rl_live(rl_apply(s, op, now), op.key) is Some {
            None
        } else {
            rl_live(s, op.key)
        },
    }
}

/// What a local delete returns.
pub open spec fn delete_result(e: EngineView, op: OpView, now: u128) -> Option<Seq<u8>> {
    if !takes_effect(e, op) {
        None
    } else {
        match e.core {
            Core::Lww(s) => lookup(s.live, op.key),
            Core::RateLimit(s) => if rl_live(rl_apply(s, op, now), op.key) is Some {
                None
            } else {
                rl_live(s, op.key)
            },
        }
    }
}

/// The operations of a batch that an engine applies, in order.
pub open spec fn applied_ops(e: EngineView, ops: Seq<OpView>) -> Seq<OpView> {
    match e.core {
        Core::Lww(_) => sort_ops(unseen(ops, e.log)),
        Core::RateLimit(_) => sort_ops(ops),
    }
}

/// The engine after it merged `ops`.
pub open spec fn after_merge(e: EngineView, ops: Seq<OpView>, now: u128) -> EngineView {
    let applied = applied_ops(e, ops);
    if applied.len() == 0 {
        e
    } else {
        match e.core {
            Core::Lww(s) => EngineView {
                core: Core::Lww(apply_all(s, applied, now)),
                log: compacted(e.log + applied, lww_model()),
                log_changes: bumped(e.log_changes),
            },
            Core::RateLimit(s) => EngineView {
                core: Core::RateLimit(rl_apply_all(s, applied, now)),
                log: compacted(e.log + applied, epoch_model()),
                log_changes: bumped(e.log_changes),
            },
        }
    }
}

/// The keys whose tombstones have outlived `grace` at `now`.
pub open spec fn dead_keys(e: EngineView, now: u128, grace: u128) -> Set<Seq<char>> {
    match e.core {
        Core::Lww(s) => collectable_keys(s, now, grace),
        Core::RateLimit(s) => rl_collectable_keys(s, now, grace),
    }
}

/// The engine after it forgot the tombstones that have outlived `grace`.
pub open spec fn after_gc(e: EngineView, now: u128, grace: u128) -> EngineView {
    let gone = dead_keys(e, now, grace);
    EngineView {
        core: match e.core {
            Core::Lww(s) => Core::Lww(LwwState { meta: s.meta.remove_keys(gone), ..s }),
            Core::RateLimit(s) => Core::RateLimit(
                RlState { entries: s.entries.remove_keys(gone), ..s },
            ),
        },
        log: match e.core {
            Core::Lww(s) => purged(e.log, s, now, grace),
            Core::RateLimit(s) => rl_purged(e.log, s, now, grace),
        },
        log_changes: if gone.len() > 0 {
            bumped(e.log_changes)
        } else {
            e.log_changes
        },
    }
}

/// No recorded version is ahead of the clock.
pub open spec fn behind_clock(e: EngineView, time: u64) -> bool {
    match e.core {
        Core::Lww(s) => clock_ahead(s.meta, time),
        Core::RateLimit(_) => true,
    }
}

/// An engine of either kind.
pub enum Engine {
    Lww(LwwEngine),
    RateLimit(RateLimitEngine),
}

impl View for Engine {
    type V = EngineView;

    open spec fn view(&self) -> EngineView {
        match self {
            Engine::Lww(e) => EngineView {
                core: Core::Lww(e.state()),
                log: e.ops(),
                log_changes: e.log_changes(),
            },
            Engine::RateLimit(e) => EngineView {
                core: Core::RateLimit(e.state()),
                log: e.ops(),
                log_changes: e.log_changes(),
            },
        }
    }
}

impl Engine {
    /// The engine is sound.
    pub open spec fn wf(&self) -> bool {
        match self {
            Engine::Lww(e) => e.wf(),
            Engine::RateLimit(e) => e.wf(),
        }
    }

    /// Whose operations are stamped here.
    pub open spec fn replica(&self) -> ReplicaId {
        match self {
            Engine::Lww(e) => e.replica(),
            Engine::RateLimit(e) => e.replica(),
        }
    }

    /// An engine that knows no key.
    pub fn new(strategy: MergeStrategy, replica_id: ReplicaId) -> (r: Self)
        ensures
            r.wf(),
            r@ == fresh_engine(strategy),
            r.replica() == replica_id,
    {
        match strategy {
            MergeStrategy::LastWriterWins => Engine::Lww(LwwEngine::new(replica_id)),
            MergeStrategy::EpochMaxWins => Engine::RateLimit(RateLimitEngine::new(replica_id)),
        }
    }

    /// A local put.
    pub fn put_local(
        &mut self,
        key: &str,
        value: Vec<u8>,
        now: u128,
        clock: &mut LamportClock,
    ) -> (r: Option<Vec<u8>>)
        requires
            old(self).wf(),
        ensures
            final(self).wf(),
            final(self).replica() == old(self).replica(),
            final(clock)@ == next_time(old(clock)@),
            ({
                let op = OpView {
                    key: key@,
                    value: Some(value@),
                    version: Version {
                        timestamp: next_time(old(clock)@),
                        replica_id: old(self).replica(),
                    },
                };
                &&& final(self)@ == after_local(old(self)@, op, now)
                &&& opt_bytes(r) == put_result(old(self)@, op, now)
            }),
    {
        match self {
            Engine::Lww(e) => e.put_local(key, value, now, clock),
            Engine::RateLimit(e) => e.put_local(key, value, now, clock),
        }
    }

    /// A local delete.
    pub fn delete_local(&mut self, key: &str, now: u128, clock: &mut LamportClock) -> (r: Option<
        Vec<u8>,
    >)
        requires
            old(self).wf(),
        ensures
            final(self).wf(),
            final(self).replica() == old(self).replica(),
            final(clock)@ == next_time(old(clock)@),
            ({
                let op = OpView {
                    key: key@,
                    value: None,
                    version: Version {
                        timestamp: next_time(old(clock)@),
                        replica_id: old(self).replica(),
                    },
                };
                &&& final(self)@ == after_local(old(self)@, op, now)
                &&& opt_bytes(r) == delete_result(old(self)@, op, now)
            }),
    {
        match self {
            Engine::Lww(e) => e.delete_local(key, now, clock),
            Engine::RateLimit(e) => e.delete_local(key, now, clock),
        }
    }

    /// The live value of `key`.
    pub fn get(&self, key: &str) -> (r: Option<Vec<u8>>)
        requires
            self.wf(),
        ensures
            opt_bytes(r) == live_value(self@, key@),
    {
        match self {
            Engine::Lww(e) => e.get(key),
            Engine::RateLimit(e) => e.get(key),
        }
    }

    /// Whether `key` is live.
    pub fn contains_key(&self, key: &str) -> (r: bool)
        requires
            self.wf(),
        ensures
            r == (live_value(self@, key@) is Some),
            r == live_keys(self@).contains(key@),
    {
        match self {
            Engine::Lww(e) => e.contains_key(key),
            Engine::RateLimit(e) => e.contains_key(key),
        }
    }

    /// The live keys, each once.
    pub fn keys(&self) -> (r: Vec<String>)
        requires
            self.wf(),
        ensures
            texts(r@).no_duplicates(),
            texts(r@).to_set() == live_keys(self@),
    {
        match self {
            Engine::Lww(e) => e.keys(),
            Engine::RateLimit(e) => e.keys(),
        }
    }

    /// How many keys are live.
    pub fn len(&self) -> (r: usize)
        requires
            self.wf(),
        ensures
            r == live_keys(self@).len(),
    {
        match self {
            Engine::Lww(e) => e.len(),
            Engine::RateLimit(e) => e.len(),
        }
    }

    /// How often live state changed.
    pub fn generation(&self) -> (r: u64)
        ensures
            r == generation_of(self@),
    {
        match self {
            Engine::Lww(e) => e.generation(),
            Engine::RateLimit(e) => e.generation(),
        }
    }

    /// How often the log changed.
    pub fn op_generation(&self) -> (r: u64)
        ensures
            r == self@.log_changes,
    {
        match self {
            Engine::Lww(e) => e.op_generation(),
            Engine::RateLimit(e) => e.op_generation(),
        }
    }

    /// A copy of the log.
    pub fn export_ops(&self) -> (r: Vec<Operation>)
        ensures
            ops_view(r@) == self@.log,
    {
        match self {
            Engine::Lww(e) => e.export_ops(),
            Engine::RateLimit(e) => e.export_ops(),
        }
    }

    /// Merge a batch of operations from another replica. Returns the keys whose
    /// live value changed.
    pub fn apply_remote_ops(
        &mut self,
        ops: Vec<Operation>,
        now: u128,
        clock: &mut LamportClock,
    ) -> (r: Vec<CrdtChange>)
        requires
            old(self).wf(),
        ensures
            final(self).wf(),
            final(self).replica() == old(self).replica(),
            final(self)@ == after_merge(old(self)@, ops_view(ops@), now),
            final(clock)@ == observed_all(old(clock)@, applied_ops(old(self)@, ops_view(ops@))),
            reports(
                changes_view(r@),
                |k: Seq<char>| live_value(old(self)@, k),
                |k: Seq<char>| live_value(final(self)@, k),
            ),
    {
        let ghost before = self@;
        match self {
            Engine::Lww(e) => {
                let ghost s = e.state();
                let r = e.apply_remote_ops(ops, now, clock);
                proof {
                    let t = e.state();
                    let a = |k: Seq<char>| lookup(s.live, k);
                    let b = |k: Seq<char>| lookup(t.live, k);
                    assert(reports(changes_view(r@), a, b));
                    assert(a =~= |k: Seq<char>| live_value(before, k));
                    let after = EngineView {
                        core: Core::Lww(t),
                        log: e.ops(),
                        log_changes: e.log_changes(),
                    };
                    assert(b =~= |k: Seq<char>| live_value(after, k));
                }
                r
            },
            Engine::RateLimit(e) => {
                let ghost s = e.state();
                let r = e.apply_remote_ops(ops, now, clock);
                proof {
                    let t = e.state();
                    let a = |k: Seq<char>| rl_live(s, k);
                    let b = |k: Seq<char>| rl_live(t, k);
                    assert(reports(changes_view(r@), a, b));
                    assert(a =~= |k: Seq<char>| live_value(before, k));
                    let after = EngineView {
                        core: Core::RateLimit(t),
                        log: e.ops(),
                        log_changes: e.log_changes(),
                    };
                    assert(b =~= |k: Seq<char>| live_value(after, k));
                }
                r
            },
        }
    }

    /// Forget the tombstones that have outlived `grace`. Returns how many.
    pub fn gc_tombstones(&mut self, grace: u128, now: u128) -> (r: usize)
        requires
            old(self).wf(),
        ensures
            final(self).wf(),
            final(self).replica() == old(self).replica(),
            final(self)@ == after_gc(old(self)@, now, grace),
            r == dead_keys(old(self)@, now, grace).len(),
    {
        match self {
            Engine::Lww(e) => e.gc_tombstones(grace, now),
            Engine::RateLimit(e) => e.gc_tombstones(grace, now),
        }
    }
}

/// Wherever an engine's log changes, its counter moves, unless it is at its
/// largest value. Collection without anything to collect changes nothing.
pub proof fn law_log_changes_are_counted(
    e: EngineView,
    op: OpView,
    ops: Seq<OpView>,
    now: u128,
    grace: u128,
)
    ensures
        after_local(e, op, now).log != e.log ==> after_local(e, op, now).log_changes == bumped(
            e.log_changes,
        ),
        after_local(e, op, now).log_changes >= e.log_changes,
        after_merge(e, ops, now).log != e.log ==> after_merge(e, ops, now).log_changes == bumped(
            e.log_changes,
        ),
        after_merge(e, ops, now).log_changes >= e.log_changes,
        after_gc(e, now, grace).log_changes >= e.log_changes,
{
}

/// The clock stays ahead of what an engine has recorded.
pub proof fn lemma_behind_clock(
    e: EngineView,
    key: Seq<char>,
    value: Option<Seq<u8>>,
    ops: Seq<OpView>,
    time: u64,
    replica_id: ReplicaId,
    now: u128,
    grace: u128,
)
    requires
        behind_clock(e, time),
    ensures
        behind_clock(
            after_local(
                e,
                OpView { key, value, version: Version { timestamp: next_time(time), replica_id } },
                now,
            ),
            next_time(time),
        ),
        behind_clock(after_merge(e, ops, now), observed_all(time, applied_ops(e, ops))),
        behind_clock(after_gc(e, now, grace), time),
        forall|later: u64| later >= time ==> #[trigger] behind_clock(e, later),
{
    if let Core::Lww(s) = e.core {
        law_clock_stays_ahead(s, applied_ops(e, ops), time, now, grace);
        lemma_observed_all(time, applied_ops(e, ops));
        let op = OpView { key, value, version: Version { timestamp: next_time(time), replica_id } };
        assert(clock_ahead(apply_op(s, op, now).meta, next_time(time)));
    }
}

} // verus!
