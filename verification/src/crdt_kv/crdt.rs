//! The replicated map: a router over engines.
//!
//! Every registered prefix has an engine of its own. A key goes to the engine
//! with the longest prefix that it starts with, and to a last-writer-wins engine
//! where none fits. All engines of a node stamp their operations with one clock,
//! so that no two operations of the node carry the same version.
use super::crdt_laws::sound;
use super::engine::any::{
    after_gc, after_local, after_merge, applied_ops, behind_clock, dead_keys, delete_result,
    fresh_engine, generation_of, law_log_changes_are_counted, lemma_behind_clock, live_keys,
    live_value, put_result, Core, Engine, EngineView, MergeStrategy,
};
use super::engine::lww::{collectable, lemma_apply_all_frame, unseen};
use super::engine::rate_limit::{lemma_rl_frame, rl_collectable};
use super::engine::{changes_view, observed_all, reports};
use super::kv_store::bumped;
use super::operation::{
    keys_ascend, lemma_filter_all, lemma_filter_members, lemma_sort_ops, mentions, ops_view,
    ChangeView, CrdtChange, OpView, Operation, OperationLog,
};
use super::replica::{next_time, LamportClock, ReplicaId, Version};
use crate::text::{
    has_prefix, lemma_str_before_total_order, opt_bytes, str_before, str_eq, str_has_prefix,
    str_less, texts,
};
use crate::time::Stopwatch;
use std::sync::Arc;
use vstd::prelude::*;
use vstd::utf8::*;

verus! {

/// How long a tombstone is kept, in nanoseconds: five minutes.
pub const DEFAULT_TOMBSTONE_GRACE: u128 = 300_000_000_000;

/// The prefixes with their engines, the engine for all other keys behind them,
/// the clock, and whose replica this is.
#[verifier::ext_equal]
pub struct MapView {
    pub prefixes: Seq<Seq<char>>,
    pub slots: Seq<EngineView>,
    pub clock: u64,
    pub replica: ReplicaId,
}

/// Where `key` goes: the first prefix that it starts with, or the place behind
/// the last.
pub open spec fn route(prefixes: Seq<Seq<char>>, key: Seq<char>) -> int
    decreases prefixes.len(),
{
    if prefixes.len() == 0 {
        0
    } else if has_prefix(key, prefixes[0]) {
        0
    } else {
        1 + route(prefixes.drop_first(), key)
    }
}

/// No prefix stands behind a shorter one.
pub open spec fn longest_first(prefixes: Seq<Seq<char>>) -> bool {
    forall|i: int, j: int|
        0 <= i < j < prefixes.len() ==> encode_utf8(#[trigger] prefixes[i]).len() >= encode_utf8(
            #[trigger] prefixes[j],
        ).len()
}

/// What `route` finds: a prefix of the key with no other before it, or the place
/// behind the last where no prefix fits.
pub proof fn lemma_route(prefixes: Seq<Seq<char>>, key: Seq<char>)
    ensures
        0 <= route(prefixes, key) <= prefixes.len(),
        route(prefixes, key) < prefixes.len() ==> has_prefix(key, prefixes[route(prefixes, key)]),
        forall|j: int|
            0 <= j < route(prefixes, key) ==> !has_prefix(key, #[trigger] prefixes[j]),
    decreases prefixes.len(),
{
    if prefixes.len() > 0 && !has_prefix(key, prefixes[0]) {
        let rest = prefixes.drop_first();
        lemma_route(rest, key);
        assert forall|j: int| 0 <= j < route(prefixes, key) implies !has_prefix(
            key,
            #[trigger] prefixes[j],
        ) by {
            if j > 0 {
                assert(rest[j - 1] == prefixes[j]);
            }
        }
    }
}

/// Keys go to the longest registered prefix that they start with. They go to
/// the default engine only where no prefix fits.
pub proof fn law_longest_prefix_wins(prefixes: Seq<Seq<char>>, key: Seq<char>, j: int)
    requires
        longest_first(prefixes),
        0 <= j < prefixes.len(),
        has_prefix(key, prefixes[j]),
    ensures
        route(prefixes, key) < prefixes.len(),
        encode_utf8(prefixes[route(prefixes, key)]).len() >= encode_utf8(prefixes[j]).len(),
{
    lemma_route(prefixes, key);
}

/// The engine that `key` goes to.
pub open spec fn engine_for(m: MapView, key: Seq<char>) -> EngineView {
    m.slots[route(m.prefixes, key)]
}

/// What readers of `key` are given.
pub open spec fn value_of(m: MapView, key: Seq<char>) -> Option<Seq<u8>> {
    live_value(engine_for(m, key), key)
}

/// The stamp of the next local operation.
pub open spec fn next_stamp(m: MapView) -> Version {
    Version { timestamp: next_time(m.clock), replica_id: m.replica }
}

/// The map after a local operation on `key`: a put of a value, or a delete.
pub open spec fn after_write(
    m: MapView,
    key: Seq<char>,
    value: Option<Seq<u8>>,
    now: u128,
) -> MapView {
    let op = OpView { key, value, version: next_stamp(m) };
    let i = route(m.prefixes, key);
    MapView {
        slots: m.slots.update(i, after_local(m.slots[i], op, now)),
        clock: next_time(m.clock),
        ..m
    }
}

/// The logs of all engines, one after another.
pub open spec fn joined_log(slots: Seq<EngineView>) -> Seq<OpView>
    decreases slots.len(),
{
    if slots.len() == 0 {
        Seq::empty()
    } else {
        joined_log(slots.drop_last()) + slots.last().log
    }
}

/// The operations of a log that go to slot `i`.
pub open spec fn bucket(prefixes: Seq<Seq<char>>, log: Seq<OpView>, i: int) -> Seq<OpView> {
    log.filter(|op: OpView| route(prefixes, op.key) == i)
}

/// The clock after the first `n` slots merged their share of a log.
pub open spec fn merged_clock(m: MapView, log: Seq<OpView>, n: nat) -> u64
    decreases n,
{
    if n == 0 {
        m.clock
    } else {
        observed_all(
            merged_clock(m, log, (n - 1) as nat),
            applied_ops(m.slots[n - 1], bucket(m.prefixes, log, n - 1)),
        )
    }
}

/// The map after it merged a log: every engine merged the operations on its
/// keys.
pub open spec fn after_merging(m: MapView, log: Seq<OpView>, now: u128) -> MapView {
    MapView {
        slots: Seq::new(
            m.slots.len(),
            |i: int| after_merge(m.slots[i], bucket(m.prefixes, log, i), now),
        ),
        clock: merged_clock(m, log, m.slots.len()),
        ..m
    }
}

/// The map after every engine forgot the tombstones that have outlived `grace`.
pub open spec fn after_collecting(m: MapView, now: u128, grace: u128) -> MapView {
    MapView { slots: m.slots.map_values(|e: EngineView| after_gc(e, now, grace)), ..m }
}

/// The engines after the first `n` of them collected.
pub open spec fn collected_upto(m: MapView, now: u128, grace: u128, n: int) -> Seq<EngineView> {
    Seq::new(
        m.slots.len(),
        |j: int|
            if j < n {
                after_gc(m.slots[j], now, grace)
            } else {
                m.slots[j]
            },
    )
}

/// The sum of a count over all engines.
pub open spec fn sum_over(slots: Seq<EngineView>, count: spec_fn(EngineView) -> nat) -> nat
    decreases slots.len(),
{
    if slots.len() == 0 {
        0
    } else {
        sum_over(slots.drop_last(), count) + count(slots.last())
    }
}

/// How often any log changed.
pub open spec fn total_changes(slots: Seq<EngineView>) -> nat {
    sum_over(slots, |e: EngineView| e.log_changes as nat)
}

/// `n`, or the largest `u64` where `n` is larger.
pub open spec fn capped_u64(n: nat) -> u64 {
    if n <= u64::MAX {
        n as u64
    } else {
        u64::MAX
    }
}

/// `n`, or the largest `usize` where `n` is larger.
pub open spec fn capped_usize(n: nat) -> usize {
    if n <= usize::MAX {
        n as usize
    } else {
        usize::MAX
    }
}

/// A snapshot that was taken when the counters stood at `at` may be handed out
/// only where it is the joined log.
pub open spec fn snapshot_ok(at: u64, snapshot: Seq<OpView>, slots: Seq<EngineView>) -> bool {
    &&& at <= total_changes(slots)
    &&& at == total_changes(slots) && at < u64::MAX ==> snapshot == joined_log(slots)
}

/// A log that is kept was joined when the logs had changed as often as they have
/// now, and the count has not reached its end.
pub open spec fn is_current(kept: Option<(u64, Seq<OpView>)>, slots: Seq<EngineView>) -> bool {
    match kept {
        Some((at, _)) => at == total_changes(slots) && at < u64::MAX,
        None => false,
    }
}

/// One slot changed in a way that its counter shows.
pub open spec fn counted_change(before: EngineView, now: EngineView) -> bool {
    &&& now.log_changes >= before.log_changes
    &&& now.log != before.log ==> now.log_changes == bumped(before.log_changes)
}

proof fn lemma_sum_update(
    slots: Seq<EngineView>,
    i: int,
    e: EngineView,
    count: spec_fn(EngineView) -> nat,
)
    requires
        0 <= i < slots.len(),
    ensures
        sum_over(slots.update(i, e), count) == sum_over(slots, count) - count(slots[i]) + count(e),
        sum_over(slots, count) >= count(slots[i]),
    decreases slots.len(),
{
    let next = slots.update(i, e);
    if i == slots.len() - 1 {
        assert(next.drop_last() =~= slots.drop_last());
    } else {
        assert(next.drop_last() =~= slots.drop_last().update(i, e));
        lemma_sum_update(slots.drop_last(), i, e, count);
    }
}

proof fn lemma_joined_same_logs(a: Seq<EngineView>, b: Seq<EngineView>)
    requires
        a.len() == b.len(),
        forall|i: int| 0 <= i < a.len() ==> (#[trigger] a[i]).log == b[i].log,
    ensures
        joined_log(a) == joined_log(b),
    decreases a.len(),
{
    if a.len() > 0 {
        lemma_joined_same_logs(a.drop_last(), b.drop_last());
        assert(a[a.len() - 1].log == b[b.len() - 1].log);
    }
}

/// A snapshot is never stale: after any counted change of a slot it is handed
/// out only where it is still the joined log.
pub proof fn law_snapshot_never_stale(
    at: u64,
    snapshot: Seq<OpView>,
    slots: Seq<EngineView>,
    i: int,
    e: EngineView,
)
    requires
        snapshot_ok(at, snapshot, slots),
        0 <= i < slots.len(),
        counted_change(slots[i], e),
    ensures
        snapshot_ok(at, snapshot, slots.update(i, e)),
{
    let count = |e: EngineView| e.log_changes as nat;
    let next = slots.update(i, e);
    lemma_sum_update(slots, i, e, count);
    assert(sum_over(next, count) >= count(e)) by {
        lemma_sum_update(next, i, e, count);
    }
    if at == total_changes(next) && at < u64::MAX {
        assert(e.log == slots[i].log);
        lemma_joined_same_logs(slots, next);
    }
}

proof fn lemma_sum_insert(
    slots: Seq<EngineView>,
    i: int,
    e: EngineView,
    count: spec_fn(EngineView) -> nat,
)
    requires
        0 <= i <= slots.len(),
    ensures
        sum_over(slots.insert(i, e), count) == sum_over(slots, count) + count(e),
    decreases slots.len(),
{
    let next = slots.insert(i, e);
    if i == slots.len() {
        assert(next.drop_last() =~= slots);
    } else {
        assert(next.drop_last() =~= slots.drop_last().insert(i, e));
        lemma_sum_insert(slots.drop_last(), i, e, count);
    }
}

proof fn lemma_joined_insert_empty(slots: Seq<EngineView>, i: int, e: EngineView)
    requires
        0 <= i <= slots.len(),
        e.log.len() == 0,
    ensures
        joined_log(slots.insert(i, e)) == joined_log(slots),
    decreases slots.len(),
{
    let next = slots.insert(i, e);
    if i == slots.len() {
        assert(next.drop_last() =~= slots);
        assert(joined_log(slots) + e.log =~= joined_log(slots));
    } else {
        assert(next.drop_last() =~= slots.drop_last().insert(i, e));
        lemma_joined_insert_empty(slots.drop_last(), i, e);
    }
}

/// Collection of tombstones is a counted change.
proof fn lemma_gc_counted(e: EngineView, now: u128, grace: u128)
    requires
        dead_keys(e, now, grace).finite(),
    ensures
        counted_change(e, after_gc(e, now, grace)),
{
    let gone = dead_keys(e, now, grace);
    if gone.len() == 0 {
        assert(gone =~= Set::empty());
        match e.core {
            Core::Lww(s) => {
                let p = |op: OpView|
                    !collectable(s, op.key, now, grace) || s.meta[op.key].version.before(
                        op.version,
                    );
                assert forall|op: OpView| #[trigger] p(op) by {
                    if collectable(s, op.key, now, grace) {
                        assert(gone.contains(op.key));
                    }
                }
                lemma_filter_all(e.log, p);
            },
            Core::RateLimit(s) => {
                let p = |op: OpView|
                    !rl_collectable(s, op.key, now, grace)
                        || s.entries[op.key].known.tombstone.unwrap().before(op.version);
                assert forall|op: OpView| #[trigger] p(op) by {
                    if rl_collectable(s, op.key, now, grace) {
                        assert(gone.contains(op.key));
                    }
                }
                lemma_filter_all(e.log, p);
            },
        }
    }
}

/// Where a new prefix goes: behind every one that is at least as long, and before
/// the shorter ones.
pub open spec fn goes_at(prefixes: Seq<Seq<char>>, prefix: Seq<char>, at: int) -> bool {
    &&& 0 <= at <= prefixes.len()
    &&& forall|j: int|
        0 <= j < at ==> encode_utf8(#[trigger] prefixes[j]).len() >= encode_utf8(prefix).len()
    &&& forall|j: int|
        at <= j < prefixes.len() ==> encode_utf8(#[trigger] prefixes[j]).len() < encode_utf8(
            prefix,
        ).len()
}

proof fn lemma_insert_prefix(prefixes: Seq<Seq<char>>, prefix: Seq<char>, at: int)
    requires
        longest_first(prefixes),
        prefixes.no_duplicates(),
        !prefixes.contains(prefix),
        goes_at(prefixes, prefix, at),
    ensures
        longest_first(prefixes.insert(at, prefix)),
        prefixes.insert(at, prefix).no_duplicates(),
{
    let ps = prefixes.insert(at, prefix);
    assert forall|i: int, j: int| 0 <= i < j < ps.len() implies encode_utf8(
        #[trigger] ps[i],
    ).len() >= encode_utf8(#[trigger] ps[j]).len() by {
        if i < at {
            assert(ps[i] == prefixes[i]);
        } else if i > at {
            assert(ps[i] == prefixes[i - 1]);
        }
        if j < at {
            assert(ps[j] == prefixes[j]);
        } else if j > at {
            assert(ps[j] == prefixes[j - 1]);
        }
    }
    assert forall|i: int, j: int| 0 <= i < j < ps.len() implies ps[i] != ps[j] by {
        if i < at {
            assert(ps[i] == prefixes[i]);
        } else if i > at {
            assert(ps[i] == prefixes[i - 1]);
        }
        if j < at {
            assert(ps[j] == prefixes[j]);
        } else if j > at {
            assert(ps[j] == prefixes[j - 1]);
        }
    }
}

/// `Arc::clone` hands out another pointer to the same value.
#[verifier::external_body]
pub(crate) fn share<T>(shared: &Arc<T>) -> (r: Arc<T>)
    ensures
        *r == **shared,
{
    Arc::clone(shared)
}

/// The replicated map.
pub struct CrdtOrMap {
    prefixes: Vec<String>,
    slots: Vec<Engine>,
    clock: LamportClock,
    replica_id: ReplicaId,
    op_snapshot: Option<(u64, Arc<OperationLog>)>,
    watch: Stopwatch,
}

impl View for CrdtOrMap {
    type V = MapView;

    closed spec fn view(&self) -> MapView {
        MapView {
            prefixes: texts(self.prefixes@),
            slots: self.slots@.map_values(|e: Engine| e@),
            clock: self.clock@,
            replica: self.replica_id,
        }
    }
}

impl CrdtOrMap {
    /// The highest reading of the clock that an operation was done at.
    pub closed spec fn last_reading(&self) -> u128 {
        self.watch.latest()
    }

    /// The log that is kept to be handed out again, and how often the logs had
    /// changed when it was joined.
    pub closed spec fn kept_log(&self) -> Option<(u64, Seq<OpView>)> {
        match self.op_snapshot {
            Some((at, log)) => Some((at, log@)),
            None => None,
        }
    }

    closed spec fn inner_wf(&self) -> bool {
        &&& self.slots@.len() == self.prefixes@.len() + 1
        &&& forall|i: int|
            0 <= i < self.slots@.len() ==> (#[trigger] self.slots@[i]).wf()
                && self.slots@[i].replica() == self.replica_id && behind_clock(
                self.slots@[i]@,
                self.clock@,
            )
        &&& match self.op_snapshot {
            Some((at, log)) => snapshot_ok(at, log@, self@.slots),
            None => true,
        }
    }

    /// Every engine is sound and behind the clock, the prefixes are distinct and
    /// the longest come first, and a kept snapshot is one that may be handed out.
    pub closed spec fn wf(&self) -> bool {
        &&& self.inner_wf()
        &&& longest_first(self@.prefixes)
        &&& self@.prefixes.no_duplicates()
    }

    /// What well-formedness says of the view.
    pub proof fn lemma_wf(&self)
        requires
            self.wf(),
        ensures
            self@.slots.len() == self@.prefixes.len() + 1,
            longest_first(self@.prefixes),
            self@.prefixes.no_duplicates(),
            forall|i: int|
                0 <= i < self@.slots.len() ==> behind_clock(#[trigger] self@.slots[i], self@.clock)
                    && sound(self@.slots[i]),
    {
        assert forall|i: int| 0 <= i < self@.slots.len() implies behind_clock(
            #[trigger] self@.slots[i],
            self@.clock,
        ) && sound(self@.slots[i]) by {
            assert(self@.slots[i] == self.slots@[i]@);
            match self.slots@[i] {
                Engine::Lww(e) => e.lemma_wf(),
                Engine::RateLimit(e) => e.lemma_wf(),
            }
        }
    }

    /// A map with a fresh identity.
    pub fn new() -> (r: Self)
        ensures
            r.wf(),
            r@.prefixes == Seq::<Seq<char>>::empty(),
            r@.slots == seq![fresh_engine(MergeStrategy::LastWriterWins)],
            r@.clock == 0,
            r.last_reading() == 0,
    {
        Self::with_replica_id(ReplicaId::new())
    }

    /// A map with the given identity.
    pub fn with_replica_id(replica_id: ReplicaId) -> (r: Self)
        ensures
            r.wf(),
            r@ == (MapView {
                prefixes: Seq::empty(),
                slots: seq![fresh_engine(MergeStrategy::LastWriterWins)],
                clock: 0,
                replica: replica_id,
            }),
            r.last_reading() == 0,
    {
        let mut slots: Vec<Engine> = Vec::new();
        slots.push(Engine::new(MergeStrategy::LastWriterWins, replica_id));
        let r = CrdtOrMap {
            prefixes: Vec::new(),
            slots,
            clock: LamportClock::new(),
            replica_id,
            op_snapshot: None,
            watch: Stopwatch::start(),
        };
        assert(r@.prefixes =~= Seq::<Seq<char>>::empty());
        assert(r@.slots =~= seq![fresh_engine(MergeStrategy::LastWriterWins)]);
        r
    }

    /// Whose replica this is.
    pub fn replica_id(&self) -> (r: ReplicaId)
        ensures
            r == self@.replica,
    {
        self.replica_id
    }

    /// Whether an engine is registered for exactly this prefix.
    pub fn is_registered(&self, prefix: &str) -> (r: bool)
        ensures
            r == self@.prefixes.contains(prefix@),
    {
        let n = self.prefixes.len();
        for i in 0..n
            invariant
                n == self.prefixes@.len(),
                forall|j: int| 0 <= j < i ==> #[trigger] self@.prefixes[j] != prefix@,
        {
            if str_eq(self.prefixes[i].as_str(), prefix) {
                assert(self@.prefixes[i as int] == prefix@);
                return true;
            }
        }
        false
    }

    /// Give the keys with `prefix` an engine of their own. Each prefix can be
    /// registered once.
    pub fn register_merge_strategy(&mut self, prefix: String, strategy: MergeStrategy)
        requires
            old(self).wf(),
            !old(self)@.prefixes.contains(prefix@),
        ensures
            final(self).wf(),
            final(self)@.clock == old(self)@.clock,
            final(self)@.replica == old(self)@.replica,
            final(self).last_reading() == old(self).last_reading(),
            exists|at: int| #[trigger]
                goes_at(old(self)@.prefixes, prefix@, at) && final(self)@.prefixes
                    == old(self)@.prefixes.insert(at, prefix@) && final(self)@.slots
                    == old(self)@.slots.insert(at, fresh_engine(strategy)),
    {
        let ghost m = self@;
        let n = self.prefixes.len();
        let len = prefix.as_str().as_bytes().len();
        let mut at: usize = 0;
        while at < n && self.prefixes[at].as_str().as_bytes().len() >= len
            invariant
                self@ == m,
                n == self.prefixes@.len(),
                at <= n,
                len == encode_utf8(prefix@).len(),
                forall|j: int| 0 <= j < at ==> encode_utf8(#[trigger] m.prefixes[j]).len() >= len,
            decreases n - at,
        {
            assert(m.prefixes[at as int] == self.prefixes@[at as int]@);
            at = at + 1;
        }
        let ghost before = *self;
        let ghost name = prefix@;
        proof {
            if at < n {
                assert(m.prefixes[at as int] == self.prefixes@[at as int]@);
            }
        }
        proof {
            assert forall|j: int| at <= j < m.prefixes.len() implies encode_utf8(
                #[trigger] m.prefixes[j],
            ).len() < encode_utf8(name).len() by {
                if j > at {
                    assert(encode_utf8(m.prefixes[at as int]).len() >= encode_utf8(
                        m.prefixes[j],
                    ).len());
                }
            }
            assert(goes_at(m.prefixes, name, at as int));
        }
        self.prefixes.insert(at, prefix);
        self.slots.insert(at, Engine::new(strategy, self.replica_id));
        proof {
            let e = fresh_engine(strategy);
            assert(self@.prefixes =~= m.prefixes.insert(at as int, name));
            assert(self@.slots =~= m.slots.insert(at as int, e));
            lemma_insert_prefix(m.prefixes, name, at as int);
            assert forall|i: int| 0 <= i < self.slots@.len() implies (
            #[trigger] self.slots@[i]).wf() && self.slots@[i].replica() == self.replica_id
                && behind_clock(self.slots@[i]@, self.clock@) by {
                if i < at {
                    assert(self.slots@[i] == before.slots@[i]);
                } else if i > at {
                    assert(self.slots@[i] == before.slots@[i - 1]);
                }
            }
            lemma_sum_insert(m.slots, at as int, e, |e: EngineView| e.log_changes as nat);
            lemma_joined_insert_empty(m.slots, at as int, e);
        }
    }

    /// Where `key` goes.
    fn slot_for_key(&self, key: &str) -> (r: usize)
        ensures
            r == route(self@.prefixes, key@),
            r <= self@.prefixes.len(),
    {
        let n = self.prefixes.len();
        let ghost ps = self@.prefixes;
        proof {
            assert(ps.skip(0) =~= ps);
        }
        for i in 0..n
            invariant
                n == ps.len(),
                n == self.prefixes@.len(),
                ps == self@.prefixes,
                route(ps, key@) == i + route(ps.skip(i as int), key@),
        {
            assert(ps[i as int] == self.prefixes@[i as int]@);
            proof {
                assert(ps.skip(i as int).drop_first() =~= ps.skip(i + 1));
            }
            if str_has_prefix(key, self.prefixes[i].as_str()) {
                return i;
            }
        }
        n
    }
}

proof fn lemma_slot_change_keeps_wf(
    before: CrdtOrMap,
    after: CrdtOrMap,
    i: int,
)
    requires
        before.inner_wf(),
        0 <= i < before.slots@.len(),
        after.prefixes == before.prefixes,
        after.op_snapshot == before.op_snapshot,
        after.replica_id == before.replica_id,
        after.clock@ >= before.clock@,
        after.slots@ == before.slots@.update(i, after.slots@[i]),
        after.slots@[i].wf(),
        after.slots@[i].replica() == before.replica_id,
        behind_clock(after.slots@[i]@, after.clock@),
        counted_change(before.slots@[i]@, after.slots@[i]@),
    ensures
        after.inner_wf(),
        after@.slots == before@.slots.update(i, after.slots@[i]@),
{
    assert(after@.slots =~= before@.slots.update(i, after.slots@[i]@));
    assert forall|j: int| 0 <= j < after.slots@.len() implies (#[trigger] after.slots@[j]).wf()
        && after.slots@[j].replica() == after.replica_id && behind_clock(
        after.slots@[j]@,
        after.clock@,
    ) by {
        if j != i {
            assert(after.slots@[j] == before.slots@[j]);
            lemma_behind_clock(
                before.slots@[j]@,
                Seq::empty(),
                None,
                Seq::empty(),
                before.clock@,
                before.replica_id,
                0,
                0,
            );
        }
    }
    if let Some((at, log)) = before.op_snapshot {
        law_snapshot_never_stale(at, log@, before@.slots, i, after.slots@[i]@);
    }
}

impl CrdtOrMap {
    /// A local put at time `now`.
    pub fn insert_at(&mut self, key: &str, value: Vec<u8>, now: u128) -> (r: Option<Vec<u8>>)
        requires
            old(self).wf(),
        ensures
            final(self).wf(),
            final(self)@ == after_write(old(self)@, key@, Some(value@), now),
            final(self).last_reading() == old(self).last_reading(),
            opt_bytes(r) == put_result(
                engine_for(old(self)@, key@),
                OpView { key: key@, value: Some(value@), version: next_stamp(old(self)@) },
                now,
            ),
    {
        let i = self.slot_for_key(key);
        let ghost before = *self;
        let ghost payload = value@;
        let r = self.slots[i].put_local(key, value, now, &mut self.clock);
        proof {
            let op = OpView { key: key@, value: Some(payload), version: next_stamp(before@) };
            let e = before.slots@[i as int]@;
            assert(before@.slots[i as int] == e);
            law_log_changes_are_counted(e, op, Seq::empty(), now, 0);
            lemma_behind_clock(
                e,
                key@,
                Some(payload),
                Seq::empty(),
                before.clock@,
                before.replica_id,
                now,
                0,
            );
            lemma_slot_change_keeps_wf(before, *self, i as int);
        }
        r
    }

    /// A local put. Returns what the engine says of the value before it.
    pub fn insert(&mut self, key: String, value: Vec<u8>) -> (r: Option<Vec<u8>>)
        requires
            old(self).wf(),
        ensures
            final(self).wf(),
            final(self).last_reading() >= old(self).last_reading(),
            final(self)@ == after_write(
                old(self)@,
                key@,
                Some(value@),
                final(self).last_reading(),
            ),
            opt_bytes(r) == put_result(
                engine_for(old(self)@, key@),
                OpView { key: key@, value: Some(value@), version: next_stamp(old(self)@) },
                final(self).last_reading(),
            ),
    {
        let now = self.watch.advance();
        self.insert_at(key.as_str(), value, now)
    }

    /// A local delete at time `now`.
    pub fn remove_at(&mut self, key: &str, now: u128) -> (r: Option<Vec<u8>>)
        requires
            old(self).wf(),
        ensures
            final(self).wf(),
            final(self)@ == after_write(old(self)@, key@, None, now),
            final(self).last_reading() == old(self).last_reading(),
            opt_bytes(r) == delete_result(
                engine_for(old(self)@, key@),
                OpView { key: key@, value: None, version: next_stamp(old(self)@) },
                now,
            ),
    {
        let i = self.slot_for_key(key);
        let ghost before = *self;
        let r = self.slots[i].delete_local(key, now, &mut self.clock);
        proof {
            let op = OpView { key: key@, value: None, version: next_stamp(before@) };
            let e = before.slots@[i as int]@;
            assert(before@.slots[i as int] == e);
            law_log_changes_are_counted(e, op, Seq::empty(), now, 0);
            lemma_behind_clock(
                e,
                key@,
                None,
                Seq::empty(),
                before.clock@,
                before.replica_id,
                now,
                0,
            );
            lemma_slot_change_keeps_wf(before, *self, i as int);
        }
        r
    }

    /// A local delete. Returns the value that it removed.
    pub fn remove(&mut self, key: &str) -> (r: Option<Vec<u8>>)
        requires
            old(self).wf(),
        ensures
            final(self).wf(),
            final(self).last_reading() >= old(self).last_reading(),
            final(self)@ == after_write(old(self)@, key@, None, final(self).last_reading()),
            opt_bytes(r) == delete_result(
                engine_for(old(self)@, key@),
                OpView { key: key@, value: None, version: next_stamp(old(self)@) },
                final(self).last_reading(),
            ),
    {
        let now = self.watch.advance();
        self.remove_at(key, now)
    }

    /// The live value of `key`.
    pub fn get(&self, key: &str) -> (r: Option<Vec<u8>>)
        requires
            self.wf(),
        ensures
            opt_bytes(r) == value_of(self@, key@),
    {
        let i = self.slot_for_key(key);
        assert(self@.slots[i as int] == self.slots@[i as int]@);
        self.slots[i].get(key)
    }

    /// Whether `key` is live.
    pub fn contains_key(&self, key: &str) -> (r: bool)
        requires
            self.wf(),
        ensures
            r == (value_of(self@, key@) is Some),
    {
        let i = self.slot_for_key(key);
        assert(self@.slots[i as int] == self.slots@[i as int]@);
        self.slots[i].contains_key(key)
    }

    /// How often live state changed, over all engines.
    pub fn generation(&self) -> (r: u64)
        requires
            self.wf(),
        ensures
            r == capped_u64(sum_over(self@.slots, |e: EngineView| generation_of(e) as nat)),
    {
        let ghost count = |e: EngineView| generation_of(e) as nat;
        let mut sum: u64 = 0;
        let n = self.slots.len();
        for i in 0..n
            invariant
                n == self.slots@.len(),
                count == (|e: EngineView| generation_of(e) as nat),
                sum == capped_u64(sum_over(self@.slots.take(i as int), count)),
        {
            let g = self.slots[i].generation();
            proof {
                assert(self@.slots.take(i + 1).drop_last() =~= self@.slots.take(i as int));
                assert(self@.slots.take(i + 1).last() == self.slots@[i as int]@);
            }
            sum = if g <= u64::MAX - sum {
                sum + g
            } else {
                u64::MAX
            };
        }
        assert(self@.slots.take(n as int) =~= self@.slots);
        sum
    }

    /// How often any log changed.
    fn op_generation(&self) -> (r: u64)
        requires
            self.inner_wf(),
        ensures
            r == capped_u64(total_changes(self@.slots)),
    {
        let ghost count = |e: EngineView| e.log_changes as nat;
        let mut sum: u64 = 0;
        let n = self.slots.len();
        for i in 0..n
            invariant
                n == self.slots@.len(),
                count == (|e: EngineView| e.log_changes as nat),
                sum == capped_u64(sum_over(self@.slots.take(i as int), count)),
        {
            let g = self.slots[i].op_generation();
            proof {
                assert(self@.slots.take(i + 1).drop_last() =~= self@.slots.take(i as int));
                assert(self@.slots.take(i + 1).last() == self.slots@[i as int]@);
            }
            sum = if g <= u64::MAX - sum {
                sum + g
            } else {
                u64::MAX
            };
        }
        assert(self@.slots.take(n as int) =~= self@.slots);
        sum
    }

    /// How many keys are live, over all engines.
    pub fn len(&self) -> (r: usize)
        requires
            self.wf(),
        ensures
            r == capped_usize(sum_over(self@.slots, |e: EngineView| live_keys(e).len())),
    {
        let ghost count = |e: EngineView| live_keys(e).len();
        let mut sum: usize = 0;
        let n = self.slots.len();
        for i in 0..n
            invariant
                n == self.slots@.len(),
                self.inner_wf(),
                count == (|e: EngineView| live_keys(e).len()),
                sum == capped_usize(sum_over(self@.slots.take(i as int), count)),
        {
            let g = self.slots[i].len();
            proof {
                assert(self@.slots.take(i + 1).drop_last() =~= self@.slots.take(i as int));
                assert(self@.slots.take(i + 1).last() == self.slots@[i as int]@);
            }
            sum = if g <= usize::MAX - sum {
                sum + g
            } else {
                usize::MAX
            };
        }
        assert(self@.slots.take(n as int) =~= self@.slots);
        sum
    }

    /// Whether no key is live.
    pub fn is_empty(&self) -> (r: bool)
        requires
            self.wf(),
        ensures
            r == (sum_over(self@.slots, |e: EngineView| live_keys(e).len()) == 0),
    {
        self.len() == 0
    }

    /// The operations that other replicas are sent: the logs of all engines.
    pub fn get_operation_log(&self) -> (r: OperationLog)
        requires
            self.wf(),
        ensures
            r@ == joined_log(self@.slots),
    {
        self.join_logs()
    }

    fn join_logs(&self) -> (r: OperationLog)
        requires
            self.inner_wf(),
        ensures
            r@ == joined_log(self@.slots),
    {
        let mut log = OperationLog::new();
        let n = self.slots.len();
        for i in 0..n
            invariant
                n == self.slots@.len(),
                log@ == joined_log(self@.slots.take(i as int)),
        {
            let ops = self.slots[i].export_ops();
            log.append_all(ops.as_slice());
            proof {
                assert(self@.slots.take(i + 1).drop_last() =~= self@.slots.take(i as int));
                assert(self@.slots.take(i + 1).last() == self.slots@[i as int]@);
            }
        }
        assert(self@.slots.take(n as int) =~= self@.slots);
        log
    }

    /// The joined log, shared. Where no log changed since the one that is kept was
    /// joined, that one is handed out, and the map stays exactly as it was. Else it
    /// is joined anew and kept. That it is the same allocation that is handed out
    /// again is not stated: a shared value is known by what it holds.
    pub fn operation_log_snapshot(&mut self) -> (r: Arc<OperationLog>)
        requires
            old(self).wf(),
        ensures
            final(self).wf(),
            final(self)@ == old(self)@,
            final(self).last_reading() == old(self).last_reading(),
            r@ == joined_log(old(self)@.slots),
            final(self).kept_log() == Some(
                (capped_u64(total_changes(old(self)@.slots)), r@),
            ),
            is_current(old(self).kept_log(), old(self)@.slots) ==> *final(self) == *old(self),
    {
        let generation = self.op_generation();
        if let Some((at, log)) = &self.op_snapshot {
            if *at == generation && generation < u64::MAX {
                return share(log);
            }
        }
        let fresh = Arc::new(self.join_logs());
        let kept = share(&fresh);
        let ghost before = *self;
        self.op_snapshot = Some((generation, kept));
        assert(self@ =~= before@);
        fresh
    }

    /// Forget the tombstones that have outlived `grace` at time `now`. Returns
    /// how many, over all engines.
    pub fn gc_tombstones_at(&mut self, grace: u128, now: u128) -> (r: usize)
        requires
            old(self).wf(),
        ensures
            final(self).wf(),
            final(self)@ == after_collecting(old(self)@, now, grace),
            final(self).last_reading() == old(self).last_reading(),
            r == capped_usize(
                sum_over(old(self)@.slots, |e: EngineView| dead_keys(e, now, grace).len()),
            ),
    {
        let ghost m = self@;
        let ghost reading = self.last_reading();
        let ghost count = |e: EngineView| dead_keys(e, now, grace).len();
        let n = self.slots.len();
        let mut sum: usize = 0;
        proof {
            assert(self@.slots =~= collected_upto(m, now, grace, 0));
        }
        for i in 0..n
            invariant
                n == self.slots@.len(),
                n == m.slots.len(),
                self.wf(),
                count == (|e: EngineView| dead_keys(e, now, grace).len()),
                self@.slots == collected_upto(m, now, grace, i as int),
                self.last_reading() == reading,
                self@.prefixes == m.prefixes,
                self@.clock == m.clock,
                self@.replica == m.replica,
                sum == capped_usize(sum_over(m.slots.take(i as int), count)),
        {
            let removed = self.gc_slot(i, grace, now);
            proof {
                assert(self@.slots =~= collected_upto(m, now, grace, i + 1));
                assert(m.slots.take(i + 1).drop_last() =~= m.slots.take(i as int));
                assert(m.slots.take(i + 1).last() == m.slots[i as int]);
            }
            sum = if removed <= usize::MAX - sum {
                sum + removed
            } else {
                usize::MAX
            };
        }
        proof {
            assert(m.slots.take(n as int) =~= m.slots);
            assert(self@.slots =~= after_collecting(m, now, grace).slots);
        }
        sum
    }

    fn gc_slot(&mut self, i: usize, grace: u128, now: u128) -> (r: usize)
        requires
            old(self).wf(),
            i < old(self)@.slots.len(),
        ensures
            final(self).wf(),
            final(self)@ == (MapView {
                slots: old(self)@.slots.update(
                    i as int,
                    after_gc(old(self)@.slots[i as int], now, grace),
                ),
                ..old(self)@
            }),
            final(self).slots@.len() == old(self).slots@.len(),
            final(self).last_reading() == old(self).last_reading(),
            r == dead_keys(old(self)@.slots[i as int], now, grace).len(),
    {
        let ghost before = *self;
        proof {
            assert(self@.slots[i as int] == self.slots@[i as int]@);
            lemma_dead_keys_finite(self.slots@[i as int], now, grace);
        }
        let removed = self.slots[i].gc_tombstones(grace, now);
        proof {
            let e = before.slots@[i as int]@;
            lemma_gc_counted(e, now, grace);
            lemma_behind_clock(
                e,
                Seq::empty(),
                None,
                Seq::empty(),
                before.clock@,
                before.replica_id,
                now,
                grace,
            );
            lemma_slot_change_keeps_wf(before, *self, i as int);
        }
        removed
    }

    /// Forget the tombstones that have outlived `grace`, in nanoseconds.
    pub fn gc_tombstones_with_grace(&mut self, grace: u128) -> (r: usize)
        requires
            old(self).wf(),
        ensures
            final(self).wf(),
            final(self).last_reading() >= old(self).last_reading(),
            final(self)@ == after_collecting(old(self)@, final(self).last_reading(), grace),
            r == capped_usize(
                sum_over(
                    old(self)@.slots,
                    |e: EngineView| dead_keys(e, final(self).last_reading(), grace).len(),
                ),
            ),
    {
        let now = self.watch.advance();
        self.gc_tombstones_at(grace, now)
    }

    /// Forget the tombstones that have outlived the default grace period.
    pub fn gc_tombstones(&mut self) -> (r: usize)
        requires
            old(self).wf(),
        ensures
            final(self).wf(),
            final(self).last_reading() >= old(self).last_reading(),
            final(self)@ == after_collecting(
                old(self)@,
                final(self).last_reading(),
                DEFAULT_TOMBSTONE_GRACE,
            ),
            r == capped_usize(
                sum_over(
                    old(self)@.slots,
                    |e: EngineView|
                        dead_keys(e, final(self).last_reading(), DEFAULT_TOMBSTONE_GRACE).len(),
                ),
            ),
    {
        self.gc_tombstones_with_grace(DEFAULT_TOMBSTONE_GRACE)
    }
}

proof fn lemma_dead_keys_finite(e: Engine, now: u128, grace: u128)
    requires
        e.wf(),
    ensures
        dead_keys(e@, now, grace).finite(),
{
    match e {
        Engine::Lww(l) => {
            l.lemma_wf();
        },
        Engine::RateLimit(l) => {
            l.lemma_wf();
        },
    }
}

// ---- Walking over all keys ----

/// Key lists one after another.
pub open spec fn chained(parts: Seq<Seq<Seq<char>>>) -> Seq<Seq<char>>
    decreases parts.len(),
{
    if parts.len() == 0 {
        Seq::empty()
    } else {
        chained(parts.drop_last()) + parts.last()
    }
}

/// `parts` list the live keys of each engine, each key once.
pub open spec fn lists_live_keys(parts: Seq<Seq<Seq<char>>>, slots: Seq<EngineView>) -> bool {
    &&& parts.len() == slots.len()
    &&& forall|i: int|
        0 <= i < parts.len() ==> (#[trigger] parts[i]).no_duplicates() && parts[i].to_set()
            == live_keys(slots[i])
}

/// The value of `key` in the last engine where it is live.
pub open spec fn last_value(slots: Seq<EngineView>, key: Seq<char>) -> Option<Seq<u8>>
    decreases slots.len(),
{
    if slots.len() == 0 {
        None
    } else {
        match live_value(slots.last(), key) {
            Some(value) => Some(value),
            None => last_value(slots.drop_last(), key),
        }
    }
}

/// The keys of pairs.
pub open spec fn pair_keys(pairs: Seq<(String, Vec<u8>)>) -> Seq<Seq<char>> {
    pairs.map_values(|p: (String, Vec<u8>)| p.0@)
}

/// `pairs` hold the keys that `values` gives a value, in ascending order, each
/// with its value.
pub open spec fn tabulates(
    pairs: Seq<(String, Vec<u8>)>,
    values: spec_fn(Seq<char>) -> Option<Seq<u8>>,
) -> bool {
    &&& keys_ascend(pair_keys(pairs))
    &&& forall|i: int|
        0 <= i < pairs.len() ==> values((#[trigger] pairs[i]).0@) == Some(pairs[i].1@)
    &&& forall|k: Seq<char>|
        #![trigger values(k)]
        values(k) is Some ==> exists|i: int| 0 <= i < pairs.len() && (#[trigger] pairs[i]).0@ == k
}

/// `values` with another value for `key`.
pub open spec fn with_value(
    values: spec_fn(Seq<char>) -> Option<Seq<u8>>,
    key: Seq<char>,
    value: Seq<u8>,
) -> spec_fn(Seq<char>) -> Option<Seq<u8>> {
    |k: Seq<char>|
        if k == key {
            Some(value)
        } else {
            values(k)
        }
}

/// Store a value under `key`, the keys staying in order.
fn put_sorted(
    pairs: &mut Vec<(String, Vec<u8>)>,
    key: String,
    value: Vec<u8>,
    Ghost(values): Ghost<spec_fn(Seq<char>) -> Option<Seq<u8>>>,
)
    requires
        tabulates(old(pairs)@, values),
    ensures
        tabulates(final(pairs)@, with_value(values, key@, value@)),
{
    let ghost before = pairs@;
    let ghost name = key@;
    let ghost payload = value@;
    let ghost next = with_value(values, name, payload);
    let mut i: usize = pairs.len();
    while i > 0 && str_less(key.as_str(), pairs[i - 1].0.as_str())
        invariant
            i <= pairs@.len(),
            pairs@ == before,
            name == key@,
            forall|j: int| i <= j < before.len() ==> str_before(name, (#[trigger] before[j]).0@),
        decreases i,
    {
        i = i - 1;
    }
    proof {
        assert forall|a: int, b: int| 0 <= a < b < before.len() implies str_before(
            before[a].0@,
            before[b].0@,
        ) by {
            assert(pair_keys(before)[a] == before[a].0@);
            assert(pair_keys(before)[b] == before[b].0@);
        }
        if i > 0 {
            lemma_str_before_total_order(before[i - 1].0@, name, name);
        }
        assert forall|a: int| 0 <= a < i - 1 implies str_before(before[a].0@, name)
            && before[a].0@ != name by {
            lemma_str_before_total_order(before[a].0@, before[i - 1].0@, name);
            lemma_str_before_total_order(before[a].0@, name, name);
        }
        assert forall|b: int| i <= b < before.len() implies before[b].0@ != name by {
            lemma_str_before_total_order(name, before[b].0@, name);
        }
    }
    if i > 0 && str_eq(pairs[i - 1].0.as_str(), key.as_str()) {
        pairs.set(i - 1, (key, value));
        proof {
            assert forall|j: int| 0 <= j < pairs@.len() implies next((#[trigger] pairs@[j]).0@)
                == Some(pairs@[j].1@) by {
                if j != i - 1 {
                    assert(pairs@[j] == before[j]);
                }
            }
            assert forall|k: Seq<char>| #![trigger next(k)] next(k) is Some implies exists|j: int|
                0 <= j < pairs@.len() && (#[trigger] pairs@[j]).0@ == k by {
                if k == name {
                    assert(pairs@[i - 1].0@ == k);
                } else {
                    assert(values(k) is Some);
                    let j = choose|j: int| 0 <= j < before.len() && (#[trigger] before[j]).0@ == k;
                    assert(pairs@[j].0@ == k);
                }
            }
            assert(pair_keys(pairs@) =~= pair_keys(before));
        }
    } else {
        pairs.insert(i, (key, value));
        proof {
            let after = pairs@;
            assert(after =~= before.insert(i as int, (key, value)));
            assert forall|a: int, b: int| 0 <= a < b < after.len() implies str_before(
                pair_keys(after)[a],
                pair_keys(after)[b],
            ) by {
                let x = if a < i {
                    a
                } else {
                    a - 1
                };
                let y = if b < i {
                    b
                } else {
                    b - 1
                };
                if a != i {
                    assert(after[a] == before[x]);
                }
                if b != i {
                    assert(after[b] == before[y]);
                }
            }
            assert forall|j: int| 0 <= j < after.len() implies next((#[trigger] after[j]).0@)
                == Some(after[j].1@) by {
                if j < i {
                    assert(after[j] == before[j]);
                } else if j > i {
                    assert(after[j] == before[j - 1]);
                }
            }
            assert forall|k: Seq<char>| #![trigger next(k)] next(k) is Some implies exists|j: int|
                0 <= j < after.len() && (#[trigger] after[j]).0@ == k by {
                if k == name {
                    assert(after[i as int].0@ == k);
                } else {
                    assert(values(k) is Some);
                    let j = choose|j: int| 0 <= j < before.len() && (#[trigger] before[j]).0@ == k;
                    if j < i {
                        assert(after[j].0@ == k);
                    } else {
                        assert(after[j + 1].0@ == k);
                    }
                }
            }
        }
    }
}

impl CrdtOrMap {
    /// The live keys of every engine in turn. An engine's keys come in no
    /// particular order.
    pub fn keys(&self) -> (r: Vec<String>)
        requires
            self.wf(),
        ensures
            exists|parts: Seq<Seq<Seq<char>>>| #[trigger]
                lists_live_keys(parts, self@.slots) && texts(r@) == chained(parts),
    {
        let mut all: Vec<String> = Vec::new();
        let ghost mut parts: Seq<Seq<Seq<char>>> = Seq::empty();
        let n = self.slots.len();
        proof {
            assert(texts(all@) =~= chained(parts));
        }
        for i in 0..n
            invariant
                n == self.slots@.len(),
                self.inner_wf(),
                lists_live_keys(parts, self@.slots.take(i as int)),
                texts(all@) == chained(parts),
        {
            let mut keys = self.slots[i].keys();
            let ghost part = texts(keys@);
            let ghost before = all@;
            let ghost more = keys@;
            all.append(&mut keys);
            proof {
                let longer = parts.push(part);
                assert(texts(all@) =~= texts(before) + texts(more));
                assert(longer.drop_last() =~= parts);
                assert(longer.last() == part);
                assert(self@.slots.take(i + 1)[i as int] == self.slots@[i as int]@);
                assert forall|j: int| 0 <= j < longer.len() implies (
                #[trigger] longer[j]).no_duplicates() && longer[j].to_set() == live_keys(
                    self@.slots.take(i + 1)[j],
                ) by {
                    if j < i {
                        assert(longer[j] == parts[j]);
                        assert(self@.slots.take(i + 1)[j] == self@.slots.take(i as int)[j]);
                    }
                }
                parts = longer;
            }
        }
        assert(self@.slots.take(n as int) =~= self@.slots);
        all
    }

    /// All live keys with their values, in ascending order of key. Where a key is
    /// live in several engines, the last of them has the say.
    pub fn all(&self) -> (r: Vec<(String, Vec<u8>)>)
        requires
            self.wf(),
        ensures
            tabulates(r@, |k: Seq<char>| last_value(self@.slots, k)),
    {
        let mut all: Vec<(String, Vec<u8>)> = Vec::new();
        let n = self.slots.len();
        let ghost mut values: spec_fn(Seq<char>) -> Option<Seq<u8>> = |k: Seq<char>| None;
        proof {
            assert(pair_keys(all@).len() == 0);
            assert(tabulates(all@, values));
        }
        for i in 0..n
            invariant
                n == self.slots@.len(),
                self.inner_wf(),
                tabulates(all@, values),
                forall|k: Seq<char>| #[trigger]
                    values(k) == last_value(self@.slots.take(i as int), k),
        {
            let ghost e = self.slots@[i as int]@;
            let ghost old_values = values;
            let keys = self.slots[i].keys();
            let ghost names = texts(keys@);
            let m = keys.len();
            for j in 0..m
                invariant
                    m == keys@.len(),
                    names == texts(keys@),
                    names.to_set() == live_keys(e),
                    i < n,
                    n == self.slots@.len(),
                    e == self.slots@[i as int]@,
                    self.inner_wf(),
                    tabulates(all@, values),
                    forall|k: Seq<char>| #[trigger]
                        values(k) == (if names.take(j as int).contains(k) {
                            live_value(e, k)
                        } else {
                            old_values(k)
                        }),
            {
                let key = &keys[j];
                let ghost seen = names.take(j as int);
                let ghost next = names.take(j + 1);
                let ghost before = values;
                proof {
                    assert(names[j as int] == key@);
                    assert(names.to_set().contains(key@));
                    assert(next =~= seen.push(key@));
                    assert forall|k: Seq<char>| next.contains(k) <==> seen.contains(k) || k
                        == key@ by {
                        if seen.contains(k) {
                            let a = choose|a: int| 0 <= a < seen.len() && seen[a] == k;
                            assert(next[a] == k);
                        }
                        assert(next[j as int] == key@);
                    }
                    lemma_live_keys(self.slots@[i as int], key@);
                }
                if let Some(value) = self.slots[i].get(key.as_str()) {
                    let ghost payload = value@;
                    put_sorted(&mut all, key.clone(), value, Ghost(values));
                    proof {
                        values = with_value(before, key@, payload);
                    }
                }
            }
            proof {
                assert(names.take(m as int) =~= names);
                assert(self@.slots.take(i + 1).drop_last() =~= self@.slots.take(i as int));
                assert(self@.slots.take(i + 1).last() == e);
                assert forall|k: Seq<char>| #[trigger] values(k) == last_value(
                    self@.slots.take(i + 1),
                    k,
                ) by {
                    assert(names.contains(k) <==> names.to_set().contains(k));
                    lemma_live_keys(self.slots@[i as int], k);
                    assert(old_values(k) == last_value(self@.slots.take(i as int), k));
                }
            }
        }
        proof {
            assert(self@.slots.take(n as int) =~= self@.slots);
            let f = |k: Seq<char>| last_value(self@.slots, k);
            assert forall|k: Seq<char>| #[trigger] values(k) == f(k) by {}
            assert(values =~= f);
        }
        all
    }
}

proof fn lemma_live_keys(e: Engine, key: Seq<char>)
    requires
        e.wf(),
    ensures
        live_keys(e@).contains(key) <==> live_value(e@, key) is Some,
{
}

// ---- Merging ----

/// The engines after the first `n` of them merged their share of a log.
pub open spec fn merged_upto(m: MapView, log: Seq<OpView>, now: u128, n: int) -> Seq<EngineView> {
    Seq::new(
        m.slots.len(),
        |j: int|
            if j < n {
                after_merge(m.slots[j], bucket(m.prefixes, log, j), now)
            } else {
                m.slots[j]
            },
    )
}

/// A merge leaves keys alone that no operation speaks of.
pub proof fn lemma_after_merge_frame(e: EngineView, ops: Seq<OpView>, now: u128, key: Seq<char>)
    requires
        !mentions(ops, key),
    ensures
        live_value(after_merge(e, ops, now), key) == live_value(e, key),
{
    let applied = applied_ops(e, ops);
    assert(!mentions(applied, key)) by {
        if mentions(applied, key) {
            let i = choose|i: int| 0 <= i < applied.len() && #[trigger] applied[i].key == key;
            assert(applied.contains(applied[i]));
            match e.core {
                Core::Lww(_) => {
                    lemma_sort_ops(unseen(ops, e.log));
                    lemma_filter_members(
                        ops,
                        |op: OpView| !super::engine::lww::seen_in(e.log, op.version),
                        applied[i],
                    );
                },
                Core::RateLimit(_) => {
                    lemma_sort_ops(ops);
                },
            }
            let j = choose|j: int| 0 <= j < ops.len() && ops[j] == applied[i];
            assert(ops[j].key == key);
        }
    }
    match e.core {
        Core::Lww(s) => lemma_apply_all_frame(s, applied, now, key),
        Core::RateLimit(s) => lemma_rl_frame(s, applied, now, key),
    }
}

/// `changes` name exactly the keys whose live value differs between two states
/// of an engine.
pub open spec fn engine_reports(
    changes: Seq<ChangeView>,
    before: EngineView,
    after: EngineView,
) -> bool {
    reports(
        changes,
        |k: Seq<char>| live_value(before, k),
        |k: Seq<char>| live_value(after, k),
    )
}

/// `changes` name exactly the keys of the first `n` slots whose value differs.
#[verifier::opaque]
pub open spec fn reports_upto(
    changes: Seq<ChangeView>,
    before: MapView,
    after: MapView,
    n: int,
) -> bool {
    &&& forall|i: int, j: int|
        0 <= i < j < changes.len() ==> #[trigger] changes[i].key != #[trigger] changes[j].key
    &&& forall|i: int|
        0 <= i < changes.len() ==> {
            &&& route(before.prefixes, (#[trigger] changes[i]).key) < n
            &&& changes[i].value == value_of(after, changes[i].key)
            &&& value_of(before, changes[i].key) != value_of(after, changes[i].key)
        }
    &&& forall|k: Seq<char>|
        #![trigger value_of(before, k)]
        route(before.prefixes, k) < n && value_of(before, k) != value_of(after, k)
            ==> exists|i: int| 0 <= i < changes.len() && (#[trigger] changes[i]).key == k
}

proof fn lemma_merged_next(m: MapView, log: Seq<OpView>, now: u128, n: int)
    requires
        0 <= n < m.slots.len(),
    ensures
        merged_upto(m, log, now, n).update(
            n,
            after_merge(m.slots[n], bucket(m.prefixes, log, n), now),
        ) == merged_upto(m, log, now, n + 1),
{
    assert(merged_upto(m, log, now, n).update(
        n,
        after_merge(m.slots[n], bucket(m.prefixes, log, n), now),
    ) =~= merged_upto(m, log, now, n + 1));
}

proof fn lemma_reports_next(
    done: Seq<ChangeView>,
    part: Seq<ChangeView>,
    m: MapView,
    log: Seq<OpView>,
    now: u128,
    n: int,
)
    requires
        0 <= n < m.slots.len(),
        reports_upto(done, m, after_merging(m, log, now), n),
        engine_reports(
            part,
            m.slots[n],
            after_merge(m.slots[n], bucket(m.prefixes, log, n), now),
        ),
    ensures
        reports_upto(done + part, m, after_merging(m, log, now), n + 1),
{
    reveal(reports_upto);
    let after = after_merging(m, log, now);
    let all = done + part;
    let ops = bucket(m.prefixes, log, n);
    let p = |op: OpView| route(m.prefixes, op.key) == n;
    let b = |k: Seq<char>| live_value(m.slots[n], k);
    let a = |k: Seq<char>| live_value(after_merge(m.slots[n], ops, now), k);
    assert forall|i: int| 0 <= i < part.len() implies route(m.prefixes, (#[trigger] part[i]).key)
        == n by {
        let k = part[i].key;
        assert(b(k) != a(k));
        if !mentions(ops, k) {
            lemma_after_merge_frame(m.slots[n], ops, now, k);
        }
        let j = choose|j: int| 0 <= j < ops.len() && #[trigger] ops[j].key == k;
        assert(ops.contains(ops[j]));
        lemma_filter_members(log, p, ops[j]);
        assert(p(ops[j]));
    }
    assert(after.slots[n] == after_merge(m.slots[n], ops, now));
    assert forall|i: int| 0 <= i < all.len() implies {
        &&& route(m.prefixes, (#[trigger] all[i]).key) < n + 1
        &&& all[i].value == value_of(after, all[i].key)
        &&& value_of(m, all[i].key) != value_of(after, all[i].key)
    } by {
        if i < done.len() {
            assert(all[i] == done[i]);
        } else {
            let c = part[i - done.len()];
            assert(all[i] == c);
            assert(route(m.prefixes, c.key) == n);
            assert(b(c.key) != a(c.key));
        }
    }
    assert forall|i: int, j: int| 0 <= i < j < all.len() implies #[trigger] all[i].key
        != #[trigger] all[j].key by {
        if j < done.len() {
            assert(all[i] == done[i] && all[j] == done[j]);
        } else if i >= done.len() {
            assert(all[i] == part[i - done.len()] && all[j] == part[j - done.len()]);
        } else {
            assert(all[i] == done[i] && all[j] == part[j - done.len()]);
        }
    }
    assert forall|k: Seq<char>|
        #![trigger value_of(m, k)]
        route(m.prefixes, k) < n + 1 && value_of(m, k) != value_of(after, k) implies exists|i: int|
        0 <= i < all.len() && (#[trigger] all[i]).key == k by {
        if route(m.prefixes, k) < n {
            let i = choose|i: int| 0 <= i < done.len() && (#[trigger] done[i]).key == k;
            assert(all[i].key == k);
        } else {
            assert(b(k) != a(k));
            let i = choose|i: int| 0 <= i < part.len() && (#[trigger] part[i]).key == k;
            assert(all[i + done.len()].key == k);
        }
    }
}

impl CrdtOrMap {
    /// The operations of a log by the engine that they go to.
    fn split_log(&self, log: &OperationLog) -> (r: Vec<Vec<Operation>>)
        requires
            self.wf(),
        ensures
            r@.len() == self@.slots.len(),
            forall|i: int|
                0 <= i < r@.len() ==> ops_view((#[trigger] r@[i])@) == bucket(
                    self@.prefixes,
                    log@,
                    i,
                ),
    {
        let mut buckets: Vec<Vec<Operation>> = Vec::new();
        let n = self.slots.len();
        for i in 0..n
            invariant
                buckets@.len() == i,
                forall|j: int| 0 <= j < buckets@.len() ==> (#[trigger] buckets@[j])@.len() == 0,
        {
            let empty: Vec<Operation> = Vec::new();
            buckets.push(empty);
        }
        let ops = log.operations();
        let ghost views = log@;
        let m = ops.len();
        let ghost ps = self@.prefixes;
        proof {
            assert forall|j: int| 0 <= j < buckets@.len() implies ops_view((#[trigger] buckets@[j])@)
                == bucket(ps, views.take(0), j) by {
                reveal(Seq::filter);
                assert(ops_view(buckets@[j]@) =~= Seq::<OpView>::empty());
            }
        }
        for i in 0..m
            invariant
                m == ops@.len(),
                views == ops_view(ops@),
                ps == self@.prefixes,
                n == self.slots@.len(),
                self.wf(),
                buckets@.len() == n,
                forall|j: int|
                    0 <= j < n ==> ops_view((#[trigger] buckets@[j])@) == bucket(
                        ps,
                        views.take(i as int),
                        j,
                    ),
        {
            let ghost before = buckets@;
            let at = self.slot_for_key(ops[i].key());
            let op = ops[i].clone();
            let ghost stamp = op@;
            let mut share = buckets.remove(at);
            let ghost old_share = share@;
            share.push(op);
            buckets.insert(at, share);
            proof {
                assert(buckets@ =~= before.update(at as int, share));
                assert(views.take(i + 1).drop_last() =~= views.take(i as int));
                assert(views.take(i + 1).last() == stamp);
                assert forall|j: int| 0 <= j < n implies ops_view((#[trigger] buckets@[j])@)
                    == bucket(ps, views.take(i + 1), j) by {
                    reveal(Seq::filter);
                    assert(ops_view(before[j]@) == bucket(ps, views.take(i as int), j));
                    if j == at {
                        assert(ops_view(share@) =~= ops_view(old_share).push(stamp));
                    }
                }
            }
        }
        assert(views.take(m as int) =~= views);
        buckets
    }

    fn merge_slot(&mut self, i: usize, ops: Vec<Operation>, now: u128) -> (r: Vec<CrdtChange>)
        requires
            old(self).wf(),
            i < old(self)@.slots.len(),
        ensures
            final(self).wf(),
            final(self)@ == (MapView {
                slots: old(self)@.slots.update(
                    i as int,
                    after_merge(old(self)@.slots[i as int], ops_view(ops@), now),
                ),
                clock: observed_all(
                    old(self)@.clock,
                    applied_ops(old(self)@.slots[i as int], ops_view(ops@)),
                ),
                ..old(self)@
            }),
            final(self).last_reading() == old(self).last_reading(),
            engine_reports(
                changes_view(r@),
                old(self)@.slots[i as int],
                after_merge(old(self)@.slots[i as int], ops_view(ops@), now),
            ),
    {
        let ghost before = *self;
        let ghost views = ops_view(ops@);
        assert(self@.slots[i as int] == self.slots@[i as int]@);
        let r = self.slots[i].apply_remote_ops(ops, now, &mut self.clock);
        proof {
            let e = before.slots@[i as int]@;
            let none = OpView {
                key: Seq::empty(),
                value: None,
                version: next_stamp(before@),
            };
            law_log_changes_are_counted(e, none, views, now, 0);
            lemma_behind_clock(
                e,
                Seq::empty(),
                None,
                views,
                before.clock@,
                before.replica_id,
                now,
                0,
            );
            super::engine::lemma_observed_all(before.clock@, applied_ops(e, views));
            lemma_slot_change_keeps_wf(before, *self, i as int);
            let b = |k: Seq<char>| live_value(e, k);
            let a = |k: Seq<char>| live_value(self.slots@[i as int]@, k);
            assert(reports(changes_view(r@), b, a));
            assert(b =~= |k: Seq<char>| live_value(before@.slots[i as int], k));
            assert(a =~= |k: Seq<char>| live_value(after_merge(e, views, now), k));
        }
        r
    }

    /// Merge a log from another replica at time `now`. Returns the keys whose
    /// value changed.
    pub fn merge_at(&mut self, log: &OperationLog, now: u128) -> (r: Vec<CrdtChange>)
        requires
            old(self).wf(),
        ensures
            final(self).wf(),
            final(self)@ == after_merging(old(self)@, log@, now),
            final(self).last_reading() == old(self).last_reading(),
            reports(
                changes_view(r@),
                |k: Seq<char>| value_of(old(self)@, k),
                |k: Seq<char>| value_of(final(self)@, k),
            ),
    {
        let ghost m = self@;
        let ghost reading = self.last_reading();
        let ghost after = after_merging(m, log@, now);
        let buckets = self.split_log(log);
        let ghost shares = buckets@;
        let n = buckets.len();
        let mut changes: Vec<CrdtChange> = Vec::new();
        let mut i: usize = 0;
        proof {
            assert(changes_view(changes@).len() == 0);
            assert(self@.slots =~= merged_upto(m, log@, now, 0));
            assert(reports_upto(changes_view(changes@), m, after, 0)) by {
                reveal(reports_upto);
                assert forall|k: Seq<char>|
                    #![trigger value_of(m, k)]
                    route(m.prefixes, k) < 0 implies false by {
                    lemma_route(m.prefixes, k);
                }
            }
        }
        for ops in it: buckets.into_iter()
            invariant
                it.seq() == shares,
                i == it.index(),
                n == shares.len(),
                shares.len() == m.slots.len(),
                forall|j: int|
                    0 <= j < shares.len() ==> ops_view((#[trigger] shares[j])@) == bucket(
                        m.prefixes,
                        log@,
                        j,
                    ),
                self.wf(),
                after == after_merging(m, log@, now),
                self@.slots == merged_upto(m, log@, now, i as int),
                self.last_reading() == reading,
                self@.prefixes == m.prefixes,
                self@.replica == m.replica,
                self@.clock == merged_clock(m, log@, i as nat),
                reports_upto(changes_view(changes@), m, after, i as int),
        {
            proof {
                assert(ops == shares[i as int]);
                assert(self@.slots[i as int] == m.slots[i as int]);
            }
            let ghost views = ops_view(ops@);
            let ghost done = changes@;
            let mut part = self.merge_slot(i, ops, now);
            let ghost more = part@;
            changes.append(&mut part);
            proof {
                assert(changes_view(changes@) =~= changes_view(done) + changes_view(more));
                lemma_reports_next(
                    changes_view(done),
                    changes_view(more),
                    m,
                    log@,
                    now,
                    i as int,
                );
                lemma_merged_next(m, log@, now, i as int);
            }
            i = i + 1;
        }
        proof {
            assert(self@.slots =~= after.slots);
            let b = |k: Seq<char>| value_of(m, k);
            let a = |k: Seq<char>| value_of(after, k);
            let view = changes_view(changes@);
            self.lemma_wf();
            reveal(reports_upto);
            assert forall|k: Seq<char>| #![trigger b(k)] b(k) != a(k) implies exists|i: int|
                0 <= i < view.len() && (#[trigger] view[i]).key == k by {
                lemma_route(m.prefixes, k);
                assert(value_of(m, k) != value_of(after, k));
            }
            assert(reports(view, b, a));
        }
        changes
    }

    /// Merge a log from another replica. Returns the keys whose value changed.
    pub fn merge(&mut self, log: &OperationLog) -> (r: Vec<CrdtChange>)
        requires
            old(self).wf(),
        ensures
            final(self).wf(),
            final(self).last_reading() >= old(self).last_reading(),
            final(self)@ == after_merging(old(self)@, log@, final(self).last_reading()),
            reports(
                changes_view(r@),
                |k: Seq<char>| value_of(old(self)@, k),
                |k: Seq<char>| value_of(final(self)@, k),
            ),
    {
        let now = self.watch.advance();
        self.merge_at(log, now)
    }

    /// Merge everything that another replica knows.
    pub fn merge_replica(&mut self, other: &CrdtOrMap)
        requires
            old(self).wf(),
            other.wf(),
        ensures
            final(self).wf(),
            final(self).last_reading() >= old(self).last_reading(),
            final(self)@ == after_merging(
                old(self)@,
                joined_log(other@.slots),
                final(self).last_reading(),
            ),
    {
        let log = other.get_operation_log();
        let _ = self.merge(&log);
    }
}

impl Default for CrdtOrMap {
    fn default() -> (r: Self)
        ensures
            r.wf(),
            r@.prefixes == Seq::<Seq<char>>::empty(),
            r@.slots == seq![fresh_engine(MergeStrategy::LastWriterWins)],
            r@.clock == 0,
            r.last_reading() == 0,
    {
        Self::new()
    }
}

} // verus!
