//! How changes are counted and dated.
use super::crdt::{after_merging, bucket, last_value, merged_clock, MapView};
use super::engine::any::{
    after_gc, after_local, after_merge, applied_ops, dead_keys, generation_of, live_value, Core,
    EngineView,
};
use super::engine::lww::{apply_all, apply_op, collectable, LwwState};
use super::engine::rate_limit::{is_dead, rl_apply, rl_apply_all, rl_collectable, RlState};
use super::engine::lemma_observed_all;
use super::epoch_max_wins::{merged, op_says, LivePoint, RlView};
use super::operation::{lemma_filter_all, OpView};
use vstd::prelude::*;

verus! {

// ---- Counting ----

proof fn lemma_lww_counted(s: LwwState, ops: Seq<OpView>, now: u128)
    ensures
        s.generation <= apply_all(s, ops, now).generation,
        apply_all(s, ops, now).generation <= s.generation + ops.len(),
        s.generation < u64::MAX && apply_all(s, ops, now).generation == s.generation ==> apply_all(
            s,
            ops,
            now,
        ).live == s.live,
    decreases ops.len(),
{
    if ops.len() > 0 {
        lemma_lww_counted(s, ops.drop_last(), now);
        let mid = apply_all(s, ops.drop_last(), now);
        let op = ops.last();
        let t = apply_op(mid, op, now);
        if t.generation == mid.generation && mid.generation < u64::MAX {
            assert(t.live =~= mid.live);
        }
    }
}

proof fn lemma_rl_counted(s: RlState, ops: Seq<OpView>, now: u128)
    ensures
        s.generation <= rl_apply_all(s, ops, now).generation,
        rl_apply_all(s, ops, now).generation <= s.generation + ops.len(),
        s.generation < u64::MAX && rl_apply_all(s, ops, now).generation == s.generation
            ==> rl_apply_all(s, ops, now) == s,
    decreases ops.len(),
{
    if ops.len() > 0 {
        lemma_rl_counted(s, ops.drop_last(), now);
    }
}

/// A merge that changes what is read of some key is counted, and the count goes up by
/// no more than the number of operations.
pub proof fn law_merges_that_change_values_are_counted(
    e: EngineView,
    ops: Seq<OpView>,
    now: u128,
    key: Seq<char>,
)
    ensures
        generation_of(e) <= generation_of(after_merge(e, ops, now)),
        generation_of(after_merge(e, ops, now)) <= generation_of(e) + applied_ops(e, ops).len(),
        generation_of(e) < u64::MAX && live_value(after_merge(e, ops, now), key) != live_value(
            e,
            key,
        ) ==> generation_of(after_merge(e, ops, now)) > generation_of(e),
{
    let applied = applied_ops(e, ops);
    match e.core {
        Core::Lww(s) => {
            lemma_lww_counted(s, applied, now);
        },
        Core::RateLimit(s) => {
            lemma_rl_counted(s, applied, now);
        },
    }
}

/// A local operation that changes what is read of some key is counted once.
pub proof fn law_writes_that_change_values_are_counted(
    e: EngineView,
    op: OpView,
    now: u128,
    key: Seq<char>,
)
    requires
        generation_of(e) < u64::MAX,
    ensures
        generation_of(e) <= generation_of(after_local(e, op, now)) <= generation_of(e) + 1,
        live_value(after_local(e, op, now), key) != live_value(e, key) ==> generation_of(
            after_local(e, op, now),
        ) == generation_of(e) + 1,
{
    match e.core {
        Core::Lww(s) => {
            let t = apply_op(s, op, now);
            if t.generation == s.generation {
                assert(t.live =~= s.live);
            }
        },
        Core::RateLimit(s) => {},
    }
}

/// A change of the log is counted once, and where nothing is counted the log is the
/// same.
pub proof fn law_changes_of_the_log_are_counted(
    e: EngineView,
    op: OpView,
    ops: Seq<OpView>,
    now: u128,
    grace: u128,
)
    requires
        e.log_changes < u64::MAX,
        e.core matches Core::Lww(s) ==> s.meta.dom().finite(),
        e.core matches Core::RateLimit(s) ==> s.entries.dom().finite(),
    ensures
        after_local(e, op, now).log_changes == e.log_changes + 1 || after_local(e, op, now) == e,
        after_merge(e, ops, now).log_changes == e.log_changes + 1 || after_merge(e, ops, now) == e,
        after_gc(e, now, grace).log_changes == e.log_changes + 1 || after_gc(e, now, grace).log
            == e.log && after_gc(e, now, grace).log_changes == e.log_changes,
{
    let gone = dead_keys(e, now, grace);
    if gone.len() == 0 {
        match e.core {
            Core::Lww(s) => {
                assert(gone.subset_of(s.meta.dom()));
                vstd::set_lib::lemma_set_subset_finite(s.meta.dom(), gone);
                assert forall|k: Seq<char>| !#[trigger] collectable(s, k, now, grace) by {
                    if collectable(s, k, now, grace) {
                        assert(gone.contains(k));
                        vstd::set_lib::lemma_set_empty_equivalency_len(gone);
                    }
                }
                lemma_filter_all(
                    e.log,
                    |o: OpView|
                        !collectable(s, o.key, now, grace) || s.meta[o.key].version.before(
                            o.version,
                        ),
                );
            },
            Core::RateLimit(s) => {
                assert(gone.subset_of(s.entries.dom()));
                vstd::set_lib::lemma_set_subset_finite(s.entries.dom(), gone);
                assert forall|k: Seq<char>| !#[trigger] rl_collectable(s, k, now, grace) by {
                    if rl_collectable(s, k, now, grace) {
                        assert(gone.contains(k));
                        vstd::set_lib::lemma_set_empty_equivalency_len(gone);
                    }
                }
                lemma_filter_all(
                    e.log,
                    |o: OpView|
                        !rl_collectable(s, o.key, now, grace)
                            || s.entries[o.key].known.tombstone.unwrap().before(o.version),
                );
            },
        }
    }
}

// ---- Dating ----

/// The grace of a rate-limit tombstone runs from when the last point went or the
/// tombstone moved on. An entry with points has no tombstone to date, and an operation
/// that brings nothing new leaves the date alone.
pub proof fn law_tombstones_are_dated(s: RlState, op: OpView, now: u128)
    requires
        s.entries.contains_key(op.key) ==> (s.entries[op.key].tombstoned_at is Some
            <==> s.entries[op.key].known.points.is_empty()),
        s.entries.contains_key(op.key) && s.entries[op.key].known.points.is_empty()
            ==> s.entries[op.key].known.tombstone is Some,
        op_says(op) matches Some(more) ==> s.entries.contains_key(op.key) ==> (merged(
            s.entries[op.key].known,
            more,
        ).points.is_empty() ==> merged(s.entries[op.key].known, more).tombstone is Some),
    ensures
        ({
            let t = rl_apply(s, op, now);
            let before = s.entries[op.key];
            let after = t.entries[op.key];
            t.entries.contains_key(op.key) ==> {
                &&& !after.known.points.is_empty() ==> after.tombstoned_at is None
                &&& after.known.points.is_empty() && !s.entries.contains_key(op.key)
                    ==> after.tombstoned_at == Some(now)
                &&& after.known.points.is_empty() && s.entries.contains_key(op.key)
                    && !before.known.points.is_empty() ==> after.tombstoned_at == Some(now)
                &&& after.known.points.is_empty() && s.entries.contains_key(op.key)
                    && before.known.points.is_empty() && after.known.tombstone != before.known.tombstone
                    ==> after.tombstoned_at == Some(now)
                &&& after.known.points.is_empty() && s.entries.contains_key(op.key)
                    && before.known.points.is_empty() && after.known.tombstone == before.known.tombstone
                    ==> after.tombstoned_at == before.tombstoned_at
            }
        }),
        forall|k: Seq<char>|
            k != op.key ==> {
                &&& (#[trigger] rl_apply(s, op, now).entries.contains_key(k)
                    <==> s.entries.contains_key(k))
                &&& s.entries.contains_key(k) ==> rl_apply(s, op, now).entries[k] == s.entries[k]
            },
{
    assert forall|v: RlView| #[trigger] is_dead(v) <==> v.points.is_empty() by {
        if v.points.is_empty() {
            assert(v.points =~= Set::<LivePoint>::empty());
        }
    }
    let t = rl_apply(s, op, now);
    assert(is_dead(t.entries[op.key].known) <==> t.entries[op.key].known.points.is_empty());
    assert(is_dead(s.entries[op.key].known) <==> s.entries[op.key].known.points.is_empty());
    if let Some(more) = op_says(op) {
        assert(is_dead(more) <==> more.points.is_empty());
        if s.entries.contains_key(op.key) {
            let m = merged(s.entries[op.key].known, more);
            assert(is_dead(m) <==> m.points.is_empty());
        }
    }
}

// ---- The clock of a map ----

proof fn lemma_merged_clock(m: MapView, log: Seq<OpView>, n: nat, i: int)
    requires
        0 <= i < n <= m.slots.len(),
    ensures
        merged_clock(m, log, n) >= m.clock,
        forall|j: int|
            0 <= j < applied_ops(m.slots[i], bucket(m.prefixes, log, i)).len() ==> merged_clock(
                m,
                log,
                n,
            ) >= (#[trigger] applied_ops(
                m.slots[i],
                bucket(m.prefixes, log, i),
            )[j]).version.timestamp,
    decreases n,
{
    let before = merged_clock(m, log, (n - 1) as nat);
    lemma_observed_all(before, applied_ops(m.slots[n - 1], bucket(m.prefixes, log, n - 1)));
    if i < n - 1 {
        lemma_merged_clock(m, log, (n - 1) as nat, i);
    } else {
        lemma_clock_forward(m, log, (n - 1) as nat);
    }
}

proof fn lemma_clock_forward(m: MapView, log: Seq<OpView>, n: nat)
    requires
        n <= m.slots.len(),
    ensures
        merged_clock(m, log, n) >= m.clock,
    decreases n,
{
    if n > 0 {
        lemma_clock_forward(m, log, (n - 1) as nat);
        lemma_observed_all(
            merged_clock(m, log, (n - 1) as nat),
            applied_ops(m.slots[n - 1], bucket(m.prefixes, log, n - 1)),
        );
    }
}

/// The clock of a map is not behind where it was, nor behind any operation that was
/// merged, so that the next local operation is newer than them all.
pub proof fn law_merged_clock_is_ahead(m: MapView, log: Seq<OpView>, now: u128, i: int)
    requires
        0 <= i < m.slots.len(),
    ensures
        after_merging(m, log, now).clock >= m.clock,
        forall|j: int|
            0 <= j < applied_ops(m.slots[i], bucket(m.prefixes, log, i)).len() ==> after_merging(
                m,
                log,
                now,
            ).clock >= (#[trigger] applied_ops(
                m.slots[i],
                bucket(m.prefixes, log, i),
            )[j]).version.timestamp,
{
    lemma_merged_clock(m, log, m.slots.len(), i);
}

/// Of engines that hold a key, the last one in which it is live says its value.
pub proof fn law_last_engine_says_the_value(slots: Seq<EngineView>, key: Seq<char>)
    ensures
        forall|i: int|
            #![trigger slots[i]]
            0 <= i < slots.len() && live_value(slots[i], key) is Some && (forall|j: int|
                i < j < slots.len() ==> live_value(#[trigger] slots[j], key) is None) ==> last_value(
                slots,
                key,
            ) == live_value(slots[i], key),
        (forall|j: int| 0 <= j < slots.len() ==> live_value(#[trigger] slots[j], key) is None)
            ==> last_value(slots, key) is None,
    decreases slots.len(),
{
    if slots.len() > 0 {
        let init = slots.drop_last();
        let n = slots.len() - 1;
        law_last_engine_says_the_value(init, key);
        assert(slots[n] == slots.last());
        assert forall|i: int|
            #![trigger slots[i]]
            0 <= i < slots.len() && live_value(slots[i], key) is Some && (forall|j: int|
                i < j < slots.len() ==> live_value(
                    #[trigger] slots[j],
                    key,
                ) is None) implies last_value(slots, key) == live_value(slots[i], key) by {
            if i < n {
                assert(live_value(slots[n], key) is None);
                assert(init[i] == slots[i]);
                assert forall|j: int| i < j < init.len() implies live_value(
                    #[trigger] init[j],
                    key,
                ) is None by {
                    assert(slots[j] == init[j]);
                }
            }
        }
        if forall|j: int| 0 <= j < slots.len() ==> live_value(#[trigger] slots[j], key) is None {
            assert forall|j: int| 0 <= j < init.len() implies live_value(
                #[trigger] init[j],
                key,
            ) is None by {
                assert(slots[j] == init[j]);
            }
        }
    }
}

} // verus!
