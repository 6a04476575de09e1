//! What the last-writer-wins engine guarantees of replicas that merge.
use super::super::kv_store::lookup;
use super::super::operation::{
    compacted, group_of, key_list, lemma_compacted_group, lemma_compacted_len, lemma_filter_members,
    lemma_group_members, lemma_key_list, lemma_newest, lemma_sort_ops, mentions, newest, sort_ops,
    keeps_key, AUTO_COMPACT_THRESHOLD, OpView,
};
use super::super::replica::{next_time, ReplicaId, Version};
use super::lww::{
    accepts, apply_all, apply_op, collectable, collectable_keys, consistent, covered,
    lemma_apply_all_monotone, lemma_apply_op_monotone, lww_model, purged, seen_in, unseen, LwwState,
    ValueMetadata,
};
use super::{appended, lemma_observed_all, observed_all, COMPACT_FLOOR};
use crate::text::lemma_str_before_total_order;
use vstd::prelude::*;

verus! {

/// Two inserts of one key and version carry the same value.
pub open spec fn unique_payloads(ops: Seq<OpView>) -> bool {
    forall|i: int, j: int|
        0 <= i < ops.len() && 0 <= j < ops.len() && (#[trigger] ops[i]).key == (
        #[trigger] ops[j]).key && ops[i].version == ops[j].version && ops[i].value is Some
            && ops[j].value is Some ==> ops[i] == ops[j]
}

/// Two operations of one key and version are the same operation.
pub open spec fn unique_ids(ops: Seq<OpView>) -> bool {
    forall|i: int, j: int|
        0 <= i < ops.len() && 0 <= j < ops.len() && (#[trigger] ops[i]).key == (
        #[trigger] ops[j]).key && ops[i].version == ops[j].version ==> ops[i] == ops[j]
}

/// What is recorded of a key is what operation `op`, applied at `now`, left.
pub open spec fn left_by(s: LwwState, op: OpView, now: u128) -> bool {
    &&& lookup(s.meta, op.key) == Some(
        ValueMetadata { version: op.version, is_tombstone: op.value is None, created_at: now },
    )
    &&& lookup(s.live, op.key) == op.value
}

/// After operations were applied, a key is as it was before, or one of them
/// that beat what was there before has left it as it is.
pub proof fn lemma_key_origin(s: LwwState, ops: Seq<OpView>, now: u128, key: Seq<char>)
    ensures
        ({
            let t = apply_all(s, ops, now);
            ||| lookup(t.meta, key) == lookup(s.meta, key) && lookup(t.live, key) == lookup(
                s.live,
                key,
            )
            ||| exists|i: int|
                0 <= i < ops.len() && (#[trigger] ops[i]).key == key && left_by(t, ops[i], now)
                    && accepts(lookup(s.meta, key), ops[i])
        }),
    decreases ops.len(),
{
    if ops.len() > 0 {
        let init = ops.drop_last();
        let last = ops.last();
        let mid = apply_all(s, init, now);
        let t = apply_all(s, ops, now);
        lemma_key_origin(s, init, now, key);
        if last.key == key && accepts(lookup(mid.meta, key), last) {
            assert(ops[ops.len() - 1] == last);
            lemma_apply_all_monotone(s, init, now);
            assert(accepts(lookup(s.meta, last.key), last));
            assert(left_by(t, last, now));
        } else if !(lookup(mid.meta, key) == lookup(s.meta, key) && lookup(mid.live, key) == lookup(
            s.live,
            key,
        )) {
            let i = choose|i: int|
                0 <= i < init.len() && (#[trigger] init[i]).key == key && left_by(mid, init[i], now)
                    && accepts(lookup(s.meta, key), init[i]);
            assert(ops[i] == init[i]);
            assert(left_by(t, ops[i], now));
        }
    }
}

/// Merging is independent of order and repetition: two sequences that hold the
/// same operations leave the same live values and the same winners, whatever
/// the state that they are applied to.
pub proof fn law_merge_order_independent(
    s: LwwState,
    a: Seq<OpView>,
    b: Seq<OpView>,
    now: u128,
)
    requires
        forall|op: OpView| a.contains(op) <==> b.contains(op),
        unique_payloads(a),
    ensures
        apply_all(s, a, now).live == apply_all(s, b, now).live,
        apply_all(s, a, now).meta == apply_all(s, b, now).meta,
{
    let x = apply_all(s, a, now);
    let y = apply_all(s, b, now);
    assert forall|k: Seq<char>|
        lookup(x.meta, k) == lookup(y.meta, k) && lookup(x.live, k) == lookup(y.live, k) by {
        lemma_same_key_outcome(s, a, b, now, k);
    }
    assert forall|k: Seq<char>| #[trigger] x.live.contains_key(k) <==> y.live.contains_key(k) by {
        assert(lookup(x.live, k) == lookup(y.live, k));
    }
    assert forall|k: Seq<char>| #[trigger] x.meta.contains_key(k) <==> y.meta.contains_key(k) by {
        assert(lookup(x.meta, k) == lookup(y.meta, k));
    }
    assert forall|k: Seq<char>| x.live.contains_key(k) implies #[trigger] x.live[k] == y.live[k] by {
        assert(lookup(x.live, k) == lookup(y.live, k));
    }
    assert forall|k: Seq<char>| x.meta.contains_key(k) implies #[trigger] x.meta[k] == y.meta[k] by {
        assert(lookup(x.meta, k) == lookup(y.meta, k));
    }
    assert(x.live =~= y.live);
    assert(x.meta =~= y.meta);
}

proof fn lemma_same_key_outcome(
    s: LwwState,
    a: Seq<OpView>,
    b: Seq<OpView>,
    now: u128,
    k: Seq<char>,
)
    requires
        forall|op: OpView| a.contains(op) <==> b.contains(op),
        unique_payloads(a),
    ensures
        lookup(apply_all(s, a, now).meta, k) == lookup(apply_all(s, b, now).meta, k),
        lookup(apply_all(s, a, now).live, k) == lookup(apply_all(s, b, now).live, k),
{
    let x = apply_all(s, a, now);
    let y = apply_all(s, b, now);
    lemma_key_origin(s, a, now, k);
    lemma_key_origin(s, b, now, k);
    lemma_apply_all_monotone(s, a, now);
    lemma_apply_all_monotone(s, b, now);
    let kept_a = lookup(x.meta, k) == lookup(s.meta, k) && lookup(x.live, k) == lookup(s.live, k);
    let kept_b = lookup(y.meta, k) == lookup(s.meta, k) && lookup(y.live, k) == lookup(s.live, k);
    if !kept_a {
        let i = choose|i: int|
            0 <= i < a.len() && (#[trigger] a[i]).key == k && left_by(x, a[i], now) && accepts(
                lookup(s.meta, k),
                a[i],
            );
        assert(a.contains(a[i]));
        let j = choose|j: int| 0 <= j < b.len() && b[j] == a[i];
        assert(!accepts(lookup(y.meta, b[j].key), b[j]));
        assert(!kept_b);
        let m = choose|m: int|
            0 <= m < b.len() && (#[trigger] b[m]).key == k && left_by(y, b[m], now) && accepts(
                lookup(s.meta, k),
                b[m],
            );
        assert(b.contains(b[m]));
        let n = choose|n: int| 0 <= n < a.len() && a[n] == b[m];
        assert(!accepts(lookup(x.meta, a[n].key), a[n]));
        assert(a[i].version == a[n].version);
    } else if !kept_b {
        let m = choose|m: int|
            0 <= m < b.len() && (#[trigger] b[m]).key == k && left_by(y, b[m], now) && accepts(
                lookup(s.meta, k),
                b[m],
            );
        assert(b.contains(b[m]));
        let n = choose|n: int| 0 <= n < a.len() && a[n] == b[m];
        assert(!accepts(lookup(x.meta, a[n].key), a[n]));
    }
}

/// Applying operations that the state covers already changes nothing. So
/// merging the same operations again changes nothing either.
pub proof fn law_merge_idempotent(s: LwwState, ops: Seq<OpView>, now: u128, later: u128)
    ensures
        covered(s.meta, ops) ==> apply_all(s, ops, now) == s,
        apply_all(apply_all(s, ops, now), ops, later) == apply_all(s, ops, now),
{
    if covered(s.meta, ops) {
        lemma_covered_noop(s, ops, now);
    }
    lemma_apply_all_monotone(s, ops, now);
    lemma_covered_noop(apply_all(s, ops, now), ops, later);
}

proof fn lemma_covered_noop(s: LwwState, ops: Seq<OpView>, now: u128)
    requires
        covered(s.meta, ops),
    ensures
        apply_all(s, ops, now) == s,
    decreases ops.len(),
{
    if ops.len() > 0 {
        let init = ops.drop_last();
        assert forall|i: int| 0 <= i < init.len() implies !accepts(
            lookup(s.meta, (#[trigger] init[i]).key),
            init[i],
        ) by {
            assert(ops[i] == init[i]);
        }
        lemma_covered_noop(s, init, now);
        assert(!accepts(lookup(s.meta, ops[ops.len() - 1].key), ops[ops.len() - 1]));
    }
}

/// Applying one sequence and then another is applying them joined.
pub proof fn lemma_apply_all_join(s: LwwState, a: Seq<OpView>, b: Seq<OpView>, now: u128)
    ensures
        apply_all(s, a + b, now) == apply_all(apply_all(s, a, now), b, now),
    decreases b.len(),
{
    if b.len() == 0 {
        assert(a + b =~= a);
    } else {
        lemma_apply_all_join(s, a, b.drop_last(), now);
        assert((a + b).drop_last() =~= a + b.drop_last());
        assert((a + b).last() == b.last());
    }
}

/// A remove that was applied keeps suppressing every insert of its key that is
/// not newer, however late it arrives, and also where the key was never seen
/// before.
pub proof fn law_tombstone_suppresses_older_inserts(
    s: LwwState,
    remove: OpView,
    between: Seq<OpView>,
    insert: OpView,
    now: u128,
)
    requires
        remove.value is None,
        insert.value is Some,
        insert.key == remove.key,
        !remove.version.before(insert.version),
    ensures
        ({
            let t = apply_all(apply_op(s, remove, now), between, now);
            apply_op(t, insert, now) == t
        }),
{
    let first = apply_op(s, remove, now);
    lemma_apply_op_monotone(s, remove, now, remove);
    assert(!accepts(lookup(first.meta, insert.key), insert));
    lemma_apply_all_monotone(first, between, now);
}

/// Every recorded timestamp is one that the clock has reached.
pub open spec fn clock_ahead(meta: Map<Seq<char>, ValueMetadata>, time: u64) -> bool {
    forall|k: Seq<char>| #[trigger] meta.contains_key(k) ==> meta[k].version.timestamp <= time
}

/// A local write wins over everything recorded, as long as the clock has room
/// left: after it the key has the value that was written, or none.
pub proof fn law_local_write_wins(
    s: LwwState,
    key: Seq<char>,
    value: Option<Seq<u8>>,
    time: u64,
    replica_id: ReplicaId,
    now: u128,
)
    requires
        clock_ahead(s.meta, time),
        time < u64::MAX,
    ensures
        ({
            let op = OpView {
                key,
                value,
                version: Version { timestamp: next_time(time), replica_id },
            };
            &&& accepts(lookup(s.meta, key), op)
            &&& lookup(apply_op(s, op, now).live, key) == value
            &&& clock_ahead(apply_op(s, op, now).meta, next_time(time))
        }),
{
}

/// The clock stays ahead of everything recorded: through local operations,
/// merges and collection of tombstones.
pub proof fn law_clock_stays_ahead(
    s: LwwState,
    ops: Seq<OpView>,
    time: u64,
    now: u128,
    grace: u128,
)
    requires
        clock_ahead(s.meta, time),
    ensures
        clock_ahead(apply_all(s, ops, now).meta, observed_all(time, ops)),
        clock_ahead(s.meta.remove_keys(collectable_keys(s, now, grace)), time),
        forall|op: OpView|
            op.version.timestamp == next_time(time) ==> clock_ahead(
                #[trigger] apply_op(s, op, now).meta,
                next_time(time),
            ),
{
    let t = apply_all(s, ops, now);
    lemma_observed_all(time, ops);
    assert forall|k: Seq<char>| #[trigger] t.meta.contains_key(k) implies t.meta[k].version.timestamp
        <= observed_all(time, ops) by {
        lemma_key_origin(s, ops, now, k);
        assert(lookup(t.meta, k) == Some(t.meta[k]));
        if lookup(t.meta, k) == lookup(s.meta, k) {
            assert(s.meta.contains_key(k));
        }
    }
}

/// Passing over the operations whose version the log holds loses nothing, as
/// long as a version stands for one operation: the outcome is that of applying
/// the whole batch.
pub proof fn law_unseen_is_enough(s: LwwState, log: Seq<OpView>, batch: Seq<OpView>, now: u128)
    requires
        covered(s.meta, log),
        unique_payloads(batch),
        forall|i: int, j: int|
            0 <= i < batch.len() && 0 <= j < log.len() && (#[trigger] batch[i]).version == (
            #[trigger] log[j]).version ==> batch[i] == log[j],
    ensures
        apply_all(s, sort_ops(unseen(batch, log)), now).live == apply_all(s, batch, now).live,
        apply_all(s, sort_ops(unseen(batch, log)), now).meta == apply_all(s, batch, now).meta,
{
    let fresh = unseen(batch, log);
    let p = |op: OpView| !seen_in(log, op.version);
    let old = batch.filter(|op: OpView| seen_in(log, op.version));
    let q = |op: OpView| seen_in(log, op.version);
    assert forall|i: int| 0 <= i < old.len() implies !accepts(
        lookup(s.meta, (#[trigger] old[i]).key),
        old[i],
    ) by {
        assert(old.contains(old[i]));
        lemma_filter_members(batch, q, old[i]);
        let m = choose|m: int| 0 <= m < batch.len() && batch[m] == old[i];
        let j = choose|j: int| 0 <= j < log.len() && #[trigger] log[j].version == old[i].version;
        assert(batch[m].version == log[j].version);
        assert(log[j] == old[i]);
    }
    lemma_covered_noop(s, old, now);
    let joined = old + sort_ops(fresh);
    lemma_apply_all_join(s, old, sort_ops(fresh), now);
    lemma_sort_ops(fresh);
    assert forall|op: OpView| joined.contains(op) <==> batch.contains(op) by {
        lemma_filter_members(batch, p, op);
        lemma_filter_members(batch, q, op);
        assert(sort_ops(fresh).contains(op) <==> fresh.contains(op));
        if joined.contains(op) {
            let i = choose|i: int| 0 <= i < joined.len() && joined[i] == op;
            if i < old.len() {
                assert(old[i] == op);
                assert(old.contains(op));
            } else {
                assert(sort_ops(fresh)[i - old.len()] == op);
                assert(sort_ops(fresh).contains(op));
            }
        }
        if old.contains(op) {
            let i = choose|i: int| 0 <= i < old.len() && old[i] == op;
            assert(joined[i] == op);
        }
        if sort_ops(fresh).contains(op) {
            let i = choose|i: int| 0 <= i < sort_ops(fresh).len() && sort_ops(fresh)[i] == op;
            assert(joined[i + old.len()] == op);
        }
    }
    law_merge_order_independent(s, batch, joined, now);
}

// ---- What the log carries ----

/// The log holds the winning operation of every recorded key.
pub open spec fn complete(s: LwwState, log: Seq<OpView>) -> bool {
    forall|k: Seq<char>| #[trigger]
        s.meta.contains_key(k) ==> exists|i: int|
            0 <= i < log.len() && (#[trigger] log[i]).key == k && log[i].version
                == s.meta[k].version && (log[i].value is None) == s.meta[k].is_tombstone
                && log[i].value == lookup(s.live, k)
}

/// The state of a replica that knows nothing.
pub open spec fn blank() -> LwwState {
    LwwState { live: Map::empty(), meta: Map::empty(), generation: 0 }
}

/// A replica that knows nothing and merges a complete log has the same live
/// values, versions and tombstones afterwards as the replica whose log it is.
pub proof fn law_complete_log_carries_the_state(s: LwwState, log: Seq<OpView>, now: u128)
    requires
        consistent(s),
        covered(s.meta, log),
        complete(s, log),
        unique_ids(log),
    ensures
        ({
            let t = apply_all(blank(), sort_ops(unseen(log, Seq::empty())), now);
            &&& t.live == s.live
            &&& t.meta.dom() == s.meta.dom()
            &&& forall|k: Seq<char>| #[trigger]
                t.meta.contains_key(k) ==> t.meta[k].version == s.meta[k].version
                    && t.meta[k].is_tombstone == s.meta[k].is_tombstone
        }),
{
    let none = Seq::<OpView>::empty();
    law_unseen_is_enough(blank(), none, log, now);
    let t = apply_all(blank(), log, now);
    lemma_apply_all_monotone(blank(), log, now);
    assert forall|k: Seq<char>|
        lookup(t.live, k) == lookup(s.live, k) && t.meta.contains_key(k) == s.meta.contains_key(k)
            && (s.meta.contains_key(k) ==> t.meta[k].version == s.meta[k].version
            && t.meta[k].is_tombstone == s.meta[k].is_tombstone) by {
        lemma_key_origin(blank(), log, now, k);
        if s.meta.contains_key(k) {
            let i = choose|i: int|
                0 <= i < log.len() && (#[trigger] log[i]).key == k && log[i].version
                    == s.meta[k].version && (log[i].value is None) == s.meta[k].is_tombstone
                    && log[i].value == lookup(s.live, k);
            assert(!accepts(lookup(t.meta, log[i].key), log[i]));
            let j = choose|j: int|
                0 <= j < log.len() && (#[trigger] log[j]).key == k && left_by(t, log[j], now);
            assert(!accepts(lookup(s.meta, log[j].key), log[j]));
            assert(log[i].version == log[j].version);
        } else if t.meta.contains_key(k) {
            let j = choose|j: int|
                0 <= j < log.len() && (#[trigger] log[j]).key == k && left_by(t, log[j], now);
            assert(!accepts(lookup(s.meta, log[j].key), log[j]));
        }
        assert(s.live.contains_key(k) ==> s.meta.contains_key(k));
    }
    assert forall|k: Seq<char>| t.live.contains_key(k) <==> s.live.contains_key(k) by {
        assert(lookup(t.live, k) == lookup(s.live, k));
    }
    assert forall|k: Seq<char>| t.live.contains_key(k) implies #[trigger] t.live[k] == s.live[k] by {
        assert(lookup(t.live, k) == lookup(s.live, k));
    }
    assert(t.live =~= s.live);
    assert(t.meta.dom() =~= s.meta.dom());
}

/// The fold of this engine keeps to the key it is given.
pub proof fn lemma_lww_keeps_key()
    ensures
        keeps_key(lww_model()),
{
    assert forall|group: Seq<OpView>, key: Seq<char>|
        #![trigger lww_model()(group), group_of(group, key)]
        group.len() > 0 && group_of(group, key) == group implies (lww_model()(group) matches Some(
        op,
    ) ==> op.key == key) by {
        lemma_newest(group);
        lemma_group_members(group, key);
    }
}

/// Compaction keeps a complete log complete.
pub proof fn law_compaction_keeps_the_log_complete(s: LwwState, log: Seq<OpView>)
    requires
        covered(s.meta, log),
        complete(s, log),
        unique_ids(log),
    ensures
        complete(s, compacted(log, lww_model())),
{
    let short = compacted(log, lww_model());
    lemma_lww_keeps_key();
    assert forall|k: Seq<char>| #[trigger] s.meta.contains_key(k) implies exists|i: int|
        0 <= i < short.len() && (#[trigger] short[i]).key == k && short[i].version
            == s.meta[k].version && (short[i].value is None) == s.meta[k].is_tombstone
            && short[i].value == lookup(s.live, k) by {
        let i = choose|i: int|
            0 <= i < log.len() && (#[trigger] log[i]).key == k && log[i].version
                == s.meta[k].version && (log[i].value is None) == s.meta[k].is_tombstone
                && log[i].value == lookup(s.live, k);
        let x = log[i];
        let group = group_of(log, k);
        lemma_group_members(log, k);
        assert(log.contains(x));
        assert(group.contains(x));
        lemma_newest(group);
        let y = newest(group).unwrap();
        let m = choose|m: int| 0 <= m < group.len() && group[m] == x;
        assert(!y.version.before(group[m].version));
        let j = choose|j: int| 0 <= j < log.len() && log[j] == y;
        assert(!accepts(lookup(s.meta, log[j].key), log[j]));
        assert(x == y);
        lemma_compacted_group(log, lww_model(), k);
        let g = group_of(short, k);
        assert(g[0] == y);
        assert(g.contains(y));
        lemma_group_members(short, k);
        let n = choose|n: int| 0 <= n < short.len() && short[n] == y;
        assert(short[n].key == k);
    }
}

/// A local operation that wins keeps a complete log complete, as long as the
/// log is not cut back.
pub proof fn law_append_keeps_the_log_complete(
    s: LwwState,
    log: Seq<OpView>,
    op: OpView,
    keys: nat,
    now: u128,
)
    requires
        covered(s.meta, log),
        complete(s, log),
        unique_ids(log.push(op)),
        accepts(lookup(s.meta, op.key), op),
        compacted(log.push(op), lww_model()).len() <= AUTO_COMPACT_THRESHOLD,
    ensures
        complete(apply_op(s, op, now), appended(log, op, keys, lww_model())),
{
    let t = apply_op(s, op, now);
    let longer = log.push(op);
    assert(covered(t.meta, longer)) by {
        assert forall|i: int| 0 <= i < longer.len() implies !accepts(
            lookup(t.meta, (#[trigger] longer[i]).key),
            longer[i],
        ) by {
            if i < log.len() {
                assert(longer[i] == log[i]);
                lemma_apply_op_monotone(s, op, now, log[i]);
            } else {
                lemma_apply_op_monotone(s, op, now, op);
            }
        }
    }
    assert(complete(t, longer)) by {
        assert forall|k: Seq<char>| #[trigger] t.meta.contains_key(k) implies exists|i: int|
            0 <= i < longer.len() && (#[trigger] longer[i]).key == k && longer[i].version
                == t.meta[k].version && (longer[i].value is None) == t.meta[k].is_tombstone
                && longer[i].value == lookup(t.live, k) by {
            if k == op.key {
                assert(longer[log.len() as int] == op);
            } else {
                assert(s.meta.contains_key(k));
                let i = choose|i: int|
                    0 <= i < log.len() && (#[trigger] log[i]).key == k && log[i].version
                        == s.meta[k].version && (log[i].value is None) == s.meta[k].is_tombstone
                        && log[i].value == lookup(s.live, k);
                assert(longer[i] == log[i]);
            }
        }
    }
    law_compaction_keeps_the_log_complete(t, longer);
}

/// A merge keeps a complete log complete.
pub proof fn law_merge_keeps_the_log_complete(
    s: LwwState,
    log: Seq<OpView>,
    fresh: Seq<OpView>,
    now: u128,
)
    requires
        covered(s.meta, log),
        complete(s, log),
        unique_ids(log + fresh),
    ensures
        complete(apply_all(s, fresh, now), compacted(log + fresh, lww_model())),
{
    let t = apply_all(s, fresh, now);
    let joined = log + fresh;
    lemma_apply_all_monotone(s, fresh, now);
    assert(covered(t.meta, joined)) by {
        assert forall|i: int| 0 <= i < joined.len() implies !accepts(
            lookup(t.meta, (#[trigger] joined[i]).key),
            joined[i],
        ) by {
            if i < log.len() {
                assert(joined[i] == log[i]);
            } else {
                assert(joined[i] == fresh[i - log.len()]);
            }
        }
    }
    assert(complete(t, joined)) by {
        assert forall|k: Seq<char>| #[trigger] t.meta.contains_key(k) implies exists|i: int|
            0 <= i < joined.len() && (#[trigger] joined[i]).key == k && joined[i].version
                == t.meta[k].version && (joined[i].value is None) == t.meta[k].is_tombstone
                && joined[i].value == lookup(t.live, k) by {
            lemma_key_origin(s, fresh, now, k);
            if lookup(t.meta, k) == lookup(s.meta, k) && lookup(t.live, k) == lookup(s.live, k) {
                assert(s.meta.contains_key(k));
                let i = choose|i: int|
                    0 <= i < log.len() && (#[trigger] log[i]).key == k && log[i].version
                        == s.meta[k].version && (log[i].value is None) == s.meta[k].is_tombstone
                        && log[i].value == lookup(s.live, k);
                assert(joined[i] == log[i]);
            } else {
                let i = choose|i: int|
                    0 <= i < fresh.len() && (#[trigger] fresh[i]).key == k && left_by(
                        t,
                        fresh[i],
                        now,
                    ) && accepts(lookup(s.meta, k), fresh[i]);
                assert(joined[i + log.len()] == fresh[i]);
            }
        }
    }
    law_compaction_keeps_the_log_complete(t, joined);
}

/// A compacted log holds no more than one operation per recorded key.
pub proof fn law_compacted_log_is_small(
    meta: Map<Seq<char>, ValueMetadata>,
    log: Seq<OpView>,
)
    requires
        meta.dom().finite(),
        covered(meta, log),
    ensures
        compacted(log, lww_model()).len() <= meta.dom().len(),
{
    let keys = key_list(log);
    lemma_key_list(log);
    lemma_compacted_len(log, lww_model());
    assert(keys.no_duplicates()) by {
        assert forall|i: int, j: int| 0 <= i < keys.len() && 0 <= j < keys.len() && i != j implies
            keys[i] != keys[j] by {
            if i < j {
                lemma_str_before_total_order(keys[i], keys[j], keys[i]);
            } else {
                lemma_str_before_total_order(keys[j], keys[i], keys[j]);
            }
        }
    }
    keys.unique_seq_to_set();
    assert(keys.to_set().subset_of(meta.dom())) by {
        assert forall|k: Seq<char>| keys.to_set().contains(k) implies meta.dom().contains(k) by {
            assert(keys.contains(k));
            let i = choose|i: int| 0 <= i < log.len() && #[trigger] log[i].key == k;
            assert(!accepts(lookup(meta, log[i].key), log[i]));
        }
    }
    vstd::set_lib::lemma_len_subset(keys.to_set(), meta.dom());
}

/// The log stays within twice the number of recorded keys, or within the floor
/// below which it is not compacted.
pub proof fn law_log_is_bounded(s: LwwState, log: Seq<OpView>, op: OpView, now: u128)
    requires
        s.meta.dom().finite(),
        covered(s.meta, log),
    ensures
        ({
            let keys = apply_op(s, op, now).meta.dom().len();
            let len = appended(log, op, keys, lww_model()).len();
            len <= COMPACT_FLOOR || len <= 2 * keys
        }),
{
    let t = apply_op(s, op, now);
    let longer = log.push(op);
    assert(covered(t.meta, longer)) by {
        assert forall|i: int| 0 <= i < longer.len() implies !accepts(
            lookup(t.meta, (#[trigger] longer[i]).key),
            longer[i],
        ) by {
            if i < log.len() {
                assert(longer[i] == log[i]);
                lemma_apply_op_monotone(s, op, now, log[i]);
            } else {
                lemma_apply_op_monotone(s, op, now, op);
            }
        }
    }
    law_compacted_log_is_small(t.meta, longer);
}

/// Compacting a compacted log changes nothing.
pub proof fn law_compaction_idempotent(log: Seq<OpView>)
    ensures
        compacted(compacted(log, lww_model()), lww_model()) == compacted(log, lww_model()),
{
    let short = compacted(log, lww_model());
    lemma_lww_keeps_key();
    let winners = |ops: Seq<OpView>, k: Seq<char>| lww_model()(group_of(ops, k));
    assert forall|k: Seq<char>| mentions(log, k) <==> mentions(short, k) by {
        lemma_compacted_group(log, lww_model(), k);
        lemma_group_members(short, k);
        lemma_group_members(log, k);
        lemma_newest(group_of(log, k));
    }
    assert forall|k: Seq<char>| mentions(short, k) implies #[trigger] lww_model()(
        group_of(short, k),
    ) == lww_model()(group_of(log, k)) by {
        lemma_compacted_group(log, lww_model(), k);
        assert(mentions(log, k));
        lemma_newest(group_of(log, k));
        lemma_group_members(log, k);
        let g = group_of(short, k);
        reveal_with_fuel(newest, 2);
        assert(g.len() == 1);
        assert(newest(g.drop_last()) is None);
    }
    super::super::operation::lemma_compacted_by_folds(short, log, lww_model());
}

/// Once a tombstone was collected, the log holds nothing of its key.
pub proof fn law_collected_keys_leave_the_log(
    s: LwwState,
    log: Seq<OpView>,
    key: Seq<char>,
    now: u128,
    grace: u128,
)
    requires
        covered(s.meta, log),
        collectable(s, key, now, grace),
    ensures
        !mentions(purged(log, s, now, grace), key),
{
    let kept = purged(log, s, now, grace);
    let p = |op: OpView|
        !collectable(s, op.key, now, grace) || s.meta[op.key].version.before(op.version);
    if mentions(kept, key) {
        let i = choose|i: int| 0 <= i < kept.len() && #[trigger] kept[i].key == key;
        assert(kept.contains(kept[i]));
        lemma_filter_members(log, p, kept[i]);
        assert(p(kept[i]));
        let j = choose|j: int| 0 <= j < log.len() && log[j] == kept[i];
        assert(!accepts(lookup(s.meta, log[j].key), log[j]));
    }
}

} // verus!
