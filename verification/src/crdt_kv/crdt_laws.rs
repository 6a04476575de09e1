//! What the replicated map guarantees as a whole.
use super::crdt::{
    after_merging, after_write, bucket, engine_for, joined_log, lemma_route, next_stamp, route,
    value_of, MapView,
};
use super::engine::any::{
    after_merge, applied_ops, behind_clock, live_value, takes_effect, Core, EngineView,
};
use super::engine::appended;
use super::engine::lww::{
    accepts, apply_all, apply_op, consistent, covered, lemma_apply_all_monotone,
    lemma_lww_compacted_subset, lww_model, seen_in, unseen, LwwState,
};
use super::engine::lww_laws::{
    blank, complete, law_complete_log_carries_the_state, law_local_write_wins, law_merge_idempotent,
    law_merge_order_independent, law_unseen_is_enough, lemma_apply_all_join, lemma_lww_keeps_key,
    unique_ids, unique_payloads,
};
use super::engine::rate_limit::{rl_apply_all, rl_live, rl_valid, RlState};
use super::engine::rate_limit_laws::{
    known, law_knowledge_adds_up, law_rl_merge_idempotent, lemma_epoch_keeps_key,
    lemma_learn_associative, log_matches,
};
use super::epoch_max_wins::{
    epoch_model, law_merge_commutative, learn, lemma_summary_valid, op_says, summary, valid,
};
use super::kv_store::lookup;
use super::operation::{
    compacted, group_of, key_list, lemma_compacted_group, lemma_filter_members,
    lemma_group_members, lemma_newest, lemma_sort_ops, mentions, newest, sort_ops, winners_of,
    OpView, AUTO_COMPACT_THRESHOLD,
};
use vstd::prelude::*;

verus! {

/// A version stands for one operation.
pub open spec fn unique_versions(ops: Seq<OpView>) -> bool {
    forall|i: int, j: int|
        0 <= i < ops.len() && 0 <= j < ops.len() && (#[trigger] ops[i]).version == (
        #[trigger] ops[j]).version ==> ops[i] == ops[j]
}

/// What holds of every engine of a map: live values and winners agree and the
/// log has been applied, or every entry is valid.
pub open spec fn sound(e: EngineView) -> bool {
    match e.core {
        Core::Lww(s) => consistent(s) && covered(s.meta, e.log),
        Core::RateLimit(s) => rl_valid(s),
    }
}

/// A write to a last-writer-wins key is read back, and so is a delete, as long
/// as the clock has room left.
pub proof fn law_write_is_read_back(
    m: MapView,
    key: Seq<char>,
    value: Option<Seq<u8>>,
    now: u128,
)
    requires
        m.slots.len() == m.prefixes.len() + 1,
        engine_for(m, key).core is Lww,
        behind_clock(engine_for(m, key), m.clock),
        m.clock < u64::MAX,
    ensures
        value_of(after_write(m, key, value, now), key) == value,
{
    lemma_route(m.prefixes, key);
    if let Core::Lww(s) = engine_for(m, key).core {
        law_local_write_wins(s, key, value, m.clock, m.replica, now);
    }
}

/// A write leaves all other keys alone.
pub proof fn law_write_leaves_other_keys_alone(
    m: MapView,
    key: Seq<char>,
    value: Option<Seq<u8>>,
    now: u128,
    other: Seq<char>,
)
    requires
        m.slots.len() == m.prefixes.len() + 1,
        other != key,
    ensures
        value_of(after_write(m, key, value, now), other) == value_of(m, other),
{
    lemma_route(m.prefixes, key);
    lemma_route(m.prefixes, other);
}

/// The stamps of a node's operations ascend, whichever engines they go to. So no
/// two of its operations carry the same version.
pub proof fn law_stamps_ascend(m: MapView, key: Seq<char>, value: Option<Seq<u8>>, now: u128)
    requires
        m.clock < u64::MAX - 1,
    ensures
        next_stamp(m).before(next_stamp(after_write(m, key, value, now))),
{
}

/// Two sequences of engines that differ in one log have joined logs that differ.
proof fn lemma_joined_differs(a: Seq<EngineView>, b: Seq<EngineView>, i: int)
    requires
        a.len() == b.len(),
        0 <= i < a.len(),
        forall|j: int| 0 <= j < a.len() && j != i ==> a[j] == b[j],
        a[i].log != b[i].log,
    ensures
        joined_log(a) != joined_log(b),
    decreases a.len(),
{
    let x = joined_log(a.drop_last());
    let y = joined_log(b.drop_last());
    let u = a.last().log;
    let v = b.last().log;
    if i == a.len() - 1 {
        assert(a.drop_last() =~= b.drop_last());
        if x + u == y + v {
            assert(u =~= (x + u).skip(x.len() as int));
            assert(v =~= (y + v).skip(y.len() as int));
        }
    } else {
        lemma_joined_differs(a.drop_last(), b.drop_last(), i);
        if x + u == y + v {
            assert(x.len() + u.len() == (x + u).len());
            assert(y.len() + v.len() == (y + v).len());
            assert(x =~= (x + u).take(x.len() as int));
            assert(y =~= (y + v).take(y.len() as int));
        }
    }
}

proof fn lemma_joined_holds(slots: Seq<EngineView>, i: int, op: OpView)
    requires
        0 <= i < slots.len(),
        slots[i].log.contains(op),
    ensures
        joined_log(slots).contains(op),
    decreases slots.len(),
{
    let init = joined_log(slots.drop_last());
    lemma_joined_contains(init, slots.last().log);
    if i < slots.len() - 1 {
        lemma_joined_holds(slots.drop_last(), i, op);
    }
}

/// Where an operation is newer than all that a log holds, the log to which it was
/// appended ends with it, also where it was compacted and cut back.
proof fn lemma_newest_is_last(log: Seq<OpView>, op: OpView, keys: nat)
    requires
        forall|i: int| 0 <= i < log.len() ==> (#[trigger] log[i]).version.before(op.version),
    ensures
        appended(log, op, keys, lww_model()).len() > 0,
        appended(log, op, keys, lww_model()).last() == op,
{
    let longer = log.push(op);
    let c = compacted(longer, lww_model());
    let group = group_of(longer, op.key);
    assert forall|x: OpView| #[trigger] longer.contains(x) implies x == op || x.version.before(
        op.version,
    ) by {
        let i = choose|i: int| 0 <= i < longer.len() && longer[i] == x;
        if i < log.len() {
            assert(log[i] == x);
        }
    }
    assert(longer[log.len() as int] == op);
    assert(longer.contains(op));
    lemma_group_members(longer, op.key);
    lemma_newest(group);
    assert(group.contains(op));
    let w = newest(group).unwrap();
    assert(longer.contains(w));
    let at = choose|at: int| 0 <= at < group.len() && group[at] == op;
    assert(!w.version.before(group[at].version));
    assert(w == op);
    lemma_lww_keeps_key();
    lemma_compacted_group(longer, lww_model(), op.key);
    lemma_group_members(c, op.key);
    assert(group_of(c, op.key)[0] == op);
    assert(group_of(c, op.key).contains(op));
    assert(c.contains(op));
    lemma_lww_compacted_subset(longer);
    lemma_sort_ops(winners_of(longer, key_list(longer), lww_model()));
    let n = choose|n: int| 0 <= n < c.len() && c[n] == op;
    assert(c.contains(c.last()));
    assert(longer.contains(c.last()));
    assert(c.last() == op);
}

/// A write to a last-writer-wins key that takes effect is in the log from then on,
/// and the log is another than before. So a shared log from before the write is
/// not the one that is handed out after it.
pub proof fn law_write_is_logged(
    m: MapView,
    key: Seq<char>,
    value: Option<Seq<u8>>,
    now: u128,
)
    requires
        m.slots.len() == m.prefixes.len() + 1,
        engine_for(m, key).core is Lww,
        sound(engine_for(m, key)),
        behind_clock(engine_for(m, key), m.clock),
        m.clock < u64::MAX,
    ensures
        ({
            let op = OpView { key, value, version: next_stamp(m) };
            let after = after_write(m, key, value, now);
            &&& joined_log(after.slots).contains(op)
            &&& joined_log(after.slots) != joined_log(m.slots)
        }),
{
    lemma_route(m.prefixes, key);
    let i = route(m.prefixes, key);
    let e = m.slots[i];
    let op = OpView { key, value, version: next_stamp(m) };
    let after = after_write(m, key, value, now);
    if let Core::Lww(s) = e.core {
        law_local_write_wins(s, key, value, m.clock, m.replica, now);
        assert forall|j: int| 0 <= j < e.log.len() implies (#[trigger] e.log[j]).version.before(
            op.version,
        ) by {
            let x = e.log[j];
            assert(!accepts(lookup(s.meta, x.key), x));
            assert(s.meta.contains_key(x.key));
        }
        let keys = apply_op(s, op, now).meta.dom().len();
        lemma_newest_is_last(e.log, op, keys);
        let log = after.slots[i].log;
        assert(log == appended(e.log, op, keys, lww_model()));
        assert(log[log.len() - 1] == op);
        assert(log.contains(op));
        if e.log.contains(op) {
            let j = choose|j: int| 0 <= j < e.log.len() && e.log[j] == op;
            assert(e.log[j].version.before(op.version));
        }
        lemma_joined_holds(after.slots, i, op);
        lemma_joined_differs(m.slots, after.slots, i);
    }
}

proof fn lemma_summary_some(ops: Seq<OpView>, op: OpView)
    requires
        ops.contains(op),
        op_says(op) is Some,
    ensures
        summary(ops) is Some,
    decreases ops.len(),
{
    let i = choose|i: int| 0 <= i < ops.len() && ops[i] == op;
    if i < ops.len() - 1 {
        assert(ops.drop_last()[i] == op);
        lemma_summary_some(ops.drop_last(), op);
    }
}

/// A write to a rate-limit key that takes effect leaves an operation for its key in
/// the log, as long as the log is not cut back.
pub proof fn law_rl_write_is_logged(m: MapView, key: Seq<char>, value: Option<Seq<u8>>, now: u128)
    requires
        m.slots.len() == m.prefixes.len() + 1,
        engine_for(m, key).core is RateLimit,
        takes_effect(
            engine_for(m, key),
            OpView { key, value, version: next_stamp(m) },
        ),
        compacted(
            engine_for(m, key).log.push(OpView { key, value, version: next_stamp(m) }),
            epoch_model(),
        ).len() <= AUTO_COMPACT_THRESHOLD,
    ensures
        mentions(joined_log(after_write(m, key, value, now).slots), key),
{
    lemma_route(m.prefixes, key);
    let i = route(m.prefixes, key);
    let e = m.slots[i];
    let op = OpView { key, value, version: next_stamp(m) };
    let after = after_write(m, key, value, now);
    let longer = e.log.push(op);
    let group = group_of(longer, key);
    assert(longer[e.log.len() as int] == op);
    assert(longer.contains(op));
    lemma_group_members(longer, key);
    assert(group.contains(op));
    lemma_summary_some(group, op);
    lemma_epoch_keeps_key();
    lemma_compacted_group(longer, epoch_model(), key);
    let c = compacted(longer, epoch_model());
    lemma_group_members(c, key);
    let log = after.slots[i].log;
    lemma_group_members(log, key);
    let x = if log == c {
        group_of(c, key)[0]
    } else {
        op
    };
    if log == c {
        assert(group_of(c, key).contains(x));
    }
    assert(log.contains(x) && x.key == key);
    lemma_joined_holds(after.slots, i, x);
    lemma_group_members(joined_log(after.slots), key);
    assert(group_of(joined_log(after.slots), key).contains(x));
}

// ---- Last-writer-wins replicas ----

/// Two states that differ at most in when their winners were recorded, and in
/// how often they changed.
pub open spec fn same_winners(a: LwwState, b: LwwState) -> bool {
    &&& a.live == b.live
    &&& a.meta.dom() == b.meta.dom()
    &&& forall|k: Seq<char>| #[trigger]
        a.meta.contains_key(k) ==> a.meta[k].version == b.meta[k].version
            && a.meta[k].is_tombstone == b.meta[k].is_tombstone
}

proof fn lemma_same_winners_step(a: LwwState, b: LwwState, op: OpView, x: u128, y: u128)
    requires
        same_winners(a, b),
    ensures
        same_winners(apply_op(a, op, x), apply_op(b, op, y)),
{
    assert(a.meta.contains_key(op.key) == b.meta.contains_key(op.key)) by {
        assert(a.meta.dom().contains(op.key) == b.meta.dom().contains(op.key));
    }
    let s = apply_op(a, op, x);
    let t = apply_op(b, op, y);
    assert(s.meta.dom() =~= t.meta.dom());
    assert(s.live =~= t.live);
    assert forall|k: Seq<char>| #[trigger] s.meta.contains_key(k) implies s.meta[k].version
        == t.meta[k].version && s.meta[k].is_tombstone == t.meta[k].is_tombstone by {
        if k != op.key {
            assert(a.meta.contains_key(k));
        } else if !accepts(lookup(a.meta, op.key), op) {
            assert(a.meta.contains_key(k));
        }
    }
}

proof fn lemma_same_winners(a: LwwState, b: LwwState, ops: Seq<OpView>, x: u128, y: u128)
    requires
        same_winners(a, b),
    ensures
        same_winners(apply_all(a, ops, x), apply_all(b, ops, y)),
    decreases ops.len(),
{
    if ops.len() > 0 {
        lemma_same_winners(a, b, ops.drop_last(), x, y);
        lemma_same_winners_step(
            apply_all(a, ops.drop_last(), x),
            apply_all(b, ops.drop_last(), y),
            ops.last(),
            x,
            y,
        );
    }
}

/// Where versions are unique in a sequence, they are in a part of it.
pub proof fn lemma_part_unique(all: Seq<OpView>, part: Seq<OpView>)
    requires
        unique_versions(all),
        forall|i: int| 0 <= i < part.len() ==> all.contains(#[trigger] part[i]),
    ensures
        unique_versions(part),
        unique_payloads(part),
        unique_ids(part),
{
    assert forall|i: int, j: int|
        0 <= i < part.len() && 0 <= j < part.len() && (#[trigger] part[i]).version == (
        #[trigger] part[j]).version implies part[i] == part[j] by {
        assert(all.contains(part[i]));
        assert(all.contains(part[j]));
        let a = choose|a: int| 0 <= a < all.len() && all[a] == part[i];
        let b = choose|b: int| 0 <= b < all.len() && all[b] == part[j];
        assert(all[a] == all[b]);
    }
}

/// Last-writer-wins replicas converge: once two replicas whose logs are complete
/// have merged each other's log, they have the same live values.
pub proof fn law_lww_replicas_converge(
    a: LwwState,
    log_a: Seq<OpView>,
    b: LwwState,
    log_b: Seq<OpView>,
    x: u128,
    y: u128,
)
    requires
        consistent(a),
        covered(a.meta, log_a),
        complete(a, log_a),
        consistent(b),
        covered(b.meta, log_b),
        complete(b, log_b),
        unique_versions(log_a + log_b),
    ensures
        apply_all(a, sort_ops(unseen(log_b, log_a)), x).live == apply_all(
            b,
            sort_ops(unseen(log_a, log_b)),
            y,
        ).live,
{
    let all = log_a + log_b;
    lemma_joined_contains(log_a, log_b);
    lemma_joined_contains(log_b, log_a);
    assert forall|i: int| 0 <= i < log_a.len() implies all.contains(#[trigger] log_a[i]) by {
        assert(log_a.contains(log_a[i]));
    }
    assert forall|i: int| 0 <= i < log_b.len() implies all.contains(#[trigger] log_b[i]) by {
        assert(log_b.contains(log_b[i]));
    }
    lemma_part_unique(all, log_a);
    lemma_part_unique(all, log_b);
    lemma_part_unique(all, all);
    lemma_cross_unique(log_a, log_b);
    law_unseen_is_enough(a, log_a, log_b, x);
    law_unseen_is_enough(b, log_b, log_a, y);
    lemma_state_from_log(a, log_a, x);
    lemma_state_from_log(b, log_b, x);
    lemma_same_winners(a, apply_all(blank(), log_a, x), log_b, x, x);
    lemma_same_winners(b, apply_all(blank(), log_b, x), log_a, y, x);
    lemma_apply_all_join(blank(), log_a, log_b, x);
    lemma_apply_all_join(blank(), log_b, log_a, x);
    assert forall|op: OpView| (log_a + log_b).contains(op) <==> (log_b + log_a).contains(op) by {
        assert((log_a + log_b).contains(op) <==> log_a.contains(op) || log_b.contains(op));
        assert((log_b + log_a).contains(op) <==> log_b.contains(op) || log_a.contains(op));
    }
    law_merge_order_independent(blank(), log_a + log_b, log_b + log_a, x);
}

/// What two sequences joined hold is what one of them holds.
pub proof fn lemma_joined_contains(a: Seq<OpView>, b: Seq<OpView>)
    ensures
        forall|op: OpView| #[trigger] (a + b).contains(op) <==> a.contains(op) || b.contains(op),
{
    assert forall|op: OpView| #[trigger] (a + b).contains(op) <==> a.contains(op) || b.contains(
        op,
    ) by {
        let all = a + b;
        if all.contains(op) {
            let i = choose|i: int| 0 <= i < all.len() && all[i] == op;
            if i < a.len() {
                assert(a[i] == op);
            } else {
                assert(b[i - a.len()] == op);
            }
        }
        if a.contains(op) {
            let i = choose|i: int| 0 <= i < a.len() && a[i] == op;
            assert(all[i] == op);
        }
        if b.contains(op) {
            let i = choose|i: int| 0 <= i < b.len() && b[i] == op;
            assert(all[i + a.len()] == op);
        }
    }
}

/// Where versions are unique, operations of two sequences with one version are one.
pub proof fn lemma_cross_unique(a: Seq<OpView>, b: Seq<OpView>)
    requires
        unique_versions(a + b),
    ensures
        forall|i: int, j: int|
            0 <= i < a.len() && 0 <= j < b.len() && (#[trigger] a[i]).version == (
            #[trigger] b[j]).version ==> a[i] == b[j],
        forall|i: int, j: int|
            0 <= i < b.len() && 0 <= j < a.len() && (#[trigger] b[i]).version == (
            #[trigger] a[j]).version ==> b[i] == a[j],
{
    let all = a + b;
    assert forall|i: int, j: int|
        0 <= i < a.len() && 0 <= j < b.len() && (#[trigger] a[i]).version == (
        #[trigger] b[j]).version implies a[i] == b[j] by {
        assert(all[i] == a[i]);
        assert(all[j + a.len()] == b[j]);
    }
}

proof fn lemma_state_from_log(s: LwwState, log: Seq<OpView>, now: u128)
    requires
        consistent(s),
        covered(s.meta, log),
        complete(s, log),
        unique_ids(log),
        unique_payloads(log),
    ensures
        same_winners(s, apply_all(blank(), log, now)),
{
    law_complete_log_carries_the_state(s, log, now);
    law_unseen_is_enough(blank(), Seq::empty(), log, now);
    let t = apply_all(blank(), log, now);
    assert(t.meta.dom() == s.meta.dom());
    assert forall|k: Seq<char>| #[trigger] s.meta.contains_key(k) implies s.meta[k].version
        == t.meta[k].version && s.meta[k].is_tombstone == t.meta[k].is_tombstone by {
        assert(t.meta.dom().contains(k));
        assert(t.meta.contains_key(k));
    }
}

// ---- Rate-limit replicas ----

/// What is learned does not depend on what was known first.
pub proof fn lemma_learn_commutative(a: Option<super::epoch_max_wins::RlView>, b: Option<super::epoch_max_wins::RlView>)
    ensures
        learn(a, b) == learn(b, a),
{
    match (a, b) {
        (Some(x), Some(y)) => law_merge_commutative(x, y),
        _ => {},
    }
}

/// Rate-limit replicas converge: once two replicas whose logs say what they know
/// have merged each other's log, they know the same of every key and give its
/// readers the same bytes.
pub proof fn law_rl_replicas_converge(
    a: RlState,
    log_a: Seq<OpView>,
    b: RlState,
    log_b: Seq<OpView>,
    x: u128,
    y: u128,
    key: Seq<char>,
)
    requires
        rl_valid(a),
        log_matches(a, log_a),
        rl_valid(b),
        log_matches(b, log_b),
    ensures
        known(rl_apply_all(a, sort_ops(log_b), x), key) == known(
            rl_apply_all(b, sort_ops(log_a), y),
            key,
        ),
        rl_live(rl_apply_all(a, sort_ops(log_b), x), key) == rl_live(
            rl_apply_all(b, sort_ops(log_a), y),
            key,
        ),
{
    law_knowledge_adds_up(a, sort_ops(log_b), x, key);
    law_knowledge_adds_up(b, sort_ops(log_a), y, key);
    assert(known(a, key) == summary(group_of(log_a, key)));
    assert(known(b, key) == summary(group_of(log_b, key)));
    lemma_sorted_summary(log_a, key);
    lemma_sorted_summary(log_b, key);
    lemma_learn_commutative(known(a, key), known(b, key));
}

proof fn lemma_sorted_summary(log: Seq<OpView>, key: Seq<char>)
    ensures
        summary(group_of(sort_ops(log), key)) == summary(group_of(log, key)),
{
    lemma_sort_ops(log);
    lemma_group_members(log, key);
    lemma_group_members(sort_ops(log), key);
    let x = group_of(sort_ops(log), key);
    let y = group_of(log, key);
    assert forall|op: OpView| x.contains(op) <==> y.contains(op) by {
        assert(sort_ops(log).contains(op) <==> log.contains(op));
    }
    super::epoch_max_wins::law_summary_order_independent(x, y);
}

// ---- The map ----

/// The operations of two logs that go to the engine of a key, behind those that it
/// has.
pub open spec fn operations_for(
    m: MapView,
    key: Seq<char>,
    a: Seq<OpView>,
    b: Seq<OpView>,
) -> Seq<OpView> {
    let i = route(m.prefixes, key);
    m.slots[i].log + (bucket(m.prefixes, a, i) + bucket(m.prefixes, b, i))
}

/// Two logs can be merged in either order and at any times: the live value of
/// every key comes out the same. In a last-writer-wins engine a version has to
/// stand for one operation.
pub proof fn law_merges_commute(
    m: MapView,
    a: Seq<OpView>,
    b: Seq<OpView>,
    a_first: u128,
    b_second: u128,
    b_first: u128,
    a_second: u128,
    key: Seq<char>,
)
    requires
        m.slots.len() == m.prefixes.len() + 1,
        sound(engine_for(m, key)),
        engine_for(m, key).core is Lww ==> unique_versions(operations_for(m, key, a, b)),
    ensures
        value_of(after_merging(after_merging(m, a, a_first), b, b_second), key) == value_of(
            after_merging(after_merging(m, b, b_first), a, a_second),
            key,
        ),
{
    lemma_route(m.prefixes, key);
    let i = route(m.prefixes, key);
    let e = m.slots[i];
    let x = bucket(m.prefixes, a, i);
    let y = bucket(m.prefixes, b, i);
    if e.core is Lww {
        lemma_swapped_unique(e.log, x, y);
    }
    lemma_two_merges(e, x, y, a_first, b_second, 0, key);
    lemma_two_merges(e, y, x, b_first, a_second, 0, key);
    match e.core {
        Core::Lww(s) => {
            lemma_joined_contains(x, y);
            lemma_joined_contains(y, x);
            assert forall|op: OpView| (x + y).contains(op) <==> (y + x).contains(op) by {
                assert((x + y).contains(op) <==> x.contains(op) || y.contains(op));
                assert((y + x).contains(op) <==> y.contains(op) || x.contains(op));
            }
            law_merge_order_independent(s, x + y, y + x, 0);
        },
        Core::RateLimit(s) => {
            lemma_summary_valid(group_of(x, key));
            lemma_summary_valid(group_of(y, key));
            assert(known(s, key) matches Some(v) ==> valid(v)) by {
                if s.entries.contains_key(key) {
                }
            }
            lemma_learn_associative(known(s, key), summary(group_of(x, key)), summary(group_of(y, key)));
            lemma_learn_associative(known(s, key), summary(group_of(y, key)), summary(group_of(x, key)));
            lemma_learn_commutative(summary(group_of(x, key)), summary(group_of(y, key)));
        },
    }
}

/// Merging a log again, at whatever time, changes no live value. In a
/// last-writer-wins engine a version has to stand for one operation.
pub proof fn law_merging_again_changes_nothing(
    m: MapView,
    log: Seq<OpView>,
    now: u128,
    again: u128,
    key: Seq<char>,
)
    requires
        m.slots.len() == m.prefixes.len() + 1,
        sound(engine_for(m, key)),
        engine_for(m, key).core is Lww ==> unique_versions(operations_for(m, key, log, log)),
    ensures
        value_of(after_merging(after_merging(m, log, now), log, again), key) == value_of(
            after_merging(m, log, now),
            key,
        ),
{
    lemma_route(m.prefixes, key);
    let i = route(m.prefixes, key);
    let e = m.slots[i];
    let x = bucket(m.prefixes, log, i);
    lemma_two_merges(e, x, x, now, again, now, key);
    lemma_one_merge(e, x, now, key);
    match e.core {
        Core::Lww(s) => {
            law_merge_idempotent(s, x, now, now);
            lemma_apply_all_join(s, x, x, now);
        },
        Core::RateLimit(s) => {
            law_rl_merge_idempotent(s, x, now, now);
            law_knowledge_adds_up(s, x, now, key);
            law_knowledge_adds_up(rl_apply_all(s, x, now), x, now, key);
        },
    }
}

/// Versions stay unique when two sequences change places.
pub proof fn lemma_swapped_unique(log: Seq<OpView>, x: Seq<OpView>, y: Seq<OpView>)
    requires
        unique_versions(log + (x + y)),
    ensures
        unique_versions(log + (y + x)),
{
    lemma_joined_contains(log, x + y);
    lemma_joined_contains(log, y + x);
    lemma_joined_contains(x, y);
    lemma_joined_contains(y, x);
    let all = log + (x + y);
    let swapped = log + (y + x);
    assert forall|j: int| 0 <= j < swapped.len() implies all.contains(#[trigger] swapped[j]) by {
        assert(swapped.contains(swapped[j]));
        assert((y + x).contains(swapped[j]) ==> x.contains(swapped[j]) || y.contains(swapped[j]));
        assert((x + y).contains(swapped[j]) <== x.contains(swapped[j]) || y.contains(swapped[j]));
    }
    lemma_part_unique(all, swapped);
}

/// One merge is the application of the batch.
pub proof fn lemma_one_merge(e: EngineView, x: Seq<OpView>, now: u128, key: Seq<char>)
    requires
        sound(e),
        e.core is Lww ==> unique_versions(e.log + x) || unique_versions(e.log + (x + x)),
    ensures
        match e.core {
            Core::Lww(s) => {
                let t = after_merge(e, x, now);
                &&& t.core is Lww
                &&& t.core->Lww_0.live == apply_all(s, x, now).live
                &&& t.core->Lww_0.meta == apply_all(s, x, now).meta
            },
            Core::RateLimit(s) => {
                let t = after_merge(e, x, now);
                &&& t.core is RateLimit
                &&& rl_valid(t.core->RateLimit_0)
                &&& known(t.core->RateLimit_0, key) == learn(
                    known(s, key),
                    summary(group_of(x, key)),
                )
                &&& known(rl_apply_all(s, x, now), key) == known(t.core->RateLimit_0, key)
                &&& rl_live(rl_apply_all(s, x, now), key) == rl_live(t.core->RateLimit_0, key)
            },
        },
{
    match e.core {
        Core::Lww(s) => {
            if !unique_versions(e.log + x) {
                lemma_joined_contains(x, x);
                lemma_joined_contains(e.log, x + x);
                lemma_joined_contains(e.log, x);
                let all = e.log + (x + x);
                let part = e.log + x;
                assert forall|j: int| 0 <= j < part.len() implies all.contains(#[trigger] part[j]) by {
                    assert(part.contains(part[j]));
                    assert((x + x).contains(part[j]) <== x.contains(part[j]));
                }
                lemma_part_unique(all, part);
            }
            lemma_joined_contains(e.log, x);
            lemma_cross_unique(e.log, x);
            let all = e.log + x;
            assert forall|j: int| 0 <= j < x.len() implies all.contains(#[trigger] x[j]) by {
                assert(x.contains(x[j]));
            }
            lemma_part_unique(all, x);
            law_unseen_is_enough(s, e.log, x, now);
        },
        Core::RateLimit(s) => {
            law_knowledge_adds_up(s, sort_ops(x), now, key);
            law_knowledge_adds_up(s, x, now, key);
            lemma_sorted_summary(x, key);
        },
    }
}

/// Two merges are the application of both batches, whatever the times.
pub proof fn lemma_two_merges(
    e: EngineView,
    x: Seq<OpView>,
    y: Seq<OpView>,
    now: u128,
    later: u128,
    any: u128,
    key: Seq<char>,
)
    requires
        sound(e),
        e.core is Lww ==> unique_versions(e.log + (x + y)),
    ensures
        match e.core {
            Core::Lww(s) => {
                &&& live_value(after_merge(after_merge(e, x, now), y, later), key) == lookup(
                    apply_all(s, x + y, any).live,
                    key,
                )
                &&& unique_payloads(x + y)
            },
            Core::RateLimit(s) => {
                let t = after_merge(after_merge(e, x, now), y, later);
                &&& t.core is RateLimit
                &&& known(t.core->RateLimit_0, key) == learn(
                    learn(known(s, key), summary(group_of(x, key))),
                    summary(group_of(y, key)),
                )
                &&& live_value(t, key) == rl_live(t.core->RateLimit_0, key)
            },
        },
{
    let all = e.log + (x + y);
    lemma_joined_contains(e.log, x + y);
    lemma_joined_contains(x, y);
    lemma_joined_contains(e.log, x);
    let first = e.log + x;
    assert forall|j: int| 0 <= j < first.len() implies all.contains(#[trigger] first[j]) by {
        assert(first.contains(first[j]));
        assert((x + y).contains(first[j]) <== x.contains(first[j]));
    }
    if e.core is Lww {
        lemma_part_unique(all, first);
    }
    lemma_one_merge(e, x, now, key);
    let mid = after_merge(e, x, now);
    match e.core {
        Core::Lww(s) => {
            let fresh = applied_ops(e, x);
            let one = mid.core->Lww_0;
            let p = |op: OpView| !seen_in(e.log, op.version);
            lemma_sort_ops(unseen(x, e.log));
            assert forall|op: OpView| fresh.contains(op) implies x.contains(op) by {
                lemma_filter_members(x, p, op);
                assert(fresh.contains(op) <==> unseen(x, e.log).contains(op));
            }
            lemma_joined_contains(e.log, fresh);
            lemma_lww_compacted_subset(e.log + fresh);
            assert forall|op: OpView| #[trigger] mid.log.contains(op) implies e.log.contains(op)
                || x.contains(op) by {
                if fresh.len() > 0 {
                    assert((e.log + fresh).contains(op));
                }
            }
            lemma_apply_all_monotone(s, x, now);
            assert(covered(one.meta, mid.log)) by {
                assert forall|j: int| 0 <= j < mid.log.len() implies !accepts(
                    lookup(one.meta, (#[trigger] mid.log[j]).key),
                    mid.log[j],
                ) by {
                    let op = mid.log[j];
                    assert(mid.log.contains(op));
                    if e.log.contains(op) {
                        let n = choose|n: int| 0 <= n < e.log.len() && e.log[n] == op;
                        assert(!accepts(lookup(s.meta, e.log[n].key), e.log[n]));
                    } else {
                        let n = choose|n: int| 0 <= n < x.len() && x[n] == op;
                        assert(!accepts(lookup(apply_all(s, x, now).meta, x[n].key), x[n]));
                    }
                }
            }
            assert(consistent(one));
            let second = mid.log + y;
            lemma_joined_contains(mid.log, y);
            assert forall|j: int| 0 <= j < second.len() implies all.contains(#[trigger] second[j]) by {
                assert(second.contains(second[j]));
                assert((x + y).contains(second[j]) <== x.contains(second[j]) || y.contains(
                    second[j],
                ));
            }
            lemma_part_unique(all, second);
            lemma_one_merge(mid, y, later, key);
            let base = apply_all(s, x, any);
            lemma_same_winners(s, s, x, now, any);
            assert(same_winners(one, base));
            lemma_same_winners(one, base, y, later, any);
            lemma_apply_all_join(s, x, y, any);
            assert forall|j: int| 0 <= j < (x + y).len() implies all.contains(
                #[trigger] (x + y)[j],
            ) by {
                assert((x + y).contains((x + y)[j]));
            }
            lemma_part_unique(all, x + y);
        },
        Core::RateLimit(s) => {
            let one = mid.core->RateLimit_0;
            law_knowledge_adds_up(one, sort_ops(y), later, key);
            lemma_sorted_summary(y, key);
        },
    }
}

} // verus!
