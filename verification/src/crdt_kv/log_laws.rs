//! What merging does to the logs.
use super::crdt::{
    after_merging, bucket, engine_reports, joined_log, lemma_route, route, value_of, MapView,
};
use super::crdt_laws::{
    law_merges_commute, lemma_cross_unique, lemma_joined_contains, lemma_learn_commutative,
    lemma_one_merge, lemma_part_unique, lemma_swapped_unique, sound, unique_versions,
};
use super::engine::any::{after_merge, applied_ops, live_value, Core, EngineView};
use super::engine::lww::{
    accepts, covered, lemma_apply_all_monotone, lemma_lww_compacted_subset, lww_model,
    seen_in, unseen,
};
use super::engine::lww_laws::{law_merge_idempotent, lemma_lww_keeps_key};
use super::engine::rate_limit_laws::{
    known, law_rl_merge_idempotent, lemma_compaction_keeps_summary, lemma_learn_associative,
};
use super::epoch_max_wins::{
    epoch_model, learn, lemma_merged_valid, lemma_summary_valid, op_says, summary, valid, RlView,
};
use super::kv_store::{bumped, lookup};
use super::operation::{
    compacted, group_of, key_list, lemma_compacted_group, lemma_filter_members,
    lemma_group_members, lemma_key_list, lemma_newest, lemma_sort_ops, mentions, sort_ops,
    winners_of, ChangeView, OpView,
};
use crate::text::lemma_str_before_total_order;
use vstd::prelude::*;

verus! {

// ---- Of which keys a log speaks ----

/// An operation tells something to an engine: any to a last-writer-wins engine,
/// and one that can be read to a rate-limit engine.
pub open spec fn tells(lww: bool, op: OpView) -> bool {
    lww || op_says(op) is Some
}

/// A log tells something of a key.
pub open spec fn speaks_of(lww: bool, log: Seq<OpView>, key: Seq<char>) -> bool {
    exists|op: OpView| #[trigger] log.contains(op) && op.key == key && tells(lww, op)
}

/// The keys of which a log tells something.
pub open spec fn spoken_keys(lww: bool, log: Seq<OpView>) -> Set<Seq<char>> {
    Set::new(|key: Seq<char>| speaks_of(lww, log, key))
}

/// How an engine compacts its log.
pub open spec fn fold_of(lww: bool) -> spec_fn(Seq<OpView>) -> Option<OpView> {
    if lww {
        lww_model()
    } else {
        epoch_model()
    }
}

proof fn lemma_summary_iff(ops: Seq<OpView>)
    ensures
        summary(ops) is Some <==> exists|op: OpView| #[trigger] ops.contains(op) && op_says(
            op,
        ) is Some,
    decreases ops.len(),
{
    if ops.len() > 0 {
        let init = ops.drop_last();
        lemma_summary_iff(init);
        assert(ops[ops.len() - 1] == ops.last());
        assert(ops.contains(ops.last()));
        if summary(ops) is Some && op_says(ops.last()) is None {
            let op = choose|op: OpView| #[trigger] init.contains(op) && op_says(op) is Some;
            let i = choose|i: int| 0 <= i < init.len() && init[i] == op;
            assert(ops[i] == op);
            assert(ops.contains(op));
        }
        if exists|op: OpView| #[trigger] ops.contains(op) && op_says(op) is Some {
            let op = choose|op: OpView| #[trigger] ops.contains(op) && op_says(op) is Some;
            let i = choose|i: int| 0 <= i < ops.len() && ops[i] == op;
            if i < init.len() {
                assert(init[i] == op);
                assert(init.contains(op));
            }
        }
    }
}

/// The fold leaves something of the keys of which the log tells something.
proof fn lemma_fold_speaks(lww: bool, log: Seq<OpView>, key: Seq<char>)
    ensures
        fold_of(lww)(group_of(log, key)) is Some <==> speaks_of(lww, log, key),
{
    let group = group_of(log, key);
    lemma_group_members(log, key);
    if lww {
        lemma_newest(group);
        if group.len() > 0 {
            assert(group.contains(group[0]));
            assert(log.contains(group[0]));
        }
        if speaks_of(lww, log, key) {
            let op = choose|op: OpView| #[trigger] log.contains(op) && op.key == key && tells(
                lww,
                op,
            );
            assert(group.contains(op));
        }
    } else {
        lemma_summary_iff(group);
        if summary(group) is Some {
            let op = choose|op: OpView| #[trigger] group.contains(op) && op_says(op) is Some;
            assert(log.contains(op));
        }
        if speaks_of(lww, log, key) {
            let op = choose|op: OpView| #[trigger] log.contains(op) && op.key == key && tells(
                lww,
                op,
            );
            assert(group.contains(op));
        }
    }
}

proof fn lemma_winners_count(
    ops: Seq<OpView>,
    keys: Seq<Seq<char>>,
    fold: spec_fn(Seq<OpView>) -> Option<OpView>,
)
    requires
        keys.no_duplicates(),
    ensures
        ({
            let left = Set::new(
                |k: Seq<char>| keys.contains(k) && fold(group_of(ops, k)) is Some,
            );
            left.finite() && left.len() == winners_of(ops, keys, fold).len()
        }),
    decreases keys.len(),
{
    let f = |key: Seq<char>| fold(group_of(ops, key));
    let left = Set::new(|k: Seq<char>| keys.contains(k) && fold(group_of(ops, k)) is Some);
    if keys.len() == 0 {
        assert(left =~= Set::<Seq<char>>::empty());
        assert(keys.map_values(f).len() == 0);
    } else {
        let init = keys.drop_last();
        let last = keys.last();
        let before = Set::new(|k: Seq<char>| init.contains(k) && fold(group_of(ops, k)) is Some);
        assert(init.no_duplicates());
        lemma_winners_count(ops, init, fold);
        assert(keys.map_values(f).drop_last() =~= init.map_values(f));
        assert(keys.map_values(f).last() == f(last));
        assert(keys[keys.len() - 1] == last);
        assert forall|k: Seq<char>| keys.contains(k) <==> init.contains(k) || k == last by {
            if keys.contains(k) {
                let i = choose|i: int| 0 <= i < keys.len() && keys[i] == k;
                if i < init.len() {
                    assert(init[i] == k);
                }
            }
            if init.contains(k) {
                let i = choose|i: int| 0 <= i < init.len() && init[i] == k;
                assert(keys[i] == k);
            }
        }
        assert(!init.contains(last)) by {
            if init.contains(last) {
                let i = choose|i: int| 0 <= i < init.len() && init[i] == last;
                assert(keys[i] == keys[keys.len() - 1]);
            }
        }
        if f(last) is Some {
            assert(left =~= before.insert(last));
        } else {
            assert(left =~= before);
        }
    }
}

/// A compacted log has one operation for each key of which the log tells something,
/// and tells something of the same keys.
proof fn lemma_compacted_speaks(lww: bool, log: Seq<OpView>)
    ensures
        spoken_keys(lww, log).finite(),
        compacted(log, fold_of(lww)).len() == spoken_keys(lww, log).len(),
        spoken_keys(lww, compacted(log, fold_of(lww))) == spoken_keys(lww, log),
{
    let fold = fold_of(lww);
    let keys = key_list(log);
    let short = compacted(log, fold);
    lemma_key_list(log);
    assert(keys.no_duplicates()) by {
        assert forall|i: int, j: int| 0 <= i < keys.len() && 0 <= j < keys.len() && i != j implies
            keys[i] != keys[j] by {
            if i < j {
                lemma_str_before_total_order(keys[i], keys[j], keys[i]);
            } else {
                lemma_str_before_total_order(keys[j], keys[i], keys[j]);
            }
        }
    }
    lemma_winners_count(log, keys, fold);
    lemma_sort_ops(winners_of(log, keys, fold));
    let left = Set::new(|k: Seq<char>| keys.contains(k) && fold(group_of(log, k)) is Some);
    assert forall|k: Seq<char>| left.contains(k) <==> speaks_of(lww, log, k) by {
        lemma_fold_speaks(lww, log, k);
        if speaks_of(lww, log, k) {
            let op = choose|op: OpView| #[trigger] log.contains(op) && op.key == k && tells(lww, op);
            let i = choose|i: int| 0 <= i < log.len() && log[i] == op;
            assert(mentions(log, k));
        }
    }
    assert(left =~= spoken_keys(lww, log));
    assert forall|k: Seq<char>| speaks_of(lww, short, k) <==> speaks_of(lww, log, k) by {
        lemma_fold_speaks(lww, log, k);
        lemma_fold_speaks(lww, short, k);
        if lww {
            lemma_lww_keeps_key();
            lemma_compacted_group(log, fold, k);
            lemma_group_members(log, k);
            let group = group_of(log, k);
            lemma_newest(group);
            lemma_newest(group_of(short, k));
        } else {
            lemma_compaction_keeps_summary(log, k);
        }
    }
    assert(spoken_keys(lww, short) =~= spoken_keys(lww, log));
}

proof fn lemma_joined_speaks(lww: bool, a: Seq<OpView>, b: Seq<OpView>)
    ensures
        spoken_keys(lww, a + b) == spoken_keys(lww, a).union(spoken_keys(lww, b)),
{
    lemma_joined_contains(a, b);
    assert forall|k: Seq<char>| speaks_of(lww, a + b, k) <==> speaks_of(lww, a, k) || speaks_of(
        lww,
        b,
        k,
    ) by {
        if speaks_of(lww, a, k) {
            let op = choose|op: OpView| #[trigger] a.contains(op) && op.key == k && tells(lww, op);
            assert((a + b).contains(op));
        }
        if speaks_of(lww, b, k) {
            let op = choose|op: OpView| #[trigger] b.contains(op) && op.key == k && tells(lww, op);
            assert((a + b).contains(op));
        }
        if speaks_of(lww, a + b, k) {
            let op = choose|op: OpView|
                #[trigger] (a + b).contains(op) && op.key == k && tells(lww, op);
            assert(a.contains(op) || b.contains(op));
        }
    }
    assert(spoken_keys(lww, a + b) =~= spoken_keys(lww, a).union(spoken_keys(lww, b)));
}

// ---- One merge ----

/// The log has one operation for each key of which it tells something.
pub open spec fn is_compact(e: EngineView) -> bool {
    e.log.len() == spoken_keys(e.core is Lww, e.log).len()
}

/// A merge adds the keys of which the batch tells something, and compacts the log
/// where it applies anything.
proof fn lemma_merge_speaks(e: EngineView, x: Seq<OpView>, now: u128)
    requires
        e.core is Lww ==> unique_versions(e.log + x),
    ensures
        ({
            let lww = e.core is Lww;
            let t = after_merge(e, x, now);
            &&& (t.core is Lww) == lww
            &&& spoken_keys(lww, t.log) == spoken_keys(lww, e.log).union(spoken_keys(lww, x))
            &&& applied_ops(e, x).len() > 0 ==> is_compact(t)
            &&& applied_ops(e, x).len() == 0 ==> t == e
        }),
{
    let lww = e.core is Lww;
    let t = after_merge(e, x, now);
    let applied = applied_ops(e, x);
    lemma_joined_speaks(lww, e.log, applied);
    lemma_compacted_speaks(lww, e.log + applied);
    let p = |op: OpView| !seen_in(e.log, op.version);
    if lww {
        lemma_sort_ops(unseen(x, e.log));
        lemma_cross_unique(e.log, x);
    } else {
        lemma_sort_ops(x);
    }
    assert forall|op: OpView| #[trigger] x.contains(op) <==> applied.contains(op) || (x.contains(op)
        && e.log.contains(op)) by {
        if lww {
            lemma_filter_members(x, p, op);
            assert(applied.contains(op) <==> unseen(x, e.log).contains(op));
            if x.contains(op) && seen_in(e.log, op.version) {
                let i = choose|i: int| 0 <= i < e.log.len() && #[trigger] e.log[i].version
                    == op.version;
                let j = choose|j: int| 0 <= j < x.len() && x[j] == op;
                assert(e.log[i] == x[j]);
                assert(e.log.contains(op));
            }
        } else {
            assert(applied.contains(op) <==> x.contains(op));
        }
    }
    let all = spoken_keys(lww, e.log).union(spoken_keys(lww, x));
    assert forall|k: Seq<char>|
        speaks_of(lww, e.log, k) || speaks_of(lww, x, k) <==> speaks_of(lww, e.log, k) || speaks_of(
            lww,
            applied,
            k,
        ) by {
        if speaks_of(lww, x, k) {
            let op = choose|op: OpView| #[trigger] x.contains(op) && op.key == k && tells(lww, op);
            assert(applied.contains(op) || e.log.contains(op));
        }
        if speaks_of(lww, applied, k) {
            let op = choose|op: OpView|
                #[trigger] applied.contains(op) && op.key == k && tells(lww, op);
            assert(x.contains(op));
        }
    }
    assert(all =~= spoken_keys(lww, e.log + applied));
    if applied.len() == 0 {
        assert(e.log + applied =~= e.log);
    }
}

/// What a merge leaves in a last-writer-wins log was there or is of the batch.
proof fn lemma_merge_unique(e: EngineView, x: Seq<OpView>, y: Seq<OpView>, now: u128)
    requires
        e.core is Lww,
        unique_versions(e.log + (x + y)),
    ensures
        unique_versions(e.log + x),
        unique_versions(after_merge(e, x, now).log + y),
        unique_versions(after_merge(e, x, now).log + (x + y)),
{
    let all = e.log + (x + y);
    let t = after_merge(e, x, now);
    let fresh = applied_ops(e, x);
    let p = |op: OpView| !seen_in(e.log, op.version);
    lemma_joined_contains(e.log, x + y);
    lemma_joined_contains(x, y);
    lemma_joined_contains(e.log, x);
    lemma_joined_contains(t.log, y);
    lemma_joined_contains(t.log, x + y);
    lemma_joined_contains(e.log, fresh);
    lemma_sort_ops(unseen(x, e.log));
    lemma_lww_compacted_subset(e.log + fresh);
    assert forall|op: OpView| #[trigger] t.log.contains(op) implies e.log.contains(op) || x.contains(
        op,
    ) by {
        if fresh.len() > 0 {
            assert((e.log + fresh).contains(op));
            if fresh.contains(op) {
                assert(unseen(x, e.log).contains(op));
                lemma_filter_members(x, p, op);
            }
        }
    }
    let one = e.log + x;
    assert forall|j: int| 0 <= j < one.len() implies all.contains(#[trigger] one[j]) by {
        assert(one.contains(one[j]));
        assert((x + y).contains(one[j]) <== x.contains(one[j]));
    }
    lemma_part_unique(all, one);
    let two = t.log + y;
    assert forall|j: int| 0 <= j < two.len() implies all.contains(#[trigger] two[j]) by {
        assert(two.contains(two[j]));
        assert((x + y).contains(two[j]) <== x.contains(two[j]) || y.contains(two[j]));
    }
    lemma_part_unique(all, two);
    let three = t.log + (x + y);
    assert forall|j: int| 0 <= j < three.len() implies all.contains(#[trigger] three[j]) by {
        assert(three.contains(three[j]));
        assert((x + y).contains(three[j]) <== x.contains(three[j]));
    }
    lemma_part_unique(all, three);
}

/// Where a log tells something of all keys of a batch and is compact, or nothing of
/// the batch is applied, a merge leaves it as long as it was.
proof fn lemma_no_longer(e: EngineView, x: Seq<OpView>, now: u128)
    requires
        e.core is Lww ==> unique_versions(e.log + x),
        spoken_keys(e.core is Lww, x).subset_of(spoken_keys(e.core is Lww, e.log)),
        is_compact(e) || applied_ops(e, x).len() == 0,
    ensures
        after_merge(e, x, now).log.len() == e.log.len(),
        is_compact(e) ==> is_compact(after_merge(e, x, now)),
{
    let lww = e.core is Lww;
    lemma_merge_speaks(e, x, now);
    assert(spoken_keys(lww, e.log).union(spoken_keys(lww, x)) =~= spoken_keys(lww, e.log));
}

/// Merging the same operations again is idle: what is known, and with it every
/// value, key and counter of changes, stays as it is, nothing is reported, and the
/// log stays as long as it was. In a last-writer-wins engine a version has to stand
/// for one operation. A rate-limit engine counts that its log was written again.
pub proof fn law_merging_again_is_idle(e: EngineView, ops: Seq<OpView>, now: u128, again: u128)
    requires
        sound(e),
        e.core is Lww ==> unique_versions(e.log + ops),
    ensures
        ({
            let once = after_merge(e, ops, now);
            let twice = after_merge(once, ops, again);
            &&& twice.core == once.core
            &&& twice.log.len() == once.log.len()
            &&& forall|changes: Seq<ChangeView>| #[trigger]
                engine_reports(changes, once, twice) ==> changes.len() == 0
            &&& e.core is RateLimit && ops.len() > 0 ==> twice.log_changes == bumped(
                once.log_changes,
            )
        }),
{
    let lww = e.core is Lww;
    let once = after_merge(e, ops, now);
    let twice = after_merge(once, ops, again);
    lemma_merge_speaks(e, ops, now);
    match e.core {
        Core::Lww(s) => {
            lemma_joined_contains(ops, Seq::empty());
            assert(ops + Seq::<OpView>::empty() =~= ops);
            lemma_merge_unique(e, ops, Seq::empty(), now);
            lemma_one_merge(e, ops, now, Seq::empty());
            lemma_apply_all_monotone(s, ops, now);
            lemma_covered_merge_is_idle(once, ops, again);
        },
        Core::RateLimit(s) => {
            lemma_sort_ops(ops);
            law_rl_merge_idempotent(s, sort_ops(ops), now, again);
        },
    }
    lemma_no_longer(once, ops, again);
    assert forall|changes: Seq<ChangeView>| #[trigger]
        engine_reports(changes, once, twice) implies changes.len() == 0 by {
        if changes.len() > 0 {
            assert(live_value(once, changes[0].key) == live_value(twice, changes[0].key));
        }
    }
}

/// A last-writer-wins engine stays as it is where it covers a batch.
proof fn lemma_covered_merge_is_idle(e: EngineView, x: Seq<OpView>, now: u128)
    requires
        e.core is Lww,
        covered(e.core->Lww_0.meta, x),
    ensures
        after_merge(e, x, now).core == e.core,
{
    let s = e.core->Lww_0;
    let applied = applied_ops(e, x);
    let p = |op: OpView| !seen_in(e.log, op.version);
    lemma_sort_ops(unseen(x, e.log));
    assert forall|i: int| 0 <= i < applied.len() implies !accepts(
        lookup(s.meta, (#[trigger] applied[i]).key),
        applied[i],
    ) by {
        let op = applied[i];
        assert(applied.contains(op));
        assert(unseen(x, e.log).contains(op));
        lemma_filter_members(x, p, op);
        let j = choose|j: int| 0 <= j < x.len() && x[j] == op;
        assert(!accepts(lookup(s.meta, x[j].key), x[j]));
    }
    law_merge_idempotent(s, applied, now, now);
}

// ---- Merges in another order ----

proof fn lemma_two_merges_speak(
    e: EngineView,
    x: Seq<OpView>,
    y: Seq<OpView>,
    now: u128,
    later: u128,
)
    requires
        e.core is Lww ==> unique_versions(e.log + (x + y)),
    ensures
        ({
            let lww = e.core is Lww;
            let t = after_merge(after_merge(e, x, now), y, later);
            &&& (t.core is Lww) == lww
            &&& spoken_keys(lww, t.log) == spoken_keys(lww, e.log).union(
                spoken_keys(lww, x),
            ).union(spoken_keys(lww, y))
            &&& applied_ops(e, x).len() > 0 || applied_ops(e, y).len() > 0 ==> is_compact(t)
            &&& applied_ops(e, x).len() == 0 && applied_ops(e, y).len() == 0 ==> t == e
            &&& lww ==> unique_versions(t.log + x)
        }),
{
    let mid = after_merge(e, x, now);
    if e.core is Lww {
        lemma_merge_unique(e, x, y, now);
    }
    lemma_merge_speaks(e, x, now);
    lemma_merge_speaks(mid, y, later);
    if e.core is Lww {
        lemma_swapped_unique(mid.log, x, y);
        lemma_merge_unique(mid, y, x, later);
    }
}

/// Two batches leave a log of the same length in either order, also where the first
/// comes once more.
proof fn lemma_merged_logs_as_long(
    e: EngineView,
    x: Seq<OpView>,
    y: Seq<OpView>,
    x_first: u128,
    y_second: u128,
    x_again: u128,
    y_first: u128,
    x_second: u128,
)
    requires
        e.core is Lww ==> unique_versions(e.log + (x + y)),
    ensures
        ({
            let one = after_merge(after_merge(e, x, x_first), y, y_second);
            let two = after_merge(after_merge(e, y, y_first), x, x_second);
            &&& one.log.len() == two.log.len()
            &&& after_merge(one, x, x_again).log.len() == two.log.len()
        }),
{
    let lww = e.core is Lww;
    let one = after_merge(after_merge(e, x, x_first), y, y_second);
    let two = after_merge(after_merge(e, y, y_first), x, x_second);
    if lww {
        lemma_swapped_unique(e.log, x, y);
    }
    lemma_two_merges_speak(e, x, y, x_first, y_second);
    lemma_two_merges_speak(e, y, x, y_first, x_second);
    assert(spoken_keys(lww, one.log) =~= spoken_keys(lww, two.log));
    lemma_no_longer(one, x, x_again);
}

/// A batch that comes once more after another one changes no live value.
proof fn lemma_repeat_after_another(
    e: EngineView,
    x: Seq<OpView>,
    y: Seq<OpView>,
    now: u128,
    later: u128,
    again: u128,
    key: Seq<char>,
)
    requires
        sound(e),
        e.core is Lww ==> unique_versions(e.log + (x + y)),
    ensures
        ({
            let t = after_merge(after_merge(e, x, now), y, later);
            live_value(after_merge(t, x, again), key) == live_value(t, key)
        }),
{
    let mid = after_merge(e, x, now);
    let t = after_merge(mid, y, later);
    if e.core is Lww {
        lemma_merge_unique(e, x, y, now);
    }
    lemma_one_merge(e, x, now, key);
    match e.core {
        Core::Lww(s) => {
            let one = mid.core->Lww_0;
            let two = t.core->Lww_0;
            let applied = applied_ops(mid, y);
            lemma_apply_all_monotone(s, x, now);
            lemma_apply_all_monotone(one, applied, later);
            assert(covered(two.meta, x)) by {
                assert forall|i: int| 0 <= i < x.len() implies !accepts(
                    lookup(two.meta, (#[trigger] x[i]).key),
                    x[i],
                ) by {
                    assert(!accepts(lookup(one.meta, x[i].key), x[i]));
                }
            }
            lemma_covered_merge_is_idle(t, x, again);
        },
        Core::RateLimit(s) => {
            let one = mid.core->RateLimit_0;
            lemma_one_merge(mid, y, later, key);
            lemma_one_merge(t, x, again, key);
            let k = known(s, key);
            let p = summary(group_of(x, key));
            let q = summary(group_of(y, key));
            lemma_summary_valid(group_of(x, key));
            lemma_summary_valid(group_of(y, key));
            assert(k matches Some(v) ==> valid(v)) by {
                if s.entries.contains_key(key) {
                }
            }
            lemma_learn_valid(p, q);
            lemma_learn_associative(k, p, q);
            lemma_learn_associative(k, learn(p, q), p);
            lemma_learn_commutative(learn(p, q), p);
            lemma_learn_associative(p, p, q);
            lemma_learn_idempotent(p);
        },
    }
}

proof fn lemma_learn_valid(a: Option<RlView>, b: Option<RlView>)
    requires
        a matches Some(v) ==> valid(v),
        b matches Some(v) ==> valid(v),
    ensures
        learn(a, b) matches Some(v) ==> valid(v),
{
    match (a, b) {
        (Some(x), Some(y)) => lemma_merged_valid(x, y),
        _ => {},
    }
}

proof fn lemma_learn_idempotent(a: Option<RlView>)
    requires
        a matches Some(v) ==> valid(v),
    ensures
        learn(a, a) == a,
{
    if let Some(v) = a {
        super::epoch_max_wins::law_merge_idempotent(v);
    }
}

proof fn lemma_joined_as_long(a: Seq<EngineView>, b: Seq<EngineView>)
    requires
        a.len() == b.len(),
        forall|i: int| 0 <= i < a.len() ==> (#[trigger] a[i]).log.len() == b[i].log.len(),
    ensures
        joined_log(a).len() == joined_log(b).len(),
    decreases a.len(),
{
    if a.len() > 0 {
        assert forall|i: int| 0 <= i < a.drop_last().len() implies (#[trigger]
        a.drop_last()[i]).log.len() == b.drop_last()[i].log.len() by {
            assert(a[i].log.len() == b[i].log.len());
        }
        lemma_joined_as_long(a.drop_last(), b.drop_last());
        assert(a[a.len() - 1].log.len() == b[b.len() - 1].log.len());
    }
}

/// In every last-writer-wins engine of a map, a version stands for one operation
/// among those of the engine and those that two logs bring to it.
pub open spec fn unique_throughout(m: MapView, a: Seq<OpView>, b: Seq<OpView>) -> bool {
    forall|i: int|
        0 <= i < m.slots.len() && (#[trigger] m.slots[i]).core is Lww ==> unique_versions(
            m.slots[i].log + (bucket(m.prefixes, a, i) + bucket(m.prefixes, b, i)),
        )
}

/// Replicas that merged the same two logs agree, whatever the order, the times and
/// the repetitions: every key has the same value, and the operation logs are of the
/// same length.
pub proof fn law_same_logs_same_map(
    m: MapView,
    a: Seq<OpView>,
    b: Seq<OpView>,
    a_first: u128,
    b_second: u128,
    a_again: u128,
    b_first: u128,
    a_second: u128,
)
    requires
        m.slots.len() == m.prefixes.len() + 1,
        forall|i: int| 0 <= i < m.slots.len() ==> sound(#[trigger] m.slots[i]),
        unique_throughout(m, a, b),
    ensures
        ({
            let one = after_merging(after_merging(m, a, a_first), b, b_second);
            let more = after_merging(one, a, a_again);
            let two = after_merging(after_merging(m, b, b_first), a, a_second);
            &&& joined_log(one.slots).len() == joined_log(two.slots).len()
            &&& joined_log(more.slots).len() == joined_log(two.slots).len()
            &&& forall|key: Seq<char>| #[trigger] value_of(one, key) == value_of(two, key)
            &&& forall|key: Seq<char>| #[trigger] value_of(more, key) == value_of(two, key)
        }),
{
    let one = after_merging(after_merging(m, a, a_first), b, b_second);
    let more = after_merging(one, a, a_again);
    let two = after_merging(after_merging(m, b, b_first), a, a_second);
    assert forall|i: int| 0 <= i < m.slots.len() implies (#[trigger] one.slots[i]).log.len()
        == two.slots[i].log.len() && more.slots[i].log.len() == two.slots[i].log.len() by {
        let x = bucket(m.prefixes, a, i);
        let y = bucket(m.prefixes, b, i);
        lemma_merged_logs_as_long(
            m.slots[i],
            x,
            y,
            a_first,
            b_second,
            a_again,
            b_first,
            a_second,
        );
    }
    lemma_joined_as_long(one.slots, two.slots);
    assert forall|i: int| 0 <= i < more.slots.len() implies (#[trigger] more.slots[i]).log.len()
        == two.slots[i].log.len() by {
        assert(one.slots[i].log.len() == two.slots[i].log.len());
    }
    lemma_joined_as_long(more.slots, two.slots);
    assert forall|key: Seq<char>| #[trigger] value_of(one, key) == value_of(two, key) by {
        lemma_route(m.prefixes, key);
        assert(sound(m.slots[route(m.prefixes, key)]));
        law_merges_commute(m, a, b, a_first, b_second, b_first, a_second, key);
    }
    assert forall|key: Seq<char>| #[trigger] value_of(more, key) == value_of(two, key) by {
        lemma_route(m.prefixes, key);
        let i = route(m.prefixes, key);
        assert(sound(m.slots[i]));
        lemma_repeat_after_another(
            m.slots[i],
            bucket(m.prefixes, a, i),
            bucket(m.prefixes, b, i),
            a_first,
            b_second,
            a_again,
            key,
        );
        assert(value_of(one, key) == value_of(two, key));
    }
}

} // verus!
