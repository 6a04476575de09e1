//! What the rate-limit engine guarantees of replicas that merge.
use super::super::epoch_max_wins::{
    after, dominates, epoch_model, folded, frontier, later, law_fold_preserves,
    law_merge_associative, law_summary_order_independent, learn, lemma_first_point_is_largest,
    lemma_frontier_covers, lemma_merged_valid, lemma_op_says_valid, lemma_summary_valid,
    lemma_valid, merged, op_says, stairs, summary, valid, LivePoint, RlView,
};
use super::super::kv_store::lookup;
use super::super::operation::{
    compacted, group_of, keeps_key, key_list, lemma_compacted_by_folds, lemma_compacted_group,
    lemma_group_empty, lemma_group_members, lemma_group_push, lemma_key_list, lemma_sort_ops,
    mentions, somes, sort_ops, winners_of, OpView,
};
use super::super::replica::Version;
use super::rate_limit::{is_dead, is_news, rl_apply, rl_apply_all, rl_live, rl_valid, RlState};
use super::{appended, COMPACT_FLOOR};
use crate::text::lemma_str_before_total_order;
use vstd::prelude::*;

verus! {

/// What is known of a key.
pub open spec fn known(s: RlState, key: Seq<char>) -> Option<RlView> {
    match lookup(s.entries, key) {
        Some(e) => Some(e.known),
        None => None,
    }
}

/// Entries stay valid.
pub proof fn lemma_rl_valid_apply(s: RlState, op: OpView, now: u128)
    requires
        rl_valid(s),
    ensures
        rl_valid(rl_apply(s, op, now)),
        known(rl_apply(s, op, now), op.key) == learn(known(s, op.key), op_says(op)),
        forall|k: Seq<char>| k != op.key ==> #[trigger] known(rl_apply(s, op, now), k) == known(s, k),
{
    lemma_op_says_valid(op);
    if s.entries.contains_key(op.key) && op_says(op) is Some {
        lemma_merged_valid(s.entries[op.key].known, op_says(op).unwrap());
        let m = merged(s.entries[op.key].known, op_says(op).unwrap());
        lemma_valid(m);
        lemma_valid(s.entries[op.key].known);
    }
    if op_says(op) is Some {
        lemma_valid(op_says(op).unwrap());
    }
    let t = rl_apply(s, op, now);
    assert forall|k: Seq<char>| #[trigger] t.entries.contains_key(k) implies valid(
        t.entries[k].known,
    ) && (t.entries[k].tombstoned_at is Some) == is_dead(t.entries[k].known) by {
        if k != op.key {
            assert(s.entries.contains_key(k));
        }
    }
}

/// Learning one thing after another is learning both together.
pub proof fn lemma_learn_associative(a: Option<RlView>, b: Option<RlView>, c: Option<RlView>)
    requires
        a matches Some(v) ==> valid(v),
        b matches Some(v) ==> valid(v),
        c matches Some(v) ==> valid(v),
    ensures
        learn(learn(a, b), c) == learn(a, learn(b, c)),
{
    match (a, b, c) {
        (Some(x), Some(y), Some(z)) => {
            lemma_valid(x);
            lemma_valid(y);
            lemma_valid(z);
            law_merge_associative(x, y, z);
        },
        _ => {},
    }
}

/// What is known of a key after operations were applied is what was known and
/// what the operations on it say together.
pub proof fn law_knowledge_adds_up(s: RlState, ops: Seq<OpView>, now: u128, key: Seq<char>)
    requires
        rl_valid(s),
    ensures
        rl_valid(rl_apply_all(s, ops, now)),
        known(rl_apply_all(s, ops, now), key) == learn(known(s, key), summary(group_of(ops, key))),
    decreases ops.len(),
{
    reveal(Seq::filter);
    if ops.len() > 0 {
        let init = ops.drop_last();
        let last = ops.last();
        let mid = rl_apply_all(s, init, now);
        law_knowledge_adds_up(s, init, now, key);
        lemma_rl_valid_apply(mid, last, now);
        assert(ops =~= init.push(last));
        lemma_group_push(init, last, key);
        if last.key == key {
            let group = group_of(init, key);
            assert(group.push(last).drop_last() =~= group);
            lemma_op_says_valid(last);
            lemma_summary_valid(group);
            lemma_learn_associative(known(s, key), summary(group), op_says(last));
        } else {
            assert(known(rl_apply(mid, last, now), key) == known(mid, key));
        }
    }
}

/// Merging is independent of order and repetition: two sequences that hold the
/// same operations leave the same knowledge of every key, and give its readers
/// the same bytes.
pub proof fn law_rl_merge_order_independent(
    s: RlState,
    a: Seq<OpView>,
    b: Seq<OpView>,
    now: u128,
    key: Seq<char>,
)
    requires
        rl_valid(s),
        forall|op: OpView| a.contains(op) <==> b.contains(op),
    ensures
        known(rl_apply_all(s, a, now), key) == known(rl_apply_all(s, b, now), key),
        rl_live(rl_apply_all(s, a, now), key) == rl_live(rl_apply_all(s, b, now), key),
{
    law_knowledge_adds_up(s, a, now, key);
    law_knowledge_adds_up(s, b, now, key);
    let x = group_of(a, key);
    let y = group_of(b, key);
    lemma_group_members(a, key);
    lemma_group_members(b, key);
    assert forall|op: OpView| x.contains(op) <==> y.contains(op) by {
        assert(a.contains(op) <==> b.contains(op));
    }
    law_summary_order_independent(x, y);
}

/// Merging the same operations again changes nothing.
pub proof fn law_rl_merge_idempotent(s: RlState, ops: Seq<OpView>, now: u128, again: u128)
    requires
        rl_valid(s),
    ensures
        rl_apply_all(rl_apply_all(s, ops, now), ops, again) == rl_apply_all(s, ops, now),
{
    let t = rl_apply_all(s, ops, now);
    lemma_no_news(s, ops, now, again, ops.len() as int);
    assert(ops.take(ops.len() as int) =~= ops);
}

proof fn lemma_no_news(s: RlState, ops: Seq<OpView>, now: u128, again: u128, n: int)
    requires
        rl_valid(s),
        0 <= n <= ops.len(),
    ensures
        rl_apply_all(rl_apply_all(s, ops, now), ops.take(n), again) == rl_apply_all(s, ops, now),
    decreases n,
{
    let t = rl_apply_all(s, ops, now);
    if n > 0 {
        lemma_no_news(s, ops, now, again, n - 1);
        let op = ops[n - 1];
        assert(ops.take(n).drop_last() =~= ops.take(n - 1));
        assert(ops.take(n).last() == op);
        law_knowledge_adds_up(s, ops, now, op.key);
        let group = group_of(ops, op.key);
        lemma_group_members(ops, op.key);
        assert(ops.contains(op));
        assert(group.contains(op));
        let more = group.push(op);
        assert(more.drop_last() =~= group);
        assert forall|x: OpView| more.contains(x) <==> group.contains(x) by {
            if more.contains(x) {
                let i = choose|i: int| 0 <= i < more.len() && more[i] == x;
                if i < group.len() {
                    assert(group[i] == x);
                }
            }
            if group.contains(x) {
                let i = choose|i: int| 0 <= i < group.len() && group[i] == x;
                assert(more[i] == x);
            }
        }
        law_summary_order_independent(more, group);
        lemma_op_says_valid(op);
        lemma_summary_valid(group);
        assert(known(s, op.key) matches Some(v) ==> valid(v)) by {
            if s.entries.contains_key(op.key) {
            }
        }
        lemma_learn_associative(known(s, op.key), summary(group), op_says(op));
        assert(learn(known(t, op.key), op_says(op)) == known(t, op.key));
        assert(!is_news(t, op.key, op_says(op)));
    }
}

/// A remove that is known keeps suppressing every point that is not newer,
/// however late it arrives, and also where the key was never seen before.
pub proof fn law_rl_tombstone_suppresses_older_points(v: RlView, cut: Version, p: LivePoint)
    requires
        valid(v),
        later(v.tombstone, Some(cut)) == v.tombstone,
        !cut.before(p.version),
    ensures
        merged(v, RlView { points: set![p], tombstone: None }) == v,
{
    lemma_valid(v);
    let all = v.points.union(set![p]);
    let m = frontier(all, v.tombstone);
    assert forall|q: LivePoint| m.contains(q) <==> v.points.contains(q) by {
        if v.points.contains(q) {
            assert(frontier(v.points, v.tombstone).contains(q));
            assert forall|x: LivePoint| #[trigger] all.contains(x) && dominates(x, q) implies x == q by {
                if x == p {
                    assert(after(q.version, v.tombstone));
                }
            }
        }
    }
    assert(m =~= v.points);
    assert(later(v.tombstone, None) == v.tombstone);
}

/// A merge that brings no later remove never takes the count that readers see
/// back: neither to an older epoch nor to a smaller count.
pub proof fn law_rl_merge_never_rewinds(a: RlView, b: RlView)
    requires
        valid(a),
        valid(b),
        !is_dead(a),
        later(a.tombstone, b.tombstone) == a.tombstone,
    ensures
        !is_dead(merged(a, b)),
        !stairs(merged(a, b).points)[0].value.below(stairs(a.points)[0].value),
{
    lemma_valid(a);
    lemma_valid(b);
    lemma_merged_valid(a, b);
    let m = merged(a, b);
    lemma_valid(m);
    let first = stairs(a.points)[0];
    assert(stairs(a.points).to_set().contains(first));
    let all = a.points.union(b.points);
    assert(after(first.version, a.tombstone));
    let q = lemma_frontier_covers(all, m.tombstone, first);
    assert(stairs(m.points).to_set().contains(q));
    let i = choose|i: int| 0 <= i < stairs(m.points).len() && stairs(m.points)[i] == q;
    lemma_first_point_is_largest(stairs(m.points));
    assert(!stairs(m.points)[0].value.below(stairs(m.points)[i].value));
}

// ---- What the log carries ----

/// The log says of every key what is known of it.
pub open spec fn log_matches(s: RlState, log: Seq<OpView>) -> bool {
    forall|k: Seq<char>| #[trigger] known(s, k) == summary(group_of(log, k))
}

/// The fold of this engine keeps to the key it is given.
pub proof fn lemma_epoch_keeps_key()
    ensures
        keeps_key(epoch_model()),
{
    assert forall|group: Seq<OpView>, key: Seq<char>|
        #![trigger epoch_model()(group), group_of(group, key)]
        group.len() > 0 && group_of(group, key) == group implies (epoch_model()(
        group,
    ) matches Some(op) ==> op.key == key) by {
        lemma_group_members(group, key);
        assert(group.contains(group[0]));
    }
}

/// Compaction keeps what the log says.
pub proof fn law_rl_compaction_keeps_the_log_matching(s: RlState, log: Seq<OpView>)
    requires
        log_matches(s, log),
    ensures
        log_matches(s, compacted(log, epoch_model())),
{
    let short = compacted(log, epoch_model());
    lemma_epoch_keeps_key();
    assert forall|k: Seq<char>| #[trigger] known(s, k) == summary(group_of(short, k)) by {
        lemma_compaction_keeps_summary(log, k);
    }
}

/// Compaction keeps what the operations on a key say together.
pub proof fn lemma_compaction_keeps_summary(log: Seq<OpView>, k: Seq<char>)
    ensures
        summary(group_of(compacted(log, epoch_model()), k)) == summary(group_of(log, k)),
{
    lemma_epoch_keeps_key();
    lemma_compacted_group(log, epoch_model(), k);
    let group = group_of(log, k);
    law_fold_preserves(group);
    let g = group_of(compacted(log, epoch_model()), k);
    if mentions(log, k) {
        match folded(group) {
            Some(op) => {
                assert(g.drop_last() =~= Seq::<OpView>::empty());
                reveal_with_fuel(summary, 2);
            },
            None => {},
        }
    } else {
        lemma_group_empty(log, k);
    }
}

/// After a local operation the log, longer by that operation, still says what
/// is known.
pub proof fn law_rl_append_keeps_the_log_matching(
    s: RlState,
    log: Seq<OpView>,
    op: OpView,
    now: u128,
)
    requires
        rl_valid(s),
        log_matches(s, log),
    ensures
        log_matches(rl_apply(s, op, now), log.push(op)),
{
    let t = rl_apply(s, op, now);
    lemma_rl_valid_apply(s, op, now);
    assert forall|k: Seq<char>| #[trigger] known(t, k) == summary(group_of(log.push(op), k)) by {
        lemma_group_push(log, op, k);
        assert(known(s, k) == summary(group_of(log, k)));
        if op.key == k {
            assert(group_of(log, k).push(op).drop_last() =~= group_of(log, k));
        }
    }
}

/// After a merge the compacted log says what is known: live values and log
/// agree.
pub proof fn law_rl_merge_keeps_the_log_matching(
    s: RlState,
    log: Seq<OpView>,
    ops: Seq<OpView>,
    now: u128,
)
    requires
        rl_valid(s),
        log_matches(s, log),
    ensures
        log_matches(rl_apply_all(s, ops, now), compacted(log + ops, epoch_model())),
    decreases ops.len(),
{
    lemma_joined_log_matches(s, log, ops, now);
    law_rl_compaction_keeps_the_log_matching(rl_apply_all(s, ops, now), log + ops);
}

proof fn lemma_joined_log_matches(s: RlState, log: Seq<OpView>, ops: Seq<OpView>, now: u128)
    requires
        rl_valid(s),
        log_matches(s, log),
    ensures
        rl_valid(rl_apply_all(s, ops, now)),
        log_matches(rl_apply_all(s, ops, now), log + ops),
    decreases ops.len(),
{
    if ops.len() == 0 {
        assert(log + ops =~= log);
    } else {
        let init = ops.drop_last();
        lemma_joined_log_matches(s, log, init, now);
        let mid = rl_apply_all(s, init, now);
        lemma_rl_valid_apply(mid, ops.last(), now);
        law_rl_append_keeps_the_log_matching(mid, log + init, ops.last(), now);
        assert(log + ops =~= (log + init).push(ops.last()));
    }
}

/// What a log says survives its way to a replica that knows nothing: it knows
/// of every key what the log says, and gives readers the same bytes.
pub proof fn law_rl_log_carries_the_state(s: RlState, log: Seq<OpView>, now: u128, key: Seq<char>)
    requires
        rl_valid(s),
        log_matches(s, log),
    ensures
        ({
            let t = rl_apply_all(
                RlState { entries: Map::empty(), generation: 0 },
                sort_ops(log),
                now,
            );
            &&& known(t, key) == known(s, key)
            &&& rl_live(t, key) == rl_live(s, key)
        }),
{
    let none = RlState { entries: Map::empty(), generation: 0 };
    lemma_sort_ops(log);
    assert forall|op: OpView| log.contains(op) <==> sort_ops(log).contains(op) by {
        assert(sort_ops(log).contains(op) <==> log.contains(op));
    }
    law_rl_merge_order_independent(none, log, sort_ops(log), now, key);
    law_knowledge_adds_up(none, log, now, key);
    assert(known(s, key) == summary(group_of(log, key)));
}

/// Compaction does not depend on the order of the log.
pub proof fn law_rl_compaction_order_independent(a: Seq<OpView>, b: Seq<OpView>)
    requires
        forall|op: OpView| a.contains(op) <==> b.contains(op),
    ensures
        compacted(a, epoch_model()) == compacted(b, epoch_model()),
{
    assert forall|k: Seq<char>| mentions(a, k) <==> mentions(b, k) by {
        if mentions(a, k) {
            lemma_mentions_alike(a, b, k);
        }
        if mentions(b, k) {
            lemma_mentions_alike(b, a, k);
        }
    }
    assert forall|k: Seq<char>| mentions(a, k) implies #[trigger] epoch_model()(group_of(a, k))
        == epoch_model()(group_of(b, k)) by {
        let x = group_of(a, k);
        let y = group_of(b, k);
        lemma_group_members(a, k);
        lemma_group_members(b, k);
        assert(mentions(b, k));
        assert forall|op: OpView| x.contains(op) <==> y.contains(op) by {
            assert(a.contains(op) <==> b.contains(op));
        }
        law_summary_order_independent(x, y);
        assert(x.contains(x[0]));
        assert(y.contains(y[0]));
    }
    lemma_compacted_by_folds(a, b, epoch_model());
}

proof fn lemma_mentions_alike(a: Seq<OpView>, b: Seq<OpView>, k: Seq<char>)
    requires
        forall|op: OpView| a.contains(op) <==> b.contains(op),
        mentions(a, k),
    ensures
        mentions(b, k),
{
    let i = choose|i: int| 0 <= i < a.len() && #[trigger] a[i].key == k;
    assert(a.contains(a[i]));
    let j = choose|j: int| 0 <= j < b.len() && b[j] == a[i];
    assert(b[j].key == k);
}

proof fn lemma_somes_count(keys: Seq<Seq<char>>, f: spec_fn(Seq<char>) -> Option<OpView>)
    ensures
        somes(keys.map_values(f)).len() == keys.filter(|k: Seq<char>| f(k) is Some).len(),
    decreases keys.len(),
{
    reveal(Seq::filter);
    if keys.len() > 0 {
        lemma_somes_count(keys.drop_last(), f);
        assert(keys.map_values(f).drop_last() =~= keys.drop_last().map_values(f));
    }
}

proof fn lemma_kept_keys(keys: Seq<Seq<char>>, p: spec_fn(Seq<char>) -> bool)
    requires
        keys.no_duplicates(),
    ensures
        keys.filter(p).no_duplicates(),
        forall|k: Seq<char>| #[trigger] keys.filter(p).contains(k) ==> keys.contains(k) && p(k),
    decreases keys.len(),
{
    reveal(Seq::filter);
    if keys.len() > 0 {
        let init = keys.drop_last();
        let last = keys.last();
        assert(init.no_duplicates());
        lemma_kept_keys(init, p);
        let kept = keys.filter(p);
        let rest = init.filter(p);
        assert(!init.contains(last)) by {
            if init.contains(last) {
                let i = choose|i: int| 0 <= i < init.len() && init[i] == last;
                assert(keys[i] == keys[keys.len() - 1]);
            }
        }
        assert forall|k: Seq<char>| #[trigger] kept.contains(k) implies keys.contains(k) && p(k) by {
            let i = choose|i: int| 0 <= i < kept.len() && kept[i] == k;
            if i < rest.len() {
                assert(rest[i] == k);
                assert(rest.contains(k));
                let j = choose|j: int| 0 <= j < init.len() && init[j] == k;
                assert(keys[j] == k);
            } else {
                assert(keys[keys.len() - 1] == k);
            }
        }
        assert forall|i: int, j: int| 0 <= i < kept.len() && 0 <= j < kept.len() && i != j implies
            kept[i] != kept[j] by {
            if i < rest.len() {
                assert(rest.contains(rest[i]));
            }
            if j < rest.len() {
                assert(rest.contains(rest[j]));
            }
        }
    }
}

/// A compacted log that says what is known holds no more operations than there
/// are entries.
pub proof fn law_rl_compacted_log_is_small(s: RlState, log: Seq<OpView>)
    requires
        s.entries.dom().finite(),
        log_matches(s, log),
    ensures
        compacted(log, epoch_model()).len() <= s.entries.dom().len(),
{
    let keys = key_list(log);
    let f = |k: Seq<char>| epoch_model()(group_of(log, k));
    let p = |k: Seq<char>| f(k) is Some;
    lemma_key_list(log);
    lemma_sort_ops(winners_of(log, keys, epoch_model()));
    assert(winners_of(log, keys, epoch_model()) == somes(keys.map_values(f)));
    lemma_somes_count(keys, f);
    assert(keys.no_duplicates()) by {
        assert forall|i: int, j: int| 0 <= i < keys.len() && 0 <= j < keys.len() && i != j implies
            keys[i] != keys[j] by {
            if i < j {
                lemma_str_before_total_order(keys[i], keys[j], keys[i]);
            } else {
                lemma_str_before_total_order(keys[j], keys[i], keys[j]);
            }
        }
    }
    lemma_kept_keys(keys, p);
    let kept = keys.filter(p);
    kept.unique_seq_to_set();
    assert(kept.to_set().subset_of(s.entries.dom())) by {
        assert forall|k: Seq<char>| kept.to_set().contains(k) implies s.entries.dom().contains(k) by {
            assert(kept.contains(k));
            assert(p(k));
            assert(known(s, k) == summary(group_of(log, k)));
        }
    }
    vstd::set_lib::lemma_len_subset(kept.to_set(), s.entries.dom());
}

/// The log stays within twice the number of entries, or within the floor below
/// which it is not compacted.
pub proof fn law_rl_log_is_bounded(s: RlState, log: Seq<OpView>, op: OpView, now: u128)
    requires
        rl_valid(s),
        s.entries.dom().finite(),
        log_matches(s, log),
    ensures
        ({
            let keys = rl_apply(s, op, now).entries.dom().len();
            let len = appended(log, op, keys, epoch_model()).len();
            len <= COMPACT_FLOOR || len <= 2 * keys
        }),
{
    let t = rl_apply(s, op, now);
    law_rl_append_keeps_the_log_matching(s, log, op, now);
    law_rl_compacted_log_is_small(t, log.push(op));
}

} // verus!
