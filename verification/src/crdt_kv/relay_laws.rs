//! What a replica has learned it can pass on: its log tells others what is read here.
use super::count_laws::lemma_apply_join;
use super::crdt_laws::{lemma_one_merge, lemma_part_unique, lemma_two_merges, unique_versions};
use super::engine::any::{
    after_local, after_merge, applied_ops, fresh_engine, live_value, Core, EngineView,
    MergeStrategy,
};
use super::engine::lww::{
    accepts, apply_all, apply_op, consistent, covered, lemma_apply_all_monotone,
    lemma_apply_op_monotone, lww_model, LwwState,
};
use super::engine::lww_laws::{
    complete, law_append_keeps_the_log_complete, law_merge_keeps_the_log_complete, unique_ids,
};
use super::engine::rate_limit::{rl_apply_all, rl_valid, RlState};
use super::engine::rate_limit_laws::{
    known, law_knowledge_adds_up, law_rl_log_carries_the_state, law_rl_merge_keeps_the_log_matching,
    log_matches,
};
use super::epoch_max_wins::summary;
use super::kv_store::lookup;
use super::operation::{
    compacted, group_of, lemma_compacted_members, lemma_filter_all, lemma_group_members,
    lemma_newest, lemma_sort_ops, mentions, sort_ops, OpView,
};
use super::order_laws::{
    agrees, carries, follows, held, is_acked, law_peer_catches_up, law_versions_are_ordered_by_number,
    law_what_is_not_acknowledged_is_sent, lemma_applied, recorded,
};
use super::replica::Version;
use super::watermark::pending_ops;
use vstd::prelude::*;

verus! {

proof fn lemma_agrees(s: LwwState, log: Seq<OpView>)
    ensures
        agrees(s, log) <==> consistent(s) && covered(s.meta, log),
        consistent(s) ==> (carries(log, s) <==> complete(s, log)),
{
    assert forall|op: OpView| #[trigger] recorded(s, op) <==> !accepts(lookup(s.meta, op.key), op) by {
        if s.meta.contains_key(op.key) {
            law_versions_are_ordered_by_number(s.meta[op.key].version, op.version);
        }
    }
    if agrees(s, log) {
        assert forall|i: int| 0 <= i < log.len() implies !accepts(
            lookup(s.meta, (#[trigger] log[i]).key),
            log[i],
        ) by {
            assert(recorded(s, log[i]));
        }
    }
    if consistent(s) && covered(s.meta, log) {
        assert forall|i: int| 0 <= i < log.len() implies recorded(s, #[trigger] log[i]) by {
            assert(!accepts(lookup(s.meta, log[i].key), log[i]));
        }
    }
    if consistent(s) {
        assert forall|k: Seq<char>| held(s.live, k) == #[trigger] lookup(s.live, k) by {}
        if carries(log, s) {
            assert forall|k: Seq<char>| #[trigger] s.meta.contains_key(k) implies exists|i: int|
                0 <= i < log.len() && (#[trigger] log[i]).key == k && log[i].version
                    == s.meta[k].version && (log[i].value is None) == s.meta[k].is_tombstone
                    && log[i].value == lookup(s.live, k) by {
                let i = choose|i: int|
                    0 <= i < log.len() && (#[trigger] log[i]).key == k && log[i].version
                        == s.meta[k].version && log[i].value == held(s.live, k);
                assert(s.live.contains_key(k) <==> !s.meta[k].is_tombstone);
                assert(log[i].key == k && log[i].value == lookup(s.live, k));
            }
        }
        if complete(s, log) {
            assert forall|k: Seq<char>| #[trigger] s.meta.contains_key(k) implies exists|i: int|
                0 <= i < log.len() && (#[trigger] log[i]).key == k && log[i].version
                    == s.meta[k].version && log[i].value == held(s.live, k) by {
                let i = choose|i: int|
                    0 <= i < log.len() && (#[trigger] log[i]).key == k && log[i].version
                        == s.meta[k].version && (log[i].value is None) == s.meta[k].is_tombstone
                        && log[i].value == lookup(s.live, k);
                assert(log[i].key == k && log[i].value == held(s.live, k));
            }
        }
    }
}

proof fn lemma_compacted_covered(s: LwwState, log: Seq<OpView>)
    requires
        covered(s.meta, log),
    ensures
        covered(s.meta, compacted(log, lww_model())),
{
    let kept = compacted(log, lww_model());
    assert forall|i: int| 0 <= i < kept.len() implies !accepts(
        lookup(s.meta, (#[trigger] kept[i]).key),
        kept[i],
    ) by {
        assert(kept.contains(kept[i]));
        lemma_compacted_members(log, lww_model(), kept[i]);
        let k = choose|k: Seq<char>|
            mentions(log, k) && #[trigger] lww_model()(group_of(log, k)) == Some(kept[i]);
        lemma_newest(group_of(log, k));
        lemma_group_members(log, k);
        assert(group_of(log, k).contains(kept[i]));
        let j = choose|j: int| 0 <= j < log.len() && log[j] == kept[i];
        assert(!accepts(lookup(s.meta, log[j].key), log[j]));
    }
}

/// A merge keeps the log of a last-writer-wins engine carrying what decides each key,
/// so that what was learned from one peer is passed on to another.
pub proof fn law_merged_operations_are_passed_on(
    s: LwwState,
    e: EngineView,
    ops: Seq<OpView>,
    now: u128,
)
    requires
        e.core == Core::Lww(s),
        agrees(s, e.log),
        carries(e.log, s),
        unique_versions(e.log + ops),
    ensures
        after_merge(e, ops, now).core matches Core::Lww(t) && agrees(
            t,
            after_merge(e, ops, now).log,
        ) && carries(after_merge(e, ops, now).log, t),
{
    let applied = applied_ops(e, ops);
    lemma_agrees(s, e.log);
    let t = apply_all(s, applied, now);
    let both = e.log + applied;
    let all = e.log + ops;
    if applied.len() > 0 {
        assert forall|op: OpView| #[trigger] both.contains(op) implies all.contains(op) by {
            let i = choose|i: int| 0 <= i < both.len() && both[i] == op;
            if i < e.log.len() {
                assert(all[i] == op);
            } else {
                assert(applied[i - e.log.len()] == op);
                assert(applied.contains(op));
                lemma_applied(s, e, ops, op);
                let j = choose|j: int| 0 <= j < ops.len() && ops[j] == op;
                assert(all[e.log.len() + j] == op);
            }
        }
        assert(unique_ids(both)) by {
            assert forall|i: int, j: int|
                0 <= i < both.len() && 0 <= j < both.len() && (#[trigger] both[i]).key == (
                #[trigger] both[j]).key && both[i].version == both[j].version implies both[i]
                == both[j] by {
                assert(both.contains(both[i]));
                assert(both.contains(both[j]));
                let x = choose|x: int| 0 <= x < all.len() && all[x] == both[i];
                let y = choose|y: int| 0 <= y < all.len() && all[y] == both[j];
                assert(all[x] == all[y]);
            }
        }
        law_merge_keeps_the_log_complete(s, e.log, applied, now);
        lemma_apply_all_monotone(s, applied, now);
        assert(covered(t.meta, both)) by {
            assert forall|i: int| 0 <= i < both.len() implies !accepts(
                lookup(t.meta, (#[trigger] both[i]).key),
                both[i],
            ) by {
                if i < e.log.len() {
                    assert(!accepts(lookup(s.meta, e.log[i].key), e.log[i]));
                } else {
                    assert(both[i] == applied[i - e.log.len()]);
                }
            }
        }
        lemma_compacted_covered(t, both);
        lemma_agrees(t, compacted(both, lww_model()));
    }
}

/// A local operation keeps the log of a last-writer-wins engine carrying what decides
/// each key, itself among the rest.
pub proof fn law_local_operations_are_passed_on(
    s: LwwState,
    e: EngineView,
    op: OpView,
    now: u128,
)
    requires
        e.core == Core::Lww(s),
        agrees(s, e.log),
        carries(e.log, s),
        unique_versions(e.log.push(op)),
        e.log.len() < 10_000,
    ensures
        after_local(e, op, now).core matches Core::Lww(t) && agrees(t, after_local(e, op, now).log)
            && carries(after_local(e, op, now).log, t),
{
    lemma_agrees(s, e.log);
    if accepts(lookup(s.meta, op.key), op) {
        let longer = e.log.push(op);
        let t = apply_op(s, op, now);
        let kept = compacted(longer, lww_model());
        lemma_compacted_shorter(longer);
        assert(unique_ids(longer));
        law_append_keeps_the_log_complete(s, e.log, op, t.meta.dom().len(), now);
        lemma_apply_op_monotone(s, op, now, op);
        assert(covered(t.meta, longer)) by {
            assert forall|i: int| 0 <= i < longer.len() implies !accepts(
                lookup(t.meta, (#[trigger] longer[i]).key),
                longer[i],
            ) by {
                lemma_apply_op_monotone(s, op, now, longer[i]);
                if i < e.log.len() {
                    assert(longer[i] == e.log[i]);
                    assert(!accepts(lookup(s.meta, e.log[i].key), e.log[i]));
                }
            }
        }
        lemma_compacted_covered(t, longer);
        lemma_agrees(t, longer);
        lemma_agrees(t, kept);
    }
}

proof fn lemma_compacted_shorter(log: Seq<OpView>)
    ensures
        compacted(log, lww_model()).len() <= log.len(),
{
    super::operation::lemma_compacted_len(log, lww_model());
    lemma_keys_fewer(log);
}

proof fn lemma_keys_fewer(log: Seq<OpView>)
    ensures
        super::operation::key_list(log).len() <= log.len(),
    decreases log.len(),
{
    if log.len() > 0 {
        lemma_keys_fewer(log.drop_last());
        lemma_insert_longer(super::operation::key_list(log.drop_last()), log.last().key);
    }
}

proof fn lemma_insert_longer(keys: Seq<Seq<char>>, key: Seq<char>)
    ensures
        super::operation::insert_key(keys, key).len() <= keys.len() + 1,
    decreases keys.len(),
{
    if keys.len() > 0 {
        lemma_insert_longer(keys.drop_last(), key);
    }
}

/// A replica that knows nothing and merges the log of another reads of every key what
/// the other reads.
pub proof fn law_log_tells_a_fresh_replica(s: LwwState, e: EngineView, now: u128)
    requires
        e.core == Core::Lww(s),
        agrees(s, e.log),
        carries(e.log, s),
        unique_versions(e.log),
    ensures
        forall|k: Seq<char>|
            live_value(after_merge(fresh_engine(MergeStrategy::LastWriterWins), e.log, now), k)
                == #[trigger] live_value(e, k),
{
    let fresh = fresh_engine(MergeStrategy::LastWriterWins);
    let p = fresh.core->Lww_0;
    let none = Map::<Seq<char>, Version>::empty();
    assert(e.log + fresh.log =~= e.log);
    law_peer_catches_up(s, e, p, fresh, none, now);
    let all = |op: OpView| !is_acked(none, op);
    assert forall|op: OpView| #[trigger] all(op) by {}
    lemma_filter_all(e.log, all);
    let any = choose|op: OpView| #[trigger] e.log.contains(op);
    law_what_is_not_acknowledged_is_sent(none, e.log, any);
    assert(pending_ops(none, e.log) == e.log);
}

/// Whatever a rate-limit engine merged, in parts or at once, a replica that knows
/// nothing and merges its log reads the same counts.
pub proof fn law_log_tells_counts(
    a: Seq<OpView>,
    b: Seq<OpView>,
    first: u128,
    second: u128,
    later: u128,
    key: Seq<char>,
)
    ensures
        ({
            let fresh = fresh_engine(MergeStrategy::EpochMaxWins);
            let e = after_merge(after_merge(fresh, a, first), b, second);
            live_value(after_merge(fresh, e.log, later), key) == live_value(e, key)
        }),
{
    let fresh = fresh_engine(MergeStrategy::EpochMaxWins);
    let s = fresh.core->RateLimit_0;
    reveal(Seq::filter);
    assert forall|k: Seq<char>| #[trigger] known(s, k) == summary(group_of(fresh.log, k)) by {
        assert(group_of(fresh.log, k) =~= Seq::empty());
    }
    let one = after_merge(fresh, a, first);
    lemma_merge_matches(s, fresh, a, first);
    let s1 = one.core->RateLimit_0;
    let e = after_merge(one, b, second);
    lemma_merge_matches(s1, one, b, second);
    let s2 = e.core->RateLimit_0;
    law_rl_log_carries_the_state(s2, e.log, later, key);
}

proof fn lemma_merge_matches(s: RlState, e: EngineView, ops: Seq<OpView>, now: u128)
    requires
        e.core == Core::RateLimit(s),
        rl_valid(s),
        log_matches(s, e.log),
    ensures
        after_merge(e, ops, now).core matches Core::RateLimit(t) && rl_valid(t) && log_matches(
            t,
            after_merge(e, ops, now).log,
        ),
{
    let sorted = sort_ops(ops);
    lemma_sort_ops(ops);
    law_rl_merge_keeps_the_log_matching(s, e.log, sorted, now);
    law_knowledge_adds_up(s, sorted, now, Seq::empty());
}

/// Batches add up: merging two, one after the other, leaves what is read of every key
/// as merging both at once does.
pub proof fn law_batches_add_up(
    e: EngineView,
    x: Seq<OpView>,
    y: Seq<OpView>,
    first: u128,
    second: u128,
    at_once: u128,
    key: Seq<char>,
)
    requires
        e.core matches Core::Lww(s) ==> agrees(s, e.log) && unique_versions(e.log + (x + y)),
        e.core matches Core::RateLimit(s) ==> rl_valid(s),
    ensures
        live_value(after_merge(after_merge(e, x, first), y, second), key) == live_value(
            after_merge(e, x + y, at_once),
            key,
        ),
{
    if let Core::Lww(s) = e.core {
        lemma_agrees(s, e.log);
    }
    lemma_two_merges(e, x, y, first, second, at_once, key);
    lemma_one_merge(e, x + y, at_once, key);
    if let Core::RateLimit(s) = e.core {
        law_knowledge_adds_up(s, x, at_once, key);
        law_knowledge_adds_up(rl_apply_all(s, x, at_once), y, at_once, key);
        lemma_apply_join(s, x, y, at_once);
        let t = after_merge(after_merge(e, x, first), y, second).core->RateLimit_0;
        let u = after_merge(e, x + y, at_once).core->RateLimit_0;
        assert(known(t, key) == known(u, key));
    }
}

/// A peer that merges what it was sent in two batches reads of every key what the
/// sender reads, removed keys as well.
pub proof fn law_peer_catches_up_in_batches(
    s: LwwState,
    sender: EngineView,
    p: LwwState,
    peer: EngineView,
    acked: Map<Seq<char>, Version>,
    x: Seq<OpView>,
    y: Seq<OpView>,
    first: u128,
    second: u128,
)
    requires
        sender.core == Core::Lww(s),
        agrees(s, sender.log),
        carries(sender.log, s),
        peer.core == Core::Lww(p),
        agrees(p, peer.log),
        follows(p, s, acked),
        unique_versions(sender.log + peer.log),
        x + y == pending_ops(acked, sender.log),
    ensures
        forall|k: Seq<char>|
            live_value(after_merge(after_merge(peer, x, first), y, second), k)
                == #[trigger] live_value(sender, k),
{
    law_peer_catches_up(s, sender, p, peer, acked, first);
    let all = sender.log + peer.log;
    let both = peer.log + (x + y);
    assert forall|i: int| 0 <= i < both.len() implies all.contains(#[trigger] both[i]) by {
        if i < peer.log.len() {
            assert(all[sender.log.len() + i] == both[i]);
        } else {
            let op = (x + y)[i - peer.log.len()];
            assert((x + y).contains(op));
            law_what_is_not_acknowledged_is_sent(acked, sender.log, op);
            let j = choose|j: int| 0 <= j < sender.log.len() && sender.log[j] == op;
            assert(all[j] == op);
        }
    }
    lemma_part_unique(all, both);
    assert forall|k: Seq<char>|
        live_value(after_merge(after_merge(peer, x, first), y, second), k)
            == #[trigger] live_value(sender, k) by {
        law_batches_add_up(peer, x, y, first, second, first, k);
    }
}

} // verus!
