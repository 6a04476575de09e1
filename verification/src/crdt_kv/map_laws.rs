//! What a map of several engines guarantees, in plain numbers: where keys go, what is
//! read after a merge, and what collecting tombstones leaves.
use super::count_laws::{
    count_read, is_behind, law_largest_count_wins, law_plain_count_is_spelled, smaller,
    spells_count,
};
use super::crdt::{
    after_collecting, after_merging, bucket, chained, engine_for, goes_at, joined_log, lemma_route,
    lists_live_keys, pair_keys, route, tabulates, value_of, MapView,
};
use super::crdt_laws::unique_versions;
use super::engine::any::{
    after_gc, after_local, after_merge, dead_keys, delete_result, live_keys, live_value, put_result,
    Core, EngineView,
};
use super::engine::lww::{collectable, LwwState};
use super::engine::rate_limit::{is_dead, rl_collectable, rl_valid, RlState};
use super::engine::reports;
use super::epoch_max_wins::{
    lemma_op_says_valid, lemma_valid, live_bytes, merged, op_says, valid, EpochCount, LivePoint,
    RlView,
};
use super::operation::{lemma_filter_members, ChangeView, OpView};
use super::order_laws::{
    agrees, carries, follows, held, is_acked, is_new_to, is_newest, law_newer_record_stays,
    law_newest_operation_wins, law_what_is_not_acknowledged_is_sent, lemma_delivery, older,
};
use super::replica::Version;
use super::watermark::{lists_acks, pending_ops};
use crate::text::{has_prefix, str_before};
use crate::text_laws::{law_occurrence_is_every_character, stands_at};
use vstd::prelude::*;
use vstd::utf8::encode_utf8;

verus! {

// ---- Where keys go ----

/// A key goes to the first prefix that it begins with, and where it begins with none
/// to the place behind them all.
pub proof fn law_key_goes_to_its_prefix(prefixes: Seq<Seq<char>>, key: Seq<char>)
    ensures
        0 <= route(prefixes, key) <= prefixes.len(),
        route(prefixes, key) < prefixes.len() ==> stands_at(key, prefixes[route(prefixes, key)], 0),
        forall|j: int|
            0 <= j < route(prefixes, key) ==> !stands_at(key, #[trigger] prefixes[j], 0),
{
    lemma_route(prefixes, key);
    assert forall|j: int| 0 <= j < prefixes.len() implies (has_prefix(key, #[trigger] prefixes[j])
        <==> stands_at(key, prefixes[j], 0)) by {
        law_occurrence_is_every_character(key, prefixes[j], 0);
    }
    assert forall|j: int| 0 <= j < route(prefixes, key) implies !stands_at(
        key,
        #[trigger] prefixes[j],
        0,
    ) by {
        assert(!has_prefix(key, prefixes[j]));
    }
}

/// Where the longest prefixes stand first, a key goes to the longest that it begins
/// with.
pub proof fn law_longest_prefix_is_chosen(prefixes: Seq<Seq<char>>, key: Seq<char>, j: int)
    requires
        forall|a: int, b: int|
            0 <= a < b < prefixes.len() ==> encode_utf8(#[trigger] prefixes[a]).len()
                >= encode_utf8(#[trigger] prefixes[b]).len(),
        0 <= j < prefixes.len(),
        stands_at(key, prefixes[j], 0),
    ensures
        0 <= route(prefixes, key) <= j,
        encode_utf8(prefixes[route(prefixes, key)]).len() >= encode_utf8(prefixes[j]).len(),
{
    law_key_goes_to_its_prefix(prefixes, key);
}

/// Of a log each engine gets the operations on its own keys, in their order.
pub proof fn law_operations_go_where_their_keys_go(
    prefixes: Seq<Seq<char>>,
    log: Seq<OpView>,
    i: int,
    op: OpView,
)
    ensures
        bucket(prefixes, log, i).contains(op) <==> log.contains(op) && route(prefixes, op.key) == i,
        bucket(prefixes, log, i) == log.filter(|o: OpView| route(prefixes, o.key) == i),
{
    lemma_filter_members(log, |o: OpView| route(prefixes, o.key) == i, op);
}

// ---- Merging ----

/// After a merge the newest operation of a key decides what is read of it, where it is
/// newer than what was recorded. What is recorded stays where it is newer than every
/// operation of the key.
pub proof fn law_map_reads_the_newest(
    m: MapView,
    s: LwwState,
    log: Seq<OpView>,
    key: Seq<char>,
    now: u128,
)
    requires
        m.slots.len() == m.prefixes.len() + 1,
        m.slots[route(m.prefixes, key)].core == Core::Lww(s),
    ensures
        forall|op: OpView| #[trigger]
            is_newest(log, op) && op.key == key && is_new_to(
                m.slots[route(m.prefixes, key)].log,
                op.version,
            ) && (s.meta.contains_key(key) ==> older(s.meta[key].version, op.version)) ==> value_of(
                after_merging(m, log, now),
                key,
            ) == op.value,
        (forall|i: int|
            0 <= i < log.len() && (#[trigger] log[i]).key == key ==> s.meta.contains_key(key)
                && older(log[i].version, s.meta[key].version)) ==> value_of(
            after_merging(m, log, now),
            key,
        ) == held(s.live, key),
{
    let at = route(m.prefixes, key);
    law_key_goes_to_its_prefix(m.prefixes, key);
    let e = m.slots[at];
    let ops = bucket(m.prefixes, log, at);
    assert(engine_for(after_merging(m, log, now), key) == after_merge(e, ops, now));
    assert forall|i: int| 0 <= i < ops.len() implies log.contains(#[trigger] ops[i]) by {
        law_operations_go_where_their_keys_go(m.prefixes, log, at, ops[i]);
        assert(ops.contains(ops[i]));
    }
    assert forall|op: OpView| #[trigger]
        is_newest(log, op) && op.key == key && is_new_to(e.log, op.version) && (s.meta.contains_key(
            key,
        ) ==> older(s.meta[key].version, op.version)) implies value_of(
        after_merging(m, log, now),
        key,
    ) == op.value by {
        law_operations_go_where_their_keys_go(m.prefixes, log, at, op);
        assert forall|i: int| 0 <= i < ops.len() && (#[trigger] ops[i]).key == op.key implies {
            &&& !older(op.version, ops[i].version)
            &&& ops[i].version == op.version && op.value is Some ==> ops[i].value == op.value
        } by {
            let j = choose|j: int| 0 <= j < log.len() && log[j] == ops[i];
            assert(log[j].key == op.key);
        }
        assert(is_newest(ops, op));
        law_newest_operation_wins(s, e, ops, op, now);
    }
    if forall|i: int|
        0 <= i < log.len() && (#[trigger] log[i]).key == key ==> s.meta.contains_key(key) && older(
            log[i].version,
            s.meta[key].version,
        ) {
        assert forall|i: int| 0 <= i < ops.len() && (#[trigger] ops[i]).key == key implies s.meta
            .contains_key(key) && older(ops[i].version, s.meta[key].version) by {
            let j = choose|j: int| 0 <= j < log.len() && log[j] == ops[i];
            assert(log[j].key == key);
        }
        law_newer_record_stays(s, e, ops, key, now);
    }
}

/// The logs of a map one after another are what all its engines hold, each in its
/// order.
pub proof fn law_joined_log_holds_every_log(slots: Seq<EngineView>, op: OpView)
    ensures
        joined_log(slots).contains(op) <==> exists|i: int|
            0 <= i < slots.len() && (#[trigger] slots[i]).log.contains(op),
        joined_log(slots) == slots.map_values(|e: EngineView| e.log).flatten(),
    decreases slots.len(),
{
    let logs = slots.map_values(|e: EngineView| e.log);
    logs.lemma_flatten_and_flatten_alt_are_equivalent();
    if slots.len() > 0 {
        let init = slots.drop_last();
        let last = slots.last();
        law_joined_log_holds_every_log(init, op);
        assert(logs.drop_last() =~= init.map_values(|e: EngineView| e.log));
        logs.drop_last().lemma_flatten_and_flatten_alt_are_equivalent();
        assert(logs.last() == last.log);
        let all = joined_log(init) + last.log;
        assert(slots[slots.len() - 1] == last);
        if all.contains(op) {
            let i = choose|i: int| 0 <= i < all.len() && all[i] == op;
            if i < joined_log(init).len() {
                assert(joined_log(init)[i] == op);
                let k = choose|k: int| 0 <= k < init.len() && (#[trigger] init[k]).log.contains(op);
                assert(slots[k] == init[k]);
            } else {
                assert(last.log[i - joined_log(init).len()] == op);
            }
        }
        if exists|i: int| 0 <= i < slots.len() && (#[trigger] slots[i]).log.contains(op) {
            let k = choose|k: int| 0 <= k < slots.len() && (#[trigger] slots[k]).log.contains(op);
            if k < init.len() {
                assert(init[k].log.contains(op));
                let i = choose|i: int| 0 <= i < joined_log(init).len() && joined_log(init)[i] == op;
                assert(all[i] == op);
            } else {
                let i = choose|i: int| 0 <= i < last.log.len() && last.log[i] == op;
                assert(all[joined_log(init).len() + i] == op);
            }
        }
    } else {
        assert(joined_log(slots) =~= logs.flatten());
    }
}

/// A peer with the same prefixes that merges what it was sent reads of every key of a
/// last-writer-wins engine what the sender reads, removed keys as well.
pub proof fn law_peer_map_catches_up(
    sender: MapView,
    s: LwwState,
    peer: MapView,
    p: LwwState,
    acked: Map<Seq<char>, Version>,
    key: Seq<char>,
    now: u128,
)
    requires
        sender.prefixes == peer.prefixes,
        sender.slots.len() == sender.prefixes.len() + 1,
        peer.slots.len() == sender.slots.len(),
        forall|i: int, op: OpView|
            0 <= i < sender.slots.len() && #[trigger] sender.slots[i].log.contains(op) ==> route(
                sender.prefixes,
                op.key,
            ) == i,
        sender.slots[route(sender.prefixes, key)].core == Core::Lww(s),
        agrees(s, sender.slots[route(sender.prefixes, key)].log),
        carries(sender.slots[route(sender.prefixes, key)].log, s),
        peer.slots[route(sender.prefixes, key)].core == Core::Lww(p),
        agrees(p, peer.slots[route(sender.prefixes, key)].log),
        follows(p, s, acked),
        unique_versions(
            sender.slots[route(sender.prefixes, key)].log + peer.slots[route(
                sender.prefixes,
                key,
            )].log,
        ),
    ensures
        value_of(after_merging(peer, pending_ops(acked, joined_log(sender.slots)), now), key)
            == value_of(sender, key),
{
    let at = route(sender.prefixes, key);
    law_key_goes_to_its_prefix(sender.prefixes, key);
    let all = joined_log(sender.slots);
    let sent = pending_ops(acked, all);
    let log = sender.slots[at].log;
    let ops = bucket(peer.prefixes, sent, at);
    let e = peer.slots[at];
    assert(engine_for(after_merging(peer, sent, now), key) == after_merge(e, ops, now));
    assert forall|op: OpView| #[trigger] ops.contains(op) && op.key == key implies log.contains(op)
        && !is_acked(acked, op) by {
        law_operations_go_where_their_keys_go(peer.prefixes, sent, at, op);
        law_what_is_not_acknowledged_is_sent(acked, all, op);
        law_joined_log_holds_every_log(sender.slots, op);
        let i = choose|i: int|
            0 <= i < sender.slots.len() && (#[trigger] sender.slots[i]).log.contains(op);
        assert(sender.slots[i].log.contains(op));
    }
    assert forall|op: OpView| #[trigger] log.contains(op) && op.key == key && !is_acked(
        acked,
        op,
    ) implies ops.contains(op) by {
        law_joined_log_holds_every_log(sender.slots, op);
        law_what_is_not_acknowledged_is_sent(acked, all, op);
        law_operations_go_where_their_keys_go(peer.prefixes, sent, at, op);
    }
    lemma_delivery(s, log, p, e, acked, ops, now, key);
}

// ---- Changes that are reported ----

/// What is reported of a merge or a write are the keys whose value is another now, each
/// once, with the value that it has now, and no other keys.
pub proof fn law_changes_are_reported(
    changes: Seq<ChangeView>,
    before: spec_fn(Seq<char>) -> Option<Seq<u8>>,
    after: spec_fn(Seq<char>) -> Option<Seq<u8>>,
    key: Seq<char>,
)
    requires
        reports(changes, before, after),
    ensures
        before(key) != after(key) <==> exists|i: int|
            0 <= i < changes.len() && (#[trigger] changes[i]).key == key,
        forall|i: int|
            0 <= i < changes.len() && (#[trigger] changes[i]).key == key ==> changes[i].value
                == after(key),
        forall|i: int, j: int|
            0 <= i < j < changes.len() ==> (#[trigger] changes[i]).key != (
            #[trigger] changes[j]).key,
{
    if before(key) != after(key) {
        assert(exists|i: int| 0 <= i < changes.len() && (#[trigger] changes[i]).key == key);
    }
}

// ---- Local operations ----

/// A local put to a last-writer-wins key returns what was read of it before, and so
/// does a delete that takes effect. One that does not take effect returns nothing.
pub proof fn law_local_operations_return_what_was_there(
    s: LwwState,
    e: EngineView,
    op: OpView,
    now: u128,
)
    requires
        e.core == Core::Lww(s),
    ensures
        put_result(e, op, now) == held(s.live, op.key),
        (s.meta.contains_key(op.key) ==> older(s.meta[op.key].version, op.version))
            ==> delete_result(e, op, now) == held(s.live, op.key),
        s.meta.contains_key(op.key) && older(op.version, s.meta[op.key].version) ==> delete_result(
            e,
            op,
            now,
        ) is None,
{
}

/// A local operation on a count that changes nothing returns what is read of the key
/// where it is a put, and nothing where it is a delete. One that changes something
/// returns what was read before where nothing is read any more, and else nothing.
pub proof fn law_what_operations_on_counts_return(
    s: RlState,
    e: EngineView,
    op: OpView,
    now: u128,
)
    requires
        e.core == Core::RateLimit(s),
        e.log_changes < u64::MAX,
    ensures
        ({
            let after = after_local(e, op, now);
            let changed = after.log_changes != e.log_changes;
            &&& !changed ==> put_result(e, op, now) == live_value(e, op.key) && delete_result(
                e,
                op,
                now,
            ) is None
            &&& changed && live_value(after, op.key) is Some ==> put_result(e, op, now) is None
                && delete_result(e, op, now) is None
            &&& changed && live_value(after, op.key) is None ==> put_result(e, op, now)
                == live_value(e, op.key) && delete_result(e, op, now) == live_value(e, op.key)
        }),
{
}

/// A local operation that is newer than what was recorded of its key decides what is
/// read of the key, and of no other. An older one changes nothing.
pub proof fn law_local_operation_decides(s: LwwState, e: EngineView, op: OpView, now: u128)
    requires
        e.core == Core::Lww(s),
    ensures
        (s.meta.contains_key(op.key) ==> older(s.meta[op.key].version, op.version)) ==> live_value(
            after_local(e, op, now),
            op.key,
        ) == op.value,
        s.meta.contains_key(op.key) && older(op.version, s.meta[op.key].version) ==> after_local(
            e,
            op,
            now,
        ) == e,
        forall|k: Seq<char>|
            k != op.key ==> #[trigger] live_value(after_local(e, op, now), k) == live_value(e, k),
{
}

/// What is known of a key in a rate-limit engine, or nothing.
pub open spec fn known_of(s: RlState, key: Seq<char>) -> Option<RlView> {
    if s.entries.contains_key(key) {
        Some(s.entries[key].known)
    } else {
        None
    }
}

proof fn lemma_local_count(s: RlState, e: EngineView, op: OpView, more: RlView, now: u128)
    requires
        e.core == Core::RateLimit(s),
        rl_valid(s),
        op_says(op) == Some(more),
    ensures
        live_value(after_local(e, op, now), op.key) == (match known_of(s, op.key) {
            Some(known) => live_bytes(merged(known, more)),
            None => live_bytes(more),
        }),
{
}

/// A local put of a plain count is read as that count, or as what was read before
/// where that is larger, by epoch and then by count. No remove may be newer.
pub proof fn law_local_count_is_read_unless_smaller(
    s: RlState,
    e: EngineView,
    op: OpView,
    c: EpochCount,
    now: u128,
)
    requires
        e.core == Core::RateLimit(s),
        rl_valid(s),
        op.value is Some,
        spells_count(op.value->0, c),
        known_of(s, op.key) matches Some(known) ==> is_behind(op.version, known.tombstone),
    ensures
        ({
            let was = count_read(live_value(e, op.key));
            let reads = count_read(live_value(after_local(e, op, now), op.key));
            &&& reads is Some
            &&& !smaller(reads->0, c)
            &&& was is Some ==> !smaller(reads->0, was->0)
            &&& reads->0 == c || was is Some && reads->0 == was->0
        }),
{
    let p = LivePoint { version: op.version, value: c };
    law_plain_count_is_spelled(op.value->0, c);
    let more = op_says(op)->0;
    assert(more.points =~= set![p]);
    lemma_op_says_valid(op);
    lemma_local_count(s, e, op, more, now);
    let bytes = live_value(after_local(e, op, now), op.key);
    super::count_laws::lemma_largest_is_read(more);
    assert(more.points.contains(p));
    if s.entries.contains_key(op.key) {
        let known = s.entries[op.key].known;
        assert(valid(known));
        lemma_valid(known);
        law_largest_count_wins(known, more);
        super::count_laws::lemma_largest_is_read(known);
        let open = |q: LivePoint|
            (known.points.contains(q) || more.points.contains(q)) && is_behind(
                q.version,
                known.tombstone,
            ) && is_behind(q.version, more.tombstone);
        assert(open(p));
        let q = choose|q: LivePoint| #[trigger] open(q) && count_read(bytes) == Some(q.value);
        assert(open(q));
        if count_read(live_value(e, op.key)) is Some {
            let was = count_read(live_value(e, op.key))->0;
            let r = choose|r: LivePoint| #[trigger] known.points.contains(r) && r.value == was;
            lemma_points_are_behind(known, r);
            assert(open(r));
            if q != p {
                assert(known.points.contains(q));
                assert(!smaller(was, q.value));
            }
        } else {
            if q != p {
                assert(known.points.contains(q));
            }
        }
    }
}

proof fn lemma_points_are_behind(v: RlView, p: LivePoint)
    requires
        valid(v),
        v.points.contains(p),
    ensures
        is_behind(p.version, v.tombstone),
{
    lemma_valid(v);
    assert(super::epoch_max_wins::frontier(v.points, v.tombstone).contains(p));
}

/// A local delete of a rate-limit key leaves no count that is not newer than it.
pub proof fn law_local_delete_cuts_off(
    s: RlState,
    e: EngineView,
    op: OpView,
    now: u128,
)
    requires
        e.core == Core::RateLimit(s),
        rl_valid(s),
        op.value is None,
        known_of(s, op.key) matches Some(known) ==> forall|p: LivePoint| #[trigger]
            known.points.contains(p) ==> older(p.version, op.version),
    ensures
        live_value(after_local(e, op, now), op.key) is None,
{
    let more = op_says(op)->0;
    lemma_op_says_valid(op);
    lemma_local_count(s, e, op, more, now);
    super::count_laws::lemma_largest_is_read(more);
    assert(more.points.is_empty());
    if s.entries.contains_key(op.key) {
        let known = s.entries[op.key].known;
        law_largest_count_wins(known, more);
        let bytes = live_bytes(merged(known, more));
        let open = |q: LivePoint|
            (known.points.contains(q) || more.points.contains(q)) && is_behind(
                q.version,
                known.tombstone,
            ) && is_behind(q.version, more.tombstone);
        if bytes is Some {
            let q = choose|q: LivePoint| #[trigger] open(q) && count_read(bytes) == Some(q.value);
            assert(open(q));
            assert(known.points.contains(q));
        }
    }
}

// ---- Collecting ----

/// The time that has passed at `now` since `at`.
pub open spec fn passed(now: u128, at: u128) -> int {
    if at <= now {
        now - at
    } else {
        0
    }
}

/// Collecting takes nothing away that is read. A record is forgotten exactly where it
/// is a tombstone whose grace has passed, and from the log the operations go that it
/// was not older than.
pub proof fn law_collecting_forgets_old_tombstones(
    s: LwwState,
    e: EngineView,
    now: u128,
    grace: u128,
)
    requires
        e.core == Core::Lww(s),
        forall|k: Seq<char>| #[trigger]
            s.live.contains_key(k) <==> s.meta.contains_key(k) && !s.meta[k].is_tombstone,
    ensures
        ({
            let old_one = |k: Seq<char>|
                s.meta.contains_key(k) && s.meta[k].is_tombstone && passed(
                    now,
                    s.meta[k].created_at,
                ) >= grace;
            let g = after_gc(e, now, grace);
            &&& forall|k: Seq<char>| #[trigger] live_value(g, k) == live_value(e, k)
            &&& forall|k: Seq<char>|
                #![trigger dead_keys(e, now, grace).contains(k)]
                dead_keys(e, now, grace).contains(k) <==> old_one(k)
            &&& g.core matches Core::Lww(t) && forall|k: Seq<char>|
                {
                    &&& #[trigger] t.meta.contains_key(k) <==> s.meta.contains_key(k) && !old_one(k)
                    &&& t.meta.contains_key(k) ==> t.meta[k] == s.meta[k]
                }
            &&& forall|op: OpView| #[trigger]
                g.log.contains(op) <==> e.log.contains(op) && (!old_one(op.key) || older(
                    s.meta[op.key].version,
                    op.version,
                ))
        }),
{
    let g = after_gc(e, now, grace);
    let p = |op: OpView|
        !collectable(s, op.key, now, grace) || s.meta[op.key].version.before(op.version);
    assert forall|op: OpView| #[trigger] g.log.contains(op) <==> e.log.contains(op) && (!(
    s.meta.contains_key(op.key) && s.meta[op.key].is_tombstone && passed(
        now,
        s.meta[op.key].created_at,
    ) >= grace) || older(s.meta[op.key].version, op.version)) by {
        lemma_filter_members(e.log, p, op);
        assert(s.live.contains_key(op.key) <==> s.meta.contains_key(op.key)
            && !s.meta[op.key].is_tombstone);
    }
}

/// Collecting takes nothing away that is read of counts. An entry is forgotten exactly
/// where no point is left of it and the grace of its tombstone has passed.
pub proof fn law_collecting_forgets_old_cuts(s: RlState, e: EngineView, now: u128, grace: u128)
    requires
        e.core == Core::RateLimit(s),
    ensures
        ({
            let old_one = |k: Seq<char>|
                s.entries.contains_key(k) && s.entries[k].known.points.is_empty()
                    && s.entries[k].tombstoned_at is Some && passed(
                    now,
                    s.entries[k].tombstoned_at->0,
                ) >= grace;
            let g = after_gc(e, now, grace);
            &&& forall|k: Seq<char>| #[trigger] live_value(g, k) == live_value(e, k)
            &&& forall|k: Seq<char>|
                #![trigger dead_keys(e, now, grace).contains(k)]
                dead_keys(e, now, grace).contains(k) <==> old_one(k)
            &&& g.core matches Core::RateLimit(t) && forall|k: Seq<char>|
                {
                    &&& #[trigger] t.entries.contains_key(k) <==> s.entries.contains_key(k)
                        && !old_one(k)
                    &&& t.entries.contains_key(k) ==> t.entries[k] == s.entries[k]
                }
            &&& forall|op: OpView| #[trigger]
                g.log.contains(op) <==> e.log.contains(op) && (!old_one(op.key) || older(
                    s.entries[op.key].known.tombstone.unwrap(),
                    op.version,
                ))
        }),
{
    let g = after_gc(e, now, grace);
    assert forall|v: RlView| #[trigger] is_dead(v) <==> v.points.is_empty() by {
        if v.points.is_empty() {
            assert(v.points =~= Set::<LivePoint>::empty());
        }
    }
    let p = |op: OpView|
        !rl_collectable(s, op.key, now, grace)
            || s.entries[op.key].known.tombstone.unwrap().before(op.version);
    assert forall|op: OpView| #[trigger] g.log.contains(op) <==> e.log.contains(op) && (!(
    s.entries.contains_key(op.key) && s.entries[op.key].known.points.is_empty()
        && s.entries[op.key].tombstoned_at is Some && passed(
        now,
        s.entries[op.key].tombstoned_at->0,
    ) >= grace) || older(s.entries[op.key].known.tombstone.unwrap(), op.version)) by {
        lemma_filter_members(e.log, p, op);
        assert(is_dead(s.entries[op.key].known) <==> s.entries[op.key].known.points.is_empty());
    }
    assert forall|k: Seq<char>| #[trigger] live_value(g, k) == live_value(e, k) by {
        if s.entries.contains_key(k) {
            assert(is_dead(s.entries[k].known) <==> s.entries[k].known.points.is_empty());
        }
    }
    assert forall|k: Seq<char>|
        #![trigger dead_keys(e, now, grace).contains(k)]
        dead_keys(e, now, grace).contains(k) <==> s.entries.contains_key(k)
            && s.entries[k].known.points.is_empty() && s.entries[k].tombstoned_at is Some && passed(
            now,
            s.entries[k].tombstoned_at->0,
        ) >= grace by {
        assert(is_dead(s.entries[k].known) <==> s.entries[k].known.points.is_empty());
    }
    assert forall|k: Seq<char>| #[trigger]
        g.core->RateLimit_0.entries.contains_key(k) <==> s.entries.contains_key(k)
            && !dead_keys(e, now, grace).contains(k) by {}
}

/// Collecting in a map takes nothing away that is read.
pub proof fn law_collecting_changes_no_value(m: MapView, now: u128, grace: u128, key: Seq<char>)
    requires
        m.slots.len() == m.prefixes.len() + 1,
        m.slots[route(m.prefixes, key)].core matches Core::Lww(s) ==> forall|k: Seq<char>| #[trigger]
            s.live.contains_key(k) <==> s.meta.contains_key(k) && !s.meta[k].is_tombstone,
    ensures
        value_of(after_collecting(m, now, grace), key) == value_of(m, key),
        after_collecting(m, now, grace).clock == m.clock,
        after_collecting(m, now, grace).prefixes == m.prefixes,
{
    law_key_goes_to_its_prefix(m.prefixes, key);
    let at = route(m.prefixes, key);
    let e = m.slots[at];
    assert(after_collecting(m, now, grace).slots[at] == after_gc(e, now, grace));
    match e.core {
        Core::Lww(s) => {
            law_collecting_forgets_old_tombstones(s, e, now, grace);
        },
        Core::RateLimit(s) => {
            law_collecting_forgets_old_cuts(s, e, now, grace);
        },
    }
    assert(live_value(after_gc(e, now, grace), key) == live_value(e, key));
}

/// The keys of an engine are those of which something is read.
pub proof fn law_live_keys_have_values(e: EngineView, key: Seq<char>)
    ensures
        live_keys(e).contains(key) <==> live_value(e, key) is Some,
{
}

// ---- Lists ----

/// A list of pairs that tabulates values has every key that has a value, with that
/// value, and no other, in ascending order and so each once.
pub proof fn law_table_has_every_key(
    pairs: Seq<(String, Vec<u8>)>,
    values: spec_fn(Seq<char>) -> Option<Seq<u8>>,
    key: Seq<char>,
)
    requires
        tabulates(pairs, values),
    ensures
        values(key) is Some <==> exists|i: int| 0 <= i < pairs.len() && (#[trigger] pairs[i]).0@ == key,
        forall|i: int|
            0 <= i < pairs.len() && (#[trigger] pairs[i]).0@ == key ==> values(key) == Some(
                pairs[i].1@,
            ),
        forall|i: int, j: int|
            0 <= i < j < pairs.len() ==> str_before(
                (#[trigger] pairs[i]).0@,
                (#[trigger] pairs[j]).0@,
            ),
{
    if values(key) is Some {
        assert(exists|i: int| 0 <= i < pairs.len() && (#[trigger] pairs[i]).0@ == key);
    }
    assert forall|i: int, j: int| 0 <= i < j < pairs.len() implies str_before(
        (#[trigger] pairs[i]).0@,
        (#[trigger] pairs[j]).0@,
    ) by {
        assert(str_before(pair_keys(pairs)[i], pair_keys(pairs)[j]));
    }
}

/// The live keys of engines one after another are the keys of which some engine holds
/// a value.
pub proof fn law_listed_keys_are_live(
    parts: Seq<Seq<Seq<char>>>,
    slots: Seq<EngineView>,
    key: Seq<char>,
)
    requires
        lists_live_keys(parts, slots),
    ensures
        chained(parts).contains(key) <==> exists|i: int|
            0 <= i < slots.len() && live_value(#[trigger] slots[i], key) is Some,
    decreases parts.len(),
{
    if parts.len() > 0 {
        let front = parts.drop_last();
        let before = slots.drop_last();
        let n = parts.len() - 1;
        assert(lists_live_keys(front, before)) by {
            assert forall|i: int| 0 <= i < front.len() implies (#[trigger] front[i]).no_duplicates()
                && front[i].to_set() == live_keys(before[i]) by {
                assert(parts[i] == front[i]);
                assert(slots[i] == before[i]);
            }
        }
        law_listed_keys_are_live(front, before, key);
        assert(parts[n].to_set() == live_keys(slots[n]));
        assert(parts[n].contains(key) <==> parts[n].to_set().contains(key));
        law_live_keys_have_values(slots[n], key);
        let all = chained(front) + parts[n];
        if all.contains(key) {
            let i = choose|i: int| 0 <= i < all.len() && all[i] == key;
            if i < chained(front).len() {
                assert(chained(front)[i] == key);
                let k = choose|k: int|
                    0 <= k < before.len() && live_value(#[trigger] before[k], key) is Some;
                assert(slots[k] == before[k]);
            } else {
                assert(parts[n][i - chained(front).len()] == key);
                assert(live_value(slots[n], key) is Some);
            }
        }
        if exists|i: int| 0 <= i < slots.len() && live_value(#[trigger] slots[i], key) is Some {
            let k = choose|k: int|
                0 <= k < slots.len() && live_value(#[trigger] slots[k], key) is Some;
            if k < n {
                assert(live_value(before[k], key) is Some);
                let i = choose|i: int| 0 <= i < chained(front).len() && chained(front)[i] == key;
                assert(all[i] == key);
            } else {
                let i = choose|i: int| 0 <= i < parts[n].len() && parts[n][i] == key;
                assert(all[chained(front).len() + i] == key);
            }
        }
    }
}

/// A watermark that is listed has every acknowledgement, and no other.
pub proof fn law_listed_watermark(
    entries: Seq<(Seq<char>, Version)>,
    acked: Map<Seq<char>, Version>,
    key: Seq<char>,
)
    requires
        lists_acks(entries, acked),
    ensures
        acked.contains_key(key) <==> exists|i: int|
            0 <= i < entries.len() && (#[trigger] entries[i]).0 == key,
        forall|i: int|
            0 <= i < entries.len() && (#[trigger] entries[i]).0 == key ==> acked[key] == entries[i].1,
{
    if acked.contains_key(key) {
        let i = choose|i: int| 0 <= i < entries.len() && #[trigger] entries[i].0 == key;
        assert(entries[i].0 == key);
    }
    assert forall|i: int| 0 <= i < entries.len() && (#[trigger] entries[i]).0 == key implies acked[
    key] == entries[i].1 by {
        assert(acked.contains_key(entries[i].0));
    }
}

/// A prefix takes its place behind those that are as long in bytes or longer, and before
/// the shorter ones, so that the longest stay first.
pub proof fn law_prefix_takes_its_place(prefixes: Seq<Seq<char>>, prefix: Seq<char>, at: int)
    requires
        goes_at(prefixes, prefix, at),
        forall|a: int, b: int|
            0 <= a < b < prefixes.len() ==> encode_utf8(#[trigger] prefixes[a]).len()
                >= encode_utf8(#[trigger] prefixes[b]).len(),
    ensures
        ({
            let now = prefixes.insert(at, prefix);
            forall|a: int, b: int|
                0 <= a < b < now.len() ==> encode_utf8(#[trigger] now[a]).len() >= encode_utf8(
                    #[trigger] now[b],
                ).len()
        }),
        forall|j: int|
            0 <= j < prefixes.len() ==> (j < at <==> encode_utf8(#[trigger] prefixes[j]).len()
                >= encode_utf8(prefix).len()),
{
    let now = prefixes.insert(at, prefix);
    assert forall|a: int, b: int| 0 <= a < b < now.len() implies encode_utf8(
        #[trigger] now[a],
    ).len() >= encode_utf8(#[trigger] now[b]).len() by {
        let x = if a <= at {
            a
        } else {
            a - 1
        };
        let y = if b <= at {
            b
        } else {
            b - 1
        };
        if a != at {
            assert(now[a] == prefixes[x]);
        }
        if b != at {
            assert(now[b] == prefixes[y]);
        }
    }
}

} // verus!
