//! How versions decide, in plain numbers: which operation wins, what a peer is sent,
//! and that a peer that merges what it is sent agrees with the sender.
use super::crdt::{after_write, next_stamp, MapView};
use super::crdt_laws::unique_versions;
use super::engine::any::{
    after_merge, applied_ops, fresh_engine, live_value, Core, EngineView, MergeStrategy,
};
use super::engine::lww::{accepts, apply_all, lemma_apply_all_monotone, seen_in, unseen, LwwState};
use super::engine::lww_laws::{left_by, lemma_key_origin};
use super::kv_store::lookup;
use super::operation::{lemma_filter_members, lemma_sort_ops, OpView};
use super::replica::{next_time, observed_time, Version};
use super::watermark::{acknowledged, acks_listed, acks_of, merged_acks, pending, pending_ops};
use vstd::prelude::*;

verus! {

/// The timestamp decides, and where timestamps are equal the number of the replica.
pub open spec fn older(a: Version, b: Version) -> bool {
    a.timestamp < b.timestamp || (a.timestamp == b.timestamp && a.replica_id.bits
        < b.replica_id.bits)
}

/// Versions are ordered by timestamp, and by replica where timestamps are equal.
pub proof fn law_versions_are_ordered_by_number(a: Version, b: Version)
    ensures
        a.before(b) <==> older(a, b),
        a == b <==> a.timestamp == b.timestamp && a.replica_id.bits == b.replica_id.bits,
        a.before(b) || b.before(a) || a == b,
{
    if a.timestamp == b.timestamp && a.replica_id.bits == b.replica_id.bits {
        assert(a.replica_id == b.replica_id);
    }
}

// ---- The clock ----

/// The clock goes up by one, and by no more, until it can go no further.
pub proof fn law_clock_counts_one_by_one(time: u64)
    ensures
        time < u64::MAX ==> next_time(time) == time + 1,
        time == u64::MAX ==> next_time(time) == time,
{
}

/// A clock that has observed a timestamp is one past the later of the two.
pub proof fn law_clock_passes_what_it_observes(time: u64, remote: u64)
    ensures
        time >= remote && time < u64::MAX ==> observed_time(time, remote) == time + 1,
        remote >= time && remote < u64::MAX ==> observed_time(time, remote) == remote + 1,
        time == u64::MAX || remote == u64::MAX ==> observed_time(time, remote) == u64::MAX,
{
}

/// A local operation is stamped with the next reading of the clock and with this
/// replica, and the clock keeps that reading.
pub proof fn law_local_stamp(m: MapView, key: Seq<char>, value: Option<Seq<u8>>, now: u128)
    requires
        m.clock < u64::MAX,
    ensures
        next_stamp(m).timestamp == m.clock + 1,
        next_stamp(m).replica_id == m.replica,
        after_write(m, key, value, now).clock == m.clock + 1,
        after_write(m, key, value, now).prefixes == m.prefixes,
        after_write(m, key, value, now).replica == m.replica,
{
}

// ---- What a peer is sent ----

/// The peer has acknowledged this version of the operation's key, or a later one.
pub open spec fn is_acked(acked: Map<Seq<char>, Version>, op: OpView) -> bool {
    acked.contains_key(op.key) && !older(acked[op.key], op.version)
}

/// A peer is sent an operation, a put or a remove, exactly where it has acknowledged
/// nothing of the key or only something older. The order stays as it is.
pub proof fn law_what_is_not_acknowledged_is_sent(
    acked: Map<Seq<char>, Version>,
    ops: Seq<OpView>,
    op: OpView,
)
    ensures
        pending(acked, op) <==> !is_acked(acked, op),
        pending_ops(acked, ops).contains(op) <==> ops.contains(op) && !is_acked(acked, op),
        pending_ops(acked, ops) == ops.filter(|o: OpView| !is_acked(acked, o)),
{
    let p = |o: OpView| pending(acked, o);
    let q = |o: OpView| !is_acked(acked, o);
    lemma_filter_members(ops, p, op);
    assert forall|o: OpView| #[trigger] p(o) == q(o) by {}
    assert(p =~= q);
}

/// The version acknowledged for a key after one more acknowledgement is the later one.
pub proof fn law_later_acknowledgement_stays(
    acked: Map<Seq<char>, Version>,
    key: Seq<char>,
    version: Version,
)
    ensures
        acknowledged(acked, key, version).contains_key(key),
        !older(acknowledged(acked, key, version)[key], version),
        acked.contains_key(key) ==> !older(acknowledged(acked, key, version)[key], acked[key]),
        acknowledged(acked, key, version)[key] == version || acked.contains_key(key)
            && acknowledged(acked, key, version)[key] == acked[key],
        forall|k: Seq<char>|
            k != key ==> {
                &&& (#[trigger] acknowledged(acked, key, version).contains_key(k)
                    <==> acked.contains_key(k))
                &&& acked.contains_key(k) ==> acknowledged(acked, key, version)[k] == acked[k]
            },
{
}

/// Of operations the newest version of each key is what they acknowledge.
pub proof fn law_operations_acknowledge_their_newest(ops: Seq<OpView>, key: Seq<char>)
    ensures
        acks_of(ops).contains_key(key) <==> exists|i: int|
            0 <= i < ops.len() && (#[trigger] ops[i]).key == key,
        acks_of(ops).contains_key(key) ==> exists|i: int|
            0 <= i < ops.len() && (#[trigger] ops[i]).key == key && ops[i].version == acks_of(
                ops,
            )[key],
        forall|i: int|
            0 <= i < ops.len() && (#[trigger] ops[i]).key == key ==> !older(
                acks_of(ops)[key],
                ops[i].version,
            ),
    decreases ops.len(),
{
    if ops.len() > 0 {
        let init = ops.drop_last();
        let last = ops.last();
        law_operations_acknowledge_their_newest(init, key);
        law_later_acknowledgement_stays(acks_of(init), last.key, last.version);
        assert(ops[ops.len() - 1] == last);
        assert forall|i: int| 0 <= i < ops.len() && (#[trigger] ops[i]).key == key implies !older(
            acks_of(ops)[key],
            ops[i].version,
        ) by {
            if i < init.len() {
                assert(init[i] == ops[i]);
            }
        }
        if acks_of(init).contains_key(key) {
            let i = choose|i: int|
                0 <= i < init.len() && (#[trigger] init[i]).key == key && init[i].version
                    == acks_of(init)[key];
            assert(ops[i] == init[i]);
        }
        if exists|i: int| 0 <= i < ops.len() && (#[trigger] ops[i]).key == key {
            let i = choose|i: int| 0 <= i < ops.len() && (#[trigger] ops[i]).key == key;
            if i < init.len() {
                assert(init[i] == ops[i]);
            }
        }
    }
}

/// Of listed acknowledgements the newest of each key counts.
pub proof fn law_newest_listed_acknowledgement_counts(
    entries: Seq<(Seq<char>, Version)>,
    key: Seq<char>,
)
    ensures
        acks_listed(entries).contains_key(key) <==> exists|i: int|
            0 <= i < entries.len() && (#[trigger] entries[i]).0 == key,
        acks_listed(entries).contains_key(key) ==> exists|i: int|
            0 <= i < entries.len() && (#[trigger] entries[i]).0 == key && entries[i].1
                == acks_listed(entries)[key],
        forall|i: int|
            0 <= i < entries.len() && (#[trigger] entries[i]).0 == key ==> !older(
                acks_listed(entries)[key],
                entries[i].1,
            ),
    decreases entries.len(),
{
    if entries.len() > 0 {
        let init = entries.drop_last();
        let last = entries.last();
        law_newest_listed_acknowledgement_counts(init, key);
        law_later_acknowledgement_stays(acks_listed(init), last.0, last.1);
        assert(entries[entries.len() - 1] == last);
        assert forall|i: int|
            0 <= i < entries.len() && (#[trigger] entries[i]).0 == key implies !older(
            acks_listed(entries)[key],
            entries[i].1,
        ) by {
            if i < init.len() {
                assert(init[i] == entries[i]);
            }
        }
        if acks_listed(init).contains_key(key) {
            let i = choose|i: int|
                0 <= i < init.len() && (#[trigger] init[i]).0 == key && init[i].1 == acks_listed(
                    init,
                )[key];
            assert(entries[i] == init[i]);
        }
        if exists|i: int| 0 <= i < entries.len() && (#[trigger] entries[i]).0 == key {
            let i = choose|i: int| 0 <= i < entries.len() && (#[trigger] entries[i]).0 == key;
            if i < init.len() {
                assert(init[i] == entries[i]);
            }
        }
    }
}

/// Of two watermarks the later acknowledgement of each key counts.
pub proof fn law_merged_watermarks_take_the_later(
    a: Map<Seq<char>, Version>,
    b: Map<Seq<char>, Version>,
    key: Seq<char>,
)
    ensures
        merged_acks(a, b).contains_key(key) <==> a.contains_key(key) || b.contains_key(key),
        a.contains_key(key) ==> !older(merged_acks(a, b)[key], a[key]),
        b.contains_key(key) ==> !older(merged_acks(a, b)[key], b[key]),
        merged_acks(a, b).contains_key(key) ==> a.contains_key(key) && merged_acks(a, b)[key]
            == a[key] || b.contains_key(key) && merged_acks(a, b)[key] == b[key],
{
}

// ---- Which operation wins ----

/// The value that a map holds for a key.
pub open spec fn held<V>(map: Map<Seq<char>, V>, key: Seq<char>) -> Option<V> {
    if map.contains_key(key) {
        Some(map[key])
    } else {
        None
    }
}

/// An operation of a key that no other of the key is newer than, and that no other
/// of the key and version gainsays.
pub open spec fn is_newest(ops: Seq<OpView>, op: OpView) -> bool {
    &&& ops.contains(op)
    &&& forall|i: int|
        0 <= i < ops.len() && (#[trigger] ops[i]).key == op.key ==> {
            &&& !older(op.version, ops[i].version)
            &&& ops[i].version == op.version && op.value is Some ==> ops[i].value == op.value
        }
}

/// The version is not that of an operation in the log.
pub open spec fn is_new_to(log: Seq<OpView>, version: Version) -> bool {
    forall|i: int| 0 <= i < log.len() ==> (#[trigger] log[i]).version != version
}

/// A merge applies the operations of a batch whose version the log does not hold.
pub proof fn lemma_applied(s: LwwState, e: EngineView, ops: Seq<OpView>, op: OpView)
    requires
        e.core == Core::Lww(s),
    ensures
        applied_ops(e, ops).contains(op) <==> ops.contains(op) && is_new_to(e.log, op.version),
{
    let p = |o: OpView| !seen_in(e.log, o.version);
    lemma_filter_members(ops, p, op);
    lemma_sort_ops(unseen(ops, e.log));
    if is_new_to(e.log, op.version) && seen_in(e.log, op.version) {
        let i = choose|i: int| 0 <= i < e.log.len() && #[trigger] e.log[i].version == op.version;
        assert(e.log[i].version != op.version);
    }
    if !is_new_to(e.log, op.version) {
        let i = choose|i: int|
            0 <= i < e.log.len() && (#[trigger] e.log[i]).version == op.version;
        assert(e.log[i].version == op.version);
        assert(seen_in(e.log, op.version));
    }
}

/// A merge applies each operation of a batch whose version is not in the log yet, the
/// older first. A rate-limit engine applies them all.
pub proof fn law_what_a_merge_applies(e: EngineView, ops: Seq<OpView>, op: OpView)
    ensures
        e.core is Lww ==> (applied_ops(e, ops).contains(op) <==> ops.contains(op) && is_new_to(
            e.log,
            op.version,
        )),
        e.core is RateLimit ==> applied_ops(e, ops).to_multiset() == ops.to_multiset(),
        forall|i: int, j: int|
            0 <= i < j < applied_ops(e, ops).len() ==> !older(
                (#[trigger] applied_ops(e, ops)[j]).version,
                (#[trigger] applied_ops(e, ops)[i]).version,
            ),
{
    let all = applied_ops(e, ops);
    match e.core {
        Core::Lww(s) => {
            lemma_applied(s, e, ops, op);
            lemma_sort_ops(unseen(ops, e.log));
        },
        Core::RateLimit(_) => {
            lemma_sort_ops(ops);
        },
    }
    assert forall|i: int, j: int| 0 <= i < j < all.len() implies !older(
        (#[trigger] all[j]).version,
        (#[trigger] all[i]).version,
    ) by {
        assert(!all[j].version.before(all[i].version));
    }
}

/// The newest operation of a key decides what is read of it after a merge, a put by
/// its value and a remove by leaving none, where it is newer than what was recorded
/// of the key. The others make no difference, and neither does their order.
pub proof fn law_newest_operation_wins(
    s: LwwState,
    e: EngineView,
    ops: Seq<OpView>,
    op: OpView,
    now: u128,
)
    requires
        e.core == Core::Lww(s),
        is_newest(ops, op),
        is_new_to(e.log, op.version),
        s.meta.contains_key(op.key) ==> older(s.meta[op.key].version, op.version),
    ensures
        live_value(after_merge(e, ops, now), op.key) == op.value,
        after_merge(e, ops, now).core matches Core::Lww(t) && t.meta.contains_key(op.key)
            && t.meta[op.key].version == op.version && t.meta[op.key].is_tombstone == (
        op.value is None) && t.meta[op.key].created_at == now,
{
    let applied = applied_ops(e, ops);
    lemma_applied(s, e, ops, op);
    let w = choose|w: int| 0 <= w < applied.len() && applied[w] == op;
    let t = apply_all(s, applied, now);
    lemma_key_origin(s, applied, now, op.key);
    lemma_apply_all_monotone(s, applied, now);
    assert(!accepts(lookup(t.meta, op.key), applied[w]));
    assert(accepts(lookup(s.meta, op.key), op));
    let i = choose|i: int|
        0 <= i < applied.len() && (#[trigger] applied[i]).key == op.key && left_by(
            t,
            applied[i],
            now,
        ) && accepts(lookup(s.meta, op.key), applied[i]);
    lemma_applied(s, e, ops, applied[i]);
    assert(applied.contains(applied[i]));
    let j = choose|j: int| 0 <= j < ops.len() && ops[j] == applied[i];
    assert(ops[j].key == op.key);
    law_versions_are_ordered_by_number(applied[i].version, op.version);
}

/// What is recorded of a key stays where it is newer than every operation of the key
/// that is merged.
pub proof fn law_newer_record_stays(
    s: LwwState,
    e: EngineView,
    ops: Seq<OpView>,
    key: Seq<char>,
    now: u128,
)
    requires
        e.core == Core::Lww(s),
        forall|i: int|
            0 <= i < ops.len() && (#[trigger] ops[i]).key == key ==> s.meta.contains_key(key)
                && older(ops[i].version, s.meta[key].version),
    ensures
        live_value(after_merge(e, ops, now), key) == live_value(e, key),
        after_merge(e, ops, now).core matches Core::Lww(t) && held(t.meta, key) == held(
            s.meta,
            key,
        ),
{
    let applied = applied_ops(e, ops);
    lemma_key_origin(s, applied, now, key);
    let t = apply_all(s, applied, now);
    if exists|i: int|
        0 <= i < applied.len() && (#[trigger] applied[i]).key == key && left_by(t, applied[i], now)
            && accepts(lookup(s.meta, key), applied[i]) {
        let i = choose|i: int|
            0 <= i < applied.len() && (#[trigger] applied[i]).key == key && left_by(
                t,
                applied[i],
                now,
            ) && accepts(lookup(s.meta, key), applied[i]);
        lemma_applied(s, e, ops, applied[i]);
        assert(applied.contains(applied[i]));
        let j = choose|j: int| 0 <= j < ops.len() && ops[j] == applied[i];
        assert(ops[j].key == key);
    }
}

/// A replica that knows nothing reads of each key, after a merge, what the newest
/// operation says, and nothing of a key that no operation speaks of.
pub proof fn law_fresh_replica_reads_the_newest(ops: Seq<OpView>, key: Seq<char>, now: u128)
    ensures
        ({
            let e = after_merge(fresh_engine(MergeStrategy::LastWriterWins), ops, now);
            &&& forall|op: OpView| #[trigger]
                is_newest(ops, op) && op.key == key ==> live_value(e, key) == op.value
            &&& (forall|i: int| 0 <= i < ops.len() ==> (#[trigger] ops[i]).key != key)
                ==> live_value(e, key) is None
        }),
{
    let e = fresh_engine(MergeStrategy::LastWriterWins);
    let s = e.core->Lww_0;
    assert forall|op: OpView| #[trigger] is_newest(ops, op) && op.key == key implies live_value(
        after_merge(e, ops, now),
        key,
    ) == op.value by {
        law_newest_operation_wins(s, e, ops, op, now);
    }
    if forall|i: int| 0 <= i < ops.len() ==> (#[trigger] ops[i]).key != key {
        law_newer_record_stays(s, e, ops, key, now);
    }
}

// ---- Delivery ----

/// What is recorded of an operation's key is that operation or a newer one.
pub open spec fn recorded(s: LwwState, op: OpView) -> bool {
    &&& s.meta.contains_key(op.key)
    &&& !older(s.meta[op.key].version, op.version)
    &&& s.meta[op.key].version == op.version && op.value is None ==> s.meta[op.key].is_tombstone
}

/// A replica's state and its log agree: a key is live where its record is no
/// tombstone, and every operation in the log is recorded.
pub open spec fn agrees(s: LwwState, log: Seq<OpView>) -> bool {
    &&& forall|k: Seq<char>| #[trigger]
        s.live.contains_key(k) <==> s.meta.contains_key(k) && !s.meta[k].is_tombstone
    &&& forall|i: int| 0 <= i < log.len() ==> recorded(s, #[trigger] log[i])
}

/// The log holds the operation that decided each key.
pub open spec fn carries(log: Seq<OpView>, s: LwwState) -> bool {
    forall|k: Seq<char>| #[trigger]
        s.meta.contains_key(k) ==> exists|i: int|
            0 <= i < log.len() && (#[trigger] log[i]).key == k && log[i].version
                == s.meta[k].version && log[i].value == held(s.live, k)
}

/// A peer knows nothing that the sender does not know, and has recorded what it
/// acknowledged.
pub open spec fn follows(
    peer: LwwState,
    sender: LwwState,
    acked: Map<Seq<char>, Version>,
) -> bool {
    &&& forall|k: Seq<char>| #[trigger]
        peer.meta.contains_key(k) ==> sender.meta.contains_key(k) && !older(
            sender.meta[k].version,
            peer.meta[k].version,
        ) && (peer.meta[k].version == sender.meta[k].version ==> held(peer.live, k) == held(
            sender.live,
            k,
        ))
    &&& forall|k: Seq<char>| #[trigger]
        acked.contains_key(k) ==> peer.meta.contains_key(k) && !older(
            peer.meta[k].version,
            acked[k],
        )
}

/// A peer that merges what is not acknowledged of a key reads what the sender reads.
pub proof fn lemma_delivery(
    sender: LwwState,
    log: Seq<OpView>,
    p: LwwState,
    e: EngineView,
    acked: Map<Seq<char>, Version>,
    ops: Seq<OpView>,
    now: u128,
    key: Seq<char>,
)
    requires
        agrees(sender, log),
        carries(log, sender),
        e.core == Core::Lww(p),
        agrees(p, e.log),
        follows(p, sender, acked),
        forall|op: OpView| #[trigger]
            ops.contains(op) && op.key == key ==> log.contains(op) && !is_acked(acked, op),
        forall|op: OpView| #[trigger]
            log.contains(op) && op.key == key && !is_acked(acked, op) ==> ops.contains(op),
        unique_versions(log + e.log),
    ensures
        live_value(after_merge(e, ops, now), key) == held(sender.live, key),
{
    let both = log + e.log;
    assert forall|op: OpView| log.contains(op) implies recorded(sender, op) by {
        let i = choose|i: int| 0 <= i < log.len() && log[i] == op;
        assert(recorded(sender, log[i]));
    }
    assert(sender.live.contains_key(key) <==> sender.meta.contains_key(key)
        && !sender.meta[key].is_tombstone);
    assert(p.live.contains_key(key) <==> p.meta.contains_key(key) && !p.meta[key].is_tombstone);
    assert forall|i: int| 0 <= i < ops.len() && (#[trigger] ops[i]).key == key implies recorded(
        sender,
        ops[i],
    ) by {
        assert(ops.contains(ops[i]));
    }
    if p.meta.contains_key(key) && sender.meta.contains_key(key) {
        law_versions_are_ordered_by_number(p.meta[key].version, sender.meta[key].version);
    }
    if sender.meta.contains_key(key) && (!p.meta.contains_key(key) || older(
        p.meta[key].version,
        sender.meta[key].version,
    )) {
        let w = choose|w: int|
            0 <= w < log.len() && (#[trigger] log[w]).key == key && log[w].version
                == sender.meta[key].version && log[w].value == held(sender.live, key);
        let op = log[w];
        assert(both[w] == op);
        assert(!is_acked(acked, op)) by {
            if acked.contains_key(key) {
                law_versions_are_ordered_by_number(acked[key], op.version);
            }
        }
        assert(log.contains(op));
        assert(ops.contains(op));
        assert forall|i: int| 0 <= i < e.log.len() implies (#[trigger] e.log[i]).version
            != op.version by {
            if e.log[i].version == op.version {
                assert(both[log.len() + i] == e.log[i]);
                assert(e.log[i] == op);
                assert(recorded(p, e.log[i]));
            }
        }
        assert forall|i: int| 0 <= i < ops.len() && (#[trigger] ops[i]).key == op.key implies {
            &&& !older(op.version, ops[i].version)
            &&& ops[i].version == op.version && op.value is Some ==> ops[i].value == op.value
        } by {
            assert(recorded(sender, ops[i]));
            assert(ops.contains(ops[i]));
            let j = choose|j: int| 0 <= j < log.len() && log[j] == ops[i];
            assert(both[j] == ops[i]);
        }
        law_newest_operation_wins(p, e, ops, op, now);
    } else {
        let applied = applied_ops(e, ops);
        let t = apply_all(p, applied, now);
        lemma_key_origin(p, applied, now, key);
        if exists|i: int|
            0 <= i < applied.len() && (#[trigger] applied[i]).key == key && left_by(
                t,
                applied[i],
                now,
            ) && accepts(lookup(p.meta, key), applied[i]) {
            let i = choose|i: int|
                0 <= i < applied.len() && (#[trigger] applied[i]).key == key && left_by(
                    t,
                    applied[i],
                    now,
                ) && accepts(lookup(p.meta, key), applied[i]);
            lemma_applied(p, e, ops, applied[i]);
            assert(applied.contains(applied[i]));
            assert(recorded(sender, applied[i]));
            law_versions_are_ordered_by_number(sender.meta[key].version, applied[i].version);
        }
    }
}

/// A peer that merges what it was sent reads of every key what the sender reads,
/// removed keys as well.
pub proof fn law_peer_catches_up(
    s: LwwState,
    sender: EngineView,
    p: LwwState,
    peer: EngineView,
    acked: Map<Seq<char>, Version>,
    now: u128,
)
    requires
        sender.core == Core::Lww(s),
        agrees(s, sender.log),
        carries(sender.log, s),
        peer.core == Core::Lww(p),
        agrees(p, peer.log),
        follows(p, s, acked),
        unique_versions(sender.log + peer.log),
    ensures
        forall|k: Seq<char>|
            live_value(after_merge(peer, pending_ops(acked, sender.log), now), k)
                == #[trigger] live_value(sender, k),
{
    let ops = pending_ops(acked, sender.log);
    assert forall|k: Seq<char>|
        live_value(after_merge(peer, ops, now), k) == #[trigger] live_value(sender, k) by {
        assert forall|op: OpView| #[trigger] ops.contains(op) implies sender.log.contains(op)
            && !is_acked(acked, op) by {
            law_what_is_not_acknowledged_is_sent(acked, sender.log, op);
        }
        assert forall|op: OpView| #[trigger] sender.log.contains(op) && !is_acked(
            acked,
            op,
        ) implies ops.contains(op) by {
            law_what_is_not_acknowledged_is_sent(acked, sender.log, op);
        }
        lemma_delivery(s, sender.log, p, peer, acked, ops, now, k);
    }
}

} // verus!
