//! What becomes of logs, in plain numbers: how they are sorted, compacted and cut
//! short, and what numbers their bytes spell.
use super::engine::lww::lww_model;
use super::engine::lww_laws::lemma_lww_keeps_key;
use super::engine::{appended, observed_all};
use super::operation::{
    ascending, big_endian_bytes, compacted, counter_payload, decoded_ops, group_of, insert_op,
    lemma_compacted_group, lemma_compacted_members, lemma_group_members, lemma_newest,
    lemma_sort_ops, little_endian, log_in, mentions, newest, plain_op, sort_ops, truncated, OpView,
};
use super::order_laws::older;
use super::replica::Version;
use vstd::arithmetic::power::pow;
use vstd::prelude::*;

verus! {

// ---- Sorting ----

proof fn lemma_insert_keeps(sorted: Seq<OpView>, op: OpView, v: Version)
    requires
        ascending(sorted),
    ensures
        insert_op(sorted, op).filter(|o: OpView| o.version == v) == sorted.push(op).filter(
            |o: OpView| o.version == v,
        ),
    decreases sorted.len(),
{
    reveal(Seq::filter);
    let p = |o: OpView| o.version == v;
    let r = insert_op(sorted, op);
    assert(sorted.push(op).drop_last() =~= sorted);
    if sorted.len() > 0 && op.version.before(sorted.last().version) {
        let init = sorted.drop_last();
        let last = sorted.last();
        assert forall|i: int, j: int| 0 <= i < j < init.len() implies !init[j].version.before(
            init[i].version,
        ) by {
            assert(init[i] == sorted[i] && init[j] == sorted[j]);
        }
        lemma_insert_keeps(init, op, v);
        let s = insert_op(init, op);
        assert(r.drop_last() =~= s);
        assert(r.last() == last);
        assert(init.push(op).drop_last() =~= init);
        assert(init.push(op).filter(p) == (if p(op) {
            init.filter(p).push(op)
        } else {
            init.filter(p)
        }));
        assert(sorted.filter(p) == (if p(last) {
            init.filter(p).push(last)
        } else {
            init.filter(p)
        }));
        assert(r.filter(p) == (if p(last) {
            s.filter(p).push(last)
        } else {
            s.filter(p)
        }));
        assert(sorted.push(op).filter(p) == (if p(op) {
            sorted.filter(p).push(op)
        } else {
            sorted.filter(p)
        }));
        assert(!(p(last) && p(op)));
    }
}

/// Operations are sorted by version, the older first: none is lost and none added, and
/// those of one version stay in their order.
pub proof fn law_operations_are_sorted_by_version(ops: Seq<OpView>, v: Version)
    ensures
        forall|i: int, j: int|
            0 <= i < j < sort_ops(ops).len() ==> !older(
                (#[trigger] sort_ops(ops)[j]).version,
                (#[trigger] sort_ops(ops)[i]).version,
            ),
        sort_ops(ops).to_multiset() == ops.to_multiset(),
        sort_ops(ops).filter(|o: OpView| o.version == v) == ops.filter(|o: OpView| o.version == v),
    decreases ops.len(),
{
    lemma_sort_ops(ops);
    let all = sort_ops(ops);
    assert forall|i: int, j: int| 0 <= i < j < all.len() implies !older(
        (#[trigger] all[j]).version,
        (#[trigger] all[i]).version,
    ) by {
        assert(!all[j].version.before(all[i].version));
    }
    if ops.len() > 0 {
        reveal(Seq::filter);
        let init = ops.drop_last();
        law_operations_are_sorted_by_version(init, v);
        lemma_sort_ops(init);
        lemma_insert_keeps(sort_ops(init), ops.last(), v);
        assert(sort_ops(init).push(ops.last()).drop_last() =~= sort_ops(init));
    }
}

// ---- The newest ----

/// The newest of operations has a version that no other exceeds, and is the last of
/// those that have it.
pub proof fn law_newest_is_the_last_of_the_largest(ops: Seq<OpView>)
    ensures
        newest(ops) is None <==> ops.len() == 0,
        newest(ops) matches Some(op) ==> exists|i: int|
            0 <= i < ops.len() && #[trigger] ops[i] == op && (forall|j: int|
                0 <= j < ops.len() ==> !older(op.version, (#[trigger] ops[j]).version)) && (forall|
                j: int,
            |
                i < j < ops.len() ==> older((#[trigger] ops[j]).version, op.version)),
    decreases ops.len(),
{
    lemma_newest(ops);
    if ops.len() > 0 {
        let init = ops.drop_last();
        let last = ops.last();
        law_newest_is_the_last_of_the_largest(init);
        lemma_newest(init);
        let op = newest(ops)->0;
        let n = ops.len() - 1;
        assert(ops[n] == last);
        if newest(init) matches Some(was) && last.version.before(was.version) {
            let was = newest(init)->0;
            let i = choose|i: int|
                0 <= i < init.len() && #[trigger] init[i] == was && (forall|j: int|
                    0 <= j < init.len() ==> !older(was.version, (#[trigger] init[j]).version)) && (
                forall|j: int|
                    i < j < init.len() ==> older((#[trigger] init[j]).version, was.version));
            assert(ops[i] == was);
            assert forall|j: int| 0 <= j < ops.len() implies !older(
                op.version,
                (#[trigger] ops[j]).version,
            ) by {
                if j < n {
                    assert(init[j] == ops[j]);
                }
            }
            assert forall|j: int| i < j < ops.len() implies older(
                (#[trigger] ops[j]).version,
                op.version,
            ) by {
                if j < n {
                    assert(init[j] == ops[j]);
                }
            }
        } else {
            assert(op == last);
            assert forall|j: int| 0 <= j < ops.len() implies !older(
                op.version,
                (#[trigger] ops[j]).version,
            ) by {
                assert(!op.version.before(ops[j].version));
            }
            assert(ops[n] == op);
        }
    }
}

/// The operations of a key are those of a log that speak of it, in their order.
pub proof fn law_operations_of_a_key(ops: Seq<OpView>, key: Seq<char>)
    ensures
        group_of(ops, key) == ops.filter(|o: OpView| o.key == key),
        mentions(ops, key) <==> exists|i: int| 0 <= i < ops.len() && (#[trigger] ops[i]).key == key,
{
}

// ---- Compaction ----

/// An operation of a log that no other of its key is newer than.
pub open spec fn is_winner(log: Seq<OpView>, op: OpView) -> bool {
    &&& log.contains(op)
    &&& forall|i: int|
        0 <= i < log.len() && (#[trigger] log[i]).key == op.key ==> !older(
            op.version,
            log[i].version,
        )
}

/// Compaction keeps of each key of a last-writer-wins log one operation, a put or a
/// remove, that no other of the key is newer than, and no others. What is kept stands
/// in the order of versions.
pub proof fn law_compaction_keeps_the_winners(log: Seq<OpView>, key: Seq<char>)
    ensures
        ({
            let kept = compacted(log, lww_model());
            &&& forall|op: OpView| #[trigger] kept.contains(op) ==> is_winner(log, op)
            &&& (exists|i: int| 0 <= i < log.len() && (#[trigger] log[i]).key == key)
                ==> kept.filter(|o: OpView| o.key == key).len() == 1
            &&& (forall|i: int| 0 <= i < log.len() ==> (#[trigger] log[i]).key != key)
                ==> kept.filter(|o: OpView| o.key == key).len() == 0
            &&& forall|i: int, j: int|
                0 <= i < j < kept.len() ==> !older(
                    (#[trigger] kept[j]).version,
                    (#[trigger] kept[i]).version,
                )
        }),
{
    let fold = lww_model();
    let kept = compacted(log, fold);
    lemma_lww_keeps_key();
    lemma_compacted_group(log, fold, key);
    lemma_group_members(log, key);
    let group = group_of(log, key);
    lemma_newest(group);
    assert forall|op: OpView| #[trigger] kept.contains(op) implies is_winner(log, op) by {
        lemma_compacted_members(log, fold, op);
        let k = choose|k: Seq<char>| mentions(log, k) && #[trigger] fold(group_of(log, k)) == Some(
            op,
        );
        let g = group_of(log, k);
        lemma_newest(g);
        lemma_group_members(log, k);
        assert(g.contains(op));
        assert forall|i: int| 0 <= i < log.len() && (#[trigger] log[i]).key == op.key implies !older(
            op.version,
            log[i].version,
        ) by {
            assert(log.contains(log[i]));
            assert(g.contains(log[i]));
            let j = choose|j: int| 0 <= j < g.len() && g[j] == log[i];
            assert(!op.version.before(g[j].version));
        }
    }
    assert forall|i: int, j: int| 0 <= i < j < kept.len() implies !older(
        (#[trigger] kept[j]).version,
        (#[trigger] kept[i]).version,
    ) by {
        assert(!kept[j].version.before(kept[i].version));
    }
    if exists|i: int| 0 <= i < log.len() && (#[trigger] log[i]).key == key {
        let i = choose|i: int| 0 <= i < log.len() && (#[trigger] log[i]).key == key;
        assert(log[i].key == key);
        assert(mentions(log, key));
        assert(group.len() > 0);
    }
    if forall|i: int| 0 <= i < log.len() ==> (#[trigger] log[i]).key != key {
        assert(!mentions(log, key));
    }
}

/// A log of more than ten thousand operations loses all but the last seven thousand
/// five hundred.
pub proof fn law_long_logs_are_cut_short(ops: Seq<OpView>)
    ensures
        ops.len() <= 10_000 ==> truncated(ops) == ops,
        ops.len() > 10_000 ==> truncated(ops) == ops.subrange(ops.len() - 7_500, ops.len() as int),
{
    if ops.len() > 10_000 {
        assert(ops.skip(ops.len() - 7_500) =~= ops.subrange(
            ops.len() - 7_500,
            ops.len() as int,
        ));
    }
}

/// A log grows by the operation that is recorded. It is compacted only where it has
/// then more than sixty-four operations and more than two for each key.
pub proof fn law_log_grows_by_one(
    log: Seq<OpView>,
    op: OpView,
    keys: nat,
    fold: spec_fn(Seq<OpView>) -> Option<OpView>,
)
    ensures
        log.len() < 64 || log.len() < 2 * keys ==> appended(log, op, keys, fold) == log.push(op),
        log.len() >= 64 && log.len() >= 2 * keys ==> appended(log, op, keys, fold) == truncated(
            compacted(log.push(op), fold),
        ),
{
}

/// A clock that observed operations is past every one of them, and past where it was,
/// by no more than their number.
pub proof fn law_clock_passes_all_that_it_observes(time: u64, ops: Seq<OpView>, most: u64)
    requires
        time <= most,
        forall|i: int| 0 <= i < ops.len() ==> (#[trigger] ops[i]).version.timestamp <= most,
        most + ops.len() < u64::MAX,
    ensures
        time + ops.len() <= observed_all(time, ops) <= most + ops.len(),
        forall|i: int|
            0 <= i < ops.len() ==> observed_all(time, ops) > (#[trigger] ops[i]).version.timestamp,
    decreases ops.len(),
{
    if ops.len() > 0 {
        let init = ops.drop_last();
        assert forall|i: int| 0 <= i < init.len() implies (#[trigger] init[i]).version.timestamp
            <= most by {
            assert(ops[i] == init[i]);
        }
        law_clock_passes_all_that_it_observes(time, init, most);
        assert(ops[ops.len() - 1] == ops.last());
        assert forall|i: int| 0 <= i < ops.len() implies observed_all(time, ops) > (
        #[trigger] ops[i]).version.timestamp by {
            if i < init.len() {
                assert(init[i] == ops[i]);
            }
        }
    }
}

// ---- Numbers in bytes ----

/// The number that bytes spell, the lowest byte first.
pub open spec fn byte_sum(bytes: Seq<u8>) -> int
    decreases bytes.len(),
{
    if bytes.len() == 0 {
        0
    } else {
        byte_sum(bytes.drop_last()) + bytes.last() * pow(256, (bytes.len() - 1) as nat)
    }
}

proof fn lemma_byte_sum(bytes: Seq<u8>)
    ensures
        byte_sum(bytes) == little_endian(bytes),
    decreases bytes.len(),
{
    if bytes.len() > 0 {
        lemma_byte_sum(bytes.drop_first());
        lemma_first_byte(bytes);
    }
}

proof fn lemma_first_byte(bytes: Seq<u8>)
    requires
        bytes.len() > 0,
    ensures
        byte_sum(bytes) == bytes[0] + 256 * byte_sum(bytes.drop_first()),
    decreases bytes.len(),
{
    reveal(pow);
    let n = bytes.len() as int;
    if n == 1 {
        assert(bytes.drop_last() =~= Seq::empty());
        assert(bytes.drop_first() =~= Seq::empty());
        assert(pow(256, 0) == 1);
    } else {
        let init = bytes.drop_last();
        let tail = bytes.drop_first();
        lemma_first_byte(init);
        assert(init.drop_first() =~= tail.drop_last());
        assert(tail.last() == bytes.last());
        let last = bytes.last() as int;
        let q = pow(256, (n - 2) as nat);
        assert(pow(256, (n - 1) as nat) == 256 * q);
        assert(last * (256 * q) == 256 * (last * q)) by (nonlinear_arith);
        assert(256 * (byte_sum(tail.drop_last()) + last * q) == 256 * byte_sum(tail.drop_last())
            + 256 * (last * q)) by (nonlinear_arith);
    }
}

/// A counter is what its first eight bytes spell, the lowest first, in two's
/// complement. Fewer bytes spell none.
pub proof fn law_counter_is_spelled_by_its_bytes(value: Seq<u8>)
    ensures
        value.len() < 8 ==> counter_payload(value) is None,
        value.len() >= 8 ==> counter_payload(value) is Some && (counter_payload(value)->0
            == byte_sum(value.subrange(0, 8)) || counter_payload(value)->0 == byte_sum(
            value.subrange(0, 8),
        ) - 0x1_0000_0000_0000_0000),
{
    if value.len() >= 8 {
        let b = value.subrange(0, 8);
        assert(b =~= value.take(8));
        lemma_byte_sum(b);
        lemma_sum_below(b);
        reveal(pow);
        reveal_with_fuel(pow, 9);
        assert(pow(256, 8) == 0x1_0000_0000_0000_0000);
    }
}

proof fn lemma_sum_below(bytes: Seq<u8>)
    ensures
        0 <= byte_sum(bytes) < pow(256, bytes.len()),
    decreases bytes.len(),
{
    reveal(pow);
    if bytes.len() > 0 {
        lemma_sum_below(bytes.drop_last());
        let q = pow(256, (bytes.len() - 1) as nat);
        let last = bytes.last() as int;
        assert(pow(256, bytes.len()) == 256 * q);
        assert(0 <= last * q <= 255 * q) by (nonlinear_arith)
            requires
                0 <= last <= 255,
                q >= 0,
        ;
    }
}

/// A number in bytes has the highest byte first, and as many as are asked for.
pub proof fn law_number_is_written_highest_byte_first(value: nat, n: nat)
    requires
        value < pow(256, n),
    ensures
        big_endian_bytes(value, n).len() == n,
        byte_sum(big_endian_bytes(value, n).reverse()) == value,
    decreases n,
{
    reveal(pow);
    if n > 0 {
        let high = value / 256;
        let low = (value % 256) as u8;
        let q = pow(256, (n - 1) as nat);
        assert(pow(256, n) == 256 * q);
        law_number_is_written_highest_byte_first(high, (n - 1) as nat);
        let bytes = big_endian_bytes(value, n);
        let before = big_endian_bytes(high, (n - 1) as nat);
        assert(bytes =~= before.push(low));
        let back = bytes.reverse();
        assert(back.drop_first() =~= before.reverse());
        assert(back[0] == low);
        lemma_first_byte(back);
        assert(value == 256 * high + low);
    } else {
        assert(big_endian_bytes(value, n).reverse() =~= Seq::empty());
        assert(pow(256, 0) == 1);
    }
}

/// On the wire an operation is its key, its value, its timestamp and the sixteen bytes
/// of its replica.
pub proof fn law_operation_on_the_wire(op: OpView)
    ensures
        plain_op(op).0 == op.key,
        plain_op(op).1 == op.value,
        plain_op(op).2 == op.version.timestamp,
        plain_op(op).3.len() == 16,
        byte_sum(plain_op(op).3.reverse()) == op.version.replica_id.bits,
{
    reveal(pow);
    reveal_with_fuel(pow, 17);
    assert(pow(256, 16) == 0x1_0000_0000_0000_0000_0000_0000_0000_0000);
    law_number_is_written_highest_byte_first(op.version.replica_id.bits as nat, 16);
}

/// Bytes are read as a log exactly where they decode to operations whose replicas are
/// all sixteen bytes.
pub proof fn law_bytes_read_as_a_log(bytes: Seq<u8>)
    ensures
        decoded_ops(bytes) is None ==> log_in(bytes) is None,
        decoded_ops(bytes) matches Some(plain) ==> (forall|i: int|
            0 <= i < plain.len() ==> (#[trigger] plain[i]).3.len() == 16) ==> log_in(bytes) == Some(
            plain,
        ),
        decoded_ops(bytes) matches Some(plain) ==> (exists|i: int|
            0 <= i < plain.len() && (#[trigger] plain[i]).3.len() != 16) ==> log_in(bytes) is None,
{
}

} // verus!
