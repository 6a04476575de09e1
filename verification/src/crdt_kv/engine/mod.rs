//! Engines: the state machines that own the keys of one namespace.
//!
//! An engine keeps live values, what it needs to resolve conflicts, and the log
//! of operations that other replicas are sent. The store above routes each key
//! to one engine and knows nothing of how that engine merges.
use super::operation::{
    compacted, keeps_as, mentions, ops_view, truncated, ChangeView, CrdtChange, OpView, Operation,
    OperationLog,
};
use super::replica::{observed_time, Version};
use crate::key_table::KeyTable;
use crate::text::{opt_bytes, opt_bytes_eq};
use vstd::prelude::*;

pub mod any;
pub mod lww;
pub mod lww_laws;
pub mod rate_limit;
pub mod rate_limit_laws;

verus! {

/// The shortest log that is ever compacted after a local write.
pub const COMPACT_FLOOR: usize = 64;

/// A log to which a local write appended `op`, in an engine with `keys` known
/// keys: compacted where it is more than twice as long as that, and then cut
/// back where it is still too long.
pub open spec fn appended(
    log: Seq<OpView>,
    op: OpView,
    keys: nat,
    fold: spec_fn(Seq<OpView>) -> Option<OpView>,
) -> Seq<OpView> {
    let longer = log.push(op);
    if longer.len() > COMPACT_FLOOR && longer.len() > 2 * keys {
        truncated(compacted(longer, fold))
    } else {
        longer
    }
}

/// Whether a log of length `len` is compacted in an engine with `keys` keys.
pub fn over_trigger(len: usize, keys: usize) -> (r: bool)
    ensures
        r == (len > COMPACT_FLOOR && len > 2 * keys),
{
    len > COMPACT_FLOOR && keys <= usize::MAX / 2 && len > 2 * keys
}

/// The clock after it observed the timestamp of each of `ops` in turn.
pub open spec fn observed_all(time: u64, ops: Seq<OpView>) -> u64
    decreases ops.len(),
{
    if ops.len() == 0 {
        time
    } else {
        observed_time(observed_all(time, ops.drop_last()), ops.last().version.timestamp)
    }
}

/// A clock that observed operations is not behind where it was, nor behind any
/// of them.
pub proof fn lemma_observed_all(time: u64, ops: Seq<OpView>)
    ensures
        observed_all(time, ops) >= time,
        forall|i: int|
            0 <= i < ops.len() ==> observed_all(time, ops) >= #[trigger] ops[i].version.timestamp,
    decreases ops.len(),
{
    if ops.len() > 0 {
        lemma_observed_all(time, ops.drop_last());
        assert forall|i: int| 0 <= i < ops.len() implies observed_all(time, ops)
            >= #[trigger] ops[i].version.timestamp by {
            if i < ops.len() - 1 {
                assert(ops.drop_last()[i] == ops[i]);
            }
        }
    }
}

/// Whether `grace` has passed at `now` since `at`. A moment that is still to
/// come counts as now.
pub open spec fn aged(now: u128, at: u128, grace: u128) -> bool {
    (if now >= at {
        now - at
    } else {
        0
    }) >= grace
}

/// Whether `grace` has passed at `now` since `at`.
pub fn has_aged(now: u128, at: u128, grace: u128) -> (r: bool)
    ensures
        r == aged(now, at, grace),
{
    let age: u128 = if now >= at {
        now - at
    } else {
        0
    };
    age >= grace
}

/// What changes say.
pub open spec fn changes_view(changes: Seq<CrdtChange>) -> Seq<ChangeView> {
    changes.map_values(|c: CrdtChange| c@)
}

/// `changes` name exactly the keys whose live value differs between `before`
/// and `after`, each once, with the value it has now.
pub open spec fn reports(
    changes: Seq<ChangeView>,
    before: spec_fn(Seq<char>) -> Option<Seq<u8>>,
    after: spec_fn(Seq<char>) -> Option<Seq<u8>>,
) -> bool {
    &&& forall|i: int, j: int|
        0 <= i < j < changes.len() ==> #[trigger] changes[i].key != #[trigger] changes[j].key
    &&& forall|i: int|
        0 <= i < changes.len() ==> {
            &&& (#[trigger] changes[i]).value == after(changes[i].key)
            &&& before(changes[i].key) != after(changes[i].key)
        }
    &&& forall|k: Seq<char>|
        #![trigger before(k)]
        before(k) != after(k) ==> exists|i: int|
            0 <= i < changes.len() && (#[trigger] changes[i]).key == k
}

/// What `get` returns is the live value of the key it was asked for.
pub open spec fn reads_as<F: Fn(&str) -> Option<Vec<u8>>>(
    get: F,
    live: spec_fn(Seq<char>) -> Option<Seq<u8>>,
) -> bool {
    &&& forall|k: &str| call_requires(get, (k,))
    &&& forall|k: &str, r: Option<Vec<u8>>| #[trigger]
        call_ensures(get, (k,), r) ==> opt_bytes(r) == live(k@)
}

/// The live value that each key of `ops` has now.
pub(crate) fn snapshot<F: Fn(&str) -> Option<Vec<u8>>>(
    ops: &Vec<Operation>,
    get: F,
    Ghost(live): Ghost<spec_fn(Seq<char>) -> Option<Seq<u8>>>,
) -> (r: KeyTable<Option<Vec<u8>>>)
    requires
        reads_as(get, live),
    ensures
        r.wf(),
        forall|k: Seq<char>| #[trigger] r@.contains_key(k) <==> mentions(ops_view(ops@), k),
        forall|k: Seq<char>| #[trigger]
            r@.contains_key(k) ==> opt_bytes(r@[k]) == live(k),
{
    let ghost all = ops_view(ops@);
    let mut before: KeyTable<Option<Vec<u8>>> = KeyTable::new();
    let n = ops.len();
    for i in 0..n
        invariant
            n == ops@.len(),
            all == ops_view(ops@),
            reads_as(get, live),
            before.wf(),
            forall|k: Seq<char>| #[trigger]
                before@.contains_key(k) <==> mentions(all.take(i as int), k),
            forall|k: Seq<char>| #[trigger]
                before@.contains_key(k) ==> opt_bytes(before@[k]) == live(k),
    {
        let ghost prior = before@;
        let key = ops[i].key();
        if !before.contains(key) {
            let value = get(key);
            before.insert(key.to_owned(), value);
        }
        proof {
            let seen = all.take(i as int);
            let next = all.take(i + 1);
            assert(next[i as int].key == key@);
            assert forall|k: Seq<char>| #[trigger] before@.contains_key(k) <==> mentions(
                next,
                k,
            ) by {
                if mentions(seen, k) {
                    let j = choose|j: int| 0 <= j < seen.len() && #[trigger] seen[j].key == k;
                    assert(next[j].key == k);
                }
                if mentions(next, k) {
                    let j = choose|j: int| 0 <= j < next.len() && #[trigger] next[j].key == k;
                    if j < i {
                        assert(seen[j].key == k);
                        assert(prior.contains_key(k));
                    }
                }
                if before@.contains_key(k) && k != key@ {
                    assert(prior.contains_key(k));
                }
            }
        }
    }
    assert(all.take(n as int) =~= all);
    before
}

/// The keys whose live value is no longer the one in `before`.
pub(crate) fn changed_since<F: Fn(&str) -> Option<Vec<u8>>>(
    before: &KeyTable<Option<Vec<u8>>>,
    get: F,
    Ghost(live): Ghost<spec_fn(Seq<char>) -> Option<Seq<u8>>>,
) -> (r: Vec<CrdtChange>)
    requires
        reads_as(get, live),
        before.wf(),
    ensures
        forall|i: int, j: int|
            0 <= i < j < r@.len() ==> #[trigger] r@[i].key@ != #[trigger] r@[j].key@,
        forall|i: int|
            0 <= i < r@.len() ==> {
                &&& before@.contains_key((#[trigger] r@[i]).key@)
                &&& opt_bytes(r@[i].value) == live(r@[i].key@)
                &&& opt_bytes(before@[r@[i].key@]) != live(r@[i].key@)
            },
        forall|k: Seq<char>| #[trigger]
            before@.contains_key(k) && opt_bytes(before@[k]) != live(k)
                ==> exists|i: int| 0 <= i < r@.len() && (#[trigger] r@[i]).key@ == k,
{
    let mut changes: Vec<CrdtChange> = Vec::new();
    let n = before.len();
    let ghost keys = before.keys_in_order();
    proof {
        before.lemma_keys_in_order();
    }
    for slot in 0..n
        invariant
            reads_as(get, live),
            before.wf(),
            keys == before.keys_in_order(),
            keys.no_duplicates(),
            n == keys.len(),
            forall|i: int|
                0 <= i < changes@.len() ==> keys.take(slot as int).contains(
                    (#[trigger] changes@[i]).key@,
                ),
            forall|i: int, j: int|
                0 <= i < j < changes@.len() ==> #[trigger] changes@[i].key@
                    != #[trigger] changes@[j].key@,
            forall|i: int|
                0 <= i < changes@.len() ==> {
                    &&& before@.contains_key((#[trigger] changes@[i]).key@)
                    &&& opt_bytes(changes@[i].value) == live(changes@[i].key@)
                    &&& opt_bytes(before@[changes@[i].key@]) != live(changes@[i].key@)
                },
            forall|m: int|
                0 <= m < slot && opt_bytes(before@[#[trigger] keys[m]]) != live(keys[m]) ==> exists|i: int|
                    0 <= i < changes@.len() && (#[trigger] changes@[i]).key@ == keys[m],
    {
        let ghost prior_changes = changes@;
        let key = before.key_at(slot);
        let prior = before.value_at(slot);
        let value = get(key.as_str());
        if !opt_bytes_eq(&value, prior) {
            changes.push(CrdtChange { key: key.clone(), value });
        }
        proof {
            let seen = keys.take(slot as int);
            let next = keys.take(slot + 1);
            assert(next =~= seen.push(keys[slot as int]));
            assert forall|i: int| 0 <= i < changes@.len() implies next.contains(
                (#[trigger] changes@[i]).key@,
            ) by {
                if i < prior_changes.len() {
                    assert(seen.contains(prior_changes[i].key@));
                    let j = choose|j: int| 0 <= j < seen.len() && seen[j] == changes@[i].key@;
                    assert(next[j] == changes@[i].key@);
                } else {
                    assert(next[slot as int] == changes@[i].key@);
                }
            }
            assert forall|i: int, j: int| 0 <= i < j < changes@.len() implies #[trigger]
                changes@[i].key@ != #[trigger] changes@[j].key@ by {
                assert(seen.contains(prior_changes[i].key@));
                if j == prior_changes.len() {
                    let m = choose|m: int| 0 <= m < seen.len() && seen[m] == changes@[i].key@;
                    assert(keys[m] == changes@[i].key@);
                    assert(keys[slot as int] == changes@[j].key@);
                }
            }
            assert forall|m: int|
                0 <= m < slot + 1 && opt_bytes(before@[#[trigger] keys[m]]) != live(keys[m]) implies exists|i: int|
                0 <= i < changes@.len() && (#[trigger] changes@[i]).key@ == keys[m] by {
                if m < slot {
                    let i = choose|i: int|
                        0 <= i < prior_changes.len() && (#[trigger] prior_changes[i]).key@
                            == keys[m];
                    assert(changes@[i].key@ == keys[m]);
                } else {
                    assert(changes@[prior_changes.len() as int].key@ == keys[m]);
                }
            }
        }
    }
    proof {
        assert forall|k: Seq<char>| #[trigger]
            before@.contains_key(k) && opt_bytes(before@[k]) != live(k) implies exists|i: int|
            0 <= i < changes@.len() && (#[trigger] changes@[i]).key@ == k by {
            assert(keys.to_set().contains(k));
            let m = choose|m: int| 0 <= m < keys.len() && keys[m] == k;
            assert(keys[m] == k);
        }
    }
    changes
}

/// The operations that no version in `gone` dominates.
pub open spec fn outlasting(log: Seq<OpView>, gone: Map<Seq<char>, Version>) -> Seq<OpView> {
    log.filter(|op: OpView| !gone.contains_key(op.key) || gone[op.key].before(op.version))
}

/// Drop from the log what the versions in `gone` dominate.
pub(crate) fn purge_log(log: &mut OperationLog, gone: &KeyTable<Version>)
    requires
        gone.wf(),
    ensures
        final(log)@ == outlasting(old(log)@, gone@),
{
    let keep = |op: &Operation| -> (r: bool)
        ensures
            r == (!gone@.contains_key(op@.key) || gone@[op@.key].before(op@.version)),
        {
            match gone.get(op.key()) {
                Some(version) => version.is_before(&op.version()),
                None => true,
            }
        };
    let ghost model = |op: OpView|
        !gone@.contains_key(op.key) || gone@[op.key].before(op.version);
    assert(keeps_as(keep, model));
    log.retain_ops(keep);
}

} // verus!
