//! What a peer has acknowledged.
use super::kv_store::lookup;
use super::operation::{ops_view, OpView, Operation};
use super::replica::{ReplicaId, Version};
use crate::key_table::KeyTable;
use vstd::prelude::*;

verus! {

/// Whether an operation is newer than what was acknowledged for its key.
pub open spec fn pending(acked: Map<Seq<char>, Version>, op: OpView) -> bool {
    match lookup(acked, op.key) {
        Some(version) => version.before(op.version),
        None => true,
    }
}

/// What was acknowledged after `version` was acknowledged for `key`.
pub open spec fn acknowledged(
    acked: Map<Seq<char>, Version>,
    key: Seq<char>,
    version: Version,
) -> Map<Seq<char>, Version> {
    match lookup(acked, key) {
        Some(known) => if known.before(version) {
            acked.insert(key, version)
        } else {
            acked
        },
        None => acked.insert(key, version),
    }
}

/// The later of two acknowledgements of a key.
pub open spec fn later_ack(a: Option<Version>, b: Option<Version>) -> Option<Version> {
    match (a, b) {
        (Some(x), Some(y)) => Some(
            if x.before(y) {
                y
            } else {
                x
            },
        ),
        (Some(x), None) => Some(x),
        (None, y) => y,
    }
}

/// The latest acknowledgement of every key.
pub open spec fn merged_acks(
    a: Map<Seq<char>, Version>,
    b: Map<Seq<char>, Version>,
) -> Map<Seq<char>, Version> {
    Map::new(
        |k: Seq<char>| a.contains_key(k) || b.contains_key(k),
        |k: Seq<char>| later_ack(lookup(a, k), lookup(b, k)).unwrap(),
    )
}

/// The versions that operations carry: per key the newest.
pub open spec fn acks_of(ops: Seq<OpView>) -> Map<Seq<char>, Version>
    decreases ops.len(),
{
    if ops.len() == 0 {
        Map::empty()
    } else {
        acknowledged(acks_of(ops.drop_last()), ops.last().key, ops.last().version)
    }
}

/// What listed acknowledgements say.
pub open spec fn ack_entries(entries: Seq<(String, Version)>) -> Seq<(Seq<char>, Version)> {
    entries.map_values(|e: (String, Version)| (e.0@, e.1))
}

/// `entries` list `acked`.
pub open spec fn lists_acks(
    entries: Seq<(Seq<char>, Version)>,
    acked: Map<Seq<char>, Version>,
) -> bool {
    &&& forall|i: int|
        0 <= i < entries.len() ==> acked.contains_key(#[trigger] entries[i].0)
            && acked[entries[i].0] == entries[i].1
    &&& forall|k: Seq<char>| #[trigger]
        acked.contains_key(k) ==> exists|i: int|
            0 <= i < entries.len() && #[trigger] entries[i].0 == k
}

/// The acknowledgements that `entries` list.
pub open spec fn acks_listed(entries: Seq<(Seq<char>, Version)>) -> Map<Seq<char>, Version>
    decreases entries.len(),
{
    if entries.len() == 0 {
        Map::empty()
    } else {
        acknowledged(acks_listed(entries.drop_last()), entries.last().0, entries.last().1)
    }
}

/// Per key, the newest version that a peer has acknowledged.
///
/// Keys are tracked one by one: an acknowledgement of one key says nothing of
/// another, so an operation that got lost delays its own key only.
pub struct CrdtWatermark {
    versions: KeyTable<Version>,
}

impl View for CrdtWatermark {
    type V = Map<Seq<char>, Version>;

    closed spec fn view(&self) -> Map<Seq<char>, Version> {
        self.versions@
    }
}

impl CrdtWatermark {
    /// The underlying table is sound.
    pub closed spec fn wf(&self) -> bool {
        self.versions.wf()
    }

    /// A watermark without acknowledgements.
    pub fn new() -> (r: Self)
        ensures
            r.wf(),
            r@ == (Map::<Seq<char>, Version>::empty()),
    {
        CrdtWatermark { versions: KeyTable::new() }
    }

    /// Whether nothing was acknowledged.
    pub fn is_empty(&self) -> (r: bool)
        requires
            self.wf(),
        ensures
            r == (self@ == Map::<Seq<char>, Version>::empty()),
    {
        proof {
            if self@.dom().len() == 0 {
                self.versions.lemma_keys_in_order();
                assert(self@ =~= Map::<Seq<char>, Version>::empty());
            }
        }
        self.versions.len() == 0
    }

    /// The newest version that was acknowledged for `key`.
    pub fn get(&self, key: &str) -> (r: Option<(u64, ReplicaId)>)
        requires
            self.wf(),
        ensures
            r == (match lookup(self@, key@) {
                Some(v) => Some((v.timestamp, v.replica_id)),
                None => None,
            }),
    {
        match self.versions.get(key) {
            Some(v) => Some((v.timestamp, v.replica_id)),
            None => None,
        }
    }

    /// Whether `op` is newer than what was acknowledged for its key.
    pub fn allows(&self, op: &Operation) -> (r: bool)
        requires
            self.wf(),
        ensures
            r == pending(self@, op@),
    {
        match self.versions.get(op.key()) {
            Some(v) => v.is_before(&op.version()),
            None => true,
        }
    }

    /// Acknowledge `version` for `key`.
    pub fn acknowledge(&mut self, key: &str, version: Version)
        requires
            old(self).wf(),
        ensures
            final(self).wf(),
            final(self)@ == acknowledged(old(self)@, key@, version),
    {
        let newer = match self.versions.get(key) {
            Some(v) => v.is_before(&version),
            None => true,
        };
        if newer {
            self.versions.insert(key.to_owned(), version);
        }
    }

    /// Take over every acknowledgement of `other` that is newer.
    pub fn merge_max(&mut self, other: &CrdtWatermark)
        requires
            old(self).wf(),
            other.wf(),
        ensures
            final(self).wf(),
            final(self)@ == merged_acks(old(self)@, other@),
    {
        let ghost before = self@;
        let ghost keys = other.versions.keys_in_order();
        let n = other.versions.len();
        proof {
            other.versions.lemma_keys_in_order();
        }
        for i in 0..n
            invariant
                self.wf(),
                other.wf(),
                n == keys.len(),
                keys == other.versions.keys_in_order(),
                keys.no_duplicates(),
                forall|k: Seq<char>| #[trigger]
                    lookup(self@, k) == (if keys.take(i as int).contains(k) {
                        later_ack(lookup(before, k), lookup(other@, k))
                    } else {
                        lookup(before, k)
                    }),
        {
            let ghost mid = self@;
            let key = other.versions.key_at(i);
            let version = *other.versions.value_at(i);
            proof {
                let seen = keys.take(i as int);
                let next = keys.take(i + 1);
                assert(next =~= seen.push(key@));
                if seen.contains(key@) {
                    let j = choose|j: int| 0 <= j < seen.len() && seen[j] == key@;
                    assert(keys[j] == keys[i as int]);
                }
                assert forall|k: Seq<char>| next.contains(k) <==> seen.contains(k) || k == key@ by {
                    if seen.contains(k) {
                        let j = choose|j: int| 0 <= j < seen.len() && seen[j] == k;
                        assert(next[j] == k);
                    }
                    assert(next[i as int] == key@);
                }
                assert(lookup(mid, key@) == lookup(before, key@));
            }
            self.acknowledge(key.as_str(), version);
            proof {
                assert forall|k: Seq<char>| #[trigger]
                    lookup(self@, k) == (if keys.take(i + 1).contains(k) {
                        later_ack(lookup(before, k), lookup(other@, k))
                    } else {
                        lookup(before, k)
                    }) by {
                    if k != key@ {
                        assert(lookup(self@, k) == lookup(mid, k));
                    }
                }
            }
        }
        proof {
            assert(keys.take(n as int) =~= keys);
            let m = merged_acks(before, other@);
            assert forall|k: Seq<char>| lookup(self@, k) == lookup(m, k) by {
                assert(keys.contains(k) <==> keys.to_set().contains(k));
                assert(lookup(self@, k) == lookup(self@, k));
            }
            assert forall|k: Seq<char>| #[trigger] self@.contains_key(k) <==> m.contains_key(k) by {
                assert(lookup(self@, k) == lookup(m, k));
            }
            assert forall|k: Seq<char>| self@.contains_key(k) implies #[trigger] self@[k] == m[k] by {
                assert(lookup(self@, k) == lookup(m, k));
            }
            assert(self@ =~= m);
        }
    }

    /// Every key with its version, each key once.
    pub fn entries(&self) -> (r: Vec<(String, Version)>)
        requires
            self.wf(),
        ensures
            lists_acks(ack_entries(r@), self@),
    {
        let ghost keys = self.versions.keys_in_order();
        let n = self.versions.len();
        let mut out: Vec<(String, Version)> = Vec::new();
        proof {
            self.versions.lemma_keys_in_order();
        }
        let ghost pair = |k: Seq<char>| (k, self@[k]);
        let ghost all = keys.map_values(pair);
        proof {
            assert(ack_entries(out@) =~= all.take(0));
        }
        for i in 0..n
            invariant
                self.wf(),
                n == keys.len(),
                keys == self.versions.keys_in_order(),
                all == keys.map_values(pair),
                pair == (|k: Seq<char>| (k, self@[k])),
                ack_entries(out@) == all.take(i as int),
        {
            let key = self.versions.key_at(i).clone();
            let version = *self.versions.value_at(i);
            let ghost before = out@;
            let ghost name = key@;
            out.push((key, version));
            proof {
                assert(ack_entries(out@) =~= ack_entries(before).push((name, version)));
                assert(all.take(i + 1) =~= all.take(i as int).push(all[i as int]));
            }
        }
        proof {
            assert(all.take(n as int) =~= all);
            assert forall|i: int| 0 <= i < all.len() implies self@.contains_key(
                #[trigger] all[i].0,
            ) && self@[all[i].0] == all[i].1 by {
                assert(keys.contains(keys[i]));
                assert(keys.to_set().contains(keys[i]));
            }
            assert forall|k: Seq<char>| #[trigger] self@.contains_key(k) implies exists|i: int|
                0 <= i < all.len() && #[trigger] all[i].0 == k by {
                assert(keys.to_set().contains(k));
                let i = choose|i: int| 0 <= i < keys.len() && keys[i] == k;
                assert(all[i].0 == k);
            }
        }
        out
    }

    /// The watermark that `entries` spell.
    pub fn from_entries(entries: &Vec<(String, Version)>) -> (r: Self)
        ensures
            r.wf(),
            r@ == acks_listed(ack_entries(entries@)),
    {
        let ghost all = ack_entries(entries@);
        let mut acks = CrdtWatermark::new();
        let n = entries.len();
        for i in 0..n
            invariant
                n == entries@.len(),
                all == ack_entries(entries@),
                acks.wf(),
                acks@ == acks_listed(all.take(i as int)),
        {
            proof {
                assert(all.take(i + 1).drop_last() =~= all.take(i as int));
                assert(all.take(i + 1).last() == (entries@[i as int].0@, entries@[i as int].1));
            }
            acks.acknowledge(entries[i].0.as_str(), entries[i].1);
        }
        assert(all.take(n as int) =~= all);
        acks
    }

    /// The acknowledgement of `ops`: per key the newest version.
    pub fn of_ops(ops: &[Operation]) -> (r: Self)
        ensures
            r.wf(),
            r@ == acks_of(ops_view(ops@)),
    {
        let mut acks = CrdtWatermark::new();
        let ghost all = ops_view(ops@);
        let n = ops.len();
        for i in 0..n
            invariant
                n == ops@.len(),
                all == ops_view(ops@),
                acks.wf(),
                acks@ == acks_of(all.take(i as int)),
        {
            proof {
                assert(all.take(i + 1).drop_last() =~= all.take(i as int));
                assert(all.take(i + 1).last() == ops@[i as int]@);
            }
            acks.acknowledge(ops[i].key(), ops[i].version());
        }
        assert(all.take(n as int) =~= all);
        acks
    }
}

/// The operations that are still to be sent.
pub open spec fn pending_ops(acked: Map<Seq<char>, Version>, ops: Seq<OpView>) -> Seq<OpView> {
    ops.filter(|op: OpView| pending(acked, op))
}

/// A copy of the operations that a peer has not acknowledged.
pub fn unacked(ops: &[Operation], acked: &CrdtWatermark) -> (r: Vec<Operation>)
    requires
        acked.wf(),
    ensures
        ops_view(r@) == pending_ops(acked@, ops_view(ops@)),
{
    let mut out: Vec<Operation> = Vec::new();
    let ghost all = ops_view(ops@);
    let ghost p = |op: OpView| pending(acked@, op);
    let n = ops.len();
    proof {
        reveal(Seq::filter);
        assert(ops_view(out@) =~= all.take(0).filter(p));
    }
    for i in 0..n
        invariant
            n == ops@.len(),
            acked.wf(),
            all == ops_view(ops@),
            p == (|op: OpView| pending(acked@, op)),
            ops_view(out@) == all.take(i as int).filter(p),
    {
        let ghost before = out@;
        proof {
            reveal(Seq::filter);
            assert(all.take(i + 1).drop_last() =~= all.take(i as int));
            assert(all.take(i + 1).last() == ops@[i as int]@);
        }
        if acked.allows(&ops[i]) {
            out.push(ops[i].clone());
            assert(ops_view(out@) =~= ops_view(before).push(ops@[i as int]@));
        }
    }
    assert(all.take(n as int) =~= all);
    out
}

// ---- Laws ----

/// Acknowledgements can be merged in any order.
pub proof fn law_acks_commute(a: Map<Seq<char>, Version>, b: Map<Seq<char>, Version>)
    ensures
        merged_acks(a, b) == merged_acks(b, a),
        merged_acks(a, a) == a,
{
    assert(merged_acks(a, b) =~= merged_acks(b, a));
    assert(merged_acks(a, a) =~= a);
}

/// Acknowledgements can be merged in any grouping.
pub proof fn law_acks_associate(
    a: Map<Seq<char>, Version>,
    b: Map<Seq<char>, Version>,
    c: Map<Seq<char>, Version>,
)
    ensures
        merged_acks(merged_acks(a, b), c) == merged_acks(a, merged_acks(b, c)),
{
    assert(merged_acks(merged_acks(a, b), c) =~= merged_acks(a, merged_acks(b, c)));
}

/// A merged acknowledgement never makes an operation pending again.
pub proof fn law_acks_only_settle(
    a: Map<Seq<char>, Version>,
    b: Map<Seq<char>, Version>,
    op: OpView,
)
    ensures
        pending(merged_acks(a, b), op) <==> pending(a, op) && pending(b, op),
{
    let m = merged_acks(a, b);
    assert(m.contains_key(op.key) <==> a.contains_key(op.key) || b.contains_key(op.key));
}

/// What was acknowledged for one key says nothing of another.
pub proof fn law_acks_are_per_key(ops: Seq<OpView>, op: OpView)
    requires
        forall|i: int| 0 <= i < ops.len() ==> (#[trigger] ops[i]).key != op.key,
    ensures
        pending(acks_of(ops), op),
    decreases ops.len(),
{
    if ops.len() > 0 {
        let init = ops.drop_last();
        assert forall|i: int| 0 <= i < init.len() implies (#[trigger] init[i]).key != op.key by {
            assert(ops[i] == init[i]);
        }
        law_acks_are_per_key(init, op);
        assert(ops[ops.len() - 1].key != op.key);
    }
}

/// An operation is settled once a batch that holds it was acknowledged.
pub proof fn law_acked_ops_are_settled(ops: Seq<OpView>)
    ensures
        forall|i: int| 0 <= i < ops.len() ==> !pending(acks_of(ops), #[trigger] ops[i]),
    decreases ops.len(),
{
    if ops.len() > 0 {
        let init = ops.drop_last();
        law_acked_ops_are_settled(init);
        assert forall|i: int| 0 <= i < ops.len() implies !pending(acks_of(ops), #[trigger] ops[i]) by {
            if i < init.len() {
                assert(init[i] == ops[i]);
                assert(!pending(acks_of(init), init[i]));
            }
        }
    }
}

/// A peer that is caught up is sent nothing: once it acknowledged what it was
/// sent of `ops`, nothing of `ops` is pending any more.
pub proof fn law_caught_up_peer_is_sent_nothing(
    acked: Map<Seq<char>, Version>,
    ops: Seq<OpView>,
)
    ensures
        pending_ops(merged_acks(acked, acks_of(pending_ops(acked, ops))), ops).len() == 0,
{
    let sent = pending_ops(acked, ops);
    let now = merged_acks(acked, acks_of(sent));
    let p = |op: OpView| pending(acked, op);
    let q = |op: OpView| pending(now, op);
    let left = ops.filter(q);
    law_acked_ops_are_settled(sent);
    if left.len() > 0 {
        let op = left[0];
        assert(left.contains(op));
        super::operation::lemma_filter_members(ops, q, op);
        assert(q(op));
        law_acks_only_settle(acked, acks_of(sent), op);
        super::operation::lemma_filter_members(ops, p, op);
        let i = choose|i: int| 0 <= i < sent.len() && sent[i] == op;
        assert(!pending(acks_of(sent), sent[i]));
    }
}

/// A watermark that was listed and read back is the same watermark.
pub proof fn law_acks_round_trip(
    entries: Seq<(Seq<char>, Version)>,
    acked: Map<Seq<char>, Version>,
)
    requires
        lists_acks(entries, acked),
    ensures
        acks_listed(entries) == acked,
{
    lemma_listed(entries, acked, entries.len() as int);
    assert(entries.take(entries.len() as int) =~= entries);
    let m = acks_listed(entries);
    assert forall|k: Seq<char>| #[trigger] m.contains_key(k) <==> acked.contains_key(k) by {
        if acked.contains_key(k) {
            let i = choose|i: int| 0 <= i < entries.len() && #[trigger] entries[i].0 == k;
            assert(m.contains_key(entries[i].0));
        }
    }
    assert(m =~= acked);
}

proof fn lemma_listed(
    entries: Seq<(Seq<char>, Version)>,
    acked: Map<Seq<char>, Version>,
    n: int,
)
    requires
        0 <= n <= entries.len(),
        forall|i: int|
            0 <= i < entries.len() ==> acked.contains_key(#[trigger] entries[i].0)
                && acked[entries[i].0] == entries[i].1,
    ensures
        forall|k: Seq<char>| #[trigger]
            acks_listed(entries.take(n)).contains_key(k) ==> acked.contains_key(k) && acks_listed(
                entries.take(n),
            )[k] == acked[k],
        forall|i: int|
            0 <= i < n ==> acks_listed(entries.take(n)).contains_key(#[trigger] entries[i].0),
    decreases n,
{
    if n > 0 {
        lemma_listed(entries, acked, n - 1);
        assert(entries.take(n).drop_last() =~= entries.take(n - 1));
        let last = entries[n - 1];
        assert(entries.take(n).last() == last);
        let before = acks_listed(entries.take(n - 1));
        let after = acks_listed(entries.take(n));
        assert(after == acknowledged(before, last.0, last.1));
        assert(acked.contains_key(entries[n - 1].0));
        assert forall|k: Seq<char>| #[trigger] after.contains_key(k) implies acked.contains_key(k)
            && after[k] == acked[k] by {
            if k != last.0 {
                assert(before.contains_key(k));
            } else if before.contains_key(k) {
                assert(before[k] == acked[k]);
            }
        }
    } else {
        assert(entries.take(0).len() == 0);
    }
}

} // verus!
