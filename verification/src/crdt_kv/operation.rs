//! Operations, the units of replication, and the log that carries them.
use super::replica::{ReplicaId, Version};
use crate::text::{copy_bytes, lemma_str_before_total_order, opt_bytes, str_before, str_eq, str_less};
use vstd::prelude::*;

verus! {

/// One change to one key.
#[derive(Debug, PartialEq, Eq, Hash)]
pub enum Operation {
    /// The key was given a value.
    Insert { key: String, value: Vec<u8>, timestamp: u64, replica_id: ReplicaId },
    /// The key was removed.
    Remove { key: String, timestamp: u64, replica_id: ReplicaId },
}

/// What an operation says: a remove carries no value.
#[verifier::ext_equal]
pub struct OpView {
    pub key: Seq<char>,
    pub value: Option<Seq<u8>>,
    pub version: Version,
}

impl View for Operation {
    type V = OpView;

    open spec fn view(&self) -> OpView {
        match self {
            Operation::Insert { key, value, timestamp, replica_id } => OpView {
                key: key@,
                value: Some(value@),
                version: Version { timestamp: *timestamp, replica_id: *replica_id },
            },
            Operation::Remove { key, timestamp, replica_id } => OpView {
                key: key@,
                value: None,
                version: Version { timestamp: *timestamp, replica_id: *replica_id },
            },
        }
    }
}

impl Clone for Operation {
    fn clone(&self) -> (r: Self)
        ensures
            r@ == self@,
    {
        match self {
            Operation::Insert { key, value, timestamp, replica_id } => Operation::Insert {
                key: key.clone(),
                value: copy_bytes(value),
                timestamp: *timestamp,
                replica_id: *replica_id,
            },
            Operation::Remove { key, timestamp, replica_id } => Operation::Remove {
                key: key.clone(),
                timestamp: *timestamp,
                replica_id: *replica_id,
            },
        }
    }
}

impl Operation {
    /// The operation that gives `key` the value `value`.
    pub fn insert(key: String, value: Vec<u8>, timestamp: u64, replica_id: ReplicaId) -> (r: Self)
        ensures
            r@ == (OpView {
                key: key@,
                value: Some(value@),
                version: Version { timestamp, replica_id },
            }),
    {
        Operation::Insert { key, value, timestamp, replica_id }
    }

    /// The operation that removes `key`.
    pub fn remove(key: String, timestamp: u64, replica_id: ReplicaId) -> (r: Self)
        ensures
            r@ == (OpView { key: key@, value: None, version: Version { timestamp, replica_id } }),
    {
        Operation::Remove { key, timestamp, replica_id }
    }

    /// The key that the operation changes.
    pub fn key(&self) -> (r: &str)
        ensures
            r@ == self@.key,
    {
        match self {
            Operation::Insert { key, .. } => key.as_str(),
            Operation::Remove { key, .. } => key.as_str(),
        }
    }

    /// When the operation was issued.
    pub fn timestamp(&self) -> (r: u64)
        ensures
            r == self@.version.timestamp,
    {
        match self {
            Operation::Insert { timestamp, .. } => *timestamp,
            Operation::Remove { timestamp, .. } => *timestamp,
        }
    }

    /// Who issued the operation.
    pub fn replica_id(&self) -> (r: ReplicaId)
        ensures
            r == self@.version.replica_id,
    {
        match self {
            Operation::Insert { replica_id, .. } => *replica_id,
            Operation::Remove { replica_id, .. } => *replica_id,
        }
    }

    /// The operation's stamp.
    pub fn version(&self) -> (r: Version)
        ensures
            r == self@.version,
    {
        Version { timestamp: self.timestamp(), replica_id: self.replica_id() }
    }
}

/// A change of a key's live value that a merge brought about: the value that
/// the key has now, or `None` where it has none any more.
#[derive(Debug, PartialEq, Eq)]
pub struct CrdtChange {
    pub key: String,
    pub value: Option<Vec<u8>>,
}

/// What a change says.
#[verifier::ext_equal]
pub struct ChangeView {
    pub key: Seq<char>,
    pub value: Option<Seq<u8>>,
}

impl View for CrdtChange {
    type V = ChangeView;

    open spec fn view(&self) -> ChangeView {
        ChangeView { key: self.key@, value: opt_bytes(self.value) }
    }
}

/// What a sequence of operations says.
pub open spec fn ops_view(ops: Seq<Operation>) -> Seq<OpView> {
    ops.map_values(|op: Operation| op@)
}

/// What an optional operation says.
pub open spec fn opt_op(op: Option<Operation>) -> Option<OpView> {
    match op {
        Some(op) => Some(op@),
        None => None,
    }
}

/// A copy of a run of operations.
pub fn copy_ops(ops: &[Operation]) -> (r: Vec<Operation>)
    ensures
        ops_view(r@) == ops_view(ops@),
{
    let mut out: Vec<Operation> = Vec::new();
    let n = ops.len();
    for i in 0..n
        invariant
            n == ops@.len(),
            ops_view(out@) == ops_view(ops@.take(i as int)),
    {
        out.push(ops[i].clone());
        assert(ops_view(out@) =~= ops_view(ops@.take(i as int)).push(ops@[i as int]@));
        assert(ops_view(ops@.take(i + 1)) =~= ops_view(ops@.take(i as int)).push(ops@[i as int]@));
    }
    assert(ops@.take(n as int) =~= ops@);
    out
}

// ---- Order by version ----

/// `sorted` with `op` put in behind everything that is not newer.
pub open spec fn insert_op(sorted: Seq<OpView>, op: OpView) -> Seq<OpView>
    decreases sorted.len(),
{
    if sorted.len() == 0 || !op.version.before(sorted.last().version) {
        sorted.push(op)
    } else {
        insert_op(sorted.drop_last(), op).push(sorted.last())
    }
}

/// `ops` in ascending order of version. Operations of one version keep their
/// order.
pub open spec fn sort_ops(ops: Seq<OpView>) -> Seq<OpView>
    decreases ops.len(),
{
    if ops.len() == 0 {
        ops
    } else {
        insert_op(sort_ops(ops.drop_last()), ops.last())
    }
}

/// No operation stands behind a newer one.
pub open spec fn ascending(ops: Seq<OpView>) -> bool {
    forall|i: int, j: int| 0 <= i < j < ops.len() ==> !ops[j].version.before(ops[i].version)
}

proof fn lemma_insert_op(sorted: Seq<OpView>, op: OpView)
    requires
        ascending(sorted),
    ensures
        ascending(insert_op(sorted, op)),
        insert_op(sorted, op).to_multiset() == sorted.to_multiset().insert(op),
        insert_op(sorted, op).len() == sorted.len() + 1,
        forall|x: OpView| #[trigger] insert_op(sorted, op).contains(x) <==> sorted.contains(x) || x == op,
    decreases sorted.len(),
{
    broadcast use vstd::seq_lib::group_to_multiset_ensures;
    let r = insert_op(sorted, op);
    if sorted.len() == 0 || !op.version.before(sorted.last().version) {
        assert forall|x: OpView| #[trigger] r.contains(x) <==> sorted.contains(x) || x == op by {
            if sorted.contains(x) {
                let i = choose|i: int| 0 <= i < sorted.len() && sorted[i] == x;
                assert(r[i] == x);
            }
            assert(r[sorted.len() as int] == op);
        }
        if sorted.len() > 0 {
            assert forall|i: int| 0 <= i < sorted.len() implies !op.version.before(
                sorted[i].version,
            ) by {
                if i < sorted.len() - 1 {
                    assert(!sorted.last().version.before(sorted[i].version));
                }
            }
        }
    } else {
        let init = sorted.drop_last();
        lemma_insert_op(init, op);
        let s = insert_op(init, op);
        assert(sorted =~= init.push(sorted.last()));
        assert forall|i: int| 0 <= i < s.len() implies !sorted.last().version.before(
            #[trigger] s[i].version,
        ) by {
            assert(s.contains(s[i]));
            if s[i] != op {
                let j = choose|j: int| 0 <= j < init.len() && init[j] == s[i];
                assert(sorted[j] == s[i]);
            }
        }
        assert forall|x: OpView| #[trigger] r.contains(x) <==> sorted.contains(x) || x == op by {
            if r.contains(x) {
                let i = choose|i: int| 0 <= i < r.len() && r[i] == x;
                if i < s.len() {
                    assert(s.contains(x));
                    if x != op {
                        let j = choose|j: int| 0 <= j < init.len() && init[j] == x;
                        assert(sorted[j] == x);
                    }
                } else {
                    assert(sorted[sorted.len() - 1] == x);
                }
            }
            if sorted.contains(x) {
                let i = choose|i: int| 0 <= i < sorted.len() && sorted[i] == x;
                if i < init.len() {
                    assert(init[i] == x);
                    assert(s.contains(x));
                    let j = choose|j: int| 0 <= j < s.len() && s[j] == x;
                    assert(r[j] == x);
                } else {
                    assert(r[s.len() as int] == x);
                }
            }
            assert(s.contains(op));
            let j = choose|j: int| 0 <= j < s.len() && s[j] == op;
            assert(r[j] == op);
        }
    }
}

/// Sorting puts the same operations in ascending order of version.
pub proof fn lemma_sort_ops(ops: Seq<OpView>)
    ensures
        ascending(sort_ops(ops)),
        sort_ops(ops).to_multiset() == ops.to_multiset(),
        sort_ops(ops).len() == ops.len(),
        forall|x: OpView| #[trigger] sort_ops(ops).contains(x) <==> ops.contains(x),
    decreases ops.len(),
{
    broadcast use vstd::seq_lib::group_to_multiset_ensures;
    if ops.len() > 0 {
        let init = ops.drop_last();
        lemma_sort_ops(init);
        lemma_insert_op(sort_ops(init), ops.last());
        assert(ops =~= init.push(ops.last()));
        assert forall|x: OpView| #[trigger] sort_ops(ops).contains(x) <==> ops.contains(x) by {
            assert(sort_ops(ops).contains(x) <==> sort_ops(init).contains(x) || x == ops.last());
            assert(sort_ops(init).contains(x) <==> init.contains(x));
            if init.contains(x) {
                let i = choose|i: int| 0 <= i < init.len() && init[i] == x;
                assert(ops[i] == x);
            }
            if ops.contains(x) {
                let i = choose|i: int| 0 <= i < ops.len() && ops[i] == x;
                if i < init.len() {
                    assert(init[i] == x);
                }
            }
        }
    }
}

/// Operations that are in order already stay where they are.
pub proof fn lemma_sort_ascending(ops: Seq<OpView>)
    requires
        ascending(ops),
    ensures
        sort_ops(ops) == ops,
    decreases ops.len(),
{
    if ops.len() > 0 {
        let init = ops.drop_last();
        lemma_sort_ascending(init);
        assert(ops =~= init.push(ops.last()));
    }
}

proof fn lemma_insert_at(sorted: Seq<OpView>, op: OpView, i: int)
    requires
        0 <= i <= sorted.len(),
        i == 0 || !op.version.before(sorted[i - 1].version),
        forall|j: int| i <= j < sorted.len() ==> op.version.before(#[trigger] sorted[j].version),
    ensures
        insert_op(sorted, op) == sorted.insert(i, op),
    decreases sorted.len(),
{
    if i == sorted.len() {
        assert(sorted.insert(i, op) =~= sorted.push(op));
    } else {
        lemma_insert_at(sorted.drop_last(), op, i);
        assert(sorted.insert(i, op) =~= sorted.drop_last().insert(i, op).push(sorted.last()));
    }
}

/// Put the operations in ascending order of version.
pub fn sort_by_version(ops: Vec<Operation>) -> (r: Vec<Operation>)
    ensures
        ops_view(r@) == sort_ops(ops_view(ops@)),
{
    let ghost all = ops_view(ops@);
    let mut out: Vec<Operation> = Vec::new();
    for op in it: ops.into_iter()
        invariant
            it.seq() == ops@,
            all == ops_view(ops@),
            ops_view(out@) == sort_ops(all.take(it.index() as int)),
    {
        let ghost before = ops_view(out@);
        let ghost seen = all.take(it.index() as int);
        let version = op.version();
        let mut i: usize = out.len();
        while i > 0 && version.is_before(&out[i - 1].version())
            invariant
                version == op@.version,
                i <= out@.len(),
                before == ops_view(out@),
                forall|j: int| i <= j < before.len() ==> version.before(#[trigger] before[j].version),
            decreases i,
        {
            i = i - 1;
            assert(before[i as int] == out@[i as int]@);
        }
        proof {
            if i > 0 {
                assert(before[i - 1] == out@[i - 1]@);
            }
            lemma_insert_at(before, op@, i as int);
        }
        out.insert(i, op);
        proof {
            assert(ops_view(out@) =~= before.insert(i as int, op@));
            assert(all.take(it.index() + 1).drop_last() =~= seen);
            assert(all.take(it.index() + 1).last() == op@);
        }
    }
    assert(all.take(all.len() as int) =~= all);
    out
}

// ---- Grouping by key ----

/// Strictly ascending keys.
pub open spec fn keys_ascend(keys: Seq<Seq<char>>) -> bool {
    forall|i: int, j: int| 0 <= i < j < keys.len() ==> str_before(keys[i], keys[j])
}

/// Ascending keys with `key` among them.
pub open spec fn insert_key(keys: Seq<Seq<char>>, key: Seq<char>) -> Seq<Seq<char>>
    decreases keys.len(),
{
    if keys.len() == 0 || str_before(keys.last(), key) {
        keys.push(key)
    } else if keys.last() == key {
        keys
    } else {
        insert_key(keys.drop_last(), key).push(keys.last())
    }
}

/// The keys that `ops` speak of, each once, in ascending order.
pub open spec fn key_list(ops: Seq<OpView>) -> Seq<Seq<char>>
    decreases ops.len(),
{
    if ops.len() == 0 {
        Seq::empty()
    } else {
        insert_key(key_list(ops.drop_last()), ops.last().key)
    }
}

/// The operations on `key`, in the order in which `ops` holds them.
pub open spec fn group_of(ops: Seq<OpView>, key: Seq<char>) -> Seq<OpView> {
    ops.filter(|op: OpView| op.key == key)
}

/// Some operation speaks of `key`.
pub open spec fn mentions(ops: Seq<OpView>, key: Seq<char>) -> bool {
    exists|i: int| 0 <= i < ops.len() && #[trigger] ops[i].key == key
}

proof fn lemma_insert_key(keys: Seq<Seq<char>>, key: Seq<char>)
    requires
        keys_ascend(keys),
    ensures
        keys_ascend(insert_key(keys, key)),
        forall|k: Seq<char>| #[trigger] insert_key(keys, key).contains(k) <==> keys.contains(k) || k == key,
    decreases keys.len(),
{
    let r = insert_key(keys, key);
    if keys.len() == 0 {
        assert(r[0] == key);
    } else {
        let last = keys.last();
        lemma_str_before_total_order(last, key, key);
        if str_before(last, key) {
            assert forall|i: int| 0 <= i < keys.len() implies str_before(keys[i], key) by {
                if i < keys.len() - 1 {
                    lemma_str_before_total_order(keys[i], last, key);
                }
            }
            assert forall|k: Seq<char>| #[trigger] r.contains(k) <==> keys.contains(k) || k == key by {
                assert(r[keys.len() as int] == key);
                if keys.contains(k) {
                    let i = choose|i: int| 0 <= i < keys.len() && keys[i] == k;
                    assert(r[i] == k);
                }
            }
        } else if last == key {
            assert(keys[keys.len() - 1] == key);
        } else {
            let init = keys.drop_last();
            lemma_insert_key(init, key);
            let s = insert_key(init, key);
            assert forall|i: int| 0 <= i < s.len() implies str_before(#[trigger] s[i], last) by {
                assert(s.contains(s[i]));
                if s[i] != key {
                    let j = choose|j: int| 0 <= j < init.len() && init[j] == s[i];
                    assert(keys[j] == s[i]);
                }
            }
            assert forall|k: Seq<char>| #[trigger] r.contains(k) <==> keys.contains(k) || k == key by {
                if r.contains(k) {
                    let i = choose|i: int| 0 <= i < r.len() && r[i] == k;
                    if i < s.len() {
                        assert(s.contains(k));
                        if k != key {
                            let j = choose|j: int| 0 <= j < init.len() && init[j] == k;
                            assert(keys[j] == k);
                        }
                    } else {
                        assert(keys[keys.len() - 1] == k);
                    }
                }
                if keys.contains(k) || k == key {
                    if k == last {
                        assert(r[s.len() as int] == k);
                    } else {
                        if k != key {
                            let i = choose|i: int| 0 <= i < keys.len() && keys[i] == k;
                            assert(init[i] == k);
                        }
                        assert(s.contains(k));
                        let j = choose|j: int| 0 <= j < s.len() && s[j] == k;
                        assert(r[j] == k);
                    }
                }
            }
        }
    }
}

/// The key list ascends and holds exactly the keys that occur.
pub proof fn lemma_key_list(ops: Seq<OpView>)
    ensures
        keys_ascend(key_list(ops)),
        forall|k: Seq<char>| #[trigger] key_list(ops).contains(k) <==> mentions(ops, k),
    decreases ops.len(),
{
    if ops.len() > 0 {
        let init = ops.drop_last();
        lemma_key_list(init);
        lemma_insert_key(key_list(init), ops.last().key);
        assert forall|k: Seq<char>| #[trigger] key_list(ops).contains(k) <==> mentions(ops, k) by {
            assert(key_list(ops).contains(k) <==> key_list(init).contains(k) || k == ops.last().key);
            assert(key_list(init).contains(k) <==> mentions(init, k));
            if mentions(init, k) {
                let i = choose|i: int| 0 <= i < init.len() && #[trigger] init[i].key == k;
                assert(ops[i].key == k);
            }
            if mentions(ops, k) {
                let i = choose|i: int| 0 <= i < ops.len() && #[trigger] ops[i].key == k;
                if i < init.len() {
                    assert(init[i].key == k);
                }
            }
            assert(ops[ops.len() - 1].key == ops.last().key);
        }
    }
}

/// Two equally long ascending key lists over the same keys are the same list.
pub proof fn lemma_ascending_keys_unique(a: Seq<Seq<char>>, b: Seq<Seq<char>>)
    requires
        keys_ascend(a),
        keys_ascend(b),
        forall|k: Seq<char>| a.contains(k) <==> b.contains(k),
    ensures
        a == b,
    decreases a.len(),
{
    if a.len() == 0 {
        if b.len() > 0 {
            assert(b.contains(b[0]));
        }
        assert(a =~= b);
    } else {
        let x = a.last();
        assert(a.contains(a[a.len() - 1]));
        assert(b.contains(x));
        assert(b.len() > 0);
        let y = b.last();
        assert(b.contains(b[b.len() - 1]));
        assert(a.contains(y));
        let i = choose|i: int| 0 <= i < b.len() && b[i] == x;
        let j = choose|j: int| 0 <= j < a.len() && a[j] == y;
        lemma_str_before_total_order(x, y, x);
        assert(x == y);
        let p = a.drop_last();
        let q = b.drop_last();
        assert forall|k: Seq<char>| p.contains(k) <==> q.contains(k) by {
            if p.contains(k) {
                let m = choose|m: int| 0 <= m < p.len() && p[m] == k;
                assert(a[m] == k);
                assert(a.contains(k));
                assert(b.contains(k));
                let n = choose|n: int| 0 <= n < b.len() && b[n] == k;
                lemma_str_before_total_order(k, x, x);
                assert(q[n] == k);
            }
            if q.contains(k) {
                let m = choose|m: int| 0 <= m < q.len() && q[m] == k;
                assert(b[m] == k);
                assert(b.contains(k));
                assert(a.contains(k));
                let n = choose|n: int| 0 <= n < a.len() && a[n] == k;
                lemma_str_before_total_order(k, x, x);
                assert(p[n] == k);
            }
        }
        lemma_ascending_keys_unique(p, q);
        assert(a =~= p.push(x));
        assert(b =~= q.push(y));
    }
}

proof fn lemma_insert_key_at(keys: Seq<Seq<char>>, key: Seq<char>, i: int)
    requires
        keys_ascend(keys),
        0 <= i <= keys.len(),
        i == 0 || !str_before(key, keys[i - 1]),
        forall|j: int| i <= j < keys.len() ==> str_before(key, #[trigger] keys[j]),
    ensures
        insert_key(keys, key) == (if i > 0 && keys[i - 1] == key {
            keys
        } else {
            keys.insert(i, key)
        }),
    decreases keys.len(),
{
    if keys.len() > 0 {
        lemma_str_before_total_order(keys.last(), key, key);
    }
    if i == keys.len() {
        if i > 0 && keys[i - 1] != key {
            assert(keys.insert(i, key) =~= keys.push(key));
        } else if i == 0 {
            assert(keys.insert(i, key) =~= keys.push(key));
        }
    } else {
        let init = keys.drop_last();
        assert(str_before(key, keys.last()));
        lemma_insert_key_at(init, key, i);
        if i > 0 && keys[i - 1] == key {
            assert(init.push(keys.last()) =~= keys);
        } else {
            assert(keys.insert(i, key) =~= init.insert(i, key).push(keys.last()));
        }
    }
}

/// A group takes in the next operation where the key is its own.
pub proof fn lemma_group_push(ops: Seq<OpView>, op: OpView, key: Seq<char>)
    ensures
        group_of(ops.push(op), key) == (if op.key == key {
            group_of(ops, key).push(op)
        } else {
            group_of(ops, key)
        }),
{
    reveal(Seq::filter);
    assert(ops.push(op).drop_last() =~= ops);
}

/// A group of a key that no operation speaks of is empty.
pub proof fn lemma_group_empty(ops: Seq<OpView>, key: Seq<char>)
    requires
        !mentions(ops, key),
    ensures
        group_of(ops, key).len() == 0,
    decreases ops.len(),
{
    reveal(Seq::filter);
    if ops.len() > 0 {
        let init = ops.drop_last();
        assert forall|i: int| 0 <= i < init.len() implies #[trigger] init[i].key != key by {
            assert(ops[i].key != key);
        }
        lemma_group_empty(init, key);
        assert(ops[ops.len() - 1].key != key);
    }
}

/// The operations that are there.
pub open spec fn somes(winners: Seq<Option<OpView>>) -> Seq<OpView>
    decreases winners.len(),
{
    if winners.len() == 0 {
        Seq::empty()
    } else {
        match winners.last() {
            Some(op) => somes(winners.drop_last()).push(op),
            None => somes(winners.drop_last()),
        }
    }
}

/// What folding each key's operations leaves, in ascending order of key.
pub open spec fn winners_of(
    ops: Seq<OpView>,
    keys: Seq<Seq<char>>,
    fold: spec_fn(Seq<OpView>) -> Option<OpView>,
) -> Seq<OpView> {
    somes(keys.map_values(|key: Seq<char>| fold(group_of(ops, key))))
}

/// A log compacted by `fold`: the winner of each key, in ascending order of
/// version.
pub open spec fn compacted(
    ops: Seq<OpView>,
    fold: spec_fn(Seq<OpView>) -> Option<OpView>,
) -> Seq<OpView> {
    sort_ops(winners_of(ops, key_list(ops), fold))
}

/// What `fold` returns is `model` of the operations it was given.
pub open spec fn folds_as<F: Fn(&[Operation]) -> Option<Operation>>(
    fold: F,
    model: spec_fn(Seq<OpView>) -> Option<OpView>,
) -> bool {
    forall|ops: &[Operation], r: Option<Operation>|
        #[trigger] call_ensures(fold, (ops,), r) ==> opt_op(r) == model(ops_view(ops@))
}

/// What `keep` returns is `model` of the operation it was given.
pub open spec fn keeps_as<F: Fn(&Operation) -> bool>(
    keep: F,
    model: spec_fn(OpView) -> bool,
) -> bool {
    forall|op: &Operation, r: bool|
        #[trigger] call_ensures(keep, (op,), r) ==> r == model(op@)
}

/// Operations grouped by key, the keys in ascending order.
fn group_by_key(ops: Vec<Operation>) -> (groups: Vec<(String, Vec<Operation>)>)
    ensures
        groups@.len() == key_list(ops_view(ops@)).len(),
        forall|i: int|
            0 <= i < groups@.len() ==> {
                &&& (#[trigger] groups@[i]).0@ == key_list(ops_view(ops@))[i]
                &&& ops_view(groups@[i].1@) == group_of(ops_view(ops@), groups@[i].0@)
            },
{
    let ghost all = ops_view(ops@);
    let mut groups: Vec<(String, Vec<Operation>)> = Vec::new();
    for op in it: ops.into_iter()
        invariant
            it.seq() == ops@,
            all == ops_view(ops@),
            groups@.len() == key_list(all.take(it.index() as int)).len(),
            forall|i: int|
                0 <= i < groups@.len() ==> {
                    &&& (#[trigger] groups@[i]).0@ == key_list(all.take(it.index() as int))[i]
                    &&& ops_view(groups@[i].1@) == group_of(
                        all.take(it.index() as int),
                        groups@[i].0@,
                    )
                },
    {
        let ghost seen = all.take(it.index() as int);
        let ghost keys = key_list(seen);
        let ghost before = groups@;
        let ghost next = all.take(it.index() + 1);
        let mut i: usize = groups.len();
        while i > 0 && str_less(op.key(), groups[i - 1].0.as_str())
            invariant
                i <= groups@.len(),
                groups@.len() == keys.len(),
                forall|j: int| 0 <= j < groups@.len() ==> (#[trigger] groups@[j]).0@ == keys[j],
                forall|j: int| i <= j < keys.len() ==> str_before(op@.key, #[trigger] keys[j]),
            decreases i,
        {
            i = i - 1;
        }
        proof {
            lemma_key_list(seen);
            lemma_insert_key_at(keys, op@.key, i as int);
            assert(next =~= seen.push(op@));
            assert(next.drop_last() =~= seen);
            assert forall|j: int| 0 <= j < keys.len() && keys[j] == op@.key implies j == i - 1 by {
                lemma_str_before_total_order(op@.key, op@.key, op@.key);
                if j < i - 1 {
                    lemma_str_before_total_order(keys[j], keys[i - 1], keys[j]);
                }
            }
            assert forall|j: int| 0 <= j < keys.len() implies group_of(next, keys[j]) == (if keys[j]
                == op@.key {
                group_of(seen, keys[j]).push(op@)
            } else {
                group_of(seen, keys[j])
            }) by {
                lemma_group_push(seen, op@, keys[j]);
            }
        }
        if i > 0 && str_eq(groups[i - 1].0.as_str(), op.key()) {
            let (key, mut group) = groups.remove(i - 1);
            let ghost old_group = group@;
            let ghost stamp = op@;
            group.push(op);
            proof {
                assert(ops_view(group@) =~= ops_view(old_group).push(stamp));
            }
            groups.insert(i - 1, (key, group));
            proof {
                assert(before[i - 1].0@ == keys[i - 1]);
                assert(groups@ =~= before.update(i - 1, (key, group)));
            }
        } else {
            let key = op.key().to_owned();
            let ghost stamp = op@;
            let mut group: Vec<Operation> = Vec::new();
            group.push(op);
            proof {
                assert(ops_view(group@) =~= Seq::<OpView>::empty().push(stamp));
                assert(!keys.contains(stamp.key));
                assert(!mentions(seen, stamp.key));
                lemma_group_empty(seen, stamp.key);
                lemma_group_push(seen, stamp, stamp.key);
                assert(group_of(seen, stamp.key) =~= Seq::<OpView>::empty());
            }
            groups.insert(i, (key, group));
            proof {
                assert(groups@ =~= before.insert(i as int, (key, group)));
                assert forall|j: int| 0 <= j < groups@.len() implies {
                    &&& (#[trigger] groups@[j]).0@ == key_list(next)[j]
                    &&& ops_view(groups@[j].1@) == group_of(next, groups@[j].0@)
                } by {
                    if j < i {
                        assert(groups@[j] == before[j]);
                    } else if j > i {
                        assert(groups@[j] == before[j - 1]);
                    }
                }
            }
        }
    }
    assert(all.take(all.len() as int) =~= all);
    groups
}

// ---- The newest operation ----

/// The operation with the largest version. Where several share it, the last of
/// them.
pub open spec fn newest(ops: Seq<OpView>) -> Option<OpView>
    decreases ops.len(),
{
    if ops.len() == 0 {
        None
    } else {
        match newest(ops.drop_last()) {
            Some(op) if ops.last().version.before(op.version) => Some(op),
            _ => Some(ops.last()),
        }
    }
}

/// The newest operation is one of the operations, and none is newer.
pub proof fn lemma_newest(ops: Seq<OpView>)
    ensures
        match newest(ops) {
            Some(op) => ops.contains(op) && forall|i: int|
                0 <= i < ops.len() ==> !op.version.before(#[trigger] ops[i].version),
            None => ops.len() == 0,
        },
    decreases ops.len(),
{
    if ops.len() > 0 {
        let init = ops.drop_last();
        lemma_newest(init);
        let op = newest(ops).unwrap();
        assert(ops[ops.len() - 1] == ops.last());
        if newest(init) == Some(op) {
            let i = choose|i: int| 0 <= i < init.len() && init[i] == op;
            if init.contains(op) {
                assert(ops[i] == op);
            }
        }
        assert forall|i: int| 0 <= i < ops.len() implies !op.version.before(
            #[trigger] ops[i].version,
        ) by {
            if i < init.len() {
                assert(init[i] == ops[i]);
            }
        }
    }
}

/// The position of the newest operation.
fn newest_index(ops: &[Operation]) -> (r: Option<usize>)
    ensures
        match r {
            Some(i) => i < ops@.len() && newest(ops_view(ops@)) == Some(ops@[i as int]@),
            None => ops@.len() == 0,
        },
{
    let n = ops.len();
    if n == 0 {
        return None;
    }
    let ghost all = ops_view(ops@);
    let mut best: usize = 0;
    let mut i: usize = 1;
    proof {
        reveal_with_fuel(newest, 2);
        assert(all.take(1).drop_last() =~= Seq::<OpView>::empty());
        assert(all.take(1).last() == ops@[0]@);
    }
    while i < n
        invariant
            n == ops@.len(),
            all == ops_view(ops@),
            best < i <= n,
            newest(all.take(i as int)) == Some(ops@[best as int]@),
        decreases n - i,
    {
        proof {
            assert(all.take(i + 1).drop_last() =~= all.take(i as int));
            assert(all.take(i + 1).last() == ops@[i as int]@);
        }
        if !ops[i].version().is_before(&ops[best].version()) {
            best = i;
        }
        i = i + 1;
    }
    assert(all.take(n as int) =~= all);
    Some(best)
}

/// A copy of the newest operation.
pub fn newest_op(ops: &[Operation]) -> (r: Option<Operation>)
    ensures
        opt_op(r) == newest(ops_view(ops@)),
{
    match newest_index(ops) {
        Some(i) => Some(ops[i].clone()),
        None => {
            assert(ops_view(ops@).len() == 0);
            None
        },
    }
}

// ---- Counter payloads ----

/// The number that little-endian bytes spell.
pub open spec fn little_endian(bytes: Seq<u8>) -> int
    decreases bytes.len(),
{
    if bytes.len() == 0 {
        0
    } else {
        bytes[0] + 256 * little_endian(bytes.drop_first())
    }
}

/// The signed number that the first eight bytes spell in two's complement,
/// least significant byte first.
pub open spec fn leading_i64(bytes: Seq<u8>) -> i64 {
    let n = little_endian(bytes.take(8));
    (if n < 0x8000_0000_0000_0000 {
        n
    } else {
        n - 0x1_0000_0000_0000_0000
    }) as i64
}

/// `bincode::deserialize::<i64>` reads the first eight bytes and lets more bytes
/// follow. It fails on fewer.
#[verifier::external_body]
fn bincode_i64(value: &[u8]) -> (r: Option<i64>)
    ensures
        r == (if value@.len() >= 8 {
            Some(leading_i64(value@))
        } else {
            None
        }),
{
    bincode::deserialize::<i64>(value).ok()
}

/// The counters that bytes spell as a `bincode` map from text to `i64`.
pub uninterp spec fn counter_map(bytes: Seq<u8>) -> Option<Map<Seq<char>, i64>>;

/// The pairs of a map in some order, each key once.
pub open spec fn lists_map(pairs: Seq<(String, i64)>, map: Map<Seq<char>, i64>) -> bool {
    &&& forall|i: int|
        0 <= i < pairs.len() ==> map.contains_key(#[trigger] pairs[i].0@) && map[pairs[i].0@]
            == pairs[i].1
    &&& forall|k: Seq<char>| #[trigger]
        map.contains_key(k) ==> exists|i: int| 0 <= i < pairs.len() && #[trigger] pairs[i].0@ == k
}

/// `bincode::deserialize` of a map from strings to `i64`, whose pairs are handed
/// out in whatever order the hash map walks them. The encoding starts with an
/// eight-byte count, so fewer bytes spell no map.
#[verifier::external_body]
fn bincode_counters(value: &[u8]) -> (r: Option<Vec<(String, i64)>>)
    ensures
        match r {
            Some(pairs) => counter_map(value@) is Some && lists_map(
                pairs@,
                counter_map(value@).unwrap(),
            ),
            None => counter_map(value@) is None,
        },
        value@.len() < 8 ==> r is None,
{
    let map = bincode::deserialize::<std::collections::HashMap<String, i64>>(value).ok();
    map.map(|map| map.into_iter().collect())
}

/// The value a counter payload carries in its first eight bytes.
pub open spec fn counter_payload(value: Seq<u8>) -> Option<i64> {
    if value.len() >= 8 {
        Some(leading_i64(value))
    } else {
        None
    }
}

/// The number stored under "value", where there is one.
pub fn counter_entry(pairs: &Vec<(String, i64)>) -> (r: Option<i64>)
    ensures
        match r {
            Some(v) => exists|i: int|
                0 <= i < pairs@.len() && #[trigger] pairs@[i].0@ == "value"@ && pairs@[i].1 == v,
            None => forall|i: int| 0 <= i < pairs@.len() ==> #[trigger] pairs@[i].0@ != "value"@,
        },
{
    let n = pairs.len();
    for i in 0..n
        invariant
            n == pairs@.len(),
            forall|j: int| 0 <= j < i ==> #[trigger] pairs@[j].0@ != "value"@,
    {
        if str_eq(pairs[i].0.as_str(), "value") {
            return Some(pairs[i].1);
        }
    }
    None
}

/// Decode a counter payload. Whatever is long enough to hold a map of counters
/// is long enough to be read as a plain `i64`, so that reading always wins.
fn decode_counter_payload(value: &[u8]) -> (r: Option<i64>)
    ensures
        r == counter_payload(value@),
{
    match bincode_i64(value) {
        Some(v) => Some(v),
        None => match bincode_counters(value) {
            Some(pairs) => counter_entry(&pairs),
            None => None,
        },
    }
}

// ---- The log ----

/// An append-only log of operations. It knows nothing of how conflicts are
/// resolved: its owner merges and compacts it.
#[derive(Debug)]
pub struct OperationLog {
    operations: Vec<Operation>,
}

impl View for OperationLog {
    type V = Seq<OpView>;

    closed spec fn view(&self) -> Seq<OpView> {
        ops_view(self.operations@)
    }
}

/// The length above which a log is cut back after a local write.
pub const AUTO_COMPACT_THRESHOLD: usize = 10_000;

/// The length to which a log over the threshold is cut back.
pub const TRUNCATED_LEN: usize = 7_500;

/// The log after the oldest operations were dropped, where it is too long.
pub open spec fn truncated(ops: Seq<OpView>) -> Seq<OpView> {
    if ops.len() <= AUTO_COMPACT_THRESHOLD {
        ops
    } else {
        ops.skip(ops.len() - TRUNCATED_LEN)
    }
}

impl Clone for OperationLog {
    fn clone(&self) -> (r: Self)
        ensures
            r@ == self@,
    {
        OperationLog { operations: copy_ops(self.operations.as_slice()) }
    }
}

impl Default for OperationLog {
    fn default() -> (r: Self)
        ensures
            r@ == Seq::<OpView>::empty(),
    {
        Self::new()
    }
}

impl OperationLog {
    /// An empty log.
    pub fn new() -> (r: Self)
        ensures
            r@ == Seq::<OpView>::empty(),
    {
        let r = OperationLog { operations: Vec::new() };
        assert(r@ =~= Seq::<OpView>::empty());
        r
    }

    /// The log that holds `operations`.
    pub fn from_operations(operations: Vec<Operation>) -> (r: Self)
        ensures
            r@ == ops_view(operations@),
    {
        OperationLog { operations }
    }

    /// Append an operation.
    pub fn append(&mut self, operation: Operation)
        ensures
            final(self)@ == old(self)@.push(operation@),
    {
        self.operations.push(operation);
        assert(self@ =~= old(self)@.push(operation@));
    }

    /// Append a copy of each of `operations`.
    pub fn append_all(&mut self, operations: &[Operation])
        ensures
            final(self)@ == old(self)@ + ops_view(operations@),
    {
        let n = operations.len();
        let ghost before = self@;
        for i in 0..n
            invariant
                n == operations@.len(),
                self@ == before + ops_view(operations@.take(i as int)),
        {
            self.append(operations[i].clone());
            assert(ops_view(operations@.take(i + 1)) =~= ops_view(operations@.take(i as int)).push(
                operations@[i as int]@,
            ));
            assert(self@ =~= before + ops_view(operations@.take(i + 1)));
        }
        assert(operations@.take(n as int) =~= operations@);
    }

    /// All operations, oldest entry first.
    pub fn operations(&self) -> (r: &[Operation])
        ensures
            ops_view(r@) == self@,
    {
        self.operations.as_slice()
    }

    /// If the log is longer than the threshold, drop its oldest entries. Returns
    /// how many were dropped.
    pub fn truncate_oldest_over_threshold(&mut self) -> (r: usize)
        ensures
            final(self)@ == truncated(old(self)@),
            r == old(self)@.len() - final(self)@.len(),
    {
        let n = self.operations.len();
        if n <= AUTO_COMPACT_THRESHOLD {
            return 0;
        }
        let drop = n - TRUNCATED_LEN;
        let kept = self.operations.split_off(drop);
        self.operations = kept;
        assert(self@ =~= truncated(old(self)@));
        drop
    }

    /// Drop every operation for which `keep` returns `false`.
    pub fn retain_ops<F: Fn(&Operation) -> bool>(&mut self, keep: F)
        requires
            forall|op: &Operation| call_requires(keep, (op,)),
        ensures
            forall|model: spec_fn(OpView) -> bool| #[trigger]
                keeps_as(keep, model) ==> final(self)@ == old(self)@.filter(model),
    {
        let mut all: Vec<Operation> = Vec::new();
        std::mem::swap(&mut all, &mut self.operations);
        let ghost ops = all@;
        let ghost views = ops_view(ops);
        let mut kept: Vec<Operation> = Vec::new();
        for op in it: all.into_iter()
            invariant
                it.seq() == ops,
                views == ops_view(ops),
                forall|op: &Operation| call_requires(keep, (op,)),
                forall|model: spec_fn(OpView) -> bool| #[trigger]
                    keeps_as(keep, model) ==> ops_view(kept@) == views.take(
                        it.index() as int,
                    ).filter(model),
        {
            let ghost before = kept@;
            let ghost seen = views.take(it.index() as int);
            let ghost stamp = op@;
            let b = keep(&op);
            if b {
                kept.push(op);
                assert(ops_view(kept@) =~= ops_view(before).push(stamp));
            }
            proof {
                assert forall|model: spec_fn(OpView) -> bool| #[trigger]
                    keeps_as(keep, model) implies ops_view(kept@) == views.take(
                    it.index() + 1,
                ).filter(model) by {
                    reveal(Seq::filter);
                    assert(views.take(it.index() + 1).drop_last() =~= seen);
                    assert(views.take(it.index() + 1).last() == stamp);
                    assert(b == model(stamp));
                }
            }
        }
        assert(views.take(views.len() as int) =~= views);
        self.operations = kept;
    }

    /// The number of operations.
    pub fn len(&self) -> (r: usize)
        ensures
            r == self@.len(),
    {
        self.operations.len()
    }

    /// Whether the log holds no operation.
    pub fn is_empty(&self) -> (r: bool)
        ensures
            r == (self@.len() == 0),
    {
        self.operations.len() == 0
    }

    /// Drop the operations that are no newer than `watermark`.
    pub fn compact_up_to(&mut self, watermark: u64)
        ensures
            final(self)@ == old(self)@.filter(|op: OpView| op.version.timestamp > watermark),
    {
        let keep = |op: &Operation| -> (r: bool)
            ensures
                r == (op@.version.timestamp > watermark),
            { op.timestamp() > watermark };
        let ghost model = |op: OpView| op.version.timestamp > watermark;
        assert(keeps_as(keep, model));
        self.retain_ops(keep);
    }

    /// Replace the log by what `fold` makes of each key's operations, in
    /// ascending order of version. Within a key the operations are handed to
    /// `fold` in log order.
    pub fn compact_by_key<F: Fn(&[Operation]) -> Option<Operation>>(&mut self, fold: F)
        requires
            forall|ops: &[Operation]| call_requires(fold, (ops,)),
        ensures
            forall|model: spec_fn(Seq<OpView>) -> Option<OpView>| #[trigger]
                folds_as(fold, model) ==> final(self)@ == compacted(old(self)@, model),
    {
        let mut all: Vec<Operation> = Vec::new();
        std::mem::swap(&mut all, &mut self.operations);
        let ghost ops = ops_view(all@);
        let ghost keys = key_list(ops);
        let groups = group_by_key(all);
        let mut folded: Vec<Operation> = Vec::new();
        let n = groups.len();
        proof {
            assert(ops_view(folded@) =~= Seq::<OpView>::empty());
        }
        for i in 0..n
            invariant
                n == groups@.len(),
                n == keys.len(),
                forall|i: int|
                    0 <= i < groups@.len() ==> {
                        &&& (#[trigger] groups@[i]).0@ == keys[i]
                        &&& ops_view(groups@[i].1@) == group_of(ops, groups@[i].0@)
                    },
                forall|ops: &[Operation]| call_requires(fold, (ops,)),
                forall|model: spec_fn(Seq<OpView>) -> Option<OpView>| #[trigger]
                    folds_as(fold, model) ==> ops_view(folded@) == winners_of(
                        ops,
                        keys.take(i as int),
                        model,
                    ),
        {
            let ghost before = folded@;
            let ghost group = group_of(ops, keys[i as int]);
            assert(groups@[i as int].0@ == keys[i as int]);
            let winner = fold(groups[i].1.as_slice());
            let ghost w = opt_op(winner);
            if let Some(op) = winner {
                let ghost stamp = op@;
                folded.push(op);
                assert(ops_view(folded@) =~= ops_view(before).push(stamp));
            }
            proof {
                assert forall|model: spec_fn(Seq<OpView>) -> Option<OpView>| #[trigger]
                    folds_as(fold, model) implies ops_view(folded@) == winners_of(
                    ops,
                    keys.take(i + 1),
                    model,
                ) by {
                    let f = |key: Seq<char>| model(group_of(ops, key));
                    let now = keys.take(i + 1).map_values(f);
                    assert(now.drop_last() =~= keys.take(i as int).map_values(f));
                    assert(now.last() == model(group));
                    assert(w == model(group));
                }
            }
        }
        assert(keys.take(n as int) =~= keys);
        self.operations = sort_by_version(folded);
    }

    /// The counter value that the newest operation on `key` carries.
    pub fn latest_counter_value(&self, key: &str) -> (r: Option<i64>)
        ensures
            r == (match newest(group_of(self@, key@)) {
                Some(op) => match op.value {
                    Some(value) => counter_payload(value),
                    None => None,
                },
                None => None,
            }),
    {
        let mut best: Option<usize> = None;
        let n = self.operations.len();
        for i in 0..n
            invariant
                n == self.operations@.len(),
                best matches Some(b) ==> b < n,
                newest(group_of(self@.take(i as int), key@)) == (match best {
                    Some(b) => Some(self.operations@[b as int]@),
                    None => None,
                }),
        {
            let ghost op = self.operations@[i as int]@;
            let ghost group = group_of(self@.take(i as int), key@);
            proof {
                lemma_group_push(self@.take(i as int), op, key@);
                assert(self@.take(i + 1) =~= self@.take(i as int).push(op));
                assert(group.push(op).drop_last() =~= group);
            }
            if str_eq(self.operations[i].key(), key) {
                let replace = match best {
                    Some(b) => !self.operations[i].version().is_before(
                        &self.operations[b].version(),
                    ),
                    None => true,
                };
                if replace {
                    best = Some(i);
                }
            }
        }
        assert(self@.take(n as int) =~= self@);
        match best {
            Some(b) => match &self.operations[b] {
                Operation::Insert { value, .. } => decode_counter_payload(value.as_slice()),
                Operation::Remove { .. } => None,
            },
            None => None,
        }
    }

    /// The counter value that the newest operation carries, whatever its key.
    pub fn latest_counter_value_any(&self) -> (r: Option<i64>)
        ensures
            r == (match newest(self@) {
                Some(op) => match op.value {
                    Some(value) => counter_payload(value),
                    None => None,
                },
                None => None,
            }),
    {
        match newest_index(self.operations.as_slice()) {
            Some(b) => match &self.operations[b] {
                Operation::Insert { value, .. } => decode_counter_payload(value.as_slice()),
                Operation::Remove { .. } => None,
            },
            None => None,
        }
    }
}

// ---- Wire format ----

/// What `n` bytes can count up to.
pub open spec fn byte_range(n: nat) -> nat
    decreases n,
{
    if n == 0 {
        1
    } else {
        256 * byte_range((n - 1) as nat)
    }
}

/// A number in `n` bytes, most significant byte first.
pub open spec fn big_endian_bytes(value: nat, n: nat) -> Seq<u8>
    decreases n,
{
    if n == 0 {
        Seq::empty()
    } else {
        big_endian_bytes(value / 256, (n - 1) as nat).push((value % 256) as u8)
    }
}

proof fn lemma_sixteen_bytes()
    ensures
        byte_range(16) == u128::MAX + 1,
{
    reveal_with_fuel(byte_range, 17);
}

proof fn lemma_byte_range_grows(n: nat, m: nat)
    requires
        n <= m,
    ensures
        byte_range(n) <= byte_range(m),
    decreases m - n,
{
    if n < m {
        lemma_byte_range_grows(n, (m - 1) as nat);
    }
}

/// A number is known by its bytes.
pub proof fn lemma_big_endian_injective(a: nat, b: nat, n: nat)
    requires
        a < byte_range(n),
        b < byte_range(n),
        big_endian_bytes(a, n) == big_endian_bytes(b, n),
    ensures
        a == b,
    decreases n,
{
    if n > 0 {
        let x = big_endian_bytes(a, n);
        let y = big_endian_bytes(b, n);
        assert(x.last() == y.last());
        assert(x.drop_last() =~= big_endian_bytes(a / 256, (n - 1) as nat));
        assert(y.drop_last() =~= big_endian_bytes(b / 256, (n - 1) as nat));
        lemma_big_endian_injective(a / 256, b / 256, (n - 1) as nat);
    }
}

proof fn lemma_big_endian_len(value: nat, n: nat)
    ensures
        big_endian_bytes(value, n).len() == n,
    decreases n,
{
    if n > 0 {
        lemma_big_endian_len(value / 256, (n - 1) as nat);
    }
}

fn write_big_endian(value: u128, n: usize) -> (r: Vec<u8>)
    ensures
        r@ == big_endian_bytes(value as nat, n as nat),
    decreases n,
{
    if n == 0 {
        Vec::new()
    } else {
        let mut out = write_big_endian(value / 256, n - 1);
        out.push((value % 256) as u8);
        out
    }
}

fn read_big_endian(bytes: &Vec<u8>) -> (r: u128)
    requires
        bytes@.len() == 16,
    ensures
        bytes@ == big_endian_bytes(r as nat, 16),
{
    let mut value: u128 = 0;
    assert(bytes@.take(0) =~= big_endian_bytes(0, 0));
    for i in 0..16usize
        invariant
            bytes@.len() == 16,
            bytes@.take(i as int) == big_endian_bytes(value as nat, i as nat),
            value < byte_range(i as nat),
    {
        proof {
            lemma_sixteen_bytes();
            lemma_byte_range_grows((i + 1) as nat, 16);
            assert(bytes@.take(i + 1) =~= bytes@.take(i as int).push(bytes@[i as int]));
        }
        let next: u128 = value * 256 + bytes[i] as u128;
        assert(next / 256 == value && next % 256 == bytes@[i as int] as u128);
        value = next;
    }
    assert(bytes@.take(16) =~= bytes@);
    value
}

/// An operation as `bincode` sees it: an insert in the first variant, a remove
/// in the second. A replica is sixteen bytes.
type WireOp = Result<(String, Vec<u8>, u64, Vec<u8>), (String, u64, Vec<u8>)>;

/// The plain values of one operation: key, value, timestamp and replica.
pub type PlainOp = (Seq<char>, Option<Seq<u8>>, u64, Seq<u8>);

/// The plain values of an operation on the wire.
pub open spec fn plain_wire(
    op: Result<(String, Vec<u8>, u64, Vec<u8>), (String, u64, Vec<u8>)>,
) -> PlainOp {
    match op {
        Ok((key, value, timestamp, replica)) => (key@, Some(value@), timestamp, replica@),
        Err((key, timestamp, replica)) => (key@, None, timestamp, replica@),
    }
}

/// The plain values of operations on the wire.
pub open spec fn plain_wires(
    ops: Seq<Result<(String, Vec<u8>, u64, Vec<u8>), (String, u64, Vec<u8>)>>,
) -> Seq<PlainOp> {
    ops.map_values(
        |op: Result<(String, Vec<u8>, u64, Vec<u8>), (String, u64, Vec<u8>)>| plain_wire(op),
    )
}

/// The plain values of an operation.
pub open spec fn plain_op(op: OpView) -> PlainOp {
    (
        op.key,
        op.value,
        op.version.timestamp,
        big_endian_bytes(op.version.replica_id.bits as nat, 16),
    )
}

/// The plain values of operations.
pub open spec fn plain_ops(ops: Seq<OpView>) -> Seq<PlainOp> {
    ops.map_values(|op: OpView| plain_op(op))
}

/// Every replica is sixteen bytes.
pub open spec fn has_replicas(ops: Seq<PlainOp>) -> bool {
    forall|i: int| 0 <= i < ops.len() ==> (#[trigger] ops[i]).3.len() == 16
}

/// The bytes to which `bincode` encodes operations.
pub uninterp spec fn encoded_ops(
    ops: Seq<(Seq<char>, Option<Seq<u8>>, u64, Seq<u8>)>,
) -> Seq<u8>;

/// The operations that `bincode` reads from bytes.
pub uninterp spec fn decoded_ops(
    bytes: Seq<u8>,
) -> Option<Seq<(Seq<char>, Option<Seq<u8>>, u64, Seq<u8>)>>;

/// `bincode::ErrorKind`, why bytes could not be encoded or decoded.
#[verifier::external_type_specification]
#[verifier::external_body]
pub struct ExErrorKind(bincode::ErrorKind);

/// `bincode::serialize` of operations, which never fails on such values, and
/// whose bytes `bincode::deserialize` reads back as the same operations.
#[verifier::external_body]
fn bincode_encode(ops: &Vec<WireOp>) -> (r: Result<Vec<u8>, Box<bincode::ErrorKind>>)
    ensures
        match r {
            Ok(bytes) => bytes@ == encoded_ops(plain_wires(ops@)) && decoded_ops(bytes@) == Some(
                plain_wires(ops@),
            ),
            Err(_) => false,
        },
{
    bincode::serialize(ops)
}

/// `bincode::deserialize` of operations. Which bytes spell which operations is
/// a function of the bytes alone.
#[verifier::external_body]
fn bincode_decode(bytes: &[u8]) -> (r: Result<Vec<WireOp>, Box<bincode::ErrorKind>>)
    ensures
        match r {
            Ok(ops) => decoded_ops(bytes@) == Some(plain_wires(ops@)),
            Err(_) => decoded_ops(bytes@) is None,
        },
{
    bincode::deserialize(bytes)
}

/// Why a log could not be turned into bytes or read back from them.
#[derive(Debug)]
pub enum LogCodecError {
    /// The encoder refused the operations, for this reason.
    Encode(Box<bincode::ErrorKind>),
    /// The decoder refused the bytes, for this reason.
    Decode(Box<bincode::ErrorKind>),
    /// A replica is not sixteen bytes.
    Replica,
}

fn to_wire(op: &Operation) -> (r: WireOp)
    ensures
        plain_wire(r) == plain_op(op@),
{
    match op {
        Operation::Insert { key, value, timestamp, replica_id } => Ok(
            (
                key.clone(),
                copy_bytes(value),
                *timestamp,
                write_big_endian(replica_id.bits, 16),
            ),
        ),
        Operation::Remove { key, timestamp, replica_id } => Err(
            (key.clone(), *timestamp, write_big_endian(replica_id.bits, 16)),
        ),
    }
}

fn from_wire(op: WireOp) -> (r: Option<Operation>)
    ensures
        match r {
            Some(o) => plain_op(o@) == plain_wire(op) && plain_wire(op).3.len() == 16,
            None => plain_wire(op).3.len() != 16,
        },
{
    match op {
        Ok((key, value, timestamp, replica)) => if replica.len() == 16 {
            let bits = read_big_endian(&replica);
            Some(Operation::insert(key, value, timestamp, ReplicaId::from_bits(bits)))
        } else {
            None
        },
        Err((key, timestamp, replica)) => if replica.len() == 16 {
            let bits = read_big_endian(&replica);
            Some(Operation::remove(key, timestamp, ReplicaId::from_bits(bits)))
        } else {
            None
        },
    }
}

/// Operations with the same plain values are the same operations.
pub proof fn lemma_plain_ops_injective(a: Seq<OpView>, b: Seq<OpView>)
    requires
        plain_ops(a) == plain_ops(b),
    ensures
        a == b,
{
    assert(a.len() == plain_ops(a).len());
    assert(b.len() == plain_ops(b).len());
    lemma_sixteen_bytes();
    assert forall|i: int| 0 <= i < a.len() implies a[i] == b[i] by {
        assert(plain_ops(a)[i] == plain_op(a[i]));
        assert(plain_ops(b)[i] == plain_op(b[i]));
        lemma_big_endian_injective(
            a[i].version.replica_id.bits as nat,
            b[i].version.replica_id.bits as nat,
            16,
        );
    }
    assert(a =~= b);
}

/// The log that bytes spell, where they spell one.
pub open spec fn log_in(bytes: Seq<u8>) -> Option<Seq<PlainOp>> {
    match decoded_ops(bytes) {
        Some(plain) => if has_replicas(plain) {
            Some(plain)
        } else {
            None
        },
        None => None,
    }
}

/// A log is read back from the bytes that it was turned into: on such bytes
/// reading succeeds, and whatever log is read is the same log.
pub proof fn law_bytes_round_trip(log: Seq<OpView>, bytes: Seq<u8>)
    requires
        decoded_ops(bytes) == Some(plain_ops(log)),
    ensures
        log_in(bytes) is Some,
        forall|read: Seq<OpView>| log_in(bytes) == Some(#[trigger] plain_ops(read)) ==> read == log,
{
    assert forall|i: int| 0 <= i < plain_ops(log).len() implies (#[trigger] plain_ops(
        log,
    )[i]).3.len() == 16 by {
        lemma_big_endian_len(log[i].version.replica_id.bits as nat, 16);
    }
    assert forall|read: Seq<OpView>| log_in(bytes) == Some(#[trigger] plain_ops(read)) implies read
        == log by {
        lemma_plain_ops_injective(read, log);
    }
}

impl OperationLog {
    /// The log as bytes.
    pub fn to_bytes(&self) -> (r: Result<Vec<u8>, LogCodecError>)
        ensures
            r is Ok,
            r matches Ok(bytes) ==> bytes@ == encoded_ops(plain_ops(self@)) && decoded_ops(bytes@)
                == Some(plain_ops(self@)),
    {
        let n = self.operations.len();
        let mut wire: Vec<WireOp> = Vec::new();
        for i in 0..n
            invariant
                n == self.operations@.len(),
                plain_wires(wire@) == plain_ops(self@.take(i as int)),
        {
            let w = to_wire(&self.operations[i]);
            let ghost before = wire@;
            wire.push(w);
            assert(plain_wires(wire@) =~= plain_wires(before).push(plain_wire(w)));
            assert(plain_ops(self@.take(i + 1)) =~= plain_ops(self@.take(i as int)).push(
                plain_op(self@[i as int]),
            ));
        }
        assert(self@.take(n as int) =~= self@);
        match bincode_encode(&wire) {
            Ok(bytes) => Ok(bytes),
            Err(e) => Err(LogCodecError::Encode(e)),
        }
    }

    /// The log that `bytes` spell. Where the decoder refuses them, its reason is
    /// handed on.
    pub fn from_bytes(bytes: &[u8]) -> (r: Result<Self, LogCodecError>)
        ensures
            match log_in(bytes@) {
                Some(plain) => r matches Ok(log) && plain_ops(log@) == plain,
                None => if decoded_ops(bytes@) is None {
                    r matches Err(LogCodecError::Decode(_))
                } else {
                    r matches Err(LogCodecError::Replica)
                },
            },
    {
        match bincode_decode(bytes) {
            Ok(wire) => match Self::from_wire_ops(wire) {
                Some(log) => Ok(log),
                None => Err(LogCodecError::Replica),
            },
            Err(e) => Err(LogCodecError::Decode(e)),
        }
    }

    fn from_wire_ops(wire: Vec<WireOp>) -> (r: Option<Self>)
        ensures
            match r {
                Some(log) => plain_ops(log@) == plain_wires(wire@) && has_replicas(
                    plain_wires(wire@),
                ),
                None => !has_replicas(plain_wires(wire@)),
            },
    {
        let mut log = OperationLog::new();
        let ghost all = wire@;
        proof {
            assert(plain_ops(log@) =~= plain_wires(all.take(0)));
        }
        for op in it: wire.into_iter()
            invariant
                it.seq() == all,
                plain_ops(log@) == plain_wires(all.take(it.index() as int)),
                has_replicas(plain_wires(all.take(it.index() as int))),
        {
            let ghost before = log@;
            let ghost w = op;
            let ghost i = it.index() as int;
            assert(plain_wires(all)[i] == plain_wire(w));
            let op = match from_wire(op) {
                Some(op) => op,
                None => return None,
            };
            let ghost stamp = op@;
            log.append(op);
            proof {
                assert(plain_ops(log@) =~= plain_ops(before).push(plain_op(stamp)));
                assert(plain_wires(all.take(i + 1)) =~= plain_wires(all.take(i)).push(
                    plain_wire(w),
                ));
            }
        }
        assert(all.take(all.len() as int) =~= all);
        Some(log)
    }
}

// ---- What sorting and compaction keep ----

/// A group holds exactly the operations on its key.
pub proof fn lemma_group_members(ops: Seq<OpView>, key: Seq<char>)
    ensures
        forall|op: OpView| #[trigger]
            group_of(ops, key).contains(op) <==> ops.contains(op) && op.key == key,
        mentions(ops, key) <==> group_of(ops, key).len() > 0,
    decreases ops.len(),
{
    let group = group_of(ops, key);
    if ops.len() == 0 {
        reveal(Seq::filter);
    } else {
        let init = ops.drop_last();
        let last = ops.last();
        let rest = group_of(init, key);
        lemma_group_members(init, key);
        assert(ops =~= init.push(last));
        lemma_group_push(init, last, key);
        assert(ops[ops.len() - 1] == last);
        assert forall|op: OpView| #[trigger] group.contains(op) <==> ops.contains(op) && op.key
            == key by {
            if group.contains(op) {
                let i = choose|i: int| 0 <= i < group.len() && group[i] == op;
                if i < rest.len() {
                    assert(rest[i] == op);
                    assert(rest.contains(op));
                    let j = choose|j: int| 0 <= j < init.len() && init[j] == op;
                    assert(ops[j] == op);
                }
            }
            if ops.contains(op) && op.key == key {
                let j = choose|j: int| 0 <= j < ops.len() && ops[j] == op;
                if j < init.len() {
                    assert(init[j] == op);
                    assert(rest.contains(op));
                    let i = choose|i: int| 0 <= i < rest.len() && rest[i] == op;
                    assert(group[i] == op);
                } else {
                    assert(group[group.len() - 1] == op);
                }
            }
        }
        if mentions(ops, key) {
            let j = choose|j: int| 0 <= j < ops.len() && #[trigger] ops[j].key == key;
            if j < init.len() {
                assert(init[j].key == key);
            }
        }
        if mentions(init, key) {
            let j = choose|j: int| 0 <= j < init.len() && #[trigger] init[j].key == key;
            assert(ops[j].key == key);
        }
    }
}

proof fn lemma_insert_op_group(sorted: Seq<OpView>, op: OpView, key: Seq<char>)
    requires
        ascending(sorted),
    ensures
        group_of(insert_op(sorted, op), key) == (if op.key == key {
            insert_op(group_of(sorted, key), op)
        } else {
            group_of(sorted, key)
        }),
    decreases sorted.len(),
{
    let group = group_of(sorted, key);
    if sorted.len() == 0 || !op.version.before(sorted.last().version) {
        lemma_group_push(sorted, op, key);
        lemma_group_members(sorted, key);
        if group.len() > 0 {
            assert(group.contains(group.last()));
            let i = choose|i: int| 0 <= i < sorted.len() && sorted[i] == group.last();
            if i < sorted.len() - 1 {
                assert(!sorted[sorted.len() - 1].version.before(sorted[i].version));
            }
        }
    } else {
        let init = sorted.drop_last();
        let last = sorted.last();
        lemma_insert_op_group(init, op, key);
        assert(sorted =~= init.push(last));
        lemma_group_push(init, last, key);
        lemma_group_push(insert_op(init, op), last, key);
        if last.key == key {
            assert(group.drop_last() =~= group_of(init, key));
        }
    }
}

/// Sorting is stable: it keeps each key's operations together with their order
/// among equals.
pub proof fn lemma_sort_group(ops: Seq<OpView>, key: Seq<char>)
    ensures
        group_of(sort_ops(ops), key) == sort_ops(group_of(ops, key)),
    decreases ops.len(),
{
    reveal(Seq::filter);
    if ops.len() > 0 {
        let init = ops.drop_last();
        lemma_sort_group(init, key);
        lemma_sort_ops(init);
        lemma_insert_op_group(sort_ops(init), ops.last(), key);
        assert(ops =~= init.push(ops.last()));
        lemma_group_push(init, ops.last(), key);
        if ops.last().key == key {
            assert(group_of(ops, key).drop_last() =~= group_of(init, key));
        }
    }
}

/// A fold that returns operations on the key it was given, if any.
pub open spec fn keeps_key(fold: spec_fn(Seq<OpView>) -> Option<OpView>) -> bool {
    forall|group: Seq<OpView>, key: Seq<char>|
        #![trigger fold(group), group_of(group, key)]
        group.len() > 0 && group_of(group, key) == group ==> (fold(group) matches Some(op) ==> op.key
            == key)
}

/// Grouping a group by its own key changes nothing.
pub proof fn lemma_group_idempotent(ops: Seq<OpView>, key: Seq<char>)
    ensures
        group_of(group_of(ops, key), key) == group_of(ops, key),
    decreases ops.len(),
{
    reveal(Seq::filter);
    if ops.len() > 0 {
        let init = ops.drop_last();
        lemma_group_idempotent(init, key);
        assert(ops =~= init.push(ops.last()));
        lemma_group_push(init, ops.last(), key);
        if ops.last().key == key {
            lemma_group_push(group_of(init, key), ops.last(), key);
        }
    }
}

proof fn lemma_winners_group(
    ops: Seq<OpView>,
    keys: Seq<Seq<char>>,
    fold: spec_fn(Seq<OpView>) -> Option<OpView>,
    key: Seq<char>,
)
    requires
        keeps_key(fold),
        keys_ascend(keys),
        forall|i: int| 0 <= i < keys.len() ==> mentions(ops, #[trigger] keys[i]),
    ensures
        group_of(winners_of(ops, keys, fold), key) == (if keys.contains(key) {
            match fold(group_of(ops, key)) {
                Some(op) => seq![op],
                None => Seq::empty(),
            }
        } else {
            Seq::empty()
        }),
    decreases keys.len(),
{
    reveal(Seq::filter);
    let f = |k: Seq<char>| fold(group_of(ops, k));
    if keys.len() == 0 {
        assert(group_of(winners_of(ops, keys, fold), key) =~= Seq::<OpView>::empty());
    } else {
        let init = keys.drop_last();
        let last = keys.last();
        lemma_winners_group(ops, init, fold, key);
        assert(keys.map_values(f).drop_last() =~= init.map_values(f));
        assert(keys[keys.len() - 1] == last);
        assert(mentions(ops, keys[keys.len() - 1]));
        lemma_group_members(ops, last);
        lemma_group_idempotent(ops, last);
        let rest = winners_of(ops, init, fold);
        match fold(group_of(ops, last)) {
            Some(op) => {
                assert(op.key == last);
                lemma_group_push(rest, op, key);
            },
            None => {},
        }
        assert(!init.contains(last)) by {
            if init.contains(last) {
                let i = choose|i: int| 0 <= i < init.len() && init[i] == last;
                assert(keys[i] == last);
                lemma_str_before_total_order(last, last, last);
            }
        }
        assert(keys.contains(key) <==> init.contains(key) || key == last) by {
            if keys.contains(key) {
                let i = choose|i: int| 0 <= i < keys.len() && keys[i] == key;
                if i < init.len() {
                    assert(init[i] == key);
                }
            }
            if init.contains(key) {
                let i = choose|i: int| 0 <= i < init.len() && init[i] == key;
                assert(keys[i] == key);
            }
        }
        if key == last {
            assert(group_of(winners_of(ops, keys, fold), key) =~= (match fold(group_of(ops, key)) {
                Some(op) => seq![op],
                None => Seq::empty(),
            }));
        }
    }
}

/// A compacted log holds at most one operation per key, the one that the fold
/// made of the key's operations.
pub proof fn lemma_compacted_group(
    ops: Seq<OpView>,
    fold: spec_fn(Seq<OpView>) -> Option<OpView>,
    key: Seq<char>,
)
    requires
        keeps_key(fold),
    ensures
        group_of(compacted(ops, fold), key) == (if mentions(ops, key) {
            match fold(group_of(ops, key)) {
                Some(op) => seq![op],
                None => Seq::empty(),
            }
        } else {
            Seq::empty()
        }),
        ascending(compacted(ops, fold)),
{
    let keys = key_list(ops);
    lemma_key_list(ops);
    assert forall|i: int| 0 <= i < keys.len() implies mentions(ops, #[trigger] keys[i]) by {
        assert(keys.contains(keys[i]));
    }
    lemma_winners_group(ops, keys, fold, key);
    let winners = winners_of(ops, keys, fold);
    lemma_sort_group(winners, key);
    lemma_sort_ops(winners);
    let group = group_of(winners, key);
    if group.len() == 1 {
        lemma_sort_ascending(group);
    }
    assert(keys.contains(key) <==> mentions(ops, key));
}

/// A compacted log is no longer than the list of its keys.
pub proof fn lemma_compacted_len(ops: Seq<OpView>, fold: spec_fn(Seq<OpView>) -> Option<OpView>)
    ensures
        compacted(ops, fold).len() <= key_list(ops).len(),
{
    lemma_sort_ops(winners_of(ops, key_list(ops), fold));
    lemma_somes_len(key_list(ops).map_values(|key: Seq<char>| fold(group_of(ops, key))));
}

proof fn lemma_somes_len(winners: Seq<Option<OpView>>)
    ensures
        somes(winners).len() <= winners.len(),
    decreases winners.len(),
{
    if winners.len() > 0 {
        lemma_somes_len(winners.drop_last());
    }
}

/// Compaction depends on nothing but what the fold makes of each key: two logs
/// over the same keys whose folds agree compact to the same log.
pub proof fn lemma_compacted_by_folds(
    a: Seq<OpView>,
    b: Seq<OpView>,
    fold: spec_fn(Seq<OpView>) -> Option<OpView>,
)
    requires
        forall|key: Seq<char>| mentions(a, key) <==> mentions(b, key),
        forall|key: Seq<char>| mentions(a, key) ==> #[trigger] fold(group_of(a, key)) == fold(group_of(b, key)),
    ensures
        compacted(a, fold) == compacted(b, fold),
{
    lemma_key_list(a);
    lemma_key_list(b);
    assert forall|k: Seq<char>| key_list(a).contains(k) <==> key_list(b).contains(k) by {
        assert(mentions(a, k) <==> mentions(b, k));
    }
    lemma_ascending_keys_unique(key_list(a), key_list(b));
    let keys = key_list(a);
    assert forall|i: int| 0 <= i < keys.len() implies fold(group_of(a, #[trigger] keys[i])) == fold(
        group_of(b, keys[i]),
    ) by {
        assert(keys.contains(keys[i]));
    }
    assert(keys.map_values(|key: Seq<char>| fold(group_of(a, key))) =~= keys.map_values(
        |key: Seq<char>| fold(group_of(b, key)),
    ));
}

proof fn lemma_winners_members(
    ops: Seq<OpView>,
    keys: Seq<Seq<char>>,
    fold: spec_fn(Seq<OpView>) -> Option<OpView>,
    op: OpView,
)
    requires
        winners_of(ops, keys, fold).contains(op),
    ensures
        exists|key: Seq<char>| keys.contains(key) && #[trigger] fold(group_of(ops, key)) == Some(op),
    decreases keys.len(),
{
    let f = |key: Seq<char>| fold(group_of(ops, key));
    let all = winners_of(ops, keys, fold);
    if keys.len() > 0 {
        let init = keys.drop_last();
        let last = keys.last();
        assert(keys.map_values(f).drop_last() =~= init.map_values(f));
        let rest = winners_of(ops, init, fold);
        let i = choose|i: int| 0 <= i < all.len() && all[i] == op;
        if i < rest.len() {
            assert(rest[i] == op);
            lemma_winners_members(ops, init, fold, op);
            let key = choose|key: Seq<char>|
                init.contains(key) && #[trigger] fold(group_of(ops, key)) == Some(op);
            let j = choose|j: int| 0 <= j < init.len() && init[j] == key;
            assert(keys[j] == key);
            assert(keys.contains(key));
        } else {
            assert(keys[keys.len() - 1] == last);
            assert(keys.contains(last));
            assert(fold(group_of(ops, last)) == Some(op));
        }
    }
}

/// Every operation of a compacted log is what the fold made of some key.
pub proof fn lemma_compacted_members(
    ops: Seq<OpView>,
    fold: spec_fn(Seq<OpView>) -> Option<OpView>,
    op: OpView,
)
    requires
        compacted(ops, fold).contains(op),
    ensures
        exists|key: Seq<char>| mentions(ops, key) && #[trigger] fold(group_of(ops, key)) == Some(op),
{
    let keys = key_list(ops);
    lemma_key_list(ops);
    lemma_sort_ops(winners_of(ops, keys, fold));
    lemma_winners_members(ops, keys, fold, op);
    let key = choose|key: Seq<char>|
        keys.contains(key) && #[trigger] fold(group_of(ops, key)) == Some(op);
    assert(mentions(ops, key));
}

/// A filtered log holds exactly the operations that pass the filter.
pub proof fn lemma_filter_members(ops: Seq<OpView>, p: spec_fn(OpView) -> bool, op: OpView)
    ensures
        ops.filter(p).contains(op) <==> ops.contains(op) && p(op),
    decreases ops.len(),
{
    reveal(Seq::filter);
    let kept = ops.filter(p);
    if ops.len() > 0 {
        let init = ops.drop_last();
        let rest = init.filter(p);
        lemma_filter_members(init, p, op);
        assert(ops[ops.len() - 1] == ops.last());
        if kept.contains(op) {
            let i = choose|i: int| 0 <= i < kept.len() && kept[i] == op;
            if i < rest.len() {
                assert(rest[i] == op);
                let j = choose|j: int| 0 <= j < init.len() && init[j] == op;
                assert(ops[j] == op);
            }
        }
        if ops.contains(op) && p(op) {
            let j = choose|j: int| 0 <= j < ops.len() && ops[j] == op;
            if j < init.len() {
                assert(init[j] == op);
                let i = choose|i: int| 0 <= i < rest.len() && rest[i] == op;
                assert(kept[i] == op);
            } else {
                assert(kept[kept.len() - 1] == op);
            }
        }
    }
}

/// A filter that lets everything pass changes nothing.
pub proof fn lemma_filter_all(ops: Seq<OpView>, p: spec_fn(OpView) -> bool)
    requires
        forall|op: OpView| #[trigger] p(op),
    ensures
        ops.filter(p) == ops,
    decreases ops.len(),
{
    reveal(Seq::filter);
    if ops.len() > 0 {
        lemma_filter_all(ops.drop_last(), p);
        assert(ops =~= ops.drop_last().push(ops.last()));
    }
}

} // verus!
