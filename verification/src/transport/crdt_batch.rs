//! Replicated operations on the wire.
use super::packing::{groups_view, pack, packed};
use crate::crdt_kv::crdt::{after_merging, value_of};
use crate::crdt_kv::engine::{changes_view, reports};
use crate::crdt_kv::operation::{
    copy_ops, ops_view, CrdtChange, OpView, Operation, OperationLog,
};
use crate::crdt_kv::replica::Version;
use crate::crdt_kv::watermark::{
    ack_entries, acks_listed, acks_of, lists_acks, CrdtWatermark,
};
use crate::kv::MeshKV;
use vstd::prelude::*;
use vstd::utf8::*;

verus! {

/// Operations that travel together.
#[derive(Debug)]
pub struct CrdtBatch {
    pub ops: Vec<Operation>,
}

impl View for CrdtBatch {
    type V = Seq<OpView>;

    open spec fn view(&self) -> Seq<OpView> {
        ops_view(self.ops@)
    }
}

impl Clone for CrdtBatch {
    fn clone(&self) -> (r: Self)
        ensures
            r@ == self@,
    {
        CrdtBatch { ops: copy_ops(self.ops.as_slice()) }
    }
}

/// What batches say.
pub open spec fn crdt_batches_view(batches: Seq<CrdtBatch>) -> Seq<Seq<OpView>> {
    batches.map_values(|b: CrdtBatch| b@)
}

/// What an operation says, as a function.
pub open spec fn op_model() -> spec_fn(Operation) -> OpView {
    |op: Operation| op@
}

/// The bytes that an operation takes: its key, its value and its version.
pub open spec fn op_size() -> spec_fn(OpView) -> nat {
    |op: OpView|
        encode_utf8(op.key).len() + (match op.value {
            Some(value) => value.len(),
            None => 0,
        }) + 24
}

fn size_of_op(op: &Operation) -> (r: u128)
    ensures
        r == op_size()(op@),
        r <= 0x1_0000_0000_0000_0000_0000,
{
    let key = op.key().as_bytes().len() as u128;
    let value = match op {
        Operation::Insert { value, .. } => value.len() as u128,
        Operation::Remove { .. } => 0u128,
    };
    key + value + 24
}

/// Pack operations into batches of at most `max_bytes` bytes. An operation that
/// is larger by itself travels alone.
pub fn build_crdt_batches(ops: &[Operation], max_bytes: usize) -> (r: Vec<CrdtBatch>)
    ensures
        crdt_batches_view(r@) == packed(
            ops_view(ops@),
            op_size(),
            usize::MAX as nat,
            max_bytes as nat,
        ),
{
    let copies = copy_ops(ops);
    let size_of = |op: &Operation| -> (r: u128)
        ensures
            r == op_size()(op@),
            r <= 0x1_0000_0000_0000_0000_0000,
        { size_of_op(op) };
    let ghost views = copies@.map_values(op_model());
    proof {
        assert(views =~= ops_view(copies@));
    }
    let groups = pack::<Operation, OpView, _>(
        copies,
        size_of,
        usize::MAX,
        max_bytes,
        Ghost(op_model()),
        Ghost(op_size()),
    );
    let ghost all = groups_view(groups@, op_model());
    let mut batches: Vec<CrdtBatch> = Vec::new();
    proof {
        assert(crdt_batches_view(batches@) =~= all.take(0));
    }
    for ops in it: groups.into_iter()
        invariant
            it.seq() == groups@,
            all == groups_view(groups@, op_model()),
            crdt_batches_view(batches@) == all.take(it.index() as int),
    {
        let ghost before = crdt_batches_view(batches@);
        let batch = CrdtBatch { ops };
        let ghost view = batch@;
        batches.push(batch);
        proof {
            assert(all[it.index() as int] =~= view);
            assert(crdt_batches_view(batches@) =~= before.push(view));
            assert(all.take(it.index() + 1) =~= all.take(it.index() as int).push(view));
        }
    }
    assert(all.take(all.len() as int) =~= all);
    batches
}

/// An acknowledgement on the wire.
#[derive(Debug)]
pub struct CrdtAck {
    pub versions: Vec<(String, Version)>,
}

impl View for CrdtAck {
    type V = Seq<(Seq<char>, Version)>;

    open spec fn view(&self) -> Seq<(Seq<char>, Version)> {
        ack_entries(self.versions@)
    }
}

/// A watermark as an acknowledgement.
pub fn watermark_to_crdt_ack(acked: &CrdtWatermark) -> (r: CrdtAck)
    requires
        acked.wf(),
    ensures
        lists_acks(r@, acked@),
{
    CrdtAck { versions: acked.entries() }
}

/// The watermark that an acknowledgement spells.
pub fn crdt_ack_to_watermark(ack: CrdtAck) -> (r: CrdtWatermark)
    ensures
        r.wf(),
        r@ == acks_listed(ack@),
{
    CrdtWatermark::from_entries(&ack.versions)
}

/// What came of a batch: what the sender is told, and the keys whose value
/// changed.
pub struct CrdtReceipt {
    pub ack: CrdtWatermark,
    pub changes: Vec<CrdtChange>,
}

/// Merge a batch that has arrived. Every operation in it is acknowledged, also
/// where an operation that was known already outdid it.
pub fn dispatch_crdt_batch(mesh: &mut MeshKV, batch: CrdtBatch) -> (r: CrdtReceipt)
    requires
        old(mesh).wf(),
    ensures
        final(mesh).wf(),
        r.ack.wf(),
        r.ack@ == acks_of(batch@),
        final(mesh).last_reading() >= old(mesh).last_reading(),
        final(mesh).map() == after_merging(old(mesh).map(), batch@, final(mesh).last_reading()),
        reports(
            changes_view(r.changes@),
            |k: Seq<char>| value_of(old(mesh).map(), k),
            |k: Seq<char>| value_of(final(mesh).map(), k),
        ),
        final(mesh).queued() == old(mesh).queued(),
        final(mesh).queued_for() == old(mesh).queued_for(),
        final(mesh).arriving() == old(mesh).arriving(),
        final(mesh).node() == old(mesh).node(),
{
    let ack = CrdtWatermark::of_ops(batch.ops.as_slice());
    let log = OperationLog::from_operations(batch.ops);
    let ghost before = mesh.map();
    let changes = mesh.merge(&log);
    proof {
        let now = choose|now: u128| mesh.map() == #[trigger] after_merging(before, log@, now);
        assert(mesh.map() == after_merging(before, batch@, now));
    }
    CrdtReceipt { ack, changes }
}

} // verus!
