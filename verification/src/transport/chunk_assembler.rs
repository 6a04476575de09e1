//! Chunks put together again.
use super::chunking::{chunk_count, chunk_data, chunks, contents, joined_data, EntryView};
use crate::crdt_kv::kv_store::lookup;
use crate::key_table::KeyTable;
use bytes::Bytes;
use vstd::prelude::*;

verus! {

/// The chunks of a value that have arrived.
#[verifier::ext_equal]
pub struct PendingView {
    pub generation: u64,
    pub total: u64,
    /// Index and data, in ascending order of index.
    pub parts: Seq<(u64, Seq<u8>)>,
}

/// Strictly ascending indices.
pub open spec fn parts_ascend(parts: Seq<(u64, Seq<u8>)>) -> bool {
    forall|i: int, j: int|
        0 <= i < j < parts.len() ==> (#[trigger] parts[i]).0 < (#[trigger] parts[j]).0
}

/// Some chunks of a value have arrived, but not all.
pub open spec fn pending_wf(p: PendingView) -> bool {
    &&& parts_ascend(p.parts)
    &&& 0 < p.parts.len() < p.total
    &&& forall|i: int| 0 <= i < p.parts.len() ==> (#[trigger] p.parts[i]).0 < p.total
}

/// The chunks with one more. A chunk that had arrived already is replaced.
pub open spec fn with_part(
    parts: Seq<(u64, Seq<u8>)>,
    index: u64,
    data: Seq<u8>,
) -> Seq<(u64, Seq<u8>)>
    decreases parts.len(),
{
    if parts.len() == 0 || parts.last().0 < index {
        parts.push((index, data))
    } else if parts.last().0 == index {
        parts.drop_last().push((index, data))
    } else {
        with_part(parts.drop_last(), index, data).push(parts.last())
    }
}

/// The chunks of the value that a chunk belongs to, with that chunk. A chunk of
/// another value than the one in flight starts afresh.
pub open spec fn parts_after(
    pending: Option<PendingView>,
    generation: u64,
    index: u64,
    total: u64,
    data: Seq<u8>,
) -> Seq<(u64, Seq<u8>)> {
    match pending {
        Some(p) => if p.generation == generation && p.total == total {
            with_part(p.parts, index, data)
        } else {
            seq![(index, data)]
        },
        None => seq![(index, data)],
    }
}

proof fn lemma_with_part(parts: Seq<(u64, Seq<u8>)>, index: u64, data: Seq<u8>)
    requires
        parts_ascend(parts),
    ensures
        parts_ascend(with_part(parts, index, data)),
        parts.len() <= with_part(parts, index, data).len() <= parts.len() + 1,
        with_part(parts, index, data).len() > 0,
        forall|x: (u64, Seq<u8>)| #[trigger]
            with_part(parts, index, data).contains(x) ==> x == (index, data) || parts.contains(x),
    decreases parts.len(),
{
    let r = with_part(parts, index, data);
    if parts.len() > 0 {
        let init = parts.drop_last();
        let last = parts.last();
        assert(parts[parts.len() - 1] == last);
        if last.0 < index {
            assert forall|i: int| 0 <= i < parts.len() implies (#[trigger] parts[i]).0 < index by {
                if i < parts.len() - 1 {
                    assert(parts[i].0 < parts[parts.len() - 1].0);
                }
            }
            assert forall|x: (u64, Seq<u8>)| #[trigger] r.contains(x) implies x == (index, data)
                || parts.contains(x) by {
                let i = choose|i: int| 0 <= i < r.len() && r[i] == x;
                if i < parts.len() {
                    assert(parts[i] == x);
                }
            }
        } else if last.0 == index {
            assert forall|i: int| 0 <= i < init.len() implies (#[trigger] init[i]).0 < index by {
                assert(parts[i].0 < parts[parts.len() - 1].0);
            }
            assert forall|x: (u64, Seq<u8>)| #[trigger] r.contains(x) implies x == (index, data)
                || parts.contains(x) by {
                let i = choose|i: int| 0 <= i < r.len() && r[i] == x;
                if i < init.len() {
                    assert(parts[i] == x);
                }
            }
        } else {
            lemma_with_part(init, index, data);
            let s = with_part(init, index, data);
            assert forall|i: int| 0 <= i < s.len() implies (#[trigger] s[i]).0 < last.0 by {
                assert(s.contains(s[i]));
                if s[i] != (index, data) {
                    let j = choose|j: int| 0 <= j < init.len() && init[j] == s[i];
                    assert(parts[j].0 < parts[parts.len() - 1].0);
                }
            }
            assert forall|x: (u64, Seq<u8>)| #[trigger] r.contains(x) implies x == (index, data)
                || parts.contains(x) by {
                let i = choose|i: int| 0 <= i < r.len() && r[i] == x;
                if i < s.len() {
                    assert(s.contains(x));
                    if x != (index, data) {
                        let j = choose|j: int| 0 <= j < init.len() && init[j] == x;
                        assert(parts[j] == x);
                    }
                }
            }
        }
    } else {
        assert forall|x: (u64, Seq<u8>)| #[trigger] r.contains(x) implies x == (index, data) by {
            let i = choose|i: int| 0 <= i < r.len() && r[i] == x;
        }
    }
}

/// Where all chunks have arrived, the `i`th is the one with index `i`.
pub proof fn lemma_all_parts(parts: Seq<(u64, Seq<u8>)>, total: u64)
    requires
        parts_ascend(parts),
        parts.len() == total,
        forall|i: int| 0 <= i < parts.len() ==> (#[trigger] parts[i]).0 < total,
    ensures
        forall|i: int| 0 <= i < parts.len() ==> (#[trigger] parts[i]).0 == i,
{
    assert forall|i: int| 0 <= i < parts.len() implies (#[trigger] parts[i]).0 == i by {
        lemma_at_least(parts, i);
        lemma_at_most(parts, total, i);
    }
}

proof fn lemma_at_least(parts: Seq<(u64, Seq<u8>)>, i: int)
    requires
        parts_ascend(parts),
        0 <= i < parts.len(),
    ensures
        parts[i].0 >= i,
    decreases i,
{
    if i > 0 {
        lemma_at_least(parts, i - 1);
        assert(parts[i - 1].0 < parts[i].0);
    }
}

proof fn lemma_at_most(parts: Seq<(u64, Seq<u8>)>, total: u64, i: int)
    requires
        parts_ascend(parts),
        parts.len() == total,
        forall|j: int| 0 <= j < parts.len() ==> (#[trigger] parts[j]).0 < total,
        0 <= i < parts.len(),
    ensures
        parts[i].0 <= i,
    decreases parts.len() - i,
{
    if i < parts.len() - 1 {
        lemma_at_most(parts, total, i + 1);
        assert(parts[i].0 < parts[i + 1].0);
    }
}

/// The data of chunks in order of index.
pub open spec fn fragments(parts: Seq<(u64, Seq<u8>)>) -> Seq<Seq<u8>> {
    parts.map_values(|p: (u64, Seq<u8>)| p.1)
}

/// Fragments joined in order.
pub open spec fn joined(fragments: Seq<Seq<u8>>) -> Seq<u8>
    decreases fragments.len(),
{
    if fragments.len() == 0 {
        Seq::empty()
    } else {
        joined(fragments.drop_last()) + fragments.last()
    }
}

proof fn lemma_joined_same(fragments: Seq<Seq<u8>>, entries: Seq<EntryView>)
    requires
        fragments.len() == entries.len(),
        forall|i: int| 0 <= i < entries.len() ==> fragments[i] == (#[trigger] entries[i]).data,
    ensures
        joined(fragments) == joined_data(entries),
    decreases entries.len(),
{
    if entries.len() > 0 {
        let f = fragments.drop_last();
        let e = entries.drop_last();
        assert forall|i: int| 0 <= i < e.len() implies f[i] == (#[trigger] e[i]).data by {
            assert(e[i] == entries[i]);
        }
        lemma_joined_same(f, e);
        assert(fragments[entries.len() - 1] == entries[entries.len() - 1].data);
    }
}

/// Chunks that have all arrived make up the value that was cut, in whatever
/// order they came.
pub proof fn law_assembled_value_is_the_one_sent(
    key: Seq<char>,
    generation: u64,
    value: Seq<u8>,
    max: nat,
    parts: Seq<(u64, Seq<u8>)>,
    total: u64,
)
    requires
        max > 0,
        total == chunk_count(value.len(), max),
        parts_ascend(parts),
        parts.len() == total,
        forall|i: int|
            0 <= i < parts.len() ==> (#[trigger] parts[i]).0 < total && parts[i].1 == chunk_data(
                value,
                max,
                parts[i].0 as int,
            ),
    ensures
        joined(fragments(parts)) == value,
{
    lemma_all_parts(parts, total);
    let all = chunks(key, generation, value, max);
    let f = fragments(parts);
    assert forall|i: int| 0 <= i < all.len() implies f[i] == (#[trigger] all[i]).data by {
        assert(parts[i].0 == i);
    }
    lemma_joined_same(f, all);
    super::chunking::law_chunks_make_up_the_value(key, generation, value, max);
}

/// What data say.
pub open spec fn datas(data: Seq<Bytes>) -> Seq<Seq<u8>> {
    data.map_values(|d: Bytes| contents(d))
}

struct Pending {
    generation: u64,
    total: u64,
    parts: Vec<(u64, Bytes)>,
}

spec fn parts_view(parts: Seq<(u64, Bytes)>) -> Seq<(u64, Seq<u8>)> {
    parts.map_values(|p: (u64, Bytes)| (p.0, contents(p.1)))
}

impl View for Pending {
    type V = PendingView;

    closed spec fn view(&self) -> PendingView {
        PendingView {
            generation: self.generation,
            total: self.total,
            parts: parts_view(self.parts@),
        }
    }
}

proof fn lemma_with_part_at(
    parts: Seq<(u64, Seq<u8>)>,
    index: u64,
    data: Seq<u8>,
    i: int,
)
    requires
        parts_ascend(parts),
        0 <= i <= parts.len(),
        i == 0 || parts[i - 1].0 <= index,
        forall|j: int| i <= j < parts.len() ==> index < (#[trigger] parts[j]).0,
    ensures
        with_part(parts, index, data) == (if i > 0 && parts[i - 1].0 == index {
            parts.update(i - 1, (index, data))
        } else {
            parts.insert(i, (index, data))
        }),
    decreases parts.len(),
{
    if i == parts.len() {
        if i > 0 && parts[i - 1].0 == index {
            assert(parts.drop_last().push((index, data)) =~= parts.update(i - 1, (index, data)));
        } else {
            assert(parts.insert(i, (index, data)) =~= parts.push((index, data)));
        }
    } else {
        let init = parts.drop_last();
        lemma_with_part_at(init, index, data, i);
        assert(parts[parts.len() - 1].0 > index);
        if i > 0 && parts[i - 1].0 == index {
            assert(parts.update(i - 1, (index, data)) =~= init.update(i - 1, (index, data)).push(
                parts.last(),
            ));
        } else {
            assert(parts.insert(i, (index, data)) =~= init.insert(i, (index, data)).push(
                parts.last(),
            ));
        }
    }
}

fn add_part(parts: &mut Vec<(u64, Bytes)>, index: u64, data: Bytes)
    requires
        parts_ascend(parts_view(old(parts)@)),
    ensures
        parts_view(final(parts)@) == with_part(
            parts_view(old(parts)@),
            index,
            contents(data),
        ),
{
    let ghost before = parts_view(parts@);
    let mut i: usize = parts.len();
    while i > 0 && index < parts[i - 1].0
        invariant
            i <= parts@.len(),
            before == parts_view(parts@),
            forall|j: int| i <= j < before.len() ==> index < (#[trigger] before[j]).0,
        decreases i,
    {
        i = i - 1;
        assert(before[i as int].0 == parts@[i as int].0);
    }
    proof {
        if i > 0 {
            assert(before[i - 1].0 == parts@[i - 1].0);
        }
        lemma_with_part_at(before, index, contents(data), i as int);
    }
    if i > 0 && parts[i - 1].0 == index {
        parts.set(i - 1, (index, data));
        assert(parts_view(parts@) =~= before.update(i - 1, (index, contents(data))));
    } else {
        parts.insert(i, (index, data));
        assert(parts_view(parts@) =~= before.insert(i as int, (index, contents(data))));
    }
}

fn take_data(parts: Vec<(u64, Bytes)>) -> (r: Vec<Bytes>)
    ensures
        datas(r@) == fragments(parts_view(parts@)),
{
    let ghost all = fragments(parts_view(parts@));
    let mut out: Vec<Bytes> = Vec::new();
    proof {
        assert(datas(out@) =~= all.take(0));
    }
    for p in it: parts.into_iter()
        invariant
            it.seq() == parts@,
            all == fragments(parts_view(parts@)),
            datas(out@) == all.take(it.index() as int),
    {
        let (_, data) = p;
        let ghost before = out@;
        let ghost c = contents(data);
        out.push(data);
        proof {
            assert(datas(out@) =~= datas(before).push(c));
            assert(all[it.index() as int] == c);
            assert(all.take(it.index() + 1) =~= all.take(it.index() as int).push(c));
        }
    }
    assert(all.take(all.len() as int) =~= all);
    out
}

/// The values whose chunks are still arriving, by sender and key.
pub struct ChunkAssembler {
    peers: KeyTable<KeyTable<Pending>>,
}

/// The values whose chunks are still arriving, by sender and key.
pub type Arriving = Map<(Seq<char>, Seq<char>), PendingView>;

impl View for ChunkAssembler {
    type V = Arriving;

    open spec fn view(&self) -> Arriving {
        Map::new(
            |at: (Seq<char>, Seq<char>)| self.pending(at.0, at.1) is Some,
            |at: (Seq<char>, Seq<char>)| self.pending(at.0, at.1).unwrap(),
        )
    }
}

impl ChunkAssembler {
    /// The chunks that have arrived from `peer` for `key`.
    pub closed spec fn pending(&self, peer: Seq<char>, key: Seq<char>) -> Option<PendingView> {
        match lookup(self.peers@, peer) {
            Some(table) => match lookup(table@, key) {
                Some(p) => Some(p@),
                None => None,
            },
            None => None,
        }
    }

    /// The tables are sound, and no value is complete.
    pub closed spec fn wf(&self) -> bool {
        &&& self.peers.wf()
        &&& forall|p: Seq<char>| #[trigger]
            self.peers@.contains_key(p) ==> self.peers@[p].wf() && forall|k: Seq<char>| #[trigger]
                self.peers@[p]@.contains_key(k) ==> pending_wf(self.peers@[p]@[k]@)
    }

    /// Nothing is arriving.
    pub fn new() -> (r: Self)
        ensures
            r.wf(),
            forall|p: Seq<char>, k: Seq<char>| #[trigger] r.pending(p, k) is None,
    {
        ChunkAssembler { peers: KeyTable::new() }
    }

    fn take_peer(&mut self, peer: &str) -> (r: KeyTable<Pending>)
        requires
            old(self).wf(),
        ensures
            final(self).wf(),
            r.wf(),
            forall|k: Seq<char>| #[trigger] r@.contains_key(k) ==> pending_wf(r@[k]@),
            forall|k: Seq<char>|
                (match lookup(r@, k) {
                    Some(p) => Some(p@),
                    None => None,
                }) == #[trigger] old(self).pending(peer@, k),
            final(self).peers@ == old(self).peers@.remove(peer@),
    {
        match self.peers.remove(peer) {
            Some(table) => table,
            None => KeyTable::new(),
        }
    }

    /// Forget what has arrived from `peer` for `key`.
    pub fn drop_pending(&mut self, peer: &str, key: &str)
        requires
            old(self).wf(),
        ensures
            final(self).wf(),
            forall|p: Seq<char>, k: Seq<char>|
                #[trigger] final(self).pending(p, k) == (if p == peer@ && k == key@ {
                    None
                } else {
                    old(self).pending(p, k)
                }),
    {
        let ghost before = *self;
        let mut table = self.take_peer(peer);
        let _ = table.remove(key);
        self.peers.insert(peer.to_owned(), table);
        proof {
            assert forall|p: Seq<char>, k: Seq<char>|
                #[trigger] self.pending(p, k) == (if p == peer@ && k == key@ {
                    None
                } else {
                    before.pending(p, k)
                }) by {
                assert(before.pending(peer@, k) == before.pending(peer@, k));
            }
        }
    }

    /// A chunk has arrived. Where it completes its value, the result is the data
    /// of all chunks in order, and nothing of the value is kept. A chunk whose
    /// index is not below the total is passed over.
    pub fn receive_chunk(
        &mut self,
        peer: &str,
        key: &str,
        generation: u64,
        chunk_index: u64,
        total_chunks: u64,
        data: Bytes,
    ) -> (r: Option<Vec<Bytes>>)
        requires
            old(self).wf(),
        ensures
            final(self).wf(),
            ({
                let parts = parts_after(
                    old(self).pending(peer@, key@),
                    generation,
                    chunk_index,
                    total_chunks,
                    contents(data),
                );
                if chunk_index >= total_chunks {
                    &&& r is None
                    &&& forall|p: Seq<char>, k: Seq<char>| #[trigger]
                        final(self).pending(p, k) == old(self).pending(p, k)
                } else if parts.len() == total_chunks {
                    &&& r matches Some(d) && datas(d@) == fragments(parts)
                    &&& forall|p: Seq<char>, k: Seq<char>| #[trigger]
                        final(self).pending(p, k) == (if p == peer@ && k == key@ {
                            None
                        } else {
                            old(self).pending(p, k)
                        })
                } else {
                    &&& r is None
                    &&& forall|p: Seq<char>, k: Seq<char>| #[trigger]
                        final(self).pending(p, k) == (if p == peer@ && k == key@ {
                            Some(PendingView { generation, total: total_chunks, parts })
                        } else {
                            old(self).pending(p, k)
                        })
                }
            }),
    {
        if chunk_index >= total_chunks {
            return None;
        }
        let ghost before = *self;
        let ghost payload = contents(data);
        let ghost prior = self.pending(peer@, key@);
        let ghost parts = parts_after(prior, generation, chunk_index, total_chunks, payload);
        let mut table = self.take_peer(peer);
        let ghost rest = table@;
        let found = table.remove(key);
        proof {
            assert(before.pending(peer@, key@) == (match lookup(rest, key@) {
                Some(p) => Some(p@),
                None => None,
            }));
        }
        let mut held: Vec<(u64, Bytes)> = Vec::new();
        let ghost mut continues = false;
        if let Some(p) = found {
            if p.generation == generation && p.total == total_chunks {
                held = p.parts;
                proof {
                    continues = true;
                    lemma_with_part(p@.parts, chunk_index, payload);
                }
            }
        }
        proof {
            if !continues {
                assert(parts_view(held@) =~= Seq::<(u64, Seq<u8>)>::empty());
                assert(with_part(parts_view(held@), chunk_index, payload) =~= seq![
                    (chunk_index, payload),
                ]);
            }
        }
        add_part(&mut held, chunk_index, data);
        proof {
            assert(parts_view(held@) == parts);
            assert(held@.len() == parts.len());
            assert(parts_ascend(parts));
            assert forall|i: int| 0 <= i < parts.len() implies (#[trigger] parts[i]).0
                < total_chunks by {
                assert(parts.contains(parts[i]));
                if continues && parts[i] != (chunk_index, payload) {
                    let old_parts = prior.unwrap().parts;
                    let j = choose|j: int| 0 <= j < old_parts.len() && old_parts[j] == parts[i];
                    assert(old_parts[j].0 < total_chunks);
                }
            }
            if parts.len() > total_chunks {
                lemma_at_least(parts, parts.len() - 1);
            }
        }
        let complete = held.len() as u64 == total_chunks;
        if complete {
            self.peers.insert(peer.to_owned(), table);
            proof {
                assert forall|p: Seq<char>, k: Seq<char>| #[trigger]
                    self.pending(p, k) == (if p == peer@ && k == key@ {
                        None
                    } else {
                        before.pending(p, k)
                    }) by {
                    assert(before.pending(peer@, k) == before.pending(peer@, k));
                }
            }
            Some(take_data(held))
        } else {
            let entry = Pending { generation, total: total_chunks, parts: held };
            let ghost entry_view = entry@;
            table.insert(key.to_owned(), entry);
            proof {
                assert(pending_wf(entry_view));
            }
            self.peers.insert(peer.to_owned(), table);
            proof {
                assert forall|p: Seq<char>, k: Seq<char>| #[trigger]
                    self.pending(p, k) == (if p == peer@ && k == key@ {
                        Some(PendingView { generation, total: total_chunks, parts })
                    } else {
                        before.pending(p, k)
                    }) by {
                    assert(before.pending(peer@, k) == before.pending(peer@, k));
                }
            }
            None
        }
    }
}

} // verus!
