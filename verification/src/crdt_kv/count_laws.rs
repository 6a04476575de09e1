//! Which count of a rate-limit shard wins, in plain numbers.
use super::engine::any::{after_merge, fresh_engine, live_value, Core, MergeStrategy};
use super::engine::rate_limit::{rl_apply_all, RlState};
use super::engine::rate_limit_laws::{known, law_knowledge_adds_up};
use super::epoch_max_wins::{
    after, canonical, count_bits, folded, later, latest_cut, law_fold_preserves,
    law_shard_round_trip, law_summary_is_frontier, lemma_first_point_is_largest,
    lemma_frontier_covers, lemma_latest_cut, lemma_merged_valid, lemma_summary_valid, lemma_valid,
    live_bytes, merged, op_says, payload_count, point_from, points_from, said, said_points,
    says_anything, shard_from, stairs, summary, valid, value_bytes, value_from, version_from,
    EpochCount, LivePoint, RlView,
};
use super::operation::{group_of, lemma_group_members, lemma_sort_ops, sort_ops, OpView};
use super::order_laws::{law_versions_are_ordered_by_number, older};
use super::replica::Version;
use vstd::bytes::*;
use vstd::prelude::*;

verus! {

/// The epoch decides, and where epochs are equal the count.
pub open spec fn smaller(a: EpochCount, b: EpochCount) -> bool {
    a.epoch < b.epoch || (a.epoch == b.epoch && a.count < b.count)
}

/// Counts are ordered by epoch, and by count where epochs are equal.
pub proof fn law_counts_are_ordered_by_number(a: EpochCount, b: EpochCount)
    ensures
        a.below(b) <==> smaller(a, b),
{
}

/// Sixteen bytes that spell a count: the epoch in the first eight, the lowest byte
/// first, and the count in the last eight, as a number in two's complement.
pub open spec fn spells_count(bytes: Seq<u8>, c: EpochCount) -> bool {
    &&& bytes.len() == 16
    &&& c.epoch == spec_u64_from_le_bytes(bytes.subrange(0, 8))
    &&& c.count == spec_u64_from_le_bytes(bytes.subrange(8, 16)) || c.count
        == spec_u64_from_le_bytes(bytes.subrange(8, 16)) - 0x1_0000_0000_0000_0000
}

/// A plain count is written and read as its epoch and its count.
pub proof fn law_plain_count_is_spelled(bytes: Seq<u8>, c: EpochCount)
    ensures
        spells_count(value_bytes(c), c),
        spells_count(bytes, c) ==> value_from(bytes) == c && payload_count(bytes) == Some(c),
        bytes.len() == 16 ==> spells_count(bytes, value_from(bytes)) && payload_count(bytes)
            == Some(value_from(bytes)),
{
    lemma_auto_spec_u64_to_from_le_bytes();
    let b = value_bytes(c);
    assert(b.subrange(0, 8) =~= spec_u64_to_le_bytes(c.epoch));
    assert(b.subrange(8, 16) =~= spec_u64_to_le_bytes(count_bits(c.count)));
}

/// A point is behind a cut where the cut is older.
pub open spec fn is_behind(version: Version, cut: Option<Version>) -> bool {
    cut is Some ==> older(cut->0, version)
}

/// The count that readers of a key find in the bytes they are given.
pub open spec fn count_read(bytes: Option<Seq<u8>>) -> Option<EpochCount> {
    match bytes {
        Some(b) => payload_count(b),
        None => None,
    }
}

/// Readers find the largest count of the points that are kept.
pub proof fn lemma_largest_is_read(v: RlView)
    requires
        valid(v),
    ensures
        v.points.is_empty() ==> live_bytes(v) is None,
        !v.points.is_empty() ==> live_bytes(v) is Some && count_read(live_bytes(v)) is Some,
        forall|p: LivePoint| #[trigger]
            v.points.contains(p) ==> live_bytes(v) is Some && count_read(live_bytes(v)) is Some
                && !smaller(count_read(live_bytes(v))->0, p.value),
        count_read(live_bytes(v)) matches Some(c) ==> exists|p: LivePoint| #[trigger]
            v.points.contains(p) && p.value == c,
{
    lemma_valid(v);
    let s = stairs(v.points);
    if v.points.is_empty() {
        assert(v.points =~= Set::empty());
    } else {
        let x = v.points.choose();
        assert(v.points.contains(x));
        law_shard_round_trip(s, v.tombstone);
        lemma_first_point_is_largest(s);
        assert(s.to_set().contains(s[0]));
        assert forall|p: LivePoint| #[trigger] v.points.contains(p) implies !smaller(
            s[0].value,
            p.value,
        ) by {
            assert(s.to_set().contains(p));
            let i = choose|i: int| 0 <= i < s.len() && s[i] == p;
            assert(!s[0].value.below(s[i].value));
        }
    }
}

/// What two replicas know of a key together is read as the largest count, by epoch
/// and then by count, of the points that neither has cut off, and as nothing where
/// there is no such point.
pub proof fn law_largest_count_wins(a: RlView, b: RlView)
    requires
        valid(a),
        valid(b),
    ensures
        ({
            let bytes = live_bytes(merged(a, b));
            let open = |p: LivePoint|
                (a.points.contains(p) || b.points.contains(p)) && is_behind(p.version, a.tombstone)
                    && is_behind(p.version, b.tombstone);
            &&& forall|p: LivePoint| #[trigger]
                open(p) ==> bytes is Some && count_read(bytes) is Some && !smaller(
                    count_read(bytes)->0,
                    p.value,
                )
            &&& bytes is Some ==> exists|p: LivePoint| #[trigger]
                open(p) && count_read(bytes) == Some(p.value)
        }),
{
    let m = merged(a, b);
    let bytes = live_bytes(m);
    let all = a.points.union(b.points);
    let open = |p: LivePoint|
        (a.points.contains(p) || b.points.contains(p)) && is_behind(p.version, a.tombstone)
            && is_behind(p.version, b.tombstone);
    lemma_valid(a);
    lemma_valid(b);
    lemma_merged_valid(a, b);
    lemma_largest_is_read(m);
    assert forall|p: LivePoint| #[trigger] open(p) implies bytes is Some && count_read(bytes) is Some
        && !smaller(count_read(bytes)->0, p.value) by {
        let q = lemma_frontier_covers(all, m.tombstone, p);
        assert(m.points.contains(q));
    }
    if bytes is Some {
        let p = choose|p: LivePoint| #[trigger]
            m.points.contains(p) && Some(p.value) == count_read(bytes);
        assert(open(p));
    }
}

/// The operation is a put on the key whose bytes spell `c`.
pub open spec fn puts_count(op: OpView, key: Seq<char>, c: EpochCount) -> bool {
    op.key == key && op.value is Some && spells_count(op.value->0, c)
}

/// Every remove of the key is older than the version.
pub open spec fn behind_removes(ops: Seq<OpView>, key: Seq<char>, version: Version) -> bool {
    forall|i: int|
        0 <= i < ops.len() && (#[trigger] ops[i]).key == key && ops[i].value is None ==> older(
            ops[i].version,
            version,
        )
}

/// Operations on the key are removes or puts of plain counts.
pub open spec fn counts_only(ops: Seq<OpView>, key: Seq<char>) -> bool {
    forall|i: int|
        0 <= i < ops.len() && (#[trigger] ops[i]).key == key && ops[i].value is Some ==> ops[i]
            .value->0.len() == 16
}

proof fn lemma_said(ops: Seq<OpView>, key: Seq<char>, p: LivePoint)
    requires
        counts_only(ops, key),
    ensures
        said(group_of(ops, key), p) <==> exists|i: int|
            0 <= i < ops.len() && puts_count(#[trigger] ops[i], key, p.value) && ops[i].version
                == p.version,
        after(p.version, latest_cut(group_of(ops, key))) <==> behind_removes(ops, key, p.version),
{
    let group = group_of(ops, key);
    lemma_group_members(ops, key);
    lemma_latest_cut(group);
    assert forall|i: int| 0 <= i < group.len() implies ops.contains(#[trigger] group[i])
        && group[i].key == key by {
        assert(group.contains(group[i]));
    }
    if said(group, p) {
        let j = choose|j: int|
            0 <= j < group.len() && (op_says(#[trigger] group[j]) matches Some(v)
                && v.points.contains(p));
        let i = choose|i: int| 0 <= i < ops.len() && ops[i] == group[j];
        assert(ops[i].key == key);
        law_plain_count_is_spelled(ops[i].value->0, p.value);
        assert(puts_count(ops[i], key, p.value));
    }
    if exists|i: int|
        0 <= i < ops.len() && puts_count(#[trigger] ops[i], key, p.value) && ops[i].version
            == p.version {
        let i = choose|i: int|
            0 <= i < ops.len() && puts_count(#[trigger] ops[i], key, p.value) && ops[i].version
                == p.version;
        assert(ops.contains(ops[i]));
        assert(group.contains(ops[i]));
        let j = choose|j: int| 0 <= j < group.len() && group[j] == ops[i];
        law_plain_count_is_spelled(ops[i].value->0, p.value);
        assert(op_says(group[j]) matches Some(v) && v.points.contains(p));
    }
    if after(p.version, latest_cut(group)) {
        assert forall|i: int|
            0 <= i < ops.len() && (#[trigger] ops[i]).key == key && ops[i].value is None implies older(
            ops[i].version,
            p.version,
        ) by {
            assert(ops.contains(ops[i]));
            assert(group.contains(ops[i]));
            let j = choose|j: int| 0 <= j < group.len() && group[j] == ops[i];
            assert(op_says(group[j]) is Some);
        }
    }
    if behind_removes(ops, key, p.version) {
        if let Some(t) = latest_cut(group) {
            let j = choose|j: int|
                0 <= j < group.len() && (op_says(#[trigger] group[j]) matches Some(v)
                    && v.tombstone == Some(t));
            let i = choose|i: int| 0 <= i < ops.len() && ops[i] == group[j];
            assert(ops[i].key == key);
        }
    }
}

/// What is read of a key after puts of plain counts and removes: the largest count, by
/// epoch and then by count, of the puts that every remove is older than, and nothing
/// where there is no such put.
pub open spec fn reads_largest(
    ops: Seq<OpView>,
    key: Seq<char>,
    bytes: Option<Seq<u8>>,
) -> bool {
    &&& forall|i: int, c: EpochCount|
        0 <= i < ops.len() && #[trigger] puts_count(ops[i], key, c) && behind_removes(
            ops,
            key,
            ops[i].version,
        ) ==> bytes is Some && count_read(bytes) is Some && !smaller(count_read(bytes)->0, c)
    &&& bytes is Some ==> exists|i: int|
        0 <= i < ops.len() && (count_read(bytes) matches Some(c) && puts_count(
            #[trigger] ops[i],
            key,
            c,
        )) && behind_removes(ops, key, ops[i].version)
}

proof fn lemma_reads_largest(ops: Seq<OpView>, key: Seq<char>, bytes: Option<Seq<u8>>)
    requires
        counts_only(ops, key),
        bytes == (match summary(group_of(ops, key)) {
            Some(v) => live_bytes(v),
            None => None,
        }),
    ensures
        reads_largest(ops, key, bytes),
{
    let group = group_of(ops, key);
    lemma_summary_valid(group);
    law_summary_is_frontier(group);
    if let Some(v) = summary(group) {
        lemma_largest_is_read(v);
    }
    assert forall|i: int, c: EpochCount|
        0 <= i < ops.len() && #[trigger] puts_count(ops[i], key, c) && behind_removes(
            ops,
            key,
            ops[i].version,
        ) implies bytes is Some && count_read(bytes) is Some && !smaller(count_read(bytes)->0, c) by {
        let p = LivePoint { version: ops[i].version, value: c };
        lemma_said(ops, key, p);
        assert(said_points(group).contains(p));
        assert(says_anything(group));
        let v = summary(group)->0;
        let q = lemma_frontier_covers(said_points(group), latest_cut(group), p);
        assert(v.points.contains(q));
    }
    if bytes is Some {
        let v = summary(group)->0;
        let p = choose|p: LivePoint| #[trigger]
            v.points.contains(p) && Some(p.value) == count_read(bytes);
        lemma_said(ops, key, p);
        assert(said(group, p));
        let i = choose|i: int|
            0 <= i < ops.len() && puts_count(#[trigger] ops[i], key, p.value) && ops[i].version
                == p.version;
        assert(behind_removes(ops, key, ops[i].version));
    }
}

proof fn lemma_same_operations(
    a: Seq<OpView>,
    b: Seq<OpView>,
    key: Seq<char>,
    bytes: Option<Seq<u8>>,
)
    requires
        forall|op: OpView| a.contains(op) <==> b.contains(op),
        reads_largest(a, key, bytes),
    ensures
        reads_largest(b, key, bytes),
{
    assert forall|v: Version| behind_removes(a, key, v) <==> behind_removes(b, key, v) by {
        lemma_same_removes(a, b, key, v);
        lemma_same_removes(b, a, key, v);
    }
    assert forall|i: int, c: EpochCount|
        0 <= i < b.len() && #[trigger] puts_count(b[i], key, c) && behind_removes(
            b,
            key,
            b[i].version,
        ) implies bytes is Some && count_read(bytes) is Some && !smaller(count_read(bytes)->0, c) by {
        assert(b.contains(b[i]));
        let j = choose|j: int| 0 <= j < a.len() && a[j] == b[i];
        assert(puts_count(a[j], key, c));
    }
    if bytes is Some {
        let j = choose|j: int|
            0 <= j < a.len() && (count_read(bytes) matches Some(c) && puts_count(
                #[trigger] a[j],
                key,
                c,
            )) && behind_removes(a, key, a[j].version);
        assert(a.contains(a[j]));
        let i = choose|i: int| 0 <= i < b.len() && b[i] == a[j];
        assert(behind_removes(b, key, b[i].version));
    }
}

/// A replica that knows nothing reads the largest count after a merge. The order of
/// the operations and the versions of the puts make no difference.
pub proof fn law_largest_count_of_the_puts_wins(ops: Seq<OpView>, key: Seq<char>, now: u128)
    requires
        counts_only(ops, key),
    ensures
        reads_largest(
            ops,
            key,
            live_value(after_merge(fresh_engine(MergeStrategy::EpochMaxWins), ops, now), key),
        ),
{
    let none = Seq::<OpView>::empty();
    law_largest_count_after_two_merges(none, ops, key, now, now);
    assert(none + ops =~= ops);
    let e = fresh_engine(MergeStrategy::EpochMaxWins);
    lemma_sort_ops(none);
    assert(after_merge(e, none, now) == e);
}

/// It makes no difference whether operations are merged at once or one part after the
/// other: nothing is forgotten that a later remove may leave as the largest count.
pub proof fn law_largest_count_after_two_merges(
    a: Seq<OpView>,
    b: Seq<OpView>,
    key: Seq<char>,
    first: u128,
    second: u128,
)
    requires
        counts_only(a + b, key),
    ensures
        reads_largest(
            a + b,
            key,
            live_value(
                after_merge(
                    after_merge(fresh_engine(MergeStrategy::EpochMaxWins), a, first),
                    b,
                    second,
                ),
                key,
            ),
        ),
{
    let e = fresh_engine(MergeStrategy::EpochMaxWins);
    let s = e.core->RateLimit_0;
    let x = sort_ops(a);
    let y = sort_ops(b);
    lemma_sort_ops(a);
    lemma_sort_ops(b);
    let mid = rl_apply_all(s, x, first);
    let t = rl_apply_all(mid, y, second);
    law_knowledge_adds_up(s, x, first, key);
    law_knowledge_adds_up(mid, y, second, key);
    let e1 = after_merge(e, a, first);
    assert(e1.core == Core::RateLimit(mid));
    let e2 = after_merge(e1, b, second);
    assert(e2.core == Core::RateLimit(t));
    let bytes = live_value(e2, key);
    let both = x + y;
    lemma_apply_join(s, x, y, first);
    let at_once = rl_apply_all(rl_apply_all(s, x, first), y, first);
    law_knowledge_adds_up(s, both, first, key);
    law_knowledge_adds_up(rl_apply_all(s, x, first), y, first, key);
    assert(known(t, key) == known(at_once, key));
    assert(known(at_once, key) == summary(group_of(both, key)));
    let all = a + b;
    assert forall|op: OpView| both.contains(op) <==> all.contains(op) by {
        lemma_in_either(x, y, op);
        lemma_in_either(a, b, op);
        assert(x.contains(op) <==> a.contains(op));
        assert(y.contains(op) <==> b.contains(op));
    }
    assert forall|i: int|
        0 <= i < both.len() && (#[trigger] both[i]).key == key
            && both[i].value is Some implies both[i].value->0.len() == 16 by {
        assert(both.contains(both[i]));
        let j = choose|j: int| 0 <= j < all.len() && all[j] == both[i];
        assert(all[j].key == key);
    }
    lemma_reads_largest(both, key, bytes);
    lemma_same_operations(both, all, key, bytes);
}

/// Applying operations in two parts is applying them at once.
pub proof fn lemma_apply_join(s: RlState, a: Seq<OpView>, b: Seq<OpView>, now: u128)
    ensures
        rl_apply_all(s, a + b, now) == rl_apply_all(rl_apply_all(s, a, now), b, now),
    decreases b.len(),
{
    if b.len() == 0 {
        assert(a + b =~= a);
    } else {
        lemma_apply_join(s, a, b.drop_last(), now);
        assert((a + b).drop_last() =~= a + b.drop_last());
        assert((a + b).last() == b.last());
    }
}

proof fn lemma_in_either(a: Seq<OpView>, b: Seq<OpView>, op: OpView)
    ensures
        (a + b).contains(op) <==> a.contains(op) || b.contains(op),
{
    let all = a + b;
    if all.contains(op) {
        let i = choose|i: int| 0 <= i < all.len() && all[i] == op;
        if i < a.len() {
            assert(a[i] == op);
        } else {
            assert(b[i - a.len()] == op);
        }
    }
    if a.contains(op) {
        let i = choose|i: int| 0 <= i < a.len() && a[i] == op;
        assert(all[i] == op);
    }
    if b.contains(op) {
        let i = choose|i: int| 0 <= i < b.len() && b[i] == op;
        assert(all[a.len() + i] == op);
    }
}

proof fn lemma_same_removes(a: Seq<OpView>, b: Seq<OpView>, key: Seq<char>, v: Version)
    requires
        forall|op: OpView| b.contains(op) ==> a.contains(op),
    ensures
        behind_removes(a, key, v) ==> behind_removes(b, key, v),
{
    if behind_removes(a, key, v) {
        assert forall|i: int|
            0 <= i < b.len() && (#[trigger] b[i]).key == key && b[i].value is None implies older(
            b[i].version,
            v,
        ) by {
            assert(b.contains(b[i]));
            let j = choose|j: int| 0 <= j < a.len() && a[j] == b[i];
            assert(a[j].key == key);
        }
    }
}

// ---- Shards in bytes ----

/// Forty bytes that spell a point: the timestamp, the number of the replica and the
/// count, the lowest bytes first.
pub open spec fn spells_point(bytes: Seq<u8>, p: LivePoint) -> bool {
    &&& bytes.len() == 40
    &&& p.version.timestamp == spec_u64_from_le_bytes(bytes.subrange(0, 8))
    &&& p.version.replica_id.bits == spec_u128_from_le_bytes(bytes.subrange(8, 24))
    &&& spells_count(bytes.subrange(24, 40), p.value)
}

/// Bytes that spell a shard: a tag, the cut where there is one, and the points, the
/// older and larger before the newer and smaller, each newer than the cut.
pub open spec fn is_shard(
    bytes: Seq<u8>,
    points: Seq<LivePoint>,
    cut: Option<Version>,
) -> bool {
    let base = if cut is Some {
        25int
    } else {
        1int
    };
    &&& bytes.len() == base + 40 * points.len()
    &&& bytes[0] == (if cut is Some {
        2u8
    } else {
        1u8
    })
    &&& cut matches Some(v) ==> v.timestamp == spec_u64_from_le_bytes(bytes.subrange(1, 9))
        && v.replica_id.bits == spec_u128_from_le_bytes(bytes.subrange(9, 25))
    &&& forall|i: int|
        0 <= i < points.len() ==> spells_point(
            bytes.subrange(base + 40 * i, base + 40 * i + 40),
            #[trigger] points[i],
        )
    &&& forall|i: int, j: int|
        0 <= i < j < points.len() ==> older(
            (#[trigger] points[i]).version,
            (#[trigger] points[j]).version,
        ) && smaller(points[j].value, points[i].value)
    &&& forall|i: int| 0 <= i < points.len() ==> is_behind((#[trigger] points[i]).version, cut)
    &&& points.len() > 0 || cut is Some
}

proof fn lemma_point(bytes: Seq<u8>, p: LivePoint)
    requires
        bytes.len() == 40,
    ensures
        spells_point(bytes, p) <==> p == point_from(bytes),
{
    let v = bytes.subrange(24, 40);
    law_plain_count_is_spelled(v, p.value);
    let w = bytes.subrange(0, 24);
    assert(w.subrange(0, 8) =~= bytes.subrange(0, 8));
    assert(w.subrange(8, 24) =~= bytes.subrange(8, 24));
    law_versions_are_ordered_by_number(p.version, point_from(bytes).version);
}

/// Bytes are read as a shard exactly where they spell one, and as the one they spell.
pub proof fn law_shard_is_read_as_spelled(
    bytes: Seq<u8>,
    points: Seq<LivePoint>,
    cut: Option<Version>,
)
    ensures
        shard_from(bytes) == Some((points, cut)) <==> is_shard(bytes, points, cut),
{
    let base = if cut is Some {
        25int
    } else {
        1int
    };
    let n = points.len() as int;
    if bytes.len() >= 25 {
        let v = bytes.subrange(1, 25);
        assert(v.subrange(0, 8) =~= bytes.subrange(1, 9));
        assert(v.subrange(8, 24) =~= bytes.subrange(9, 25));
        if let Some(c) = cut {
            law_versions_are_ordered_by_number(c, version_from(v));
        }
    }
    let read = points_from(bytes, base);
    if bytes.len() == base + 40 * n {
        assert((bytes.len() - base) / 40 == n);
        assert((bytes.len() - base) % 40 == 0);
        assert forall|i: int| 0 <= i < n implies (spells_point(
            bytes.subrange(base + 40 * i, base + 40 * i + 40),
            #[trigger] points[i],
        ) <==> points[i] == read[i]) by {
            lemma_point(bytes.subrange(base + 40 * i, base + 40 * i + 40), points[i]);
        }
    }
    if is_shard(bytes, points, cut) {
        assert(read =~= points);
        assert forall|i: int, j: int| 0 <= i < j < points.len() implies (
        #[trigger] points[i]).version.before((#[trigger] points[j]).version)
            && points[j].value.below(points[i].value) by {
            assert(older(points[i].version, points[j].version));
        }
        assert forall|i: int| 0 <= i < points.len() implies after(
            (#[trigger] points[i]).version,
            cut,
        ) by {
            assert(is_behind(points[i].version, cut));
        }
        assert(canonical(points, cut));
    }
    if shard_from(bytes) == Some((points, cut)) {
        assert(points == read);
        assert(canonical(points, cut));
        assert(bytes.len() == base + 40 * n);
        assert forall|i: int, j: int| 0 <= i < j < points.len() implies older(
            (#[trigger] points[i]).version,
            (#[trigger] points[j]).version,
        ) && smaller(points[j].value, points[i].value) by {
            assert(points[i].version.before(points[j].version));
        }
        assert forall|i: int| 0 <= i < points.len() implies is_behind(
            (#[trigger] points[i]).version,
            cut,
        ) by {
            assert(after(points[i].version, cut));
        }
        assert forall|i: int| 0 <= i < n implies spells_point(
            bytes.subrange(base + 40 * i, base + 40 * i + 40),
            #[trigger] points[i],
        ) by {
            assert(points[i] == read[i]);
        }
    }
}

/// What readers of a key are given spells the points that are known of it and its cut.
pub proof fn law_readers_are_given_a_shard(v: RlView)
    requires
        valid(v),
        !v.points.is_empty(),
    ensures
        live_bytes(v) is Some,
        exists|points: Seq<LivePoint>| #[trigger]
            is_shard(live_bytes(v)->0, points, v.tombstone) && points.to_set() == v.points,
{
    lemma_valid(v);
    lemma_largest_is_read(v);
    let points = stairs(v.points);
    law_shard_round_trip(points, v.tombstone);
    law_shard_is_read_as_spelled(live_bytes(v)->0, points, v.tombstone);
    assert(is_shard(live_bytes(v)->0, points, v.tombstone));
}

/// A put says one point where its bytes spell a plain count, what a shard says where
/// they spell one, and else nothing. A remove says a cut.
pub proof fn law_what_an_operation_says(
    op: OpView,
    c: EpochCount,
    points: Seq<LivePoint>,
    cut: Option<Version>,
)
    ensures
        op.value is None ==> op_says(op) == Some(
            RlView { points: Set::empty(), tombstone: Some(op.version) },
        ),
        op.value is Some && spells_count(op.value->0, c) ==> op_says(op) is Some
            && op_says(op)->0.tombstone is None && (forall|p: LivePoint|
            op_says(op)->0.points.contains(p) <==> p == (LivePoint {
                version: op.version,
                value: c,
            })),
        op.value is Some && op.value->0.len() != 16 && is_shard(op.value->0, points, cut)
            ==> op_says(op) == Some(RlView { points: points.to_set(), tombstone: cut }),
        op.value is Some && op.value->0.len() != 16 && (forall|q: Seq<LivePoint>, d: Option<Version>|
            !#[trigger] is_shard(op.value->0, q, d)) ==> op_says(op) is None,
{
    if let Some(value) = op.value {
        law_plain_count_is_spelled(value, c);
        law_shard_is_read_as_spelled(value, points, cut);
        if let Some((q, d)) = shard_from(value) {
            law_shard_is_read_as_spelled(value, q, d);
        }
    }
}

/// The operation that operations on a key are folded into says what they say together.
/// It has the version of the newest point that is left, or of the cut where none is.
pub proof fn law_folded_operation(ops: Seq<OpView>)
    ensures
        folded(ops) is Some <==> summary(ops) is Some,
        folded(ops) matches Some(op) ==> {
            let v = summary(ops)->0;
            &&& op.key == ops[0].key
            &&& op_says(op) == Some(v)
            &&& op.value is None <==> v.points.is_empty()
            &&& v.points.is_empty() ==> v.tombstone == Some(op.version)
            &&& !v.points.is_empty() ==> exists|p: LivePoint| #[trigger]
                v.points.contains(p) && p.version == op.version
            &&& forall|p: LivePoint| #[trigger]
                v.points.contains(p) ==> !older(op.version, p.version)
        },
{
    law_fold_preserves(ops);
    if let Some(v) = summary(ops) {
        lemma_summary_valid(ops);
        lemma_valid(v);
        lemma_largest_is_read(v);
        let s = stairs(v.points);
        if !v.points.is_empty() {
            let x = v.points.choose();
            assert(v.points.contains(x));
            assert(s.to_set().contains(s.last()));
            assert forall|p: LivePoint| #[trigger] v.points.contains(p) implies !older(
                s.last().version,
                p.version,
            ) by {
                assert(s.to_set().contains(p));
                let i = choose|i: int| 0 <= i < s.len() && s[i] == p;
                if i < s.len() - 1 {
                    assert(s[i].version.before(s[s.len() - 1].version));
                }
            }
        } else {
            assert(v.points =~= Set::<LivePoint>::empty());
        }
    }
}

} // verus!
