//! Rate-limit shards.
//!
//! A shard counts requests within an epoch. Replicas write it concurrently, and
//! the largest count of the newest epoch wins, whenever it was written. A remove
//! cuts history: what was written up to the remove is gone, what was written
//! after it stays. So a shard keeps every point of its history that may still
//! come to be the winner, once some later remove has cut the others off: the
//! points that no other point exceeds both in version and in value.
use super::operation::{ops_view, opt_op, OpView, Operation};
use super::replica::{ReplicaId, Version};
use crate::text::opt_bytes;
use vstd::bytes::*;
use vstd::prelude::*;
use vstd::slice::slice_subrange;

verus! {

/// The version of a point or a remove.
pub type RateLimitVersion = Version;

/// A count within an epoch.
#[derive(Debug, Clone, Copy, PartialEq, Eq, Structural)]
pub struct EpochCount {
    pub epoch: u64,
    pub count: i64,
}

impl EpochCount {
    /// A newer epoch is larger, and within an epoch the larger count.
    pub open spec fn below(self, other: EpochCount) -> bool {
        ||| self.epoch < other.epoch
        ||| (self.epoch == other.epoch && self.count < other.count)
    }

    /// Whether this is smaller than `other`.
    pub fn is_below(&self, other: &EpochCount) -> (r: bool)
        ensures
            r == self.below(*other),
    {
        self.epoch < other.epoch || (self.epoch == other.epoch && self.count < other.count)
    }
}

/// A count and the version at which it was written.
#[derive(Debug, Clone, Copy, PartialEq, Eq, Structural)]
pub struct LivePoint {
    pub version: Version,
    pub value: EpochCount,
}

/// `q` is at least as new and at least as large as `p`.
pub open spec fn dominates(q: LivePoint, p: LivePoint) -> bool {
    !q.version.before(p.version) && !q.value.below(p.value)
}

/// `version` lies behind the cut at `tombstone`.
pub open spec fn after(version: Version, tombstone: Option<Version>) -> bool {
    match tombstone {
        Some(t) => t.before(version),
        None => true,
    }
}

/// The later of two cuts.
pub open spec fn later(a: Option<Version>, b: Option<Version>) -> Option<Version> {
    match (a, b) {
        (Some(x), Some(y)) => Some(
            if x.before(y) {
                y
            } else {
                x
            },
        ),
        (Some(x), None) => Some(x),
        (None, y) => y,
    }
}

/// No other point of `all` dominates `p`.
pub open spec fn undominated(all: Set<LivePoint>, p: LivePoint) -> bool {
    forall|q: LivePoint| #[trigger] all.contains(q) && dominates(q, p) ==> q == p
}

/// The points behind the cut that no other point dominates.
pub open spec fn frontier(all: Set<LivePoint>, tombstone: Option<Version>) -> Set<LivePoint> {
    all.filter(|p: LivePoint| after(p.version, tombstone) && undominated(all, p))
}

/// What is known of a key: the points that may still win, and the latest cut.
#[verifier::ext_equal]
pub struct RlView {
    pub points: Set<LivePoint>,
    pub tombstone: Option<Version>,
}

/// What two replicas know together.
pub open spec fn merged(a: RlView, b: RlView) -> RlView {
    let tombstone = later(a.tombstone, b.tombstone);
    RlView { points: frontier(a.points.union(b.points), tombstone), tombstone }
}

/// Points in ascending order of version and descending order of value.
pub open spec fn staircase(points: Seq<LivePoint>) -> bool {
    forall|i: int, j: int|
        0 <= i < j < points.len() ==> (#[trigger] points[i]).version.before(
            (#[trigger] points[j]).version,
        ) && points[j].value.below(points[i].value)
}

/// Every point lies behind the cut.
pub open spec fn all_after(points: Seq<LivePoint>, tombstone: Option<Version>) -> bool {
    forall|i: int| 0 <= i < points.len() ==> after((#[trigger] points[i]).version, tombstone)
}

/// The points of a set in order.
pub open spec fn stairs(points: Set<LivePoint>) -> Seq<LivePoint> {
    choose|s: Seq<LivePoint>| staircase(s) && s.to_set() == points
}

/// The canonical form of what a shard knows.
pub open spec fn canonical(points: Seq<LivePoint>, tombstone: Option<Version>) -> bool {
    &&& staircase(points)
    &&& all_after(points, tombstone)
    &&& points.len() > 0 || tombstone is Some
}

/// What a key's entry can be: some canonical form spells it.
pub open spec fn valid(v: RlView) -> bool {
    exists|s: Seq<LivePoint>| #[trigger] canonical(s, v.tombstone) && s.to_set() == v.points
}

/// A set of points has one canonical order.
pub proof fn lemma_stairs_unique(a: Seq<LivePoint>, b: Seq<LivePoint>)
    requires
        staircase(a),
        staircase(b),
        a.to_set() == b.to_set(),
    ensures
        a == b,
        stairs(a.to_set()) == a,
{
    lemma_same_stairs(a, b);
    let s = stairs(a.to_set());
    assert(staircase(s) && s.to_set() == a.to_set());
    lemma_same_stairs(a, s);
}

proof fn lemma_same_stairs(a: Seq<LivePoint>, b: Seq<LivePoint>)
    requires
        staircase(a),
        staircase(b),
        a.to_set() == b.to_set(),
    ensures
        a == b,
    decreases a.len(),
{
    assert forall|p: LivePoint| a.contains(p) <==> b.contains(p) by {
        assert(a.to_set().contains(p) <==> a.contains(p));
        assert(b.to_set().contains(p) <==> b.contains(p));
    }
    if a.len() == 0 {
        if b.len() > 0 {
            assert(b.contains(b[0]));
        }
        assert(a =~= b);
    } else {
        let x = a[a.len() - 1];
        assert(a.contains(x));
        let i = choose|i: int| 0 <= i < b.len() && b[i] == x;
        let y = b[b.len() - 1];
        assert(b.contains(y));
        let j = choose|j: int| 0 <= j < a.len() && a[j] == y;
        assert(x == y);
        let p = a.drop_last();
        let q = b.drop_last();
        assert forall|z: LivePoint| p.to_set().contains(z) <==> q.to_set().contains(z) by {
            if p.contains(z) {
                let m = choose|m: int| 0 <= m < p.len() && p[m] == z;
                assert(a[m] == z);
                assert(b.contains(z));
                let n = choose|n: int| 0 <= n < b.len() && b[n] == z;
                assert(q[n] == z);
            }
            if q.contains(z) {
                let m = choose|m: int| 0 <= m < q.len() && q[m] == z;
                assert(b[m] == z);
                assert(a.contains(z));
                let n = choose|n: int| 0 <= n < a.len() && a[n] == z;
                assert(p[n] == z);
            }
        }
        assert(p.to_set() =~= q.to_set());
        lemma_same_stairs(p, q);
        assert(a =~= p.push(x));
        assert(b =~= q.push(y));
    }
}

/// Above every point behind the cut stands one that the frontier keeps.
pub proof fn lemma_frontier_covers(
    all: Set<LivePoint>,
    tombstone: Option<Version>,
    p: LivePoint,
) -> (q: LivePoint)
    requires
        all.finite(),
        all.contains(p),
        after(p.version, tombstone),
    ensures
        frontier(all, tombstone).contains(q),
        dominates(q, p),
    decreases all.len(),
{
    if undominated(all, p) {
        p
    } else {
        let up = choose|up: LivePoint| #[trigger] all.contains(up) && dominates(up, p) && up != p;
        let rest = all.remove(p);
        let q = lemma_frontier_covers(rest, tombstone, up);
        assert forall|r: LivePoint| #[trigger] all.contains(r) && dominates(r, q) implies r == q by {
            if r != p {
                assert(rest.contains(r));
            }
        }
        q
    }
}

/// Reducing what is known already before more points come changes nothing.
pub proof fn lemma_frontier_absorbs(
    a: Set<LivePoint>,
    b: Set<LivePoint>,
    early: Option<Version>,
    tombstone: Option<Version>,
)
    requires
        a.finite(),
        b.finite(),
        later(early, tombstone) == tombstone,
    ensures
        frontier(frontier(a, early).union(b), tombstone) == frontier(a.union(b), tombstone),
{
    let kept = frontier(a, early);
    let x = kept.union(b);
    let y = a.union(b);
    assert forall|p: LivePoint| frontier(x, tombstone).contains(p) <==> frontier(
        y,
        tombstone,
    ).contains(p) by {
        if frontier(x, tombstone).contains(p) {
            assert forall|q: LivePoint| #[trigger] y.contains(q) && dominates(q, p) implies q == p by {
                if a.contains(q) {
                    assert(after(q.version, early));
                    let up = lemma_frontier_covers(a, early, q);
                    assert(x.contains(up));
                    assert(dominates(up, p));
                }
                if b.contains(q) {
                    assert(x.contains(q));
                }
            }
        }
        if frontier(y, tombstone).contains(p) {
            if a.contains(p) && !b.contains(p) {
                assert(undominated(a, p)) by {
                    assert forall|q: LivePoint| #[trigger]
                        a.contains(q) && dominates(q, p) implies q == p by {
                        assert(y.contains(q));
                    }
                }
            }
            assert(x.contains(p));
            assert forall|q: LivePoint| #[trigger] x.contains(q) && dominates(q, p) implies q == p by {
                assert(y.contains(q));
            }
        }
    }
    assert(frontier(frontier(a, early).union(b), tombstone) =~= frontier(a.union(b), tombstone));
}

/// Merging is commutative.
pub proof fn law_merge_commutative(a: RlView, b: RlView)
    ensures
        merged(a, b) == merged(b, a),
{
    assert(a.points.union(b.points) =~= b.points.union(a.points));
    assert(later(a.tombstone, b.tombstone) == later(b.tombstone, a.tombstone));
}

/// Merging is associative.
pub proof fn law_merge_associative(a: RlView, b: RlView, c: RlView)
    requires
        a.points.finite(),
        b.points.finite(),
        c.points.finite(),
    ensures
        merged(merged(a, b), c) == merged(a, merged(b, c)),
{
    let ab = later(a.tombstone, b.tombstone);
    let bc = later(b.tombstone, c.tombstone);
    let t = later(ab, c.tombstone);
    assert(t == later(a.tombstone, bc));
    lemma_frontier_absorbs(a.points.union(b.points), c.points, ab, t);
    lemma_frontier_absorbs(b.points.union(c.points), a.points, bc, t);
    assert(a.points.union(b.points).union(c.points) =~= b.points.union(c.points).union(a.points));
    assert(frontier(b.points.union(c.points), bc).union(a.points) =~= a.points.union(
        frontier(b.points.union(c.points), bc),
    ));
}

/// Merging what is known already changes nothing.
pub proof fn law_merge_idempotent(a: RlView)
    requires
        valid(a),
    ensures
        merged(a, a) == a,
{
    let s = choose|s: Seq<LivePoint>| #[trigger] canonical(s, a.tombstone) && s.to_set() == a.points;
    assert(a.points.union(a.points) =~= a.points);
    lemma_staircase_is_frontier(s, a.tombstone);
    assert(later(a.tombstone, a.tombstone) == a.tombstone);
}

/// The points of a canonical form are a frontier.
pub proof fn lemma_staircase_is_frontier(s: Seq<LivePoint>, tombstone: Option<Version>)
    requires
        staircase(s),
        all_after(s, tombstone),
    ensures
        frontier(s.to_set(), tombstone) == s.to_set(),
        s.to_set().finite(),
{
    let all = s.to_set();
    vstd::seq_lib::seq_to_set_is_finite(s);
    assert forall|p: LivePoint| all.contains(p) implies frontier(all, tombstone).contains(p) by {
        let i = choose|i: int| 0 <= i < s.len() && s[i] == p;
        assert(after(s[i].version, tombstone));
        assert forall|q: LivePoint| #[trigger] all.contains(q) && dominates(q, p) implies q == p by {
            let j = choose|j: int| 0 <= j < s.len() && s[j] == q;
            if i < j {
                assert(s[j].value.below(s[i].value));
            } else if j < i {
                assert(s[j].version.before(s[i].version));
            }
        }
    }
    assert(frontier(all, tombstone) =~= all);
}

// ---- Points in order ----

proof fn lemma_dominated_point(s: Seq<LivePoint>, p: LivePoint, i: int)
    requires
        staircase(s),
        0 <= i < s.len(),
        dominates(s[i], p),
    ensures
        frontier(s.to_set().insert(p), None) == s.to_set(),
{
    let all = s.to_set();
    lemma_staircase_is_frontier(s, None);
    assert(all.contains(s[i]));
    assert forall|q: LivePoint| frontier(all.insert(p), None).contains(q) <==> all.contains(q) by {
        if frontier(all.insert(p), None).contains(q) && q == p {
            assert(all.insert(p).contains(s[i]));
        }
        if all.contains(q) {
            assert(frontier(all, None).contains(q));
            assert forall|r: LivePoint| #[trigger]
                all.insert(p).contains(r) && dominates(r, q) implies r == q by {
                if r == p && !all.contains(p) {
                    assert(dominates(s[i], q));
                    assert(s[i] == q);
                    assert(dominates(p, s[i]));
                }
                if all.contains(r) {
                    assert(undominated(all, q));
                }
            }
        }
    }
    assert(frontier(all.insert(p), None) =~= all);
}

proof fn lemma_new_point(s: Seq<LivePoint>, p: LivePoint, j: int, k: int)
    requires
        staircase(s),
        0 <= j <= k <= s.len(),
        forall|m: int|
            0 <= m < j ==> (#[trigger] s[m]).version.before(p.version) && p.value.below(s[m].value),
        forall|m: int| j <= m < k ==> dominates(p, #[trigger] s[m]) && s[m] != p,
        forall|m: int|
            k <= m < s.len() ==> p.version.before((#[trigger] s[m]).version) && s[m].value.below(
                p.value,
            ),
    ensures
        staircase(s.take(j).push(p) + s.skip(k)),
        (s.take(j).push(p) + s.skip(k)).to_set() == frontier(s.to_set().insert(p), None),
{
    let all = s.to_set();
    let r = s.take(j).push(p) + s.skip(k);
    lemma_staircase_is_frontier(s, None);
    assert forall|m: int| 0 <= m < r.len() implies #[trigger] r[m] == (if m < j {
        s[m]
    } else if m == j {
        p
    } else {
        s[m - j - 1 + k]
    }) by {}
    assert forall|q: LivePoint| r.to_set().contains(q) <==> frontier(
        all.insert(p),
        None,
    ).contains(q) by {
        assert(r.to_set().contains(q) <==> r.contains(q));
        if r.contains(q) {
            let m = choose|m: int| 0 <= m < r.len() && r[m] == q;
            if m < j {
                assert(all.contains(s[m]));
            } else if m > j {
                assert(all.contains(s[m - j - 1 + k]));
            }
            assert forall|x: LivePoint| #[trigger]
                all.insert(p).contains(x) && dominates(x, q) implies x == q by {
                if all.contains(x) && q != p {
                    assert(frontier(all, None).contains(q));
                }
                if all.contains(x) && q == p {
                    let n = choose|n: int| 0 <= n < s.len() && s[n] == x;
                    assert(s[n] == x);
                }
            }
        }
        if frontier(all.insert(p), None).contains(q) {
            if q == p {
                assert(r[j] == p);
            } else {
                assert(s.contains(q));
                let n = choose|n: int| 0 <= n < s.len() && s[n] == q;
                if n < j {
                    assert(r[n] == q);
                } else if n < k {
                    assert(dominates(p, s[n]));
                    assert(all.insert(p).contains(p));
                    assert(false);
                } else {
                    assert(r[n - k + j + 1] == q);
                }
            }
        }
    }
    assert(r.to_set() =~= frontier(all.insert(p), None));
}

/// Add a point to points in order.
fn add_point(points: &mut Vec<LivePoint>, p: LivePoint)
    requires
        staircase(old(points)@),
    ensures
        staircase(final(points)@),
        final(points)@.to_set() == frontier(old(points)@.to_set().insert(p), None),
{
    let n = points.len();
    let ghost s = points@;
    let mut i: usize = 0;
    while i < n && points[i].version.is_before(&p.version)
        invariant
            s == points@,
            n == s.len(),
            i <= n,
            forall|m: int| 0 <= m < i ==> (#[trigger] s[m]).version.before(p.version),
        decreases n - i,
    {
        i = i + 1;
    }
    if i < n && !points[i].value.is_below(&p.value) {
        proof {
            lemma_dominated_point(s, p, i as int);
        }
        return;
    }
    let mut j: usize = i;
    while j > 0 && !p.value.is_below(&points[j - 1].value)
        invariant
            s == points@,
            n == s.len(),
            j <= i <= n,
            forall|m: int| 0 <= m < i ==> (#[trigger] s[m]).version.before(p.version),
            forall|m: int| j <= m < i ==> !p.value.below((#[trigger] s[m]).value),
        decreases j,
    {
        j = j - 1;
    }
    let k: usize = if i < n && points[i].version == p.version {
        i + 1
    } else {
        i
    };
    proof {
        assert forall|m: int| 0 <= m < j implies (#[trigger] s[m]).version.before(p.version)
            && p.value.below(s[m].value) by {
            if m < j - 1 {
                assert(s[j - 1].value.below(s[m].value));
            }
        }
        assert forall|m: int| k <= m < s.len() implies p.version.before((#[trigger] s[m]).version)
            && s[m].value.below(p.value) by {
            if m > i {
                assert(s[i as int].version.before(s[m].version));
                assert(s[m].value.below(s[i as int].value));
            }
        }
        lemma_new_point(s, p, j as int, k as int);
    }
    let mut next = points.split_off(k);
    points.truncate(j);
    points.push(p);
    points.append(&mut next);
    assert(points@ =~= s.take(j as int).push(p) + s.skip(k as int));
}

proof fn lemma_frontier_step(all: Set<LivePoint>, p: LivePoint, t: Option<Version>)
    requires
        all.finite(),
    ensures
        after(p.version, t) ==> frontier(frontier(all, t).insert(p), None) == frontier(
            all.insert(p),
            t,
        ),
        !after(p.version, t) ==> frontier(all.insert(p), t) == frontier(all, t),
{
    let one = Set::<LivePoint>::empty().insert(p);
    assert(all.union(one) =~= all.insert(p));
    assert(frontier(all, t).union(one) =~= frontier(all, t).insert(p));
    lemma_frontier_absorbs(all, one, t, t);
    if after(p.version, t) {
        assert(frontier(frontier(all, t).insert(p), None) =~= frontier(
            frontier(all, t).insert(p),
            t,
        ));
    } else {
        assert forall|q: LivePoint| frontier(all.insert(p), t).contains(q) <==> frontier(
            all,
            t,
        ).contains(q) by {
            if frontier(all.insert(p), t).contains(q) {
                assert forall|r: LivePoint| #[trigger]
                    all.contains(r) && dominates(r, q) implies r == q by {
                    assert(all.insert(p).contains(r));
                }
            }
            if frontier(all, t).contains(q) {
                assert forall|r: LivePoint| #[trigger]
                    all.insert(p).contains(r) && dominates(r, q) implies r == q by {
                    if r == p {
                        assert(after(p.version, t));
                    }
                }
            }
        }
        assert(frontier(all.insert(p), t) =~= frontier(all, t));
    }
}

/// Add the points behind the cut to points in order.
fn add_points(out: &mut Vec<LivePoint>, points: &Vec<LivePoint>, t: Option<Version>, Ghost(all): Ghost<Set<LivePoint>>)
    requires
        staircase(old(out)@),
        all.finite(),
        old(out)@.to_set() == frontier(all, t),
    ensures
        staircase(final(out)@),
        final(out)@.to_set() == frontier(all.union(points@.to_set()), t),
{
    let n = points.len();
    proof {
        assert(points@.take(0).to_set() =~= Set::empty());
        assert(all.union(points@.take(0).to_set()) =~= all);
    }
    for i in 0..n
        invariant
            n == points@.len(),
            all.finite(),
            staircase(out@),
            out@.to_set() == frontier(all.union(points@.take(i as int).to_set()), t),
    {
        let p = points[i];
        proof {
            let seen = points@.take(i as int);
            vstd::seq_lib::seq_to_set_is_finite(seen);
            lemma_frontier_step(all.union(seen.to_set()), p, t);
            assert(points@.take(i + 1).to_set() =~= seen.to_set().insert(p)) by {
                lemma_take_next(points@, i as int);
            }
            assert(all.union(points@.take(i + 1).to_set()) =~= all.union(seen.to_set()).insert(p));
        }
        let keep = match t {
            Some(t) => t.is_before(&p.version),
            None => true,
        };
        if keep {
            add_point(out, p);
        }
    }
    assert(points@.take(n as int) =~= points@);
}

proof fn lemma_take_next(s: Seq<LivePoint>, i: int)
    requires
        0 <= i < s.len(),
    ensures
        s.take(i + 1).to_set() == s.take(i).to_set().insert(s[i]),
{
    let a = s.take(i + 1);
    let b = s.take(i);
    assert forall|p: LivePoint| a.to_set().contains(p) <==> b.to_set().insert(s[i]).contains(p) by {
        if a.contains(p) {
            let j = choose|j: int| 0 <= j < a.len() && a[j] == p;
            if j < i {
                assert(b[j] == p);
            }
        }
        if b.contains(p) {
            let j = choose|j: int| 0 <= j < b.len() && b[j] == p;
            assert(a[j] == p);
        }
        assert(a[i] == s[i]);
    }
    assert(a.to_set() =~= b.to_set().insert(s[i]));
}

// ---- Shards ----

/// The points of a live key, and the latest remove before them.
#[derive(Debug)]
pub struct RateLimitShard {
    points: Vec<LivePoint>,
    tombstone: Option<Version>,
}

/// What is known of a key.
#[derive(Debug)]
pub enum RateLimitState {
    /// Some points lie behind the latest remove.
    Live(RateLimitShard),
    /// Everything was removed up to this version.
    Tombstone(RateLimitVersion),
}

impl RateLimitShard {
    /// The points, oldest first.
    pub closed spec fn ordered(&self) -> Seq<LivePoint> {
        self.points@
    }

    /// The latest remove.
    pub closed spec fn cut(&self) -> Option<Version> {
        self.tombstone
    }
}

impl View for RateLimitState {
    type V = RlView;

    open spec fn view(&self) -> RlView {
        match self {
            RateLimitState::Live(shard) => RlView {
                points: shard.ordered().to_set(),
                tombstone: shard.cut(),
            },
            RateLimitState::Tombstone(version) => RlView {
                points: Set::empty(),
                tombstone: Some(*version),
            },
        }
    }
}

impl RateLimitState {
    /// A live key has points, and they are in canonical form.
    pub open spec fn wf(&self) -> bool {
        match self {
            RateLimitState::Live(shard) => shard.ordered().len() > 0 && canonical(
                shard.ordered(),
                shard.cut(),
            ),
            RateLimitState::Tombstone(_) => true,
        }
    }

    /// A well-formed state shows a valid view, which is live exactly when it has
    /// points.
    pub proof fn lemma_view(&self)
        requires
            self.wf(),
        ensures
            valid(self@),
            self@.points.finite(),
            (self is Live) == (self@.points.len() > 0),
            (self is Live) == (self@.points != Set::<LivePoint>::empty()),
            self matches RateLimitState::Live(shard) ==> stairs(self@.points) == shard.ordered(),
    {
        match self {
            RateLimitState::Live(shard) => {
                let s = shard.ordered();
                lemma_staircase_is_frontier(s, shard.cut());
                lemma_stairs_unique(s, s);
                assert(s.to_set().contains(s[0]));
                assert(canonical(s, self@.tombstone));
                assert(s.to_set().len() > 0) by {
                    if s.to_set().len() == 0 {
                        assert(s.to_set() =~= Set::empty());
                    }
                }
            },
            RateLimitState::Tombstone(version) => {
                let s = Seq::<LivePoint>::empty();
                assert(s.to_set() =~= Set::empty());
                assert(canonical(s, self@.tombstone));
            },
        }
    }

    /// Build a state from points in order and a cut.
    fn from_parts(points: Vec<LivePoint>, tombstone: Option<Version>) -> (r: Option<Self>)
        requires
            staircase(points@),
            all_after(points@, tombstone),
        ensures
            match r {
                Some(state) => state.wf() && state@ == (RlView {
                    points: points@.to_set(),
                    tombstone,
                }),
                None => points@.len() == 0 && tombstone is None,
            },
            r is None <==> points@.len() == 0 && tombstone is None,
    {
        if points.len() > 0 {
            Some(RateLimitState::Live(RateLimitShard { points, tombstone }))
        } else {
            assert(points@.to_set() =~= Set::empty());
            match tombstone {
                Some(version) => Some(RateLimitState::Tombstone(version)),
                None => None,
            }
        }
    }

    /// The points and the cut.
    fn parts(&self) -> (r: (Vec<LivePoint>, Option<Version>))
        requires
            self.wf(),
        ensures
            staircase(r.0@),
            all_after(r.0@, r.1),
            self@ == (RlView { points: r.0@.to_set(), tombstone: r.1 }),
            r.0@.len() > 0 || r.1 is Some,
            self matches RateLimitState::Live(shard) ==> r.0@ == shard.ordered(),
    {
        match self {
            RateLimitState::Live(shard) => {
                let points = shard.points.clone();
                assert(points@ =~= shard.points@);
                (points, shard.tombstone)
            },
            RateLimitState::Tombstone(version) => {
                let points: Vec<LivePoint> = Vec::new();
                assert(points@.to_set() =~= Set::empty());
                (points, Some(*version))
            },
        }
    }

    /// What this and `incoming` know together. Two states always know something,
    /// so the result is never `None`.
    pub fn merge(&self, incoming: &RateLimitState) -> (r: Option<RateLimitState>)
        requires
            self.wf(),
            incoming.wf(),
        ensures
            r matches Some(state) && state.wf() && state@ == merged(self@, incoming@),
    {
        let (a, ta) = self.parts();
        let (b, tb) = incoming.parts();
        let t = later_of(ta, tb);
        let mut points: Vec<LivePoint> = Vec::new();
        proof {
            assert(points@.to_set() =~= Set::empty());
            assert(frontier(Set::empty(), t) =~= Set::empty());
            vstd::seq_lib::seq_to_set_is_finite(a@);
            assert(Set::empty().union(a@.to_set()) =~= a@.to_set());
        }
        add_points(&mut points, &a, t, Ghost(Set::empty()));
        add_points(&mut points, &b, t, Ghost(a@.to_set()));
        proof {
            let all = a@.to_set().union(b@.to_set());
            assert forall|i: int| 0 <= i < points@.len() implies after(
                (#[trigger] points@[i]).version,
                t,
            ) by {
                assert(points@.to_set().contains(points@[i]));
            }
            if points@.len() == 0 && t is None {
                assert(ta is None && tb is None);
                vstd::seq_lib::seq_to_set_is_finite(b@);
                assert(all.contains(a@[0]));
                let q = lemma_frontier_covers(all, t, a@[0]);
                assert(points@.to_set().contains(q));
            }
        }
        Self::from_parts(points, t)
    }

    /// Whether two states know the same.
    pub fn same_as(&self, other: &RateLimitState) -> (r: bool)
        requires
            self.wf(),
            other.wf(),
        ensures
            r == (self@ == other@),
    {
        let (a, ta) = self.parts();
        let (b, tb) = other.parts();
        proof {
            if a@.to_set() == b@.to_set() {
                lemma_stairs_unique(a@, b@);
            }
        }
        if !same_version(ta, tb) || a.len() != b.len() {
            return false;
        }
        let n = a.len();
        for i in 0..n
            invariant
                n == a@.len(),
                n == b@.len(),
                a@.to_set() == b@.to_set() ==> a@ == b@,
                self@ == (RlView { points: a@.to_set(), tombstone: ta }),
                other@ == (RlView { points: b@.to_set(), tombstone: tb }),
                forall|j: int| 0 <= j < i ==> a@[j] == b@[j],
        {
            if a[i] != b[i] {
                return false;
            }
        }
        assert(a@ =~= b@);
        true
    }

    /// Whether the key has live points.
    pub fn is_live(&self) -> (r: bool)
        ensures
            r == (self is Live),
    {
        match self {
            RateLimitState::Live(_) => true,
            RateLimitState::Tombstone(_) => false,
        }
    }
}

fn same_version(a: Option<Version>, b: Option<Version>) -> (r: bool)
    ensures
        r == (a == b),
{
    match (a, b) {
        (Some(x), Some(y)) => x == y,
        (None, None) => true,
        _ => false,
    }
}

fn later_of(a: Option<Version>, b: Option<Version>) -> (r: Option<Version>)
    ensures
        r == later(a, b),
{
    match (a, b) {
        (Some(x), Some(y)) => if x.is_before(&y) {
            Some(y)
        } else {
            Some(x)
        },
        (Some(x), None) => Some(x),
        (None, y) => y,
    }
}

// ---- Bytes ----

/// A signed count as unsigned bits, in two's complement.
pub open spec fn count_bits(count: i64) -> u64 {
    (if count >= 0 {
        count as int
    } else {
        count + 0x1_0000_0000_0000_0000
    }) as u64
}

/// The signed count that unsigned bits stand for.
pub open spec fn bits_count(bits: u64) -> i64 {
    (if bits < 0x8000_0000_0000_0000 {
        bits as int
    } else {
        bits - 0x1_0000_0000_0000_0000
    }) as i64
}

/// A count in sixteen bytes: the epoch and the count, each little-endian.
pub open spec fn value_bytes(value: EpochCount) -> Seq<u8> {
    spec_u64_to_le_bytes(value.epoch) + spec_u64_to_le_bytes(count_bits(value.count))
}

/// The count that sixteen bytes spell.
pub open spec fn value_from(bytes: Seq<u8>) -> EpochCount {
    EpochCount {
        epoch: spec_u64_from_le_bytes(bytes.subrange(0, 8)),
        count: bits_count(spec_u64_from_le_bytes(bytes.subrange(8, 16))),
    }
}

/// A version in twenty-four bytes.
pub open spec fn version_bytes(version: Version) -> Seq<u8> {
    spec_u64_to_le_bytes(version.timestamp) + spec_u128_to_le_bytes(version.replica_id.bits)
}

/// The version that twenty-four bytes spell.
pub open spec fn version_from(bytes: Seq<u8>) -> Version {
    Version {
        timestamp: spec_u64_from_le_bytes(bytes.subrange(0, 8)),
        replica_id: ReplicaId { bits: spec_u128_from_le_bytes(bytes.subrange(8, 24)) },
    }
}

/// A point in forty bytes.
pub open spec fn point_bytes(point: LivePoint) -> Seq<u8> {
    version_bytes(point.version) + value_bytes(point.value)
}

/// The point that forty bytes spell.
pub open spec fn point_from(bytes: Seq<u8>) -> LivePoint {
    LivePoint {
        version: version_from(bytes.subrange(0, 24)),
        value: value_from(bytes.subrange(24, 40)),
    }
}

/// Points one after another.
pub open spec fn points_bytes(points: Seq<LivePoint>) -> Seq<u8>
    decreases points.len(),
{
    if points.len() == 0 {
        Seq::empty()
    } else {
        points_bytes(points.drop_last()) + point_bytes(points.last())
    }
}

/// The points that bytes from `base` on spell.
pub open spec fn points_from(bytes: Seq<u8>, base: int) -> Seq<LivePoint> {
    Seq::new(
        ((bytes.len() - base) / 40) as nat,
        |i: int| point_from(bytes.subrange(base + 40 * i, base + 40 * i + 40)),
    )
}

/// A shard as bytes: a tag that says whether a cut follows, the cut, the points.
pub open spec fn shard_bytes(points: Seq<LivePoint>, tombstone: Option<Version>) -> Seq<u8> {
    match tombstone {
        None => seq![1u8] + points_bytes(points),
        Some(version) => seq![2u8] + version_bytes(version) + points_bytes(points),
    }
}

/// The points and the cut that bytes spell, where they spell a canonical shard.
pub open spec fn shard_from(bytes: Seq<u8>) -> Option<(Seq<LivePoint>, Option<Version>)> {
    if bytes.len() >= 1 && bytes[0] == 1 && (bytes.len() - 1) % 40 == 0 {
        let points = points_from(bytes, 1);
        if canonical(points, None) {
            Some((points, None))
        } else {
            None
        }
    } else if bytes.len() >= 25 && bytes[0] == 2 && (bytes.len() - 25) % 40 == 0 {
        let points = points_from(bytes, 25);
        let tombstone = Some(version_from(bytes.subrange(1, 25)));
        if canonical(points, tombstone) {
            Some((points, tombstone))
        } else {
            None
        }
    } else {
        None
    }
}

/// What an insert of `value` at `version` says of its key: a plain count is a
/// point of that version, and a shard speaks for itself. Other bytes say
/// nothing.
pub open spec fn insert_view(value: Seq<u8>, version: Version) -> Option<RlView> {
    if value.len() == 16 {
        Some(
            RlView {
                points: set![LivePoint { version, value: value_from(value) }],
                tombstone: None,
            },
        )
    } else {
        match shard_from(value) {
            Some((points, tombstone)) => Some(RlView { points: points.to_set(), tombstone }),
            None => None,
        }
    }
}

proof fn lemma_value_round_trip(value: EpochCount)
    ensures
        value_bytes(value).len() == 16,
        value_from(value_bytes(value)) == value,
{
    lemma_auto_spec_u64_to_from_le_bytes();
    let b = value_bytes(value);
    assert(b.subrange(0, 8) =~= spec_u64_to_le_bytes(value.epoch));
    assert(b.subrange(8, 16) =~= spec_u64_to_le_bytes(count_bits(value.count)));
}

proof fn lemma_version_round_trip(version: Version)
    ensures
        version_bytes(version).len() == 24,
        version_from(version_bytes(version)) == version,
{
    lemma_auto_spec_u64_to_from_le_bytes();
    lemma_auto_spec_u128_to_from_le_bytes();
    let b = version_bytes(version);
    assert(b.subrange(0, 8) =~= spec_u64_to_le_bytes(version.timestamp));
    assert(b.subrange(8, 24) =~= spec_u128_to_le_bytes(version.replica_id.bits));
}

proof fn lemma_point_round_trip(point: LivePoint)
    ensures
        point_bytes(point).len() == 40,
        point_from(point_bytes(point)) == point,
{
    lemma_version_round_trip(point.version);
    lemma_value_round_trip(point.value);
    let b = point_bytes(point);
    assert(b.subrange(0, 24) =~= version_bytes(point.version));
    assert(b.subrange(24, 40) =~= value_bytes(point.value));
}

proof fn lemma_points_round_trip(head: Seq<u8>, points: Seq<LivePoint>)
    ensures
        points_bytes(points).len() == 40 * points.len(),
        points_from(head + points_bytes(points), head.len() as int) == points,
    decreases points.len(),
{
    let bytes = head + points_bytes(points);
    let base = head.len() as int;
    if points.len() == 0 {
        assert(points_from(bytes, base) =~= points);
    } else {
        let init = points.drop_last();
        lemma_points_round_trip(head, init);
        lemma_point_round_trip(points.last());
        let shorter = head + points_bytes(init);
        assert(bytes =~= shorter + point_bytes(points.last()));
        assert forall|i: int| 0 <= i < points.len() implies #[trigger] points_from(bytes, base)[i]
            == points[i] by {
            if i < init.len() {
                assert(bytes.subrange(base + 40 * i, base + 40 * i + 40) =~= shorter.subrange(
                    base + 40 * i,
                    base + 40 * i + 40,
                ));
                assert(points_from(shorter, base)[i] == init[i]);
            } else {
                assert(bytes.subrange(base + 40 * i, base + 40 * i + 40) =~= point_bytes(
                    points.last(),
                ));
            }
        }
        assert(points_from(bytes, base) =~= points);
    }
}

/// A shard read back from its bytes is the same shard.
pub proof fn law_shard_round_trip(points: Seq<LivePoint>, tombstone: Option<Version>)
    requires
        canonical(points, tombstone),
    ensures
        shard_from(shard_bytes(points, tombstone)) == Some((points, tombstone)),
        shard_bytes(points, tombstone).len() != 16,
{
    match tombstone {
        None => {
            lemma_points_round_trip(seq![1u8], points);
        },
        Some(version) => {
            let head = seq![2u8] + version_bytes(version);
            lemma_version_round_trip(version);
            lemma_points_round_trip(head, points);
            let bytes = shard_bytes(points, tombstone);
            assert(bytes =~= head + points_bytes(points));
            assert(bytes.subrange(1, 25) =~= version_bytes(version));
        },
    }
}

/// A plain count read back from its bytes is the same count.
pub proof fn law_count_round_trip(value: EpochCount, version: Version)
    ensures
        insert_view(value_bytes(value), version) == Some(
            RlView { points: set![LivePoint { version, value }], tombstone: None },
        ),
{
    lemma_value_round_trip(value);
}

fn bits_of_count(count: i64) -> (r: u64)
    ensures
        r == count_bits(count),
{
    if count >= 0 {
        count as u64
    } else {
        (count as i128 + 0x1_0000_0000_0000_0000i128) as u64
    }
}

fn count_of_bits(bits: u64) -> (r: i64)
    ensures
        r == bits_count(bits),
{
    if bits < 0x8000_0000_0000_0000 {
        bits as i64
    } else {
        (bits as i128 - 0x1_0000_0000_0000_0000i128) as i64
    }
}

/// The bytes of a plain count.
pub fn encode(epoch: u64, count: i64) -> (r: Vec<u8>)
    ensures
        r@ == value_bytes(EpochCount { epoch, count }),
        r@.len() == 16,
{
    let mut out = u64_to_le_bytes(epoch);
    let mut tail = u64_to_le_bytes(bits_of_count(count));
    out.append(&mut tail);
    out
}

fn read_u64(bytes: &[u8], at: usize) -> (r: u64)
    requires
        at + 8 <= bytes@.len(),
    ensures
        r == spec_u64_from_le_bytes(bytes@.subrange(at as int, at + 8)),
{
    let len = bytes.len();
    assert(at + 8 <= len);
    u64_from_le_bytes(slice_subrange(bytes, at, at + 8))
}

fn read_value(bytes: &[u8], at: usize) -> (r: EpochCount)
    requires
        at + 16 <= bytes@.len(),
    ensures
        r == value_from(bytes@.subrange(at as int, at + 16)),
{
    let len = bytes.len();
    assert(at + 16 <= len);
    let epoch = read_u64(bytes, at);
    let bits = read_u64(bytes, at + 8);
    proof {
        let b = bytes@.subrange(at as int, at + 16);
        assert(b.subrange(0, 8) =~= bytes@.subrange(at as int, at + 8));
        assert(b.subrange(8, 16) =~= bytes@.subrange(at + 8, at + 16));
    }
    EpochCount { epoch, count: count_of_bits(bits) }
}

fn read_version(bytes: &[u8], at: usize) -> (r: Version)
    requires
        at + 24 <= bytes@.len(),
    ensures
        r == version_from(bytes@.subrange(at as int, at + 24)),
{
    let len = bytes.len();
    assert(at + 24 <= len);
    let timestamp = read_u64(bytes, at);
    let bits = u128_from_le_bytes(slice_subrange(bytes, at + 8, at + 24));
    proof {
        let b = bytes@.subrange(at as int, at + 24);
        assert(b.subrange(0, 8) =~= bytes@.subrange(at as int, at + 8));
        assert(b.subrange(8, 24) =~= bytes@.subrange(at + 8, at + 24));
    }
    Version { timestamp, replica_id: ReplicaId { bits } }
}

fn read_points(bytes: &[u8], base: usize) -> (r: Vec<LivePoint>)
    requires
        base <= bytes@.len(),
        (bytes@.len() - base) % 40 == 0,
    ensures
        r@ == points_from(bytes@, base as int),
{
    let len = bytes.len();
    let n = (len - base) / 40;
    let mut out: Vec<LivePoint> = Vec::new();
    for i in 0..n
        invariant
            len == bytes@.len(),
            base <= len,
            n == (len - base) / 40,
            out@ == points_from(bytes@, base as int).take(i as int),
    {
        let at = base + 40 * i;
        let version = read_version(bytes, at);
        let value = read_value(bytes, at + 24);
        proof {
            let b = bytes@.subrange(at as int, at + 40);
            assert(b.subrange(0, 24) =~= bytes@.subrange(at as int, at + 24));
            assert(b.subrange(24, 40) =~= bytes@.subrange(at + 24, at + 40));
        }
        out.push(LivePoint { version, value });
        assert(out@ =~= points_from(bytes@, base as int).take(i + 1));
    }
    assert(points_from(bytes@, base as int).take(n as int) =~= points_from(bytes@, base as int));
    out
}

fn is_canonical(points: &Vec<LivePoint>, tombstone: Option<Version>) -> (r: bool)
    ensures
        r == canonical(points@, tombstone),
{
    let n = points.len();
    for i in 0..n
        invariant
            n == points@.len(),
            staircase(points@.take(i as int)),
            all_after(points@.take(i as int), tombstone),
    {
        let ghost seen = points@.take(i as int);
        let ghost next = points@.take(i + 1);
        let behind = match tombstone {
            Some(t) => t.is_before(&points[i].version),
            None => true,
        };
        if !behind {
            proof {
                assert(!after(points@[i as int].version, tombstone));
            }
            return false;
        }
        if i > 0 {
            if !(points[i - 1].version.is_before(&points[i].version) && points[i].value.is_below(
                &points[i - 1].value,
            )) {
                proof {
                    if staircase(points@) {
                        assert(points@[i - 1].version.before(points@[i as int].version));
                    }
                }
                return false;
            }
        }
        proof {
            assert forall|a: int, b: int| 0 <= a < b < next.len() implies (#[trigger] next[a]).version.before(
                (#[trigger] next[b]).version,
            ) && next[b].value.below(next[a].value) by {
                if b < i {
                    assert(seen[a] == next[a] && seen[b] == next[b]);
                } else if a < i - 1 {
                    assert(seen[a].version.before(seen[i - 1].version));
                    assert(seen[i - 1].value.below(seen[a].value));
                }
            }
            assert forall|a: int| 0 <= a < next.len() implies after(
                (#[trigger] next[a]).version,
                tombstone,
            ) by {
                if a < i {
                    assert(seen[a] == next[a]);
                }
            }
        }
    }
    assert(points@.take(n as int) =~= points@);
    n > 0 || tombstone.is_some()
}

/// The points and the cut that bytes spell.
fn decode_shard(bytes: &[u8]) -> (r: Option<(Vec<LivePoint>, Option<Version>)>)
    ensures
        match r {
            Some((points, tombstone)) => shard_from(bytes@) == Some((points@, tombstone))
                && canonical(points@, tombstone),
            None => shard_from(bytes@) is None,
        },
{
    let len = bytes.len();
    if len >= 1 && bytes[0] == 1 && (len - 1) % 40 == 0 {
        let points = read_points(bytes, 1);
        if is_canonical(&points, None) {
            return Some((points, None));
        }
        None
    } else if len >= 25 && bytes[0] == 2 && (len - 25) % 40 == 0 {
        let points = read_points(bytes, 25);
        let tombstone = Some(read_version(bytes, 1));
        if is_canonical(&points, tombstone) {
            return Some((points, tombstone));
        }
        None
    } else {
        None
    }
}

/// The count that a payload stands for: a plain count itself, a shard the
/// largest of its points.
pub open spec fn payload_count(bytes: Seq<u8>) -> Option<EpochCount> {
    if bytes.len() == 16 {
        Some(value_from(bytes))
    } else {
        match shard_from(bytes) {
            Some((points, _)) => if points.len() > 0 {
                Some(points[0].value)
            } else {
                None
            },
            None => None,
        }
    }
}

/// The first point of a canonical shard has the largest count.
pub proof fn lemma_first_point_is_largest(points: Seq<LivePoint>)
    requires
        staircase(points),
    ensures
        forall|i: int|
            0 <= i < points.len() ==> !points[0].value.below((#[trigger] points[i]).value),
{
    assert forall|i: int| 0 <= i < points.len() implies !points[0].value.below(
        (#[trigger] points[i]).value,
    ) by {
        if i > 0 {
            assert(points[i].value.below(points[0].value));
        }
    }
}

/// The count that a payload stands for.
pub fn decode(bytes: &[u8]) -> (r: Option<EpochCount>)
    ensures
        r == payload_count(bytes@),
{
    if bytes.len() == 16 {
        proof {
            assert(bytes@.subrange(0, 16) =~= bytes@);
        }
        return Some(read_value(bytes, 0));
    }
    match decode_shard(bytes) {
        Some((points, _)) => if points.len() > 0 {
            Some(points[0].value)
        } else {
            None
        },
        None => None,
    }
}

/// What an insert of `value` at `version` says of its key.
pub fn state_from_insert_value(value: &[u8], version: RateLimitVersion) -> (r: Option<
    RateLimitState,
>)
    ensures
        match r {
            Some(state) => state.wf() && insert_view(value@, version) == Some(state@),
            None => insert_view(value@, version) is None,
        },
{
    if value.len() == 16 {
        let point = LivePoint { version, value: read_value(value, 0) };
        let mut points: Vec<LivePoint> = Vec::new();
        points.push(point);
        proof {
            assert(value@.subrange(0, 16) =~= value@);
            assert(points@ =~= seq![point]);
            assert forall|p: LivePoint| points@.to_set().contains(p) <==> set![point].contains(p) by {
                assert(points@[0] == point);
            }
            assert(points@.to_set() =~= set![point]);
        }
        return RateLimitState::from_parts(points, None);
    }
    match decode_shard(value) {
        Some((points, tombstone)) => RateLimitState::from_parts(points, tombstone),
        None => None,
    }
}

fn push_version(out: &mut Vec<u8>, version: Version)
    ensures
        final(out)@ == old(out)@ + version_bytes(version),
{
    let mut a = u64_to_le_bytes(version.timestamp);
    let mut b = u128_to_le_bytes(version.replica_id.bits);
    out.append(&mut a);
    out.append(&mut b);
    assert(out@ =~= old(out)@ + version_bytes(version));
}

impl RateLimitShard {
    /// The shard as bytes.
    fn to_bytes(&self) -> (r: Vec<u8>)
        ensures
            r@ == shard_bytes(self.ordered(), self.cut()),
    {
        let mut out: Vec<u8> = Vec::new();
        match self.tombstone {
            None => {
                out.push(1);
                assert(out@ =~= seq![1u8]);
            },
            Some(version) => {
                out.push(2);
                push_version(&mut out, version);
                assert(out@ =~= seq![2u8] + version_bytes(version));
            },
        }
        let ghost head = out@;
        let n = self.points.len();
        for i in 0..n
            invariant
                n == self.points@.len(),
                out@ == head + points_bytes(self.points@.take(i as int)),
        {
            let p = self.points[i];
            push_version(&mut out, p.version);
            let mut tail = encode(p.value.epoch, p.value.count);
            out.append(&mut tail);
            proof {
                assert(self.points@.take(i + 1).drop_last() =~= self.points@.take(i as int));
                assert(self.points@.take(i + 1).last() == p);
                assert(out@ =~= head + points_bytes(self.points@.take(i + 1)));
            }
        }
        assert(self.points@.take(n as int) =~= self.points@);
        out
    }

    /// The version of the newest point.
    fn newest_version(&self) -> (r: Version)
        requires
            self.ordered().len() > 0,
        ensures
            r == self.ordered().last().version,
    {
        self.points[self.points.len() - 1].version
    }
}

/// The bytes that a reader of a live key is given: the shard. A removed key has
/// none.
pub open spec fn live_bytes(v: RlView) -> Option<Seq<u8>> {
    if v.points == Set::<LivePoint>::empty() {
        None
    } else {
        Some(shard_bytes(stairs(v.points), v.tombstone))
    }
}

impl RateLimitState {
    /// The bytes that a reader of the key is given.
    pub fn encode_live(&self) -> (r: Option<Vec<u8>>)
        requires
            self.wf(),
        ensures
            opt_bytes(r) == live_bytes(self@),
            r is Some == (self is Live),
    {
        proof {
            self.lemma_view();
        }
        match self {
            RateLimitState::Live(shard) => Some(shard.to_bytes()),
            RateLimitState::Tombstone(_) => None,
        }
    }
}

// ---- Canonical forms exist ----

proof fn lemma_point_fits(s: Seq<LivePoint>, p: LivePoint) -> (r: Seq<LivePoint>)
    requires
        staircase(s),
    ensures
        staircase(r),
        r.to_set() == frontier(s.to_set().insert(p), None),
    decreases s.len(),
{
    let all = s.to_set();
    if s.len() == 0 {
        let r = seq![p];
        assert(r[0] == p);
        assert forall|q: LivePoint| r.to_set().contains(q) <==> frontier(
            all.insert(p),
            None,
        ).contains(q) by {}
        assert(r.to_set() =~= frontier(all.insert(p), None));
        r
    } else {
        let n = s.len() - 1;
        let last = s[n];
        let init = s.drop_last();
        assert(all.contains(last));
        if dominates(last, p) {
            lemma_dominated_point(s, p, n);
            s
        } else if last.version.before(p.version) && !dominates(p, last) {
            assert forall|m: int| 0 <= m < s.len() implies (#[trigger] s[m]).version.before(
                p.version,
            ) && p.value.below(s[m].value) by {
                if m < n {
                    assert(s[m].version.before(s[n].version));
                    assert(s[n].value.below(s[m].value));
                }
            }
            lemma_new_point(s, p, s.len() as int, s.len() as int);
            s.take(s.len() as int).push(p) + s.skip(s.len() as int)
        } else {
            let rest = lemma_point_fits(init, p);
            let old = init.to_set();
            assert forall|q: LivePoint| all.contains(q) <==> old.contains(q) || q == last by {
                if s.contains(q) {
                    let m = choose|m: int| 0 <= m < s.len() && s[m] == q;
                    if m < n {
                        assert(init[m] == q);
                    }
                }
                if init.contains(q) {
                    let m = choose|m: int| 0 <= m < init.len() && init[m] == q;
                    assert(s[m] == q);
                }
            }
            assert forall|q: LivePoint| old.contains(q) implies q.version.before(last.version)
                && last.value.below(q.value) by {
                let m = choose|m: int| 0 <= m < init.len() && init[m] == q;
                assert(s[m] == q);
                assert(s[m].version.before(s[n].version));
            }
            let before = frontier(old.insert(p), None);
            let now = frontier(all.insert(p), None);
            if dominates(p, last) {
                assert forall|q: LivePoint| before.contains(q) <==> now.contains(q) by {
                    if before.contains(q) {
                        assert forall|x: LivePoint| #[trigger]
                            all.insert(p).contains(x) && dominates(x, q) implies x == q by {
                            if old.insert(p).contains(x) {
                            }
                        }
                    }
                    if now.contains(q) {
                        assert(all.insert(p).contains(p));
                        assert forall|x: LivePoint| #[trigger]
                            old.insert(p).contains(x) && dominates(x, q) implies x == q by {
                            assert(all.insert(p).contains(x));
                        }
                    }
                }
                assert(before =~= now);
                rest
            } else {
                let r = rest.push(last);
                assert forall|q: LivePoint| r.to_set().contains(q) <==> rest.to_set().contains(q)
                    || q == last by {
                    if r.contains(q) {
                        let m = choose|m: int| 0 <= m < r.len() && r[m] == q;
                        if m < rest.len() {
                            assert(rest[m] == q);
                        }
                    }
                    if rest.contains(q) {
                        let m = choose|m: int| 0 <= m < rest.len() && rest[m] == q;
                        assert(r[m] == q);
                    }
                    assert(r[rest.len() as int] == last);
                }
                assert forall|q: LivePoint| now.contains(q) <==> before.contains(q) || q == last by {
                    if before.contains(q) {
                        assert forall|x: LivePoint| #[trigger]
                            all.insert(p).contains(x) && dominates(x, q) implies x == q by {
                            if old.insert(p).contains(x) {
                            }
                        }
                    }
                    if now.contains(q) && q != last {
                        assert forall|x: LivePoint| #[trigger]
                            old.insert(p).contains(x) && dominates(x, q) implies x == q by {
                            assert(all.insert(p).contains(x));
                        }
                    }
                    if q == last {
                        assert forall|x: LivePoint| #[trigger]
                            all.insert(p).contains(x) && dominates(x, q) implies x == q by {
                        }
                    }
                }
                assert(r.to_set() =~= now);
                assert forall|i: int, j: int| 0 <= i < j < r.len() implies (
                #[trigger] r[i]).version.before((#[trigger] r[j]).version) && r[j].value.below(
                    r[i].value,
                ) by {
                    if j == rest.len() {
                        assert(rest.to_set().contains(rest[i]));
                        assert(before.contains(r[i]));
                        assert(old.contains(r[i]) || r[i] == p);
                    } else {
                        assert(rest[i] == r[i] && rest[j] == r[j]);
                    }
                }
                r
            }
        }
    }
}

proof fn lemma_frontier_has_stairs(all: Set<LivePoint>, t: Option<Version>) -> (r: Seq<LivePoint>)
    requires
        all.finite(),
    ensures
        staircase(r),
        r.to_set() == frontier(all, t),
    decreases all.len(),
{
    if all.len() == 0 {
        let r = Seq::<LivePoint>::empty();
        assert(all =~= Set::empty());
        assert(r.to_set() =~= frontier(all, t));
        r
    } else {
        let p = all.choose();
        let rest = all.remove(p);
        let s = lemma_frontier_has_stairs(rest, t);
        lemma_frontier_step(rest, p, t);
        assert(rest.insert(p) =~= all);
        if after(p.version, t) {
            lemma_point_fits(s, p)
        } else {
            s
        }
    }
}

/// A valid view has finitely many points, in the order that `stairs` gives them.
pub proof fn lemma_valid(v: RlView)
    requires
        valid(v),
    ensures
        v.points.finite(),
        canonical(stairs(v.points), v.tombstone),
        stairs(v.points).to_set() == v.points,
        frontier(v.points, v.tombstone) == v.points,
        v.points == Set::<LivePoint>::empty() <==> stairs(v.points).len() == 0,
{
    let s = choose|s: Seq<LivePoint>| #[trigger] canonical(s, v.tombstone) && s.to_set() == v.points;
    lemma_stairs_unique(s, s);
    lemma_staircase_is_frontier(s, v.tombstone);
    if s.len() > 0 {
        assert(s.to_set().contains(s[0]));
    } else {
        assert(s.to_set() =~= Set::empty());
    }
}

/// Merging keeps views valid.
pub proof fn lemma_merged_valid(a: RlView, b: RlView)
    requires
        valid(a),
        valid(b),
    ensures
        valid(merged(a, b)),
{
    lemma_valid(a);
    lemma_valid(b);
    let m = merged(a, b);
    let all = a.points.union(b.points);
    let s = lemma_frontier_has_stairs(all, m.tombstone);
    assert forall|i: int| 0 <= i < s.len() implies after((#[trigger] s[i]).version, m.tombstone) by {
        assert(s.to_set().contains(s[i]));
    }
    if s.len() == 0 && m.tombstone is None {
        let first = stairs(a.points);
        assert(first.len() > 0);
        assert(first.to_set().contains(first[0]));
        let q = lemma_frontier_covers(all, None, first[0]);
        assert(s.to_set().contains(q));
    }
    assert(canonical(s, m.tombstone));
}

// ---- Folding operations ----

/// What an operation says of its key. A malformed insert says nothing.
pub open spec fn op_says(op: OpView) -> Option<RlView> {
    match op.value {
        Some(value) => insert_view(value, op.version),
        None => Some(RlView { points: Set::empty(), tombstone: Some(op.version) }),
    }
}

/// What is known after more was learned.
pub open spec fn learn(known: Option<RlView>, more: Option<RlView>) -> Option<RlView> {
    match (known, more) {
        (Some(a), Some(b)) => Some(merged(a, b)),
        (None, b) => b,
        (a, None) => a,
    }
}

/// What operations on one key say together.
pub open spec fn summary(ops: Seq<OpView>) -> Option<RlView>
    decreases ops.len(),
{
    if ops.len() == 0 {
        None
    } else {
        learn(summary(ops.drop_last()), op_says(ops.last()))
    }
}

/// The operation that says what `v` says: an insert of the shard at its newest
/// point, or the latest remove.
pub open spec fn restated(key: Seq<char>, v: RlView) -> OpView {
    OpView {
        key,
        value: live_bytes(v),
        version: if v.points == Set::<LivePoint>::empty() {
            v.tombstone.unwrap()
        } else {
            stairs(v.points).last().version
        },
    }
}

/// Operations on one key folded into one.
pub open spec fn folded(ops: Seq<OpView>) -> Option<OpView> {
    match summary(ops) {
        Some(v) => Some(restated(ops[0].key, v)),
        None => None,
    }
}

/// The fold of rate-limit logs.
pub open spec fn epoch_model() -> spec_fn(Seq<OpView>) -> Option<OpView> {
    |ops: Seq<OpView>| folded(ops)
}

/// What an operation says is valid.
pub proof fn lemma_op_says_valid(op: OpView)
    ensures
        op_says(op) matches Some(v) ==> valid(v),
{
    match op.value {
        Some(value) => if value.len() == 16 {
            let p = LivePoint { version: op.version, value: value_from(value) };
            let s = seq![p];
            assert(s[0] == p);
            assert(s.to_set() =~= set![p]);
            assert(canonical(s, None));
        } else {
            match shard_from(value) {
                Some((points, tombstone)) => {
                    assert(canonical(points, tombstone));
                },
                None => {},
            }
        },
        None => {
            let s = Seq::<LivePoint>::empty();
            assert(s.to_set() =~= Set::empty());
            assert(canonical(s, Some(op.version)));
        },
    }
}

/// What operations say together is valid.
pub proof fn lemma_summary_valid(ops: Seq<OpView>)
    ensures
        summary(ops) matches Some(v) ==> valid(v),
    decreases ops.len(),
{
    if ops.len() > 0 {
        lemma_summary_valid(ops.drop_last());
        lemma_op_says_valid(ops.last());
        match (summary(ops.drop_last()), op_says(ops.last())) {
            (Some(a), Some(b)) => lemma_merged_valid(a, b),
            _ => {},
        }
    }
}

/// Folding loses nothing: the folded operation says what all of them said.
pub proof fn law_fold_preserves(ops: Seq<OpView>)
    ensures
        match folded(ops) {
            Some(op) => op_says(op) == summary(ops),
            None => summary(ops) is None,
        },
{
    lemma_summary_valid(ops);
    if let Some(v) = summary(ops) {
        lemma_valid(v);
        law_shard_round_trip(stairs(v.points), v.tombstone);
    }
}

/// Some operation says that the point was written.
pub open spec fn said(ops: Seq<OpView>, p: LivePoint) -> bool {
    exists|i: int|
        0 <= i < ops.len() && (op_says(#[trigger] ops[i]) matches Some(v) && v.points.contains(p))
}

/// The points that operations say were written.
pub open spec fn said_points(ops: Seq<OpView>) -> Set<LivePoint> {
    Set::new(|p: LivePoint| said(ops, p))
}

/// Some operation says something.
pub open spec fn says_anything(ops: Seq<OpView>) -> bool {
    exists|i: int| 0 <= i < ops.len() && op_says(#[trigger] ops[i]) is Some
}

/// The latest cut that operations speak of.
pub open spec fn latest_cut(ops: Seq<OpView>) -> Option<Version>
    decreases ops.len(),
{
    if ops.len() == 0 {
        None
    } else {
        later(
            latest_cut(ops.drop_last()),
            match op_says(ops.last()) {
                Some(v) => v.tombstone,
                None => None,
            },
        )
    }
}

/// What operations say together is the frontier of all points that they speak
/// of, behind the latest cut.
pub proof fn law_summary_is_frontier(ops: Seq<OpView>)
    ensures
        said_points(ops).finite(),
        summary(ops) == (if says_anything(ops) {
            Some(
                RlView {
                    points: frontier(said_points(ops), latest_cut(ops)),
                    tombstone: latest_cut(ops),
                },
            )
        } else {
            None
        }),
    decreases ops.len(),
{
    if ops.len() == 0 {
        assert(said_points(ops) =~= Set::empty());
    } else {
        let init = ops.drop_last();
        let last = ops.last();
        law_summary_is_frontier(init);
        lemma_op_says_valid(last);
        let more = match op_says(last) {
            Some(v) => v.points,
            None => Set::empty(),
        };
        if op_says(last) is Some {
            lemma_valid(op_says(last).unwrap());
        }
        assert forall|p: LivePoint| said(ops, p) <==> said(init, p) || more.contains(p) by {
            if said(ops, p) {
                let i = choose|i: int|
                    0 <= i < ops.len() && (op_says(#[trigger] ops[i]) matches Some(v)
                        && v.points.contains(p));
                if i < init.len() {
                    assert(init[i] == ops[i]);
                }
            }
            if said(init, p) {
                let i = choose|i: int|
                    0 <= i < init.len() && (op_says(#[trigger] init[i]) matches Some(v)
                        && v.points.contains(p));
                assert(ops[i] == init[i]);
            }
            if more.contains(p) {
                assert(ops[ops.len() - 1] == last);
            }
        }
        assert(said_points(ops) =~= said_points(init).union(more));
        assert(says_anything(ops) <==> says_anything(init) || op_says(last) is Some) by {
            if says_anything(ops) {
                let i = choose|i: int| 0 <= i < ops.len() && op_says(#[trigger] ops[i]) is Some;
                if i < init.len() {
                    assert(init[i] == ops[i]);
                }
            }
            if says_anything(init) {
                let i = choose|i: int| 0 <= i < init.len() && op_says(#[trigger] init[i]) is Some;
                assert(ops[i] == init[i]);
            }
            assert(ops[ops.len() - 1] == last);
        }
        match op_says(last) {
            Some(v) => {
                if says_anything(init) {
                    lemma_frontier_absorbs(
                        said_points(init),
                        more,
                        latest_cut(init),
                        latest_cut(ops),
                    );
                } else {
                    lemma_nothing_said(init);
                    assert(said_points(ops) =~= v.points);
                }
            },
            None => {
                assert(said_points(ops) =~= said_points(init));
            },
        }
    }
}

proof fn lemma_nothing_said(ops: Seq<OpView>)
    requires
        !says_anything(ops),
    ensures
        said_points(ops) == Set::<LivePoint>::empty(),
        latest_cut(ops) is None,
    decreases ops.len(),
{
    assert forall|p: LivePoint| !said_points(ops).contains(p) by {
        if said(ops, p) {
            let i = choose|i: int|
                0 <= i < ops.len() && (op_says(#[trigger] ops[i]) matches Some(v)
                    && v.points.contains(p));
            assert(op_says(ops[i]) is Some);
        }
    }
    assert(said_points(ops) =~= Set::empty());
    if ops.len() > 0 {
        let init = ops.drop_last();
        assert forall|i: int| 0 <= i < init.len() implies op_says(#[trigger] init[i]) is None by {
            assert(op_says(ops[i]) is None);
        }
        lemma_nothing_said(init);
        assert(op_says(ops[ops.len() - 1]) is None);
    }
}

/// The latest cut is one that some operation speaks of, and none is later.
pub proof fn lemma_latest_cut(ops: Seq<OpView>)
    ensures
        match latest_cut(ops) {
            Some(t) => exists|i: int|
                0 <= i < ops.len() && (op_says(#[trigger] ops[i]) matches Some(v) && v.tombstone
                    == Some(t)),
            None => true,
        },
        forall|i: int|
            0 <= i < ops.len() ==> (op_says(#[trigger] ops[i]) matches Some(v) ==> later(
                latest_cut(ops),
                v.tombstone,
            ) == latest_cut(ops)),
    decreases ops.len(),
{
    if ops.len() > 0 {
        let init = ops.drop_last();
        lemma_latest_cut(init);
        assert(ops[ops.len() - 1] == ops.last());
        if latest_cut(ops) == latest_cut(init) && latest_cut(ops) is Some {
            let t = latest_cut(ops).unwrap();
            let i = choose|i: int|
                0 <= i < init.len() && (op_says(#[trigger] init[i]) matches Some(v) && v.tombstone
                    == Some(t));
            assert(ops[i] == init[i]);
        }
        assert forall|i: int| 0 <= i < ops.len() implies (op_says(#[trigger] ops[i]) matches Some(v)
            ==> later(latest_cut(ops), v.tombstone) == latest_cut(ops)) by {
            if i < init.len() {
                assert(init[i] == ops[i]);
            }
        }
    }
}

/// What operations say together does not depend on their order, nor on how
/// often each is repeated.
pub proof fn law_summary_order_independent(a: Seq<OpView>, b: Seq<OpView>)
    requires
        forall|op: OpView| a.contains(op) <==> b.contains(op),
    ensures
        summary(a) == summary(b),
{
    law_summary_is_frontier(a);
    law_summary_is_frontier(b);
    lemma_latest_cut(a);
    lemma_latest_cut(b);
    lemma_said_alike(a, b);
    lemma_said_alike(b, a);
    assert(said_points(a) =~= said_points(b));
}

proof fn lemma_said_alike(a: Seq<OpView>, b: Seq<OpView>)
    requires
        forall|op: OpView| a.contains(op) ==> b.contains(op),
    ensures
        forall|p: LivePoint| said(a, p) ==> said(b, p),
        says_anything(a) ==> says_anything(b),
        later(latest_cut(a), latest_cut(b)) == latest_cut(b),
{
    lemma_latest_cut(a);
    lemma_latest_cut(b);
    assert forall|i: int| 0 <= i < a.len() implies b.contains(#[trigger] a[i]) by {
        assert(a.contains(a[i]));
    }
    assert forall|p: LivePoint| said(a, p) implies said(b, p) by {
        let i = choose|i: int|
            0 <= i < a.len() && (op_says(#[trigger] a[i]) matches Some(v) && v.points.contains(p));
        let j = choose|j: int| 0 <= j < b.len() && b[j] == a[i];
        assert(b[j] == a[i]);
    }
    if says_anything(a) {
        let i = choose|i: int| 0 <= i < a.len() && op_says(#[trigger] a[i]) is Some;
        let j = choose|j: int| 0 <= j < b.len() && b[j] == a[i];
        assert(b[j] == a[i]);
    }
    if let Some(t) = latest_cut(a) {
        let i = choose|i: int|
            0 <= i < a.len() && (op_says(#[trigger] a[i]) matches Some(v) && v.tombstone == Some(t));
        let j = choose|j: int| 0 <= j < b.len() && b[j] == a[i];
        assert(b[j] == a[i]);
    }
}

/// What one operation says of its key.
pub fn state_from_op(op: &Operation) -> (r: Option<RateLimitState>)
    ensures
        match r {
            Some(state) => state.wf() && op_says(op@) == Some(state@),
            None => op_says(op@) is None,
        },
{
    match op {
        Operation::Insert { value, .. } => state_from_insert_value(value.as_slice(), op.version()),
        Operation::Remove { .. } => Some(RateLimitState::Tombstone(op.version())),
    }
}

/// Fold operations on one key into one that says what all of them say.
pub fn compact_operations(ops: &[Operation]) -> (r: Option<Operation>)
    ensures
        opt_op(r) == folded(ops_view(ops@)),
{
    let ghost all = ops_view(ops@);
    let mut state: Option<RateLimitState> = None;
    let n = ops.len();
    for i in 0..n
        invariant
            n == ops@.len(),
            all == ops_view(ops@),
            match state {
                Some(s) => s.wf() && summary(all.take(i as int)) == Some(s@),
                None => summary(all.take(i as int)) is None,
            },
    {
        let incoming = state_from_op(&ops[i]);
        proof {
            assert(all.take(i + 1).drop_last() =~= all.take(i as int));
            assert(all.take(i + 1).last() == ops@[i as int]@);
        }
        state = match (state, incoming) {
            (Some(known), Some(more)) => known.merge(&more),
            (None, more) => more,
            (known, None) => known,
        };
    }
    assert(all.take(n as int) =~= all);
    match state {
        None => None,
        Some(state) => {
            proof {
                state.lemma_view();
                assert(all.len() > 0);
                assert(all[0] == ops@[0]@);
            }
            let key = ops[0].key().to_owned();
            match &state {
                RateLimitState::Live(shard) => {
                    let version = shard.newest_version();
                    Some(
                        Operation::insert(
                            key,
                            shard.to_bytes(),
                            version.timestamp,
                            version.replica_id,
                        ),
                    )
                },
                RateLimitState::Tombstone(version) => Some(
                    Operation::remove(key, version.timestamp, version.replica_id),
                ),
            }
        },
    }
}

} // verus!
