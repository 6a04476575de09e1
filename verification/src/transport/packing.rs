//! Items packed into groups that keep to limits.
use vstd::prelude::*;

verus! {

/// The size of items together.
pub open spec fn total_size<V>(items: Seq<V>, size: spec_fn(V) -> nat) -> nat
    decreases items.len(),
{
    if items.len() == 0 {
        0
    } else {
        total_size(items.drop_last(), size) + size(items.last())
    }
}

/// One more item fits into a group.
pub open spec fn fits<V>(
    group: Seq<V>,
    item: V,
    size: spec_fn(V) -> nat,
    max_items: nat,
    max_size: nat,
) -> bool {
    group.len() < max_items && total_size(group, size) + size(item) <= max_size
}

/// Groups with one more item: in the last group where it fits, else in a new one.
pub open spec fn pack_one<V>(
    groups: Seq<Seq<V>>,
    item: V,
    size: spec_fn(V) -> nat,
    max_items: nat,
    max_size: nat,
) -> Seq<Seq<V>> {
    if groups.len() > 0 && fits(groups.last(), item, size, max_items, max_size) {
        groups.drop_last().push(groups.last().push(item))
    } else {
        groups.push(seq![item])
    }
}

/// Items packed into groups in order.
pub open spec fn packed<V>(
    items: Seq<V>,
    size: spec_fn(V) -> nat,
    max_items: nat,
    max_size: nat,
) -> Seq<Seq<V>>
    decreases items.len(),
{
    if items.len() == 0 {
        Seq::empty()
    } else {
        pack_one(
            packed(items.drop_last(), size, max_items, max_size),
            items.last(),
            size,
            max_items,
            max_size,
        )
    }
}

/// The items of groups in order.
pub open spec fn unpacked<V>(groups: Seq<Seq<V>>) -> Seq<V>
    decreases groups.len(),
{
    if groups.len() == 0 {
        Seq::empty()
    } else {
        unpacked(groups.drop_last()) + groups.last()
    }
}

/// A group keeps to the limits. An item that is over them by itself is a group
/// of its own.
pub open spec fn within_limits<V>(
    group: Seq<V>,
    size: spec_fn(V) -> nat,
    max_items: nat,
    max_size: nat,
) -> bool {
    &&& group.len() > 0
    &&& group.len() == 1 || (group.len() <= max_items && total_size(group, size) <= max_size)
}

/// Packing loses nothing, keeps the order and keeps to the limits.
pub proof fn law_groups_carry_the_items<V>(
    items: Seq<V>,
    size: spec_fn(V) -> nat,
    max_items: nat,
    max_size: nat,
)
    ensures
        unpacked(packed(items, size, max_items, max_size)) == items,
        forall|i: int|
            0 <= i < packed(items, size, max_items, max_size).len() ==> within_limits(
                #[trigger] packed(items, size, max_items, max_size)[i],
                size,
                max_items,
                max_size,
            ),
    decreases items.len(),
{
    if items.len() > 0 {
        let init = items.drop_last();
        let item = items.last();
        let before = packed(init, size, max_items, max_size);
        let after = packed(items, size, max_items, max_size);
        law_groups_carry_the_items(init, size, max_items, max_size);
        assert(items =~= init.push(item));
        if before.len() > 0 && fits(before.last(), item, size, max_items, max_size) {
            let grown = before.last().push(item);
            assert(after.drop_last() =~= before.drop_last());
            assert(after.last() == grown);
            assert(unpacked(before.drop_last()) + grown =~= (unpacked(before.drop_last())
                + before.last()).push(item));
            assert(grown.drop_last() =~= before.last());
        } else {
            assert(after.drop_last() =~= before);
            assert(after.last() == seq![item]);
            assert(unpacked(before) + seq![item] =~= unpacked(before).push(item));
        }
        assert forall|i: int| 0 <= i < after.len() implies within_limits(
            #[trigger] after[i],
            size,
            max_items,
            max_size,
        ) by {
            if i < after.len() - 1 {
                assert(after[i] == before[i]);
            }
        }
    }
}

/// What groups say, where `view` is what an item says.
pub open spec fn groups_view<T, V>(groups: Seq<Vec<T>>, view: spec_fn(T) -> V) -> Seq<Seq<V>> {
    groups.map_values(|g: Vec<T>| g@.map_values(view))
}

/// Pack items into groups.
pub(crate) fn pack<T, V, F: Fn(&T) -> u128>(
    items: Vec<T>,
    size_of: F,
    max_items: usize,
    max_size: usize,
    Ghost(view): Ghost<spec_fn(T) -> V>,
    Ghost(size): Ghost<spec_fn(V) -> nat>,
) -> (r: Vec<Vec<T>>)
    requires
        forall|t: &T| call_requires(size_of, (t,)),
        forall|t: &T, n: u128| #[trigger]
            call_ensures(size_of, (t,), n) ==> n == size(view(*t)) && n
                <= 0x1_0000_0000_0000_0000_0000,
    ensures
        groups_view(r@, view) == packed(
            items@.map_values(view),
            size,
            max_items as nat,
            max_size as nat,
        ),
{
    let ghost all = items@.map_values(view);
    let mut groups: Vec<Vec<T>> = Vec::new();
    let mut total: u128 = 0;
    proof {
        assert(groups_view(groups@, view) =~= packed(
            all.take(0),
            size,
            max_items as nat,
            max_size as nat,
        ));
    }
    for item in it: items.into_iter()
        invariant
            it.seq() == items@,
            all == items@.map_values(view),
            forall|t: &T| call_requires(size_of, (t,)),
            forall|t: &T, n: u128| #[trigger]
                call_ensures(size_of, (t,), n) ==> n == size(view(*t)) && n
                    <= 0x1_0000_0000_0000_0000_0000,
            groups_view(groups@, view) == packed(
                all.take(it.index() as int),
                size,
                max_items as nat,
                max_size as nat,
            ),
            groups@.len() > 0 ==> total == total_size(groups@.last()@.map_values(view), size),
    {
        let ghost before = groups_view(groups@, view);
        let ghost v = view(item);
        proof {
            assert(all.take(it.index() + 1).drop_last() =~= all.take(it.index() as int));
            assert(all.take(it.index() + 1).last() == v);
            if groups@.len() > 0 {
                assert(before.last() == groups@.last()@.map_values(view));
            }
        }
        let len: u128 = size_of(&item);
        let n = groups.len();
        if n > 0 && groups[n - 1].len() < max_items && total <= max_size as u128 && len
            <= max_size as u128 - total {
            let ghost old_last = groups@[n - 1]@.map_values(view);
            groups[n - 1].push(item);
            total = total + len;
            proof {
                let grown = groups@[n - 1]@.map_values(view);
                assert(grown =~= old_last.push(v));
                assert(grown.drop_last() =~= old_last);
                assert(groups_view(groups@, view) =~= before.drop_last().push(
                    before.last().push(v),
                ));
            }
        } else {
            let mut fresh: Vec<T> = Vec::new();
            fresh.push(item);
            proof {
                assert(fresh@.map_values(view) =~= seq![v]);
                assert(seq![v].drop_last() =~= Seq::<V>::empty());
                reveal_with_fuel(total_size, 2);
                assert(total_size(seq![v], size) == size(v));
            }
            groups.push(fresh);
            total = len;
            proof {
                assert(groups_view(groups@, view) =~= before.push(seq![v]));
            }
        }
    }
    assert(all.take(all.len() as int) =~= all);
    groups
}

} // verus!
