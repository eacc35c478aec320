//! Items gathered into groups by a text key. The groups stand in the order
//! of their keys, no key occurs twice, and within a group the items keep the
//! order in which they came.

use crate::order::{lemma_lex_total, lemma_lex_transitive, lex_lt, order_of, Order};
use vstd::prelude::*;

verus! {

/// A key and the items gathered under it.
pub struct Group<T> {
    pub key: Vec<char>,
    pub items: Vec<T>,
}

impl<T: View> View for Group<T> {
    type V = (Seq<char>, Seq<T::V>);

    open spec fn view(&self) -> (Seq<char>, Seq<T::V>) {
        (self.key@, self.items@.map_values(|t: T| t@))
    }
}

/// The views of a list of groups.
pub open spec fn group_views<T: View>(groups: Seq<Group<T>>) -> Seq<(Seq<char>, Seq<T::V>)> {
    groups.map_values(|g: Group<T>| g@)
}

/// The index of the first group at or after `from` whose key does not come
/// before `key`; the number of groups where there is none.
pub open spec fn slot<V>(groups: Seq<(Seq<char>, Seq<V>)>, key: Seq<char>, from: int) -> int
    decreases groups.len() - from,
{
    if from < 0 || from >= groups.len() || !lex_lt(groups[from].0, key) {
        from
    } else {
        slot(groups, key, from + 1)
    }
}

/// The groups with one more item: at the end of the group of its key, or in
/// a group of its own, put where the key belongs.
pub open spec fn inserted<V>(groups: Seq<(Seq<char>, Seq<V>)>, key: Seq<char>, item: V) -> Seq<
    (Seq<char>, Seq<V>),
> {
    let at = slot(groups, key, 0);
    if at < groups.len() && groups[at].0 == key {
        groups.update(at, (key, groups[at].1.push(item)))
    } else {
        groups.insert(at, (key, seq![item]))
    }
}

/// The groups of the first `n` entries, each entry a key and an item.
pub open spec fn grouped<V>(entries: Seq<(Seq<char>, V)>, n: int) -> Seq<(Seq<char>, Seq<V>)>
    decreases n,
{
    if n <= 0 {
        seq![]
    } else {
        inserted(grouped(entries, n - 1), entries[n - 1].0, entries[n - 1].1)
    }
}

/// Whether the keys stand in strictly rising order.
pub open spec fn sorted<V>(groups: Seq<(Seq<char>, Seq<V>)>) -> bool {
    forall|i: int, j: int| 0 <= i < j < groups.len() ==> lex_lt(groups[i].0, groups[j].0)
}

/// The number of items in all groups together.
pub open spec fn item_count<V>(groups: Seq<(Seq<char>, Seq<V>)>) -> nat
    decreases groups.len(),
{
    if groups.len() == 0 {
        0
    } else {
        item_count(groups.drop_last()) + groups.last().1.len()
    }
}

/// The items of the first `n` entries that have the key `key`, in order.
pub open spec fn items_with<V>(entries: Seq<(Seq<char>, V)>, key: Seq<char>, n: int) -> Seq<V>
    decreases n,
{
    if n <= 0 {
        seq![]
    } else if entries[n - 1].0 == key {
        items_with(entries, key, n - 1).push(entries[n - 1].1)
    } else {
        items_with(entries, key, n - 1)
    }
}

/// The items gathered under `key`; none where no group has that key.
pub open spec fn items_of<V>(groups: Seq<(Seq<char>, Seq<V>)>, key: Seq<char>) -> Seq<V>
    decreases groups.len(),
{
    if groups.len() == 0 {
        seq![]
    } else if groups.last().0 == key {
        groups.last().1
    } else {
        items_of(groups.drop_last(), key)
    }
}

/// Where the slot for a key lies: every group before it has a smaller key,
/// and the group at it, if any, has none.
pub proof fn lemma_slot<V>(groups: Seq<(Seq<char>, Seq<V>)>, key: Seq<char>, from: int)
    requires
        0 <= from <= groups.len(),
    ensures
        from <= slot(groups, key, from) <= groups.len(),
        forall|i: int| from <= i < slot(groups, key, from) ==> lex_lt(groups[i].0, key),
        slot(groups, key, from) < groups.len() ==> !lex_lt(
            groups[slot(groups, key, from)].0,
            key,
        ),
    decreases groups.len() - from,
{
    if from < groups.len() && lex_lt(groups[from].0, key) {
        lemma_slot(groups, key, from + 1);
    }
}

/// Adding up the items of two lists of groups, one after the other.
pub proof fn lemma_item_count_add<V>(a: Seq<(Seq<char>, Seq<V>)>, b: Seq<(Seq<char>, Seq<V>)>)
    ensures
        item_count(a + b) == item_count(a) + item_count(b),
    decreases b.len(),
{
    if b.len() == 0 {
        assert(a + b == a);
    } else {
        lemma_item_count_add(a, b.drop_last());
        assert((a + b).drop_last() == a + b.drop_last());
    }
}

/// The items under a key in two lists of groups, one after the other, where
/// the second list does not hold the key.
pub proof fn lemma_items_of_add<V>(
    a: Seq<(Seq<char>, Seq<V>)>,
    b: Seq<(Seq<char>, Seq<V>)>,
    key: Seq<char>,
)
    ensures
        (forall|i: int| 0 <= i < b.len() ==> b[i].0 != key) ==> items_of(a + b, key) == items_of(
            a,
            key,
        ),
        forall|i: int|
            0 <= i < b.len() && b[i].0 == key && (forall|j: int| i < j < b.len() ==> b[j].0 != key)
                ==> items_of(a + b, key) == b[i].1,
    decreases b.len(),
{
    if b.len() == 0 {
        assert(a + b == a);
    } else {
        lemma_items_of_add(a, b.drop_last(), key);
        assert((a + b).drop_last() == a + b.drop_last());
        assert((a + b).last() == b.last());
        assert forall|i: int|
            0 <= i < b.len() && b[i].0 == key && (forall|j: int|
                i < j < b.len() ==> b[j].0 != key) implies items_of(a + b, key) == b[i].1 by {
            if i < b.len() - 1 {
                assert(b.drop_last()[i] == b[i]);
                assert forall|j: int| i < j < b.drop_last().len() implies b.drop_last()[j].0
                    != key by {
                    assert(b.drop_last()[j] == b[j]);
                }
            }
        }
        if forall|i: int| 0 <= i < b.len() ==> b[i].0 != key {
            assert forall|i: int| 0 <= i < b.drop_last().len() implies b.drop_last()[i].0
                != key by {}
        }
    }
}

/// One more item keeps the keys in strictly rising order, adds one to the
/// number of items, puts the item at the end of those under its key, and
/// leaves the items under every other key as they were.
pub proof fn lemma_inserted<V>(groups: Seq<(Seq<char>, Seq<V>)>, key: Seq<char>, item: V)
    requires
        sorted(groups),
    ensures
        sorted(inserted(groups, key, item)),
        item_count(inserted(groups, key, item)) == item_count(groups) + 1,
        items_of(inserted(groups, key, item), key) == items_of(groups, key).push(item),
        forall|other: Seq<char>|
            other != key ==> #[trigger] items_of(inserted(groups, key, item), other) == items_of(
                groups,
                other,
            ),
{
    let at = slot(groups, key, 0);
    lemma_slot(groups, key, 0);
    lemma_inserted_count(groups, key, item);
    let after = inserted(groups, key, item);
    let head = groups.take(at);
    assert forall|i: int| 0 <= i < at implies head[i].0 != key by {
        crate::order::lemma_lex_irreflexive(key);
    }
    if at < groups.len() && groups[at].0 == key {
        let tail = groups.skip(at + 1);
        let old = seq![groups[at]];
        let new = seq![(key, groups[at].1.push(item))];
        assert(groups == head + old + tail);
        assert(after == head + new + tail);
        assert forall|i: int, j: int| 0 <= i < j < after.len() implies lex_lt(
            after[i].0,
            after[j].0,
        ) by {
            assert(after[i].0 == groups[i].0);
            assert(after[j].0 == groups[j].0);
        }
        assert(new.drop_last() == Seq::<(Seq<char>, Seq<V>)>::empty());
        assert forall|i: int| 0 <= i < tail.len() implies tail[i].0 != key by {
            assert(tail[i] == groups[at + 1 + i]);
            assert(lex_lt(groups[at].0, groups[at + 1 + i].0));
            crate::order::lemma_lex_irreflexive(key);
        }
        lemma_items_of_add(head + old, tail, key);
        lemma_items_of_add(head + new, tail, key);
        lemma_items_of_add(head, old, key);
        lemma_items_of_add(head, new, key);
        assert forall|other: Seq<char>| other != key implies #[trigger] items_of(after, other)
            == items_of(groups, other) by {
            lemma_items_of_add(head, old, other);
            lemma_items_of_add(head, new, other);
            lemma_items_of_tail(head + old, head + new, tail, other);
        }
    } else {
        let tail = groups.skip(at);
        let new = seq![(key, seq![item])];
        assert(groups == head + tail);
        assert(after == head + new + tail);
        assert forall|j: int| at <= j < groups.len() implies lex_lt(key, groups[j].0) by {
            lemma_lex_total(groups[at].0, key);
            if at < j {
                lemma_lex_transitive(key, groups[at].0, groups[j].0);
            }
        }
        assert forall|i: int, j: int| 0 <= i < j < after.len() implies lex_lt(
            after[i].0,
            after[j].0,
        ) by {
            if j < at {
                assert(after[i] == groups[i] && after[j] == groups[j]);
            } else if j > at && i < at {
                assert(after[i] == groups[i] && after[j] == groups[j - 1]);
            } else if j > at && i == at {
                assert(after[j] == groups[j - 1]);
            }
        }
        assert(new.drop_last() == Seq::<(Seq<char>, Seq<V>)>::empty());
        assert forall|i: int| 0 <= i < tail.len() implies tail[i].0 != key by {
            assert(tail[i] == groups[at + i]);
            crate::order::lemma_lex_irreflexive(key);
        }
        lemma_items_of_add(head, tail, key);
        lemma_items_of_add(head + new, tail, key);
        lemma_items_of_add(head, new, key);
        lemma_items_of_absent(head, key);
        assert(items_of(head + new, key) == new[0].1);
        assert(seq![item] == Seq::<V>::empty().push(item));
        assert forall|other: Seq<char>| other != key implies #[trigger] items_of(after, other)
            == items_of(groups, other) by {
            lemma_items_of_add(head, new, other);
            lemma_items_of_tail(head, head + new, tail, other);
        }
    }
}

/// One more item adds one to the number of items, in whatever order the
/// keys stand.
pub proof fn lemma_inserted_count<V>(groups: Seq<(Seq<char>, Seq<V>)>, key: Seq<char>, item: V)
    ensures
        item_count(inserted(groups, key, item)) == item_count(groups) + 1,
{
    let at = slot(groups, key, 0);
    lemma_slot(groups, key, 0);
    let head = groups.take(at);
    if at < groups.len() && groups[at].0 == key {
        let tail = groups.skip(at + 1);
        let old = seq![groups[at]];
        let new = seq![(key, groups[at].1.push(item))];
        assert(groups == head + old + tail);
        assert(inserted(groups, key, item) == head + new + tail);
        lemma_item_count_add(head + old, tail);
        lemma_item_count_add(head, old);
        lemma_item_count_add(head + new, tail);
        lemma_item_count_add(head, new);
        assert(item_count(old) == groups[at].1.len() && item_count(new) == groups[at].1.len()
            + 1) by {
            reveal_with_fuel(item_count, 2);
        }
    } else {
        let tail = groups.skip(at);
        let new = seq![(key, seq![item])];
        assert(groups == head + tail);
        assert(inserted(groups, key, item) == head + new + tail);
        lemma_item_count_add(head, tail);
        lemma_item_count_add(head + new, tail);
        lemma_item_count_add(head, new);
        assert(item_count(new) == 1) by {
            reveal_with_fuel(item_count, 2);
        }
    }
}

/// No items are gathered under a key that no group has.
pub proof fn lemma_items_of_absent<V>(groups: Seq<(Seq<char>, Seq<V>)>, key: Seq<char>)
    requires
        forall|i: int| 0 <= i < groups.len() ==> groups[i].0 != key,
    ensures
        items_of(groups, key) == Seq::<V>::empty(),
    decreases groups.len(),
{
    if groups.len() > 0 {
        assert forall|i: int| 0 <= i < groups.drop_last().len() implies groups.drop_last()[i].0
            != key by {
            assert(groups.drop_last()[i] == groups[i]);
        }
        lemma_items_of_absent(groups.drop_last(), key);
    }
}

/// Two lists of groups that hold the same items under a key still do so
/// with the same groups put after each.
pub proof fn lemma_items_of_tail<V>(
    a: Seq<(Seq<char>, Seq<V>)>,
    b: Seq<(Seq<char>, Seq<V>)>,
    tail: Seq<(Seq<char>, Seq<V>)>,
    key: Seq<char>,
)
    requires
        items_of(a, key) == items_of(b, key),
    ensures
        items_of(a + tail, key) == items_of(b + tail, key),
    decreases tail.len(),
{
    if tail.len() > 0 {
        lemma_items_of_tail(a, b, tail.drop_last(), key);
        assert((a + tail).drop_last() == a + tail.drop_last());
        assert((b + tail).drop_last() == b + tail.drop_last());
    }
}

/// The groups of any entries: the keys stand in strictly rising order, the
/// groups together hold as many items as there are entries, and under each
/// key stand the items of the entries with that key, in their order.
pub proof fn lemma_grouped<V>(entries: Seq<(Seq<char>, V)>, n: int)
    requires
        0 <= n <= entries.len(),
    ensures
        sorted(grouped(entries, n)),
        item_count(grouped(entries, n)) == n,
        forall|key: Seq<char>| #[trigger]
            items_of(grouped(entries, n), key) == items_with(entries, key, n),
    decreases n,
{
    if n > 0 {
        lemma_grouped(entries, n - 1);
        lemma_inserted(grouped(entries, n - 1), entries[n - 1].0, entries[n - 1].1);
    }
}

/// Finds the slot for `key`, and tells whether the group there has that key.
fn find_slot<T: View>(groups: &Vec<Group<T>>, key: &Vec<char>) -> (r: (usize, bool))
    ensures
        r.0 == slot(group_views(groups@), key@, 0),
        r.0 <= groups.len(),
        r.1 == (r.0 < groups.len() && groups@[r.0 as int].key@ == key@),
{
    let ghost views = group_views(groups@);
    let mut at: usize = 0;
    while at < groups.len()
        invariant
            at <= groups.len(),
            views == group_views(groups@),
            slot(views, key@, 0) == slot(views, key@, at as int),
        decreases groups.len() - at,
    {
        match order_of(&groups[at].key, key) {
            Order::Before => {
                at += 1;
            },
            Order::Same => {
                proof {
                    crate::order::lemma_lex_irreflexive(key@);
                }
                return (at, true);
            },
            Order::After => {
                proof {
                    crate::order::lemma_lex_irreflexive(key@);
                    if lex_lt(views[at as int].0, key@) {
                        lemma_lex_transitive(key@, views[at as int].0, key@);
                    }
                }
                return (at, false);
            },
        }
    }
    (at, false)
}

/// Puts `item` under `key`: at the end of the group of that key, or in a new
/// group where the key belongs.
pub fn put<T: View>(groups: &mut Vec<Group<T>>, key: Vec<char>, item: T)
    ensures
        group_views(final(groups)@) == inserted(group_views(old(groups)@), key@, item@),
        sorted(group_views(old(groups)@)) ==> sorted(group_views(final(groups)@)),
        item_count(group_views(final(groups)@)) == item_count(group_views(old(groups)@)) + 1,
{
    let ghost before = group_views(groups@);
    proof {
        lemma_inserted_count(before, key@, item@);
        if sorted(before) {
            lemma_inserted(before, key@, item@);
        }
    }
    let (at, same) = find_slot(groups, &key);
    if same {
        let ghost items = groups@[at as int].items@;
        groups[at].items.push(item);
        assert(groups@[at as int]@ == (key@, before[at as int].1.push(item@)));
        assert(group_views(groups@) == before.update(
            at as int,
            (key@, before[at as int].1.push(item@)),
        ));
    } else {
        let mut items: Vec<T> = Vec::new();
        items.push(item);
        let group = Group { key, items };
        assert(group@ == (key@, seq![item@]));
        groups.insert(at, group);
        assert(group_views(groups@) == before.insert(at as int, (key@, seq![item@])));
    }
}

} // verus!
