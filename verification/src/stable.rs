//! Stable sorting by an integer key.
//!
//! A sequence is the stable sort of another if it is sorted by the key and
//! holds, for each key, the same items in the same order. There is one such
//! sequence, and sorting by insertion computes it.

use vstd::prelude::*;

verus! {

/// The items whose key is `wanted`.
pub open spec fn with_key<T>(key: spec_fn(T) -> int, wanted: int) -> spec_fn(T) -> bool {
    |item: T| key(item) == wanted
}

/// No item stands before an item with a smaller key.
pub open spec fn sorted_by<T>(items: Seq<T>, key: spec_fn(T) -> int) -> bool {
    forall|i: int, j: int| 0 <= i < j < items.len() ==> key(items[i]) <= key(items[j])
}

/// The items of each key are the same in `after` as in `before`, in the same
/// order.
pub open spec fn keeps_order_of_equals<T>(
    after: Seq<T>,
    before: Seq<T>,
    key: spec_fn(T) -> int,
) -> bool {
    forall|wanted: int| #[trigger]
        after.filter(with_key(key, wanted)) == before.filter(with_key(key, wanted))
}

/// `after` is `before` sorted by `key`, items of equal key left in the order
/// in which they were.
pub open spec fn is_stable_sort<T>(after: Seq<T>, before: Seq<T>, key: spec_fn(T) -> int) -> bool {
    &&& after.len() == before.len()
    &&& sorted_by(after, key)
    &&& keeps_order_of_equals(after, before, key)
}

/// `items` sorted by `key`, items of equal key left in the order in which
/// they were. There is one such sequence: see [`lemma_stably_sorted`] and
/// [`lemma_stable_sort_is_unique`].
pub open spec fn stably_sorted<T>(items: Seq<T>, key: spec_fn(T) -> int) -> Seq<T> {
    choose|after: Seq<T>| is_stable_sort(after, items, key)
}

/// An item put behind every item of its key or less, and before every item
/// of a greater key, extends a stable sort by that item.
pub proof fn lemma_insert_keeps_stable_sort<T>(
    after: Seq<T>,
    before: Seq<T>,
    key: spec_fn(T) -> int,
    item: T,
    at: int,
)
    requires
        is_stable_sort(after, before, key),
        0 <= at <= after.len(),
        forall|j: int| 0 <= j < at ==> key(#[trigger] after[j]) <= key(item),
        forall|j: int| at <= j < after.len() ==> key(item) < key(#[trigger] after[j]),
    ensures
        is_stable_sort(after.insert(at, item), before.push(item), key),
{
    let out = after.insert(at, item);
    let head = after.take(at);
    let tail = after.skip(at);
    assert(out =~= head.push(item) + tail);
    assert(after =~= head + tail);
    assert forall|i: int, j: int| 0 <= i < j < out.len() implies key(out[i]) <= key(out[j]) by {
        if j < at {
            assert(out[i] == after[i] && out[j] == after[j]);
        } else if j == at {
            assert(out[i] == after[i]);
        } else if i < at {
            assert(out[i] == after[i] && out[j] == after[j - 1]);
            assert(key(after[i]) <= key(item));
            assert(key(item) < key(after[j - 1]));
        } else if i == at {
            assert(out[j] == after[j - 1]);
        } else {
            assert(out[i] == after[i - 1] && out[j] == after[j - 1]);
        }
    }
    assert forall|wanted: int| #[trigger]
        out.filter(with_key(key, wanted)) == before.push(item).filter(with_key(key, wanted)) by {
        let pass = with_key(key, wanted);
        Seq::filter_distributes_over_add(head.push(item), tail, pass);
        Seq::filter_distributes_over_add(head, tail, pass);
        head.lemma_filter_push(item, pass);
        before.lemma_filter_push(item, pass);
        assert(after.filter(pass) == before.filter(pass));
        if pass(item) {
            assert(tail.all(|other: T| !pass(other))) by {
                assert forall|i: int| 0 <= i < tail.len() implies !pass(#[trigger] tail[i]) by {
                    assert(tail[i] == after[at + i]);
                }
            }
            tail.lemma_all_neg_filter_empty(pass);
            assert(tail.filter(pass) =~= Seq::<T>::empty());
            assert(out.filter(pass) =~= head.filter(pass).push(item));
            assert(after.filter(pass) =~= head.filter(pass));
        }
    }
}

/// Where `item` goes in a sorted sequence: behind every item of its key or
/// less.
proof fn lemma_slot<T>(after: Seq<T>, key: spec_fn(T) -> int, item: T) -> (at: int)
    requires
        sorted_by(after, key),
    ensures
        0 <= at <= after.len(),
        forall|j: int| 0 <= j < at ==> key(#[trigger] after[j]) <= key(item),
        forall|j: int| at <= j < after.len() ==> key(item) < key(#[trigger] after[j]),
    decreases after.len(),
{
    if after.len() == 0 {
        0
    } else if key(after.last()) <= key(item) {
        assert forall|j: int| 0 <= j < after.len() implies key(#[trigger] after[j]) <= key(
            item,
        ) by {
            assert(key(after[j]) <= key(after[after.len() - 1]));
        }
        after.len() as int
    } else {
        let shorter = after.drop_last();
        assert forall|i: int, j: int| 0 <= i < j < shorter.len() implies key(shorter[i]) <= key(
            shorter[j],
        ) by {
            assert(shorter[i] == after[i] && shorter[j] == after[j]);
        }
        let at = lemma_slot(shorter, key, item);
        assert forall|j: int| 0 <= j < at implies key(#[trigger] after[j]) <= key(item) by {
            assert(after[j] == shorter[j]);
        }
        assert forall|j: int| at <= j < after.len() implies key(item) < key(
            #[trigger] after[j],
        ) by {
            if j < shorter.len() {
                assert(after[j] == shorter[j]);
            }
        }
        at
    }
}

/// Every sequence has a stable sort.
proof fn lemma_stable_sort_exists<T>(items: Seq<T>, key: spec_fn(T) -> int) -> (after: Seq<T>)
    ensures
        is_stable_sort(after, items, key),
    decreases items.len(),
{
    if items.len() == 0 {
        items
    } else {
        let shorter = lemma_stable_sort_exists(items.drop_last(), key);
        let at = lemma_slot(shorter, key, items.last());
        lemma_insert_keeps_stable_sort(shorter, items.drop_last(), key, items.last(), at);
        assert(items.drop_last().push(items.last()) =~= items);
        shorter.insert(at, items.last())
    }
}

/// Two sorted sequences that hold the same items of each key in the same
/// order are the same sequence.
proof fn lemma_sorted_and_same_by_key<T>(a: Seq<T>, b: Seq<T>, key: spec_fn(T) -> int)
    requires
        a.len() == b.len(),
        sorted_by(a, key),
        sorted_by(b, key),
        keeps_order_of_equals(a, b, key),
    ensures
        a == b,
    decreases a.len(),
{
    if a.len() == 0 {
        assert(a =~= b);
    } else {
        let ka = key(a.last());
        let kb = key(b.last());
        let fa = with_key(key, ka);
        let fb = with_key(key, kb);
        let a0 = a.drop_last();
        let b0 = b.drop_last();
        assert(a =~= a0.push(a.last()));
        assert(b =~= b0.push(b.last()));
        a0.lemma_filter_push(a.last(), fa);
        a0.lemma_filter_push(a.last(), fb);
        b0.lemma_filter_push(b.last(), fa);
        b0.lemma_filter_push(b.last(), fb);
        assert(a.filter(fa) == b.filter(fa));
        assert(a.filter(fb) == b.filter(fb));
        // The last item of `a` occurs in `b`, so its key is not above that of
        // the last item of `b`, and the other way round.
        assert(ka <= kb) by {
            let passed = b.filter(fa);
            assert(passed.len() > 0);
            b.lemma_filter_contains_rev(fa, passed[0]);
            b.lemma_filter_pred(fa, 0);
            let i = choose|i: int| 0 <= i < b.len() && b[i] == passed[0];
            assert(key(b[i]) == ka);
            if i < b.len() - 1 {
                assert(key(b[i]) <= key(b[b.len() - 1]));
            }
        }
        assert(kb <= ka) by {
            let passed = a.filter(fb);
            assert(passed.len() > 0);
            a.lemma_filter_contains_rev(fb, passed[0]);
            a.lemma_filter_pred(fb, 0);
            let i = choose|i: int| 0 <= i < a.len() && a[i] == passed[0];
            assert(key(a[i]) == kb);
            if i < a.len() - 1 {
                assert(key(a[i]) <= key(a[a.len() - 1]));
            }
        }
        assert(a.last() == b.last()) by {
            assert(a.filter(fa).last() == a.last());
            assert(b.filter(fa).last() == b.last());
        }
        assert forall|wanted: int| #[trigger]
            a0.filter(with_key(key, wanted)) == b0.filter(with_key(key, wanted)) by {
            let pass = with_key(key, wanted);
            a0.lemma_filter_push(a.last(), pass);
            b0.lemma_filter_push(b.last(), pass);
            assert(a.filter(pass) == b.filter(pass));
            if pass(a.last()) {
                assert(a0.filter(pass) =~= a.filter(pass).drop_last());
                assert(b0.filter(pass) =~= b.filter(pass).drop_last());
            }
        }
        assert forall|i: int, j: int| 0 <= i < j < a0.len() implies key(a0[i]) <= key(a0[j]) by {
            assert(a0[i] == a[i] && a0[j] == a[j]);
        }
        assert forall|i: int, j: int| 0 <= i < j < b0.len() implies key(b0[i]) <= key(b0[j]) by {
            assert(b0[i] == b[i] && b0[j] == b[j]);
        }
        lemma_sorted_and_same_by_key(a0, b0, key);
    }
}

/// The stable sort of a sequence is a stable sort of it.
pub proof fn lemma_stably_sorted<T>(items: Seq<T>, key: spec_fn(T) -> int)
    ensures
        is_stable_sort(stably_sorted(items, key), items, key),
{
    let witness = lemma_stable_sort_exists(items, key);
}

/// There is one stable sort only.
pub proof fn lemma_stable_sort_is_unique<T>(after: Seq<T>, items: Seq<T>, key: spec_fn(T) -> int)
    requires
        is_stable_sort(after, items, key),
    ensures
        after == stably_sorted(items, key),
{
    lemma_stably_sorted(items, key);
    let other = stably_sorted(items, key);
    assert forall|wanted: int| #[trigger]
        after.filter(with_key(key, wanted)) == other.filter(with_key(key, wanted)) by {
        assert(other.filter(with_key(key, wanted)) == items.filter(with_key(key, wanted)));
    }
    lemma_sorted_and_same_by_key(after, other, key);
}

/// An item that passes a filter occurs as often behind it as before it.
proof fn lemma_filter_keeps_count<T>(items: Seq<T>, pass: spec_fn(T) -> bool, item: T)
    requires
        pass(item),
    ensures
        items.filter(pass).to_multiset().count(item) == items.to_multiset().count(item),
    decreases items.len(),
{
    reveal(Seq::filter);
    if items.len() > 0 {
        let shorter = items.drop_last();
        let last = items.last();
        lemma_filter_keeps_count(shorter, pass, item);
        assert(items =~= shorter.push(last));
        vstd::seq_lib::to_multiset_build(shorter, last);
        vstd::seq_lib::to_multiset_build(shorter.filter(pass), last);
    }
}

/// A stable sort holds the items that were there, each as often as before.
pub proof fn lemma_stable_sort_is_permutation<T>(
    after: Seq<T>,
    before: Seq<T>,
    key: spec_fn(T) -> int,
)
    requires
        is_stable_sort(after, before, key),
    ensures
        after.to_multiset() == before.to_multiset(),
        forall|item: T| after.contains(item) <==> before.contains(item),
{
    assert forall|item: T| after.to_multiset().count(item) == before.to_multiset().count(
        item,
    ) by {
        let pass = with_key(key, key(item));
        lemma_filter_keeps_count(after, pass, item);
        lemma_filter_keeps_count(before, pass, item);
        assert(after.filter(pass) == before.filter(pass));
    }
    assert(after.to_multiset() =~= before.to_multiset());
    assert forall|item: T| after.contains(item) <==> before.contains(item) by {
        vstd::seq_lib::to_multiset_contains(after, item);
        vstd::seq_lib::to_multiset_contains(before, item);
    }
}

/// Sorts `items` by the key that `key_of` computes. The sort is stable.
pub fn stable_sort_by_key<T: Copy, F: Fn(&T) -> u128>(
    items: &mut Vec<T>,
    key_of: F,
    Ghost(key): Ghost<spec_fn(T) -> int>,
)
    requires
        forall|item: T| #[trigger] key_of.requires((&item,)),
        forall|item: T, computed: u128|
            #[trigger] key_of.ensures((&item,), computed) ==> computed == key(item),
    ensures
        final(items)@ == stably_sorted(old(items)@, key),
{
    let count = items.len();
    let mut sorted: Vec<T> = Vec::new();
    let mut taken: usize = 0;
    assert(sorted@ =~= items@.take(0));
    while taken < count
        invariant
            count == items.len(),
            taken <= count,
            is_stable_sort(sorted@, items@.take(taken as int), key),
            forall|item: T| #[trigger] key_of.requires((&item,)),
            forall|item: T, computed: u128|
                #[trigger] key_of.ensures((&item,), computed) ==> computed == key(item),
        decreases count - taken,
    {
        let item = items[taken];
        let item_key = key_of(&item);
        let mut at: usize = sorted.len();
        while at > 0
            invariant
                at <= sorted.len(),
                item_key == key(item),
                forall|j: int| at <= j < sorted.len() ==> item_key < key(#[trigger] sorted[j]),
                forall|item: T| #[trigger] key_of.requires((&item,)),
                forall|item: T, computed: u128|
                    #[trigger] key_of.ensures((&item,), computed) ==> computed == key(item),
            ensures
                at == 0 || key(sorted[at - 1]) <= item_key,
            decreases at,
        {
            let before = key_of(&sorted[at - 1]);
            if before <= item_key {
                break ;
            }
            at -= 1;
        }
        proof {
            assert forall|j: int| 0 <= j < at implies key(#[trigger] sorted[j]) <= key(item) by {
                if j < at - 1 {
                    assert(key(sorted[j]) <= key(sorted[at - 1]));
                }
            }
            lemma_insert_keeps_stable_sort(
                sorted@,
                items@.take(taken as int),
                key,
                item,
                at as int,
            );
            assert(items@.take(taken as int).push(item) =~= items@.take(taken + 1));
        }
        sorted.insert(at, item);
        taken += 1;
    }
    proof {
        assert(items@.take(count as int) =~= items@);
        lemma_stable_sort_is_unique(sorted@, items@, key);
    }
    *items = sorted;
}

} // verus!
