//! The order in which cards are shown.
//!
//! Cards fall into four classes. Learning cards that are due come first, then
//! the cards never seen, then the learned cards, and last the learning cards
//! that are not due yet. Inside a class the card that is due sooner comes
//! first. Cards that the policy does not tell apart stay in the order in
//! which they were: the cards never seen keep the order of the shuffle.

use vstd::prelude::*;
use crate::card::{Card, Factors, Status};
use crate::stable::{
    is_stable_sort, lemma_insert_keeps_stable_sort, lemma_stable_sort_is_permutation,
    lemma_stable_sort_is_unique, lemma_stably_sorted, sorted_by, stable_sort_by_key, stably_sorted,
    with_key,
};

verus! {

/// The class of a status at `tick`. A lower class is shown earlier.
pub open spec fn class_rank(status: Status, tick: u32) -> int {
    match status {
        Status::Learning(due) => if due <= tick {
            0
        } else {
            3
        },
        Status::Unseen => 1,
        Status::Learned(_) => 2,
    }
}

/// What orders the cards of one class: the due tick, and nothing for a card
/// never seen.
pub open spec fn due_or_zero(status: Status) -> int {
    match status {
        Status::Unseen => 0,
        Status::Learning(due) => due as int,
        Status::Learned(due) => due as int,
    }
}

/// The sort key of a card at `tick`: the class in the high word, the due tick
/// in the low word. Comparing two keys compares class first and due tick
/// second.
pub open spec fn priority(card: Card, tick: u32) -> int {
    class_rank(card.status, tick) * 0x1_0000_0000 + due_or_zero(card.status)
}

/// The sort key at `tick`, as a function of the card.
pub open spec fn by_priority(tick: u32) -> spec_fn(Card) -> int {
    |card: Card| priority(card, tick)
}

/// No card stands before a card with a smaller key.
pub open spec fn sorted_by_priority(cards: Seq<Card>, tick: u32) -> bool {
    forall|i: int, j: int|
        0 <= i < j < cards.len() ==> priority(cards[i], tick) <= priority(cards[j], tick)
}

/// The presentation order of `cards` at `tick`: the cards sorted by their
/// keys, cards of equal key left in the order in which they were.
pub open spec fn arranged(cards: Seq<Card>, tick: u32) -> Seq<Card> {
    stably_sorted(cards, by_priority(tick))
}

/// Two learning cards are ordered by their due ticks alone, whether they are
/// due or not; so are two learned cards.
pub proof fn lemma_same_kind_by_due(a: Card, b: Card, tick: u32)
    requires
        a.status is Learning && b.status is Learning || a.status is Learned && b.status is Learned,
    ensures
        priority(a, tick) <= priority(b, tick) <==> due_or_zero(a.status) <= due_or_zero(b.status),
{
}

/// Keys compare as pairs of class and due tick, and all cards never seen
/// have one key.
pub proof fn lemma_priority_is_class_then_due(a: Card, b: Card, tick: u32)
    ensures
        priority(a, tick) < priority(b, tick) <==> class_rank(a.status, tick) < class_rank(
            b.status,
            tick,
        ) || (class_rank(a.status, tick) == class_rank(b.status, tick) && due_or_zero(a.status)
            < due_or_zero(b.status)),
        a.status is Unseen && b.status is Unseen ==> priority(a, tick) == priority(b, tick),
{
}

/// The presentation order is the stable sort by the key at `tick`: it has
/// the cards of the deck, each as often as before, and no card in it stands
/// before a card with a smaller key.
pub proof fn lemma_arranged_is_sorted_permutation(cards: Seq<Card>, tick: u32)
    ensures
        is_stable_sort(arranged(cards, tick), cards, by_priority(tick)),
        arranged(cards, tick).len() == cards.len(),
        arranged(cards, tick).to_multiset() == cards.to_multiset(),
        sorted_by_priority(arranged(cards, tick), tick),
        forall|card: Card| arranged(cards, tick).contains(card) <==> cards.contains(card),
{
    let after = arranged(cards, tick);
    lemma_stably_sorted(cards, by_priority(tick));
    lemma_stable_sort_is_permutation(after, cards, by_priority(tick));
    assert forall|i: int, j: int| 0 <= i < j < after.len() implies priority(after[i], tick)
        <= priority(after[j], tick) by {
        assert(by_priority(tick)(after[i]) <= by_priority(tick)(after[j]));
    }
}

/// Whatever is sorted by the key at `tick` and holds, for each key, the
/// cards of the deck in their order is the presentation order.
pub proof fn lemma_arrangement_is_unique(after: Seq<Card>, cards: Seq<Card>, tick: u32)
    requires
        after.len() == cards.len(),
        sorted_by_priority(after, tick),
        forall|key: int| #[trigger]
            after.filter(with_key(by_priority(tick), key)) == cards.filter(
                with_key(by_priority(tick), key),
            ),
    ensures
        after == arranged(cards, tick),
{
    assert(sorted_by(after, by_priority(tick))) by {
        assert forall|i: int, j: int| 0 <= i < j < after.len() implies by_priority(tick)(
            after[i],
        ) <= by_priority(tick)(after[j]) by {
            assert(priority(after[i], tick) <= priority(after[j], tick));
        }
    }
    lemma_stable_sort_is_unique(after, cards, by_priority(tick));
}

/// The presentation order of a deck with one more card: the order of the
/// deck, with the card put behind every card of its key or less and before
/// every card of a greater key.
pub proof fn lemma_arranged_push(cards: Seq<Card>, card: Card, tick: u32, at: int)
    requires
        0 <= at <= cards.len(),
        forall|j: int|
            0 <= j < at ==> priority(#[trigger] arranged(cards, tick)[j], tick) <= priority(
                card,
                tick,
            ),
        forall|j: int|
            at <= j < cards.len() ==> priority(card, tick) < priority(
                #[trigger] arranged(cards, tick)[j],
                tick,
            ),
    ensures
        arranged(cards.push(card), tick) == arranged(cards, tick).insert(at, card),
{
    let key = by_priority(tick);
    let after = arranged(cards, tick);
    lemma_stably_sorted(cards, key);
    assert forall|j: int| 0 <= j < at implies key(#[trigger] after[j]) <= key(card) by {
        assert(priority(after[j], tick) <= priority(card, tick));
    }
    assert forall|j: int| at <= j < after.len() implies key(card) < key(#[trigger] after[j]) by {
        assert(priority(card, tick) < priority(after[j], tick));
    }
    lemma_insert_keeps_stable_sort(after, cards, key, card, at);
    lemma_stable_sort_is_unique(after.insert(at, card), cards.push(card), key);
}

/// Cards that are in order already stay as they are.
pub proof fn lemma_sorted_stays(cards: Seq<Card>, tick: u32)
    requires
        sorted_by_priority(cards, tick),
    ensures
        arranged(cards, tick) == cards,
{
    lemma_arrangement_is_unique(cards, cards, tick);
}

/// Putting cards in order twice is putting them in order once.
pub proof fn lemma_arranged_twice(cards: Seq<Card>, tick: u32)
    ensures
        arranged(arranged(cards, tick), tick) == arranged(cards, tick),
{
    lemma_arranged_is_sorted_permutation(cards, tick);
    lemma_sorted_stays(arranged(cards, tick), tick);
}

/// The first card in order is one that no card of the deck goes before.
pub proof fn lemma_first_is_least(cards: Seq<Card>, tick: u32)
    requires
        cards.len() > 0,
    ensures
        cards.contains(arranged(cards, tick)[0]),
        forall|i: int|
            0 <= i < cards.len() ==> priority(arranged(cards, tick)[0], tick) <= priority(
                #[trigger] cards[i],
                tick,
            ),
{
    let after = arranged(cards, tick);
    lemma_arranged_is_sorted_permutation(cards, tick);
    assert(after.contains(after[0]));
    assert forall|i: int| 0 <= i < cards.len() implies priority(after[0], tick) <= priority(
        #[trigger] cards[i],
        tick,
    ) by {
        assert(cards.contains(cards[i]));
        assert(after.contains(cards[i]));
        let j = choose|j: int| 0 <= j < after.len() && after[j] == cards[i];
        if j > 0 {
            assert(priority(after[0], tick) <= priority(after[j], tick));
        }
    }
}

/// No two cards have one identity.
pub open spec fn distinct_identities(cards: Seq<Card>) -> bool {
    forall|i: int, j: int|
        0 <= i < j < cards.len() ==> (#[trigger] cards[i]).value != (#[trigger] cards[j]).value
}

/// Whether one of the cards has the identity `value`.
pub open spec fn has_identity(cards: Seq<Card>, value: Factors) -> bool {
    exists|i: int| 0 <= i < cards.len() && (#[trigger] cards[i]).value == value
}

/// Cards that hold the same cards, each as often, hold the same identities,
/// and none twice if the others hold none twice.
pub proof fn lemma_permutation_keeps_identities(after: Seq<Card>, cards: Seq<Card>)
    requires
        after.to_multiset() == cards.to_multiset(),
    ensures
        forall|value: Factors| has_identity(after, value) <==> has_identity(cards, value),
        distinct_identities(cards) ==> distinct_identities(after),
{
    assert forall|card: Card| after.contains(card) <==> cards.contains(card) by {
        vstd::seq_lib::to_multiset_contains(after, card);
        vstd::seq_lib::to_multiset_contains(cards, card);
    }
    assert forall|value: Factors| has_identity(after, value) <==> has_identity(
        cards,
        value,
    ) by {
        if has_identity(after, value) {
            let i = choose|i: int| 0 <= i < after.len() && (#[trigger] after[i]).value == value;
            assert(after.contains(after[i]));
            assert(cards.contains(after[i]));
            let j = choose|j: int| 0 <= j < cards.len() && cards[j] == after[i];
            assert(cards[j].value == value);
        }
        if has_identity(cards, value) {
            let i = choose|i: int| 0 <= i < cards.len() && (#[trigger] cards[i]).value == value;
            assert(cards.contains(cards[i]));
            assert(after.contains(cards[i]));
            let j = choose|j: int| 0 <= j < after.len() && after[j] == cards[i];
            assert(after[j].value == value);
        }
    }
    if distinct_identities(cards) {
        assert(cards.no_duplicates());
        cards.lemma_multiset_has_no_duplicates();
        after.lemma_multiset_has_no_duplicates_conv();
        assert forall|i: int, j: int| 0 <= i < j < after.len() implies (#[trigger] after[i]).value
            != (#[trigger] after[j]).value by {
            assert(after[i] != after[j]);
            assert(after.contains(after[i]));
            assert(after.contains(after[j]));
            assert(cards.contains(after[i]));
            assert(cards.contains(after[j]));
            let k = choose|k: int| 0 <= k < cards.len() && cards[k] == after[i];
            let l = choose|l: int| 0 <= l < cards.len() && cards[l] == after[j];
            assert(k != l);
            if k < l {
                assert(cards[k].value != cards[l].value);
            } else {
                assert(cards[l].value != cards[k].value);
            }
        }
    }
}

/// Putting cards in order neither adds an identity nor drops or doubles
/// one.
pub proof fn lemma_arranged_keeps_identities(cards: Seq<Card>, tick: u32)
    ensures
        forall|value: Factors|
            has_identity(arranged(cards, tick), value) <==> has_identity(cards, value),
        distinct_identities(cards) ==> distinct_identities(arranged(cards, tick)),
{
    lemma_arranged_is_sorted_permutation(cards, tick);
    lemma_permutation_keeps_identities(arranged(cards, tick), cards);
}

/// The cards never seen.
pub open spec fn unseen() -> spec_fn(Card) -> bool {
    |card: Card| card.status is Unseen
}

/// The cards never seen stand in the order in which they stood, whatever
/// the tick.
pub proof fn lemma_unseen_keep_their_order(cards: Seq<Card>, tick: u32)
    ensures
        arranged(cards, tick).filter(unseen()) == cards.filter(unseen()),
{
    lemma_stably_sorted(cards, by_priority(tick));
    let key = 0x1_0000_0000int;
    assert(with_key(by_priority(tick), key) =~= unseen());
    assert(arranged(cards, tick).filter(with_key(by_priority(tick), key)) == cards.filter(
        with_key(by_priority(tick), key),
    ));
}

/// The sort key of `card` at `tick`.
pub fn sort_key(card: &Card, tick: u32) -> (key: u64)
    ensures
        key == priority(*card, tick),
{
    match card.status {
        Status::Learning(due) => if due <= tick {
            due as u64
        } else {
            0x3_0000_0000u64 + due as u64
        },
        Status::Unseen => 0x1_0000_0000u64,
        Status::Learned(due) => 0x2_0000_0000u64 + due as u64,
    }
}

/// Puts `cards` into the presentation order at `tick`.
pub fn arrange(cards: &mut Vec<Card>, tick: u32)
    ensures
        final(cards)@ == arranged(old(cards)@, tick),
{
    let key_of = |card: &Card| -> (key: u128)
        ensures
            key == priority(*card, tick),
        { sort_key(card, tick) as u128 };
    stable_sort_by_key(cards, key_of, Ghost(by_priority(tick)));
}

} // verus!
