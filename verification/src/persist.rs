//! What is written when a session ends, and how it is laid over a fresh deck
//! when the next one starts.
//!
//! Only the cards that were reviewed are kept. Their due ticks are counted
//! from the session's clock, which starts at zero in every session, so they
//! are moved down before they are written: by the clock, or by the least due
//! tick where that is lower. The gaps between the due ticks stay as they are.

use std::collections::HashMap;
use vstd::prelude::*;
use crate::card::{Card, Factors, Status};
use crate::order::{distinct_identities, has_identity, unseen};

verus! {

/// By how much the due ticks go down when the cards are saved: the least of
/// `tick` and the due ticks of the scheduled cards.
pub open spec fn rebase_offset(cards: Seq<Card>, tick: u32) -> u32
    decreases cards.len(),
{
    if cards.len() == 0 {
        tick
    } else {
        let least = rebase_offset(cards.drop_last(), tick);
        match cards.last().status.due() {
            Some(due) => if due < least {
                due
            } else {
                least
            },
            None => least,
        }
    }
}

/// The scheduled cards.
pub open spec fn scheduled() -> spec_fn(Card) -> bool {
    |card: Card| card.is_scheduled()
}

/// `card`, due `offset` ticks earlier.
pub open spec fn rebased(card: Card, offset: u32) -> Card {
    match card.status.due() {
        Some(due) => Card { status: card.status.with_due((due - offset) as u32), ..card },
        None => card,
    }
}

/// Moves each card's due tick down by `offset`.
pub open spec fn rebase_by(offset: u32) -> spec_fn(Card) -> Card {
    |card: Card| rebased(card, offset)
}

/// The cards to save: the scheduled cards in their order, each with its due
/// tick moved down by the offset.
pub open spec fn saved(cards: Seq<Card>, tick: u32) -> Seq<Card> {
    cards.filter(scheduled()).map_values(rebase_by(rebase_offset(cards, tick)))
}

/// The offset is the least of the clock and the due ticks: it is above
/// neither the clock nor any due tick, and it is one of them.
pub proof fn lemma_rebase_offset_is_least(cards: Seq<Card>, tick: u32)
    ensures
        rebase_offset(cards, tick) <= tick,
        forall|i: int|
            0 <= i < cards.len() ==> (#[trigger] cards[i].status.due() matches Some(due)
                ==> rebase_offset(cards, tick) <= due),
        rebase_offset(cards, tick) == tick || exists|i: int|
            0 <= i < cards.len() && #[trigger] cards[i].status.due() == Some(
                rebase_offset(cards, tick),
            ),
    decreases cards.len(),
{
    if cards.len() > 0 {
        let shorter = cards.drop_last();
        lemma_rebase_offset_is_least(shorter, tick);
        let least = rebase_offset(shorter, tick);
        assert forall|i: int| 0 <= i < cards.len() implies (
        #[trigger] cards[i].status.due() matches Some(due) ==> rebase_offset(cards, tick)
            <= due) by {
            if i < shorter.len() {
                assert(shorter[i] == cards[i]);
            }
        }
        if rebase_offset(cards, tick) != tick {
            if rebase_offset(cards, tick) == least {
                let i = choose|i: int|
                    0 <= i < shorter.len() && #[trigger] shorter[i].status.due() == Some(least);
                assert(cards[i] == shorter[i]);
            } else {
                assert(cards[cards.len() - 1].status.due() == Some(rebase_offset(cards, tick)));
            }
        }
    }
}

/// The persisted cards by identity. Where two of them have one identity, the
/// later one counts.
pub open spec fn by_identity(changes: Seq<Card>) -> Map<Factors, Card>
    decreases changes.len(),
{
    if changes.len() == 0 {
        Map::empty()
    } else {
        by_identity(changes.drop_last()).insert(changes.last().value, changes.last())
    }
}

/// Whether no card before the one at `i` has its identity.
pub open spec fn first_of_its_identity(cards: Seq<Card>, i: int) -> bool {
    forall|j: int| 0 <= j < i ==> (#[trigger] cards[j]).value != cards[i].value
}

/// The card that stands at `i` once `changes` are laid over `cards`: the
/// persisted card of that identity, if there is one and no earlier card has
/// taken it; else the card that was there.
pub open spec fn overlaid_at(cards: Seq<Card>, changes: Seq<Card>, i: int) -> Card {
    if by_identity(changes).contains_key(cards[i].value) && first_of_its_identity(cards, i) {
        by_identity(changes)[cards[i].value]
    } else {
        cards[i]
    }
}

/// `cards` with `changes` laid over them, before they are put in order. No
/// card moves, and a persisted card whose identity no card has is dropped.
pub open spec fn overlaid(cards: Seq<Card>, changes: Seq<Card>) -> Seq<Card> {
    Seq::new(cards.len(), |i: int| overlaid_at(cards, changes, i))
}

/// The offset by which the due ticks of `cards` go down at `tick`.
pub fn least_due(cards: &Vec<Card>, tick: u32) -> (offset: u32)
    ensures
        offset == rebase_offset(cards@, tick),
{
    let mut least = tick;
    let mut i: usize = 0;
    assert(cards@.take(0) =~= Seq::<Card>::empty());
    while i < cards.len()
        invariant
            i <= cards.len(),
            least == rebase_offset(cards@.take(i as int), tick),
        decreases cards.len() - i,
    {
        assert(cards@.take(i + 1).drop_last() =~= cards@.take(i as int));
        match cards[i].status {
            Status::Learning(due) | Status::Learned(due) => {
                if due < least {
                    least = due;
                }
            },
            Status::Unseen => {},
        }
        i += 1;
    }
    assert(cards@.take(cards@.len() as int) =~= cards@);
    least
}

/// The cards to save from `cards` at `tick`: see [`saved`].
pub fn cards_to_save(cards: &Vec<Card>, tick: u32) -> (kept: Vec<Card>)
    ensures
        kept@ == saved(cards@, tick),
{
    let offset = least_due(cards, tick);
    let mut kept: Vec<Card> = Vec::new();
    let mut i: usize = 0;
    proof {
        lemma_rebase_offset_is_least(cards@, tick);
        assert(cards@.take(0) =~= Seq::<Card>::empty());
        reveal(Seq::filter);
        assert(cards@.take(0).filter(scheduled()).map_values(rebase_by(offset)) =~= kept@);
    }
    while i < cards.len()
        invariant
            i <= cards.len(),
            offset == rebase_offset(cards@, tick),
            forall|j: int|
                0 <= j < cards@.len() ==> (#[trigger] cards@[j].status.due() matches Some(due)
                    ==> offset <= due),
            kept@ == cards@.take(i as int).filter(scheduled()).map_values(rebase_by(offset)),
        decreases cards.len() - i,
    {
        let card = cards[i];
        proof {
            let before = cards@.take(i as int);
            assert(cards@.take(i + 1) =~= before.push(card));
            before.lemma_filter_push(card, scheduled());
            assert(before.filter(scheduled()).push(card).map_values(rebase_by(offset))
                =~= before.filter(scheduled()).map_values(rebase_by(offset)).push(
                rebased(card, offset),
            ));
            assert(cards@[i as int].status.due() matches Some(due) ==> offset <= due);
        }
        match card.status {
            Status::Unseen => {},
            _ => {
                let move_down = |due: u32| -> (moved: u32)
                    requires
                        offset <= due,
                    ensures
                        moved == due - offset,
                    {
                        let moved: u32 = due - offset;
                        moved
                    };
                let status = card.status.map_due(move_down);
                kept.push(Card { status, ..card });
            },
        }
        i += 1;
    }
    assert(cards@.take(cards@.len() as int) =~= cards@);
    kept
}

/// A number for each identity; two identities never share one.
pub open spec fn code_of(value: Factors) -> u16 {
    (value.0 * 256 + value.1) as u16
}

/// The number that stands for `value` as a key.
fn identity_code(value: Factors) -> (code: u16)
    ensures
        code == code_of(value),
{
    value.0 as u16 * 256 + value.1 as u16
}

/// Whether one of the first `i` cards has the identity `value`.
pub open spec fn taken_before(cards: Seq<Card>, i: int, value: Factors) -> bool {
    exists|j: int| 0 <= j < i && (#[trigger] cards[j]).value == value
}

/// Lays `changes` over `cards`: see [`overlaid`].
pub fn lay_over(cards: &mut Vec<Card>, changes: Vec<Card>)
    ensures
        final(cards)@ == overlaid(old(cards)@, changes@),
{
    broadcast use vstd::std_specs::hash::group_hash_axioms;

    let mut by_code: HashMap<u16, Card> = HashMap::new();
    let mut k: usize = 0;
    assert(changes@.take(0) =~= Seq::<Card>::empty());
    while k < changes.len()
        invariant
            k <= changes.len(),
            forall|value: Factors| #[trigger]
                by_code@.contains_key(code_of(value)) <==> by_identity(
                    changes@.take(k as int),
                ).contains_key(value),
            forall|value: Factors|
                by_code@.contains_key(code_of(value)) ==> #[trigger] by_code@[code_of(value)]
                    == by_identity(changes@.take(k as int))[value],
        decreases changes.len() - k,
    {
        let card = changes[k];
        assert(changes@.take(k + 1).drop_last() =~= changes@.take(k as int));
        by_code.insert(identity_code(card.value), card);
        k += 1;
    }
    assert(changes@.take(changes@.len() as int) =~= changes@);
    let ghost all = by_identity(changes@);
    let ghost before = cards@;
    let count = cards.len();
    let mut i: usize = 0;
    while i < count
        invariant
            i <= count,
            cards@.len() == count,
            before.len() == count,
            all == by_identity(changes@),
            forall|j: int| 0 <= j < i ==> #[trigger] cards@[j] == overlaid_at(before, changes@, j),
            forall|j: int| i <= j < count ==> #[trigger] cards@[j] == before[j],
            forall|value: Factors| #[trigger]
                by_code@.contains_key(code_of(value)) <==> all.contains_key(value)
                    && !taken_before(before, i as int, value),
            forall|value: Factors|
                by_code@.contains_key(code_of(value)) ==> #[trigger] by_code@[code_of(value)]
                    == all[value],
        decreases count - i,
    {
        let value = cards[i].value;
        let code = identity_code(value);
        proof {
            assert(first_of_its_identity(before, i as int) <==> !taken_before(
                before,
                i as int,
                value,
            ));
            assert forall|other: Factors|
                taken_before(before, i + 1, other) <==> taken_before(before, i as int, other)
                    || other == value by {
                if taken_before(before, i + 1, other) {
                    let j = choose|j: int| 0 <= j < i + 1 && (#[trigger] before[j]).value == other;
                    if j < i {
                        assert(taken_before(before, i as int, other));
                    }
                }
                if other == value {
                    assert(before[i as int].value == other);
                }
                if taken_before(before, i as int, other) {
                    let j = choose|j: int| 0 <= j < i && (#[trigger] before[j]).value == other;
                    assert(before[j].value == other);
                }
            }
            assert(by_code@.contains_key(code_of(value)) ==> by_code@[code_of(value)]
                == all[value]);
        }
        match by_code.remove(&code) {
            Some(changed) => {
                cards.set(i, changed);
            },
            None => {},
        }
        i += 1;
    }
    assert(cards@ =~= overlaid(before, changes@));
}

/// What the persisted cards hold for an identity is a card of that
/// identity, and one of them.
pub proof fn lemma_by_identity(changes: Seq<Card>, value: Factors)
    ensures
        by_identity(changes).contains_key(value) <==> has_identity(changes, value),
        by_identity(changes).contains_key(value) ==> by_identity(changes)[value].value == value
            && changes.contains(by_identity(changes)[value]),
    decreases changes.len(),
{
    if changes.len() > 0 {
        let shorter = changes.drop_last();
        lemma_by_identity(shorter, value);
        if has_identity(shorter, value) {
            let i = choose|i: int| 0 <= i < shorter.len() && (#[trigger] shorter[i]).value == value;
            assert(changes[i].value == value);
        }
        if has_identity(changes, value) && changes.last().value != value {
            let i = choose|i: int| 0 <= i < changes.len() && (#[trigger] changes[i]).value == value;
            assert(shorter[i].value == value);
        }
        if changes.last().value == value {
            assert(changes[changes.len() - 1].value == value);
        } else if by_identity(changes).contains_key(value) {
            let card = by_identity(shorter)[value];
            let i = choose|i: int| 0 <= i < shorter.len() && shorter[i] == card;
            assert(changes[i] == card);
        }
    }
}

/// Laying persisted cards over a deck leaves each place with a card of the
/// identity that was there.
pub proof fn lemma_overlaid_keeps_identities(cards: Seq<Card>, changes: Seq<Card>)
    ensures
        overlaid(cards, changes).len() == cards.len(),
        forall|i: int|
            0 <= i < cards.len() ==> (#[trigger] overlaid(cards, changes)[i]).value
                == cards[i].value,
        forall|value: Factors|
            has_identity(overlaid(cards, changes), value) <==> has_identity(cards, value),
        distinct_identities(cards) ==> distinct_identities(overlaid(cards, changes)),
{
    let laid = overlaid(cards, changes);
    assert forall|i: int| 0 <= i < cards.len() implies (#[trigger] laid[i]).value
        == cards[i].value by {
        lemma_by_identity(changes, cards[i].value);
    }
    assert forall|value: Factors| has_identity(laid, value) <==> has_identity(cards, value) by {
        if has_identity(laid, value) {
            let i = choose|i: int| 0 <= i < laid.len() && (#[trigger] laid[i]).value == value;
            assert(cards[i].value == value);
        }
        if has_identity(cards, value) {
            let i = choose|i: int| 0 <= i < cards.len() && (#[trigger] cards[i]).value == value;
            assert(laid[i].value == value);
        }
    }
    if distinct_identities(cards) {
        assert forall|i: int, j: int| 0 <= i < j < laid.len() implies (#[trigger] laid[i]).value
            != (#[trigger] laid[j]).value by {
            assert(cards[i].value != cards[j].value);
        }
    }
}

/// Whether a scheduled card of the deck has the identity `value`.
pub open spec fn has_scheduled(cards: Seq<Card>, value: Factors) -> bool {
    exists|i: int|
        0 <= i < cards.len() && (#[trigger] cards[i]).is_scheduled() && cards[i].value == value
}

/// The cards whose identity no scheduled card of `cards` has.
pub open spec fn untouched_by(cards: Seq<Card>) -> spec_fn(Card) -> bool {
    |card: Card| !has_scheduled(cards, card.value)
}

/// A card that is saved keeps its identity, its rung, the variant of its
/// status and its history. Its due tick goes down by the offset, which is
/// not above it.
pub proof fn lemma_rebased_card(cards: Seq<Card>, tick: u32, i: int)
    requires
        0 <= i < cards.len(),
        cards[i].is_scheduled(),
    ensures
        ({
            let offset = rebase_offset(cards, tick);
            let card = cards[i];
            let moved = rebased(card, offset);
            &&& moved.value == card.value
            &&& moved.interval == card.interval
            &&& moved.last_result == card.last_result
            &&& moved.last_seen == card.last_seen
            &&& moved.status.same_variant(card.status)
            &&& card.status.due() matches Some(due) && offset <= due && moved.status.due() == Some(
                (due - offset) as u32,
            )
        }),
{
    lemma_rebase_offset_is_least(cards, tick);
}

/// Two sequences that agree wherever either passes its filter pass the same
/// cards.
proof fn lemma_filters_agree(
    a: Seq<Card>,
    pass_a: spec_fn(Card) -> bool,
    b: Seq<Card>,
    pass_b: spec_fn(Card) -> bool,
)
    requires
        a.len() == b.len(),
        forall|j: int| 0 <= j < a.len() ==> pass_a(#[trigger] a[j]) == pass_b(b[j]),
        forall|j: int| 0 <= j < a.len() && pass_a(#[trigger] a[j]) ==> a[j] == b[j],
    ensures
        a.filter(pass_a) == b.filter(pass_b),
    decreases a.len(),
{
    reveal(Seq::filter);
    if a.len() > 0 {
        let a0 = a.drop_last();
        let b0 = b.drop_last();
        assert forall|j: int| 0 <= j < a0.len() implies pass_a(#[trigger] a0[j]) == pass_b(
            b0[j],
        ) by {
            assert(a0[j] == a[j]);
        }
        assert forall|j: int| 0 <= j < a0.len() && pass_a(#[trigger] a0[j]) implies a0[j]
            == b0[j] by {
            assert(a0[j] == a[j]);
        }
        lemma_filters_agree(a0, pass_a, b0, pass_b);
        assert(pass_a(a[a.len() - 1]) == pass_b(b[a.len() - 1]));
    } else {
        assert(a =~= b);
    }
}

/// The scheduled cards of a deck, each moved down by `offset`: no identity
/// twice where the deck has none twice, and each scheduled card of the deck
/// among them.
proof fn lemma_kept_cards(cards: Seq<Card>, offset: u32)
    requires
        distinct_identities(cards),
    ensures
        distinct_identities(cards.filter(scheduled()).map_values(rebase_by(offset))),
        forall|i: int|
            0 <= i < cards.len() && (#[trigger] cards[i]).is_scheduled() ==> cards.filter(
                scheduled(),
            ).map_values(rebase_by(offset)).contains(rebased(cards[i], offset)),
    decreases cards.len(),
{
    reveal(Seq::filter);
    let kept = cards.filter(scheduled()).map_values(rebase_by(offset));
    if cards.len() > 0 {
        let shorter = cards.drop_last();
        let last = cards.last();
        let fewer = shorter.filter(scheduled());
        let fewer_kept = fewer.map_values(rebase_by(offset));
        lemma_kept_cards(shorter, offset);
        assert(cards =~= shorter.push(last));
        assert forall|i: int|
            0 <= i < cards.len() && (#[trigger] cards[i]).is_scheduled() implies kept.contains(
            rebased(cards[i], offset),
        ) by {
            if i < shorter.len() {
                assert(shorter[i] == cards[i]);
                let k = choose|k: int|
                    0 <= k < fewer_kept.len() && fewer_kept[k] == rebased(cards[i], offset);
                assert(kept[k] == rebased(cards[i], offset));
            } else {
                assert(kept[kept.len() - 1] == rebased(cards[i], offset));
            }
        }
        assert forall|k: int, l: int| 0 <= k < l < kept.len() implies (#[trigger] kept[k]).value
            != (#[trigger] kept[l]).value by {
            if l < fewer_kept.len() {
                assert(fewer_kept[k].value != fewer_kept[l].value);
            } else {
                assert(fewer.contains(fewer[k]));
                shorter.lemma_filter_contains_rev(scheduled(), fewer[k]);
                let i = choose|i: int| 0 <= i < shorter.len() && shorter[i] == fewer[k];
                assert(cards[i].value != cards[cards.len() - 1].value);
            }
        }
    }
}

/// What is saved from a deck comes back when it is laid over a fresh deck.
/// Where a card of the fresh deck has the identity of a scheduled card of
/// the old deck, that card takes its place, with the rung, the status and
/// the history it had, and due earlier by the offset, which is the same for
/// all cards. Every other card of the fresh deck stays as it is.
pub proof fn lemma_saved_cards_come_back(cards: Seq<Card>, tick: u32, fresh: Seq<Card>)
    requires
        distinct_identities(cards),
        distinct_identities(fresh),
    ensures
        overlaid(fresh, saved(cards, tick)).len() == fresh.len(),
        forall|i: int, j: int|
            0 <= i < cards.len() && 0 <= j < fresh.len() && (#[trigger] cards[i]).is_scheduled()
                && cards[i].value == (#[trigger] fresh[j]).value ==> overlaid(
                fresh,
                saved(cards, tick),
            )[j] == rebased(cards[i], rebase_offset(cards, tick)),
        forall|j: int|
            0 <= j < fresh.len() && !has_scheduled(cards, fresh[j].value) ==> #[trigger] overlaid(
                fresh,
                saved(cards, tick),
            )[j] == fresh[j],
{
    let offset = rebase_offset(cards, tick);
    let kept = saved(cards, tick);
    let laid = overlaid(fresh, kept);
    lemma_kept_cards(cards, offset);
    assert forall|i: int, j: int|
        0 <= i < cards.len() && 0 <= j < fresh.len() && (#[trigger] cards[i]).is_scheduled()
            && cards[i].value == (#[trigger] fresh[j]).value implies laid[j] == rebased(
        cards[i],
        offset,
    ) by {
        let value = fresh[j].value;
        let wanted = rebased(cards[i], offset);
        lemma_by_identity(kept, value);
        assert(kept.contains(wanted));
        let k = choose|k: int| 0 <= k < kept.len() && kept[k] == wanted;
        assert(kept[k].value == value);
        let found = by_identity(kept)[value];
        let l = choose|l: int| 0 <= l < kept.len() && kept[l] == found;
        if k < l {
            assert(kept[k].value != kept[l].value);
        } else if l < k {
            assert(kept[l].value != kept[k].value);
        }
        assert(first_of_its_identity(fresh, j)) by {
            assert forall|e: int| 0 <= e < j implies (#[trigger] fresh[e]).value
                != fresh[j].value by {
                assert(fresh[e].value != fresh[j].value);
            }
        }
    }
    assert forall|j: int|
        0 <= j < fresh.len() && !has_scheduled(cards, fresh[j].value) implies #[trigger] laid[j]
        == fresh[j] by {
        let value = fresh[j].value;
        lemma_by_identity(kept, value);
        if has_identity(kept, value) {
            let k = choose|k: int| 0 <= k < kept.len() && (#[trigger] kept[k]).value == value;
            let source = cards.filter(scheduled())[k];
            assert(source.value == value);
            assert(cards.filter(scheduled()).contains(source));
            cards.lemma_filter_contains_rev(scheduled(), source);
            cards.lemma_filter_pred(scheduled(), k);
            let i = choose|i: int| 0 <= i < cards.len() && cards[i] == source;
            assert(cards[i].is_scheduled() && cards[i].value == value);
        }
    }
}

/// Once the saved cards are laid over a fresh deck of unseen cards, the
/// cards still unseen are the cards of the fresh deck that no saved card has
/// replaced, in the order of the fresh deck.
pub proof fn lemma_unseen_cards_stay(cards: Seq<Card>, tick: u32, fresh: Seq<Card>)
    requires
        distinct_identities(cards),
        distinct_identities(fresh),
        forall|j: int| 0 <= j < fresh.len() ==> (#[trigger] fresh[j]).status is Unseen,
    ensures
        overlaid(fresh, saved(cards, tick)).filter(unseen()) == fresh.filter(
            untouched_by(cards),
        ),
{
    let laid = overlaid(fresh, saved(cards, tick));
    lemma_saved_cards_come_back(cards, tick, fresh);
    assert forall|j: int| 0 <= j < laid.len() implies unseen()(#[trigger] laid[j])
        == untouched_by(cards)(fresh[j]) && (unseen()(laid[j]) ==> laid[j] == fresh[j]) by {
        if has_scheduled(cards, fresh[j].value) {
            let i = choose|i: int|
                0 <= i < cards.len() && (#[trigger] cards[i]).is_scheduled() && cards[i].value
                    == fresh[j].value;
            assert(laid[j] == rebased(cards[i], rebase_offset(cards, tick)));
        }
    }
    lemma_filters_agree(laid, unseen(), fresh, untouched_by(cards));
}

} // verus!
