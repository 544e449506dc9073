//! The report: the cards in the order in which they were last reviewed.

use vstd::prelude::*;
use crate::card::{Card, Rating};
use crate::screen::item_text;
use crate::session::Session;
use crate::stable::{
    lemma_stable_sort_is_permutation, lemma_stably_sorted, stable_sort_by_key, stably_sorted,
};
use crate::text::{decimal, push_decimal};

verus! {

/// What the report sorts by: the stamp of the last review. Cards without a
/// stamp come first.
pub open spec fn seen_key(card: Card) -> int {
    match card.last_seen {
        None => 0,
        Some(seconds) => seconds + 1,
    }
}

/// The key of the report, as a function of the card.
pub open spec fn by_last_seen() -> spec_fn(Card) -> int {
    |card: Card| seen_key(card)
}

/// The line for one card: how its last review went, the item, its answer
/// and the rung it stands on.
pub open spec fn report_line(card: Card) -> Seq<char> {
    (if card.last_result == Some(Rating::Bad) {
        "ko"@
    } else {
        "ok"@
    }) + " "@ + item_text(card.value) + " = "@ + decimal(card.value.product() as nat)
        + " interval "@ + decimal(card.interval as nat)
}

/// The line for each card, as a function of the card.
pub open spec fn line_of() -> spec_fn(Card) -> Seq<char> {
    |card: Card| report_line(card)
}

/// The report on a deck: one line for each card, the card reviewed longest
/// ago first, cards with one stamp in the order of the deck; and one line
/// that says so where the deck is empty.
pub open spec fn report_text(cards: Seq<Card>) -> Seq<Seq<char>> {
    if cards.len() == 0 {
        seq!["Nothing to show"@]
    } else {
        stably_sorted(cards, by_last_seen()).map_values(line_of())
    }
}

/// The views of `lines`, in their order.
pub open spec fn texts(lines: Seq<String>) -> Seq<Seq<char>> {
    lines.map_values(|line: String| line@)
}

/// The line for `card`: see [`report_line`].
fn line_for(card: &Card) -> (line: String)
    requires
        card.value.product() <= u8::MAX,
    ensures
        line@ == report_line(*card),
{
    let mut line = String::new();
    match card.last_result {
        Some(Rating::Bad) => line.push_str("ko"),
        _ => line.push_str("ok"),
    }
    line.push_str(" ");
    line.push_str(card.value.text().as_str());
    line.push_str(" = ");
    push_decimal(&mut line, card.value.compute() as usize);
    line.push_str(" interval ");
    push_decimal(&mut line, card.interval as usize);
    assert(line@ =~= report_line(*card));
    line
}

/// The report on the deck of `session`: see [`report_text`].
pub fn report(session: &Session) -> (lines: Vec<String>)
    requires
        session@.answerable(),
    ensures
        texts(lines@) == report_text(session@.cards),
{
    let mut lines: Vec<String> = Vec::new();
    if session.cards.len() == 0 {
        let mut line = String::new();
        line.push_str("Nothing to show");
        lines.push(line);
        assert(texts(lines@) =~= report_text(session@.cards));
        return lines;
    }
    let mut cards: Vec<Card> = Vec::new();
    let mut i: usize = 0;
    while i < session.cards.len()
        invariant
            i <= session.cards.len(),
            cards@ == session.cards@.take(i as int),
        decreases session.cards.len() - i,
    {
        cards.push(session.cards[i]);
        i += 1;
    }
    assert(cards@ == session.cards@);
    let key_of = |card: &Card| -> (key: u128)
        ensures
            key == seen_key(*card),
        {
            match card.last_seen {
                None => 0u128,
                Some(seconds) => seconds as u128 + 1,
            }
        };
    stable_sort_by_key(&mut cards, key_of, Ghost(by_last_seen()));
    proof {
        lemma_stably_sorted(session.cards@, by_last_seen());
        lemma_stable_sort_is_permutation(cards@, session.cards@, by_last_seen());
        assert forall|j: int| 0 <= j < cards.len() implies (#[trigger] cards[j]).value.product()
            <= u8::MAX by {
            assert(cards@.contains(cards[j]));
            assert(session.cards@.contains(cards[j]));
            let i = choose|i: int| 0 <= i < session.cards@.len() && session.cards@[i] == cards[j];
            assert(session@.cards[i].value.product() <= u8::MAX);
        }
        assert(cards@.take(0).map_values(line_of()) =~= texts(lines@));
    }
    let mut k: usize = 0;
    while k < cards.len()
        invariant
            k <= cards.len(),
            texts(lines@) == cards@.take(k as int).map_values(line_of()),
            forall|j: int| 0 <= j < cards.len() ==> (#[trigger] cards[j]).value.product() <= u8::MAX,
        decreases cards.len() - k,
    {
        let line = line_for(&cards[k]);
        let ghost before = lines@;
        lines.push(line);
        assert(texts(lines@) =~= texts(before).push(line@));
        assert(cards@.take(k + 1) =~= cards@.take(k as int).push(cards[k as int]));
        assert(texts(lines@) =~= cards@.take(k + 1).map_values(line_of()));
        k += 1;
    }
    assert(cards@.take(cards.len() as int) == cards@);
    lines
}

} // verus!
