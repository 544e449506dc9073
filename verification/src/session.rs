//! A practice session: the cards in the order in which they are shown, a
//! logical clock, and the state before the last review.

use vstd::prelude::*;
use crate::card::{Card, Factors, Rating};
use crate::clock::seconds_since_epoch;
use crate::intervals::Intervals;
use crate::order::{
    arrange, arranged, class_rank, distinct_identities, has_identity,
    lemma_arranged_is_sorted_permutation, lemma_arranged_keeps_identities, lemma_sorted_stays,
    lemma_unseen_keep_their_order, priority, sorted_by_priority, unseen,
};
use crate::persist::{
    cards_to_save, has_scheduled, lay_over, lemma_overlaid_keeps_identities,
    lemma_saved_cards_come_back, lemma_unseen_cards_stay, overlaid, rebase_offset, rebased, saved,
    untouched_by,
};
use crate::table::TimeTables;

verus! {

/// The cards and the clock as they were before a review.
#[derive(Debug)]
pub struct Snapshot {
    pub cards: Vec<Card>,
    pub tick: u32,
}

/// A session. The first card is the one to show next. `tick` counts the
/// reviews made.
#[derive(Debug)]
pub struct Session {
    pub snapshot: Option<Snapshot>,
    pub cards: Vec<Card>,
    pub tick: u32,
}

/// A session as mathematical values.
pub struct SessionView {
    /// The cards, the next to show first.
    pub cards: Seq<Card>,
    /// The clock.
    pub tick: u32,
    /// The cards and the clock to go back to, if a review can be undone.
    pub undo: Option<(Seq<Card>, u32)>,
}

impl SessionView {
    /// The card to show next.
    pub open spec fn peek(self) -> Option<Card> {
        if self.cards.len() > 0 {
            Some(self.cards[0])
        } else {
            None
        }
    }

    /// The cards with the outcome of a review recorded in the first of them,
    /// before they are put in order again.
    pub open spec fn rated(self, rating: Rating, seen: Option<u64>) -> Seq<Card> {
        if self.cards.len() > 0 {
            self.cards.update(0, self.cards[0].reviewed(rating, self.tick, seen))
        } else {
            self.cards
        }
    }

    /// The session after a review of its first card: the state before is
    /// kept for one undo, the card is rated, the clock goes on by one and the
    /// cards are put in order for the new tick. Where the session has no
    /// cards none is rated, and the clock goes on all the same.
    pub open spec fn review(self, rating: Rating, seen: Option<u64>) -> SessionView {
        SessionView {
            cards: arranged(self.rated(rating, seen), (self.tick + 1) as u32),
            tick: (self.tick + 1) as u32,
            undo: Some((self.cards, self.tick)),
        }
    }

    /// The session after an undo: the kept state, with nothing left to undo;
    /// the session itself where nothing was kept.
    pub open spec fn rollback(self) -> SessionView {
        match self.undo {
            Some((cards, tick)) => SessionView { cards, tick, undo: None },
            None => self,
        }
    }

    /// The session with persisted cards laid over its own: each persisted
    /// card takes the place of the card with its identity, and the cards are
    /// put in order again. The clock and what can be undone stay.
    pub open spec fn apply_changes(self, changes: Seq<Card>) -> SessionView {
        SessionView { cards: arranged(overlaid(self.cards, changes), self.tick), ..self }
    }

    /// The cards to persist: those that were reviewed, with their due ticks
    /// counted from the least of them, or from the clock where that is lower.
    pub open spec fn cards_to_save(self) -> Seq<Card> {
        saved(self.cards, self.tick)
    }
}

impl View for Snapshot {
    type V = (Seq<Card>, u32);

    open spec fn view(&self) -> (Seq<Card>, u32) {
        (self.cards@, self.tick)
    }
}

impl View for Session {
    type V = SessionView;

    open spec fn view(&self) -> SessionView {
        SessionView {
            cards: self.cards@,
            tick: self.tick,
            undo: match self.snapshot {
                Some(snapshot) => Some(snapshot@),
                None => None,
            },
        }
    }
}

/// The identities of `cards`, in their order.
pub open spec fn identities(cards: Seq<Card>) -> Seq<Factors> {
    cards.map_values(|card: Card| card.value)
}

/// What is stored for a profile, as mathematical values.
pub open spec fn views_of(stored: Option<Vec<Card>>) -> Option<Seq<Card>> {
    match stored {
        Some(changes) => Some(changes@),
        None => None,
    }
}

/// A deck as a new session holds it: a card for each item of the table, in
/// some order, none of them reviewed.
pub open spec fn fresh_deck(cards: Seq<Card>) -> bool {
    &&& identities(cards).to_multiset() == TimeTables::table().to_multiset()
    &&& forall|i: int|
        0 <= i < cards.len() ==> #[trigger] cards[i] == Card::fresh(
            cards[i].value.0,
            cards[i].value.1,
        )
}

/// A deck whose identities are those of the table in some order has 64
/// cards, one for each item of the table. If its cards are all unseen, it is
/// in order at tick zero.
pub proof fn lemma_deck_of_table(cards: Seq<Card>)
    requires
        identities(cards).to_multiset() == TimeTables::table().to_multiset(),
    ensures
        cards.len() == 64,
        distinct_identities(cards),
        forall|value: Factors| has_identity(cards, value) <==> value.in_table(),
        (forall|i: int| 0 <= i < cards.len() ==> (#[trigger] cards[i]).status is Unseen)
            ==> sorted_by_priority(cards, 0),
{
    let ids = identities(cards);
    let table = TimeTables::table();
    TimeTables::lemma_table_is_the_universe();
    vstd::seq_lib::to_multiset_len(ids);
    vstd::seq_lib::to_multiset_len(table);
    table.lemma_multiset_has_no_duplicates();
    ids.lemma_multiset_has_no_duplicates_conv();
    assert forall|i: int, j: int| 0 <= i < j < cards.len() implies (#[trigger] cards[i]).value
        != (#[trigger] cards[j]).value by {
        assert(ids[i] == cards[i].value);
        assert(ids[j] == cards[j].value);
    }
    assert forall|value: Factors| has_identity(cards, value) <==> value.in_table() by {
        vstd::seq_lib::to_multiset_contains(ids, value);
        vstd::seq_lib::to_multiset_contains(table, value);
        if has_identity(cards, value) {
            let i = choose|i: int| 0 <= i < cards.len() && (#[trigger] cards[i]).value == value;
            assert(ids[i] == value);
            assert(ids.contains(value));
        }
        if value.in_table() {
            assert(ids.contains(value));
            let i = choose|i: int| 0 <= i < ids.len() && ids[i] == value;
            assert(cards[i].value == value);
        }
    }
}

/// A copy of `cards`.
fn copy_of(cards: &Vec<Card>) -> (copy: Vec<Card>)
    ensures
        copy@ == cards@,
{
    let mut copy: Vec<Card> = Vec::new();
    let mut i: usize = 0;
    while i < cards.len()
        invariant
            i <= cards.len(),
            copy@ == cards@.take(i as int),
        decreases cards.len() - i,
    {
        copy.push(cards[i]);
        i += 1;
    }
    copy
}

impl Session {
    /// A session over the whole table, freshly shuffled: every card unseen,
    /// the clock at zero, nothing to undo.
    pub fn new() -> (session: Session)
        ensures
            session@.tick == 0,
            session@.undo is None,
            fresh_deck(session@.cards),
            session@.cards.len() == 64,
            forall|value: Factors| has_identity(session@.cards, value) <==> value.in_table(),
            session@.one_card_each(),
            session@.in_order(),
    {
        let items = TimeTables::gen();
        let mut cards: Vec<Card> = Vec::new();
        let mut i: usize = 0;
        while i < items.len()
            invariant
                i <= items.len(),
                cards@.len() == i,
                identities(cards@) == items@.take(i as int),
                forall|j: int|
                    0 <= j < i ==> #[trigger] cards@[j] == Card::fresh(
                        cards@[j].value.0,
                        cards@[j].value.1,
                    ),
            decreases items.len() - i,
        {
            let Factors(x, y) = items[i];
            cards.push(Card::new(x, y));
            i += 1;
        }
        assert(items@.take(items@.len() as int) == items@);
        proof {
            lemma_deck_of_table(cards@);
        }
        Session { snapshot: None, cards, tick: 0 }
    }

    /// The session at the start of a drill: a new session, with the stored
    /// cards of the profile laid over it where the profile has any.
    pub fn load(stored: Option<Vec<Card>>) -> (session: Session)
        ensures
            exists|fresh: Seq<Card>| #[trigger]
                fresh_deck(fresh) && session@ == SessionView::loaded(fresh, views_of(stored)),
            session@.tick == 0,
            session@.undo is None,
            session@.cards.len() == 64,
            forall|value: Factors| has_identity(session@.cards, value) <==> value.in_table(),
            session@.one_card_each(),
            session@.in_order(),
    {
        let mut session = Session::new();
        let ghost fresh = session@.cards;
        if let Some(changes) = stored {
            proof {
                session@.lemma_apply_changes_keeps_deck(changes@);
            }
            session.apply_changes(changes);
        }
        assert(fresh_deck(fresh) && session@ == SessionView::loaded(fresh, views_of(stored)));
        session
    }

    /// The card to show next; nothing only where the session has no cards.
    pub fn peek(&self) -> (card: Option<&Card>)
        ensures
            card == match self@.peek() {
                Some(card) => Some(&card),
                None => None,
            },
    {
        if self.cards.len() > 0 {
            Some(&self.cards[0])
        } else {
            None
        }
    }

    /// Reviews the first card with a stamp given by the caller: see
    /// [`SessionView::review`].
    pub fn review_at(&mut self, rating: Rating, seen: Option<u64>)
        requires
            old(self).tick + 1 + Intervals::highest() <= u32::MAX,
        ensures
            final(self)@ == old(self)@.review(rating, seen),
            final(self).tick == old(self).tick + 1,
    {
        self.snapshot = Some(Snapshot { cards: copy_of(&self.cards), tick: self.tick });
        if self.cards.len() > 0 {
            let card = self.cards[0].review(rating, self.tick, seen);
            self.cards.set(0, card);
        }
        self.tick += 1;
        self.rebuild();
    }

    /// Reviews the first card and stamps it with the wall clock, where that
    /// can be read. All but the stamp is as in [`SessionView::review`].
    pub fn review(&mut self, rating: Rating)
        requires
            old(self).tick + 1 + Intervals::highest() <= u32::MAX,
        ensures
            exists|seen: Option<u64>| final(self)@ == #[trigger] old(self)@.review(rating, seen),
            final(self).tick == old(self).tick + 1,
    {
        let seen = seconds_since_epoch();
        self.review_at(rating, seen);
    }

    /// Undoes the last review, once: a second call in a row changes nothing.
    pub fn rollback(&mut self)
        ensures
            final(self)@ == old(self)@.rollback(),
    {
        if let Some(snapshot) = &self.snapshot {
            self.cards = copy_of(&snapshot.cards);
            self.tick = snapshot.tick;
            self.snapshot = None;
        }
    }

    /// The cards to persist: see [`SessionView::cards_to_save`]. The session
    /// stays as it is.
    pub fn get_cards_to_save(&self) -> (cards: Vec<Card>)
        ensures
            cards@ == self@.cards_to_save(),
    {
        cards_to_save(&self.cards, self.tick)
    }

    /// Lays persisted cards over the session's own: see
    /// [`SessionView::apply_changes`].
    pub fn apply_changes(&mut self, changes: Vec<Card>)
        ensures
            final(self)@ == old(self)@.apply_changes(changes@),
    {
        lay_over(&mut self.cards, changes);
        self.rebuild();
    }

    /// Puts the cards in the presentation order for the present tick.
    pub fn rebuild(&mut self)
        ensures
            final(self)@.cards == arranged(old(self)@.cards, old(self)@.tick),
            final(self)@.tick == old(self)@.tick,
            final(self)@.undo == old(self)@.undo,
    {
        arrange(&mut self.cards, self.tick);
    }
}

impl SessionView {
    /// The session that a drill starts with, given the deck of a new session
    /// and what is stored for the profile.
    pub open spec fn loaded(fresh: Seq<Card>, stored: Option<Seq<Card>>) -> SessionView {
        let new = SessionView { cards: fresh, tick: 0, undo: None };
        match stored {
            Some(changes) => new.apply_changes(changes),
            None => new,
        }
    }

    /// A session that starts with `cards`: they are put in order for tick
    /// zero, and there is nothing to undo.
    pub open spec fn starting_with(cards: Seq<Card>) -> SessionView {
        SessionView { cards: arranged(cards, 0), tick: 0, undo: None }
    }
}

/// Two sessions with the same cards in their vectors need not be the same
/// value, so the conversion promises the view of its result, in the `ensures`
/// of `from`, and no more.
impl vstd::std_specs::convert::FromSpecImpl<Vec<Card>> for Session {
    open spec fn obeys_from_spec() -> bool {
        false
    }

    open spec fn from_spec(cards: Vec<Card>) -> Session {
        choose|session: Session| session@ == SessionView::starting_with(cards@)
    }
}

impl From<Vec<Card>> for Session {
    /// A session that starts with `cards`: see [`SessionView::starting_with`].
    fn from(cards: Vec<Card>) -> (session: Session)
        ensures
            session@ == SessionView::starting_with(cards@),
    {
        let mut session = Session { snapshot: None, cards, tick: 0 };
        session.rebuild();
        session
    }
}

impl SessionView {
    /// The cards stand in the presentation order for the clock, and the cards
    /// kept for an undo in the order for theirs.
    pub open spec fn in_order(self) -> bool {
        &&& sorted_by_priority(self.cards, self.tick)
        &&& self.undo matches Some((cards, tick)) ==> sorted_by_priority(cards, tick)
    }

    /// No identity occurs twice, and what is kept for an undo holds the same
    /// identities, each once.
    pub open spec fn one_card_each(self) -> bool {
        &&& distinct_identities(self.cards)
        &&& self.undo matches Some((cards, _)) ==> {
            &&& distinct_identities(cards)
            &&& forall|value: Factors|
                has_identity(cards, value) <==> has_identity(self.cards, value)
        }
    }

    /// A session that starts with a deck is in order.
    pub proof fn lemma_starting_in_order(cards: Seq<Card>)
        ensures
            Self::starting_with(cards).in_order(),
            distinct_identities(cards) ==> Self::starting_with(cards).one_card_each(),
            forall|value: Factors|
                has_identity(Self::starting_with(cards).cards, value) <==> has_identity(
                    cards,
                    value,
                ),
    {
        lemma_arranged_is_sorted_permutation(cards, 0);
        lemma_arranged_keeps_identities(cards, 0);
    }

    /// A review moves the clock on by one tick, keeps the state before for
    /// an undo, and leaves the cards in order.
    pub proof fn lemma_review_keeps_order(self, rating: Rating, seen: Option<u64>)
        requires
            self.tick < u32::MAX,
        ensures
            self.review(rating, seen).tick == self.tick + 1,
            self.review(rating, seen).undo == Some((self.cards, self.tick)),
            self.in_order() ==> self.review(rating, seen).in_order(),
    {
        lemma_arranged_is_sorted_permutation(
            self.rated(rating, seen),
            (self.tick + 1) as u32,
        );
    }

    /// A review changes one card, the first, and no identity: the cards
    /// after it are the cards before it with the first one rated, in another
    /// order.
    pub proof fn lemma_review_rates_first_only(self, rating: Rating, seen: Option<u64>)
        ensures
            self.review(rating, seen).cards.len() == self.cards.len(),
            self.review(rating, seen).cards.to_multiset() == self.rated(
                rating,
                seen,
            ).to_multiset(),
            forall|i: int|
                0 < i < self.cards.len() ==> self.rated(rating, seen)[i] == self.cards[i],
            forall|i: int|
                0 <= i < self.cards.len() ==> (#[trigger] self.rated(rating, seen)[i]).value
                    == self.cards[i].value,
            forall|value: Factors|
                has_identity(self.review(rating, seen).cards, value) <==> has_identity(
                    self.cards,
                    value,
                ),
            self.one_card_each() ==> self.review(rating, seen).one_card_each(),
    {
        let rated = self.rated(rating, seen);
        let tick = (self.tick + 1) as u32;
        lemma_arranged_is_sorted_permutation(rated, tick);
        lemma_arranged_keeps_identities(rated, tick);
        assert forall|value: Factors| has_identity(rated, value) <==> has_identity(
            self.cards,
            value,
        ) by {
            if has_identity(rated, value) {
                let i = choose|i: int| 0 <= i < rated.len() && (#[trigger] rated[i]).value == value;
                assert(self.cards[i].value == value);
            }
            if has_identity(self.cards, value) {
                let i = choose|i: int|
                    0 <= i < self.cards.len() && (#[trigger] self.cards[i]).value == value;
                assert(rated[i].value == value);
            }
        }
        let after = self.review(rating, seen);
        assert(after.cards == arranged(rated, tick));
        assert forall|value: Factors| has_identity(after.cards, value) <==> has_identity(
            self.cards,
            value,
        ) by {
            assert(has_identity(arranged(rated, tick), value) <==> has_identity(rated, value));
            assert(has_identity(rated, value) <==> has_identity(self.cards, value));
        }
        if self.one_card_each() {
            assert forall|i: int, j: int| 0 <= i < j < rated.len() implies (#[trigger] rated[i]).value
                != (#[trigger] rated[j]).value by {
                assert(self.cards[i].value != self.cards[j].value);
            }
            assert(distinct_identities(rated));
            assert(distinct_identities(after.cards));
        }
    }

    /// The card to show next is read off the cards and nothing else: however
    /// often it is asked for, it is the same card as long as the cards stay
    /// as they are, and there is one as long as there is a card at all.
    pub proof fn lemma_peek_is_repeatable(self, other: SessionView)
        requires
            self.cards == other.cards,
        ensures
            self.peek() == other.peek(),
            self.peek() is Some <==> self.cards.len() > 0,
            self.peek() matches Some(card) ==> card == self.cards[0],
    {
    }

    /// An undo right after a review brings back the cards, in their order,
    /// and the clock as they were before the review. A second undo in a row
    /// changes nothing.
    pub proof fn lemma_rollback_undoes_review(self, rating: Rating, seen: Option<u64>)
        ensures
            self.review(rating, seen).rollback().cards == self.cards,
            self.review(rating, seen).rollback().tick == self.tick,
            self.review(rating, seen).rollback().undo is None,
            self.review(rating, seen).rollback().rollback() == self.review(
                rating,
                seen,
            ).rollback(),
    {
    }

    /// An undo leaves nothing to undo, so the next one changes nothing. It
    /// keeps the cards in order and each identity once.
    pub proof fn lemma_rollback_once(self)
        ensures
            self.rollback().undo is None,
            self.rollback().rollback() == self.rollback(),
            self.undo is None ==> self.rollback() == self,
            self.in_order() ==> self.rollback().in_order(),
            self.one_card_each() ==> self.rollback().one_card_each(),
            forall|value: Factors|
                self.one_card_each() ==> (has_identity(self.rollback().cards, value)
                    <==> has_identity(self.cards, value)),
    {
    }

    /// Laying persisted cards over the deck changes neither the clock nor
    /// what can be undone, nor the identities on the deck, and leaves the
    /// cards in order.
    pub proof fn lemma_apply_changes_keeps_deck(self, changes: Seq<Card>)
        ensures
            self.apply_changes(changes).tick == self.tick,
            self.apply_changes(changes).undo == self.undo,
            self.apply_changes(changes).cards.len() == self.cards.len(),
            self.in_order() ==> self.apply_changes(changes).in_order(),
            self.one_card_each() ==> self.apply_changes(changes).one_card_each(),
            forall|value: Factors|
                has_identity(self.apply_changes(changes).cards, value) <==> has_identity(
                    self.cards,
                    value,
                ),
    {
        let laid = overlaid(self.cards, changes);
        lemma_overlaid_keeps_identities(self.cards, changes);
        lemma_arranged_is_sorted_permutation(laid, self.tick);
        lemma_arranged_keeps_identities(laid, self.tick);
    }

    /// In a session that is in order, the card to show next is one that no
    /// card goes before: a learning card that is due, if there is one, and
    /// the one due first among them; else a card never seen; else a learned
    /// card, the one due first; and a learning card that is not due only
    /// where the deck holds nothing else.
    pub proof fn lemma_peek_is_first_in_line(self)
        requires
            self.in_order(),
            self.cards.len() > 0,
        ensures
            self.peek() == Some(self.cards[0]),
            forall|i: int|
                0 <= i < self.cards.len() ==> priority(self.cards[0], self.tick) <= priority(
                    #[trigger] self.cards[i],
                    self.tick,
                ),
            forall|i: int|
                0 <= i < self.cards.len() ==> class_rank(self.cards[0].status, self.tick)
                    <= class_rank((#[trigger] self.cards[i]).status, self.tick),
    {
        assert forall|i: int| 0 <= i < self.cards.len() implies priority(
            self.cards[0],
            self.tick,
        ) <= priority(#[trigger] self.cards[i], self.tick) by {
            if i > 0 {
                assert(priority(self.cards[0], self.tick) <= priority(self.cards[i], self.tick));
            }
        }
    }
}

impl SessionView {
    /// What a session saves, the next session gets back. Let the next session
    /// start with a fresh deck of unseen cards and lay the saved cards over
    /// it. Then each scheduled card of the old session whose identity the
    /// fresh deck holds is on the new deck as it was, but due earlier by the
    /// offset, which is one number for all cards. Each card of the fresh deck
    /// that no scheduled card has replaced is on the new deck as it was, and
    /// these cards, the unseen ones of the new deck, stand in the order of
    /// the fresh deck.
    pub proof fn lemma_round_trip(self, fresh: Seq<Card>)
        requires
            distinct_identities(self.cards),
            distinct_identities(fresh),
            forall|j: int| 0 <= j < fresh.len() ==> (#[trigger] fresh[j]).status is Unseen,
        ensures
            ({
                let offset = rebase_offset(self.cards, self.tick);
                let loaded = Self::starting_with(fresh).apply_changes(self.cards_to_save());
                &&& loaded.tick == 0
                &&& loaded.undo is None
                &&& loaded.cards.len() == fresh.len()
                &&& loaded.in_order()
                &&& forall|i: int|
                    0 <= i < self.cards.len() && (#[trigger] self.cards[i]).is_scheduled()
                        && has_identity(fresh, self.cards[i].value) ==> loaded.cards.contains(
                        rebased(self.cards[i], offset),
                    )
                &&& forall|j: int|
                    0 <= j < fresh.len() && !has_scheduled(self.cards, (#[trigger] fresh[j]).value)
                        ==> loaded.cards.contains(fresh[j])
                &&& loaded.cards.filter(unseen()) == fresh.filter(untouched_by(self.cards))
            }),
    {
        let offset = rebase_offset(self.cards, self.tick);
        let kept = self.cards_to_save();
        let start = Self::starting_with(fresh);
        let loaded = start.apply_changes(kept);
        assert(sorted_by_priority(fresh, 0)) by {
            assert forall|i: int, j: int| 0 <= i < j < fresh.len() implies priority(fresh[i], 0)
                <= priority(fresh[j], 0) by {
                assert(fresh[i].status is Unseen);
                assert(fresh[j].status is Unseen);
            }
        }
        lemma_sorted_stays(fresh, 0);
        assert(start.cards == fresh);
        let laid = overlaid(fresh, kept);
        lemma_saved_cards_come_back(self.cards, self.tick, fresh);
        lemma_unseen_cards_stay(self.cards, self.tick, fresh);
        lemma_arranged_is_sorted_permutation(laid, 0);
        lemma_unseen_keep_their_order(laid, 0);
        assert(loaded.cards == arranged(laid, 0));
        assert forall|i: int|
            0 <= i < self.cards.len() && (#[trigger] self.cards[i]).is_scheduled() && has_identity(
                fresh,
                self.cards[i].value,
            ) implies loaded.cards.contains(rebased(self.cards[i], offset)) by {
            let j = choose|j: int|
                0 <= j < fresh.len() && (#[trigger] fresh[j]).value == self.cards[i].value;
            assert(laid[j] == rebased(self.cards[i], offset));
            assert(laid.contains(laid[j]));
        }
        assert forall|j: int|
            0 <= j < fresh.len() && !has_scheduled(
                self.cards,
                (#[trigger] fresh[j]).value,
            ) implies loaded.cards.contains(fresh[j]) by {
            assert(laid[j] == fresh[j]);
            assert(laid.contains(laid[j]));
        }
    }
}

} // verus!
