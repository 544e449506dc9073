//! What the drill shows and counts, and how it answers to what the learner
//! does.

use vstd::prelude::*;
use crate::card::{Card, Rating};
use crate::clock::seconds_since_epoch;
use crate::intervals::Intervals;
use crate::order::has_identity;
use crate::session::{Session, SessionView};
use crate::text::{decimal, decimal_text};

verus! {

/// What the learner does.
#[derive(Clone, Debug)]
pub enum Action {
    /// An answer typed in.
    Input(String),
    /// The learner's own verdict on the card shown.
    Review(Rating),
    ShowAnswer,
    /// Take back the last review.
    Undo,
    Exit,
}

/// An action as mathematical values.
pub enum ActionView {
    Input(Seq<char>),
    Review(Rating),
    ShowAnswer,
    Undo,
    Exit,
}

impl View for Action {
    type V = ActionView;

    open spec fn view(&self) -> ActionView {
        match self {
            Action::Input(input) => ActionView::Input(input@),
            Action::Review(rating) => ActionView::Review(*rating),
            Action::ShowAnswer => ActionView::ShowAnswer,
            Action::Undo => ActionView::Undo,
            Action::Exit => ActionView::Exit,
        }
    }
}

/// How many cards were answered well and how many badly.
pub struct Summary {
    pub ok: usize,
    pub ko: usize,
}

impl Summary {
    /// Nothing answered yet.
    pub fn new() -> (summary: Summary)
        ensures
            summary.ok == 0,
            summary.ko == 0,
    {
        let ok: usize = 0;
        let ko: usize = 0;
        Summary { ok, ko }
    }
}

/// The card reviewed last, with what became of it.
#[derive(Clone)]
pub struct RatedCard {
    pub card: Card,
    /// What the learner typed, where the answer was typed.
    pub input: Option<String>,
    /// The expected answer.
    pub answer: u8,
    pub rating: Rating,
}

/// A rated card as mathematical values.
pub struct RatedCardView {
    pub card: Card,
    pub input: Option<Seq<char>>,
    pub answer: u8,
    pub rating: Rating,
}

impl View for RatedCard {
    type V = RatedCardView;

    open spec fn view(&self) -> RatedCardView {
        RatedCardView {
            card: self.card,
            input: match self.input {
                Some(input) => Some(input@),
                None => None,
            },
            answer: self.answer,
            rating: self.rating,
        }
    }
}

/// The state of the drill.
pub struct State {
    /// The card reviewed last, until it is taken back.
    pub last_card: Option<RatedCard>,
    pub answer_visible: bool,
    /// The card shown; none once the drill is over.
    pub current_card: Option<Card>,
    pub summary: Summary,
    /// In an examination the answer's visibility is fixed from the start.
    pub examination: bool,
}

/// The state of the drill as mathematical values.
pub struct StateView {
    pub last_card: Option<RatedCardView>,
    pub answer_visible: bool,
    pub current_card: Option<Card>,
    pub ok: int,
    pub ko: int,
    pub examination: bool,
}

impl View for State {
    type V = StateView;

    open spec fn view(&self) -> StateView {
        StateView {
            last_card: match self.last_card {
                Some(rated) => Some(rated@),
                None => None,
            },
            answer_visible: self.answer_visible,
            current_card: self.current_card,
            ok: self.summary.ok as int,
            ko: self.summary.ko as int,
            examination: self.examination,
        }
    }
}

impl SessionView {
    /// Every card of the deck, and of what is kept for an undo, has an
    /// answer that fits in a byte.
    pub open spec fn answerable(self) -> bool {
        &&& forall|i: int|
            0 <= i < self.cards.len() ==> (#[trigger] self.cards[i]).value.product() <= u8::MAX
        &&& self.undo matches Some((cards, _)) ==> forall|i: int|
            0 <= i < cards.len() ==> (#[trigger] cards[i]).value.product() <= u8::MAX
    }
}

impl StateView {
    /// The counts cover the card reviewed last, and the card shown has an
    /// answer that fits in a byte.
    pub open spec fn wf(self) -> bool {
        &&& 0 <= self.ok
        &&& 0 <= self.ko
        &&& self.last_card matches Some(rated) ==> match rated.rating {
            Rating::Good => 1 <= self.ok,
            Rating::Bad => 1 <= self.ko,
        }
        &&& self.current_card matches Some(card) ==> card.value.product() <= u8::MAX
    }

    /// The state with the answer shown, but in an examination.
    pub open spec fn show_answer(self) -> StateView {
        if self.examination {
            self
        } else {
            StateView { answer_visible: true, ..self }
        }
    }

    /// The state with the answer hidden, but in an examination.
    pub open spec fn hide_answer(self) -> StateView {
        if self.examination {
            self
        } else {
            StateView { answer_visible: false, ..self }
        }
    }

    /// The state with one more card counted.
    pub open spec fn count(self, rating: Rating) -> StateView {
        match rating {
            Rating::Good => StateView { ok: self.ok + 1, ..self },
            Rating::Bad => StateView { ko: self.ko + 1, ..self },
        }
    }

    /// The state with the card reviewed last taken out of the counts.
    pub open spec fn uncount_last(self) -> StateView {
        match self.last_card {
            Some(rated) => match rated.rating {
                Rating::Good => StateView { ok: self.ok - 1, ..self },
                Rating::Bad => StateView { ko: self.ko - 1, ..self },
            },
            None => self,
        }
    }

    /// The verdict on a typed answer to `card`: good if it is the product in
    /// decimal, digit for digit.
    pub open spec fn verdict(card: Card, input: Seq<char>) -> Rating {
        if input == decimal(card.value.product() as nat) {
            Rating::Good
        } else {
            Rating::Bad
        }
    }

    /// The state and the session after the card shown was given `rating`:
    /// the card is counted and remembered as the last one, the session
    /// reviews its first card, and the card it then puts first is shown,
    /// with its answer hidden.
    pub open spec fn rate(
        self,
        session: SessionView,
        card: Card,
        rating: Rating,
        input: Option<Seq<char>>,
        seen: Option<u64>,
    ) -> (StateView, SessionView) {
        let next = session.review(rating, seen);
        let rated = RatedCardView { card, input, answer: card.value.product() as u8, rating };
        (
            StateView {
                last_card: Some(rated),
                current_card: next.peek(),
                ..self.count(rating)
            }.hide_answer(),
            next,
        )
    }

    /// The state and the session after `action`. Once no card is shown the
    /// drill is over and nothing changes any more. `seen` is the stamp that
    /// a review puts on the card.
    pub open spec fn update(self, session: SessionView, action: ActionView, seen: Option<u64>) -> (
        StateView,
        SessionView,
    ) {
        match self.current_card {
            None => (self, session),
            Some(card) => match action {
                ActionView::Input(input) => self.rate(
                    session,
                    card,
                    Self::verdict(card, input),
                    Some(input),
                    seen,
                ),
                ActionView::Review(rating) => self.rate(session, card, rating, None, seen),
                ActionView::ShowAnswer => (self.show_answer(), session),
                ActionView::Undo => {
                    let back = session.rollback();
                    (
                        StateView {
                            last_card: None,
                            current_card: back.peek(),
                            ..self.uncount_last()
                        }.show_answer(),
                        back,
                    )
                },
                ActionView::Exit => (StateView { current_card: None, ..self }, session),
            },
        }
    }
}

/// A copy of the card that `session` shows next.
fn next_card(session: &Session) -> (card: Option<Card>)
    ensures
        card == session@.peek(),
{
    match session.peek() {
        Some(card) => Some(*card),
        None => None,
    }
}

impl State {
    /// The state at the start of a drill on `session`: its first card is
    /// shown and nothing is counted. In an examination the answer is visible
    /// from the start, and stays so.
    pub fn new(session: &Session, examination: bool) -> (state: State)
        ensures
            state@ == (StateView {
                last_card: None,
                answer_visible: examination,
                current_card: session@.peek(),
                ok: 0,
                ko: 0,
                examination,
            }),
            session@.answerable() ==> state@.wf(),
    {
        State {
            last_card: None,
            current_card: next_card(session),
            answer_visible: examination,
            summary: Summary::new(),
            examination,
        }
    }

    /// Shows the answer, but in an examination.
    pub fn show_answer(&mut self)
        ensures
            final(self)@ == old(self)@.show_answer(),
    {
        if !self.examination {
            self.answer_visible = true
        }
    }

    /// Hides the answer, but in an examination.
    pub fn hide_answer(&mut self)
        ensures
            final(self)@ == old(self)@.hide_answer(),
    {
        if !self.examination {
            self.answer_visible = false
        }
    }

    /// Counts the card shown, remembers it as the last one, has the session
    /// review it and shows the card that the session then puts first.
    fn rate(
        &mut self,
        session: &mut Session,
        card: Card,
        rating: Rating,
        input: Option<String>,
        seen: Option<u64>,
    )
        requires
            old(self)@.wf(),
            old(self).current_card == Some(card),
            old(self).summary.ok < usize::MAX,
            old(self).summary.ko < usize::MAX,
            old(session)@.answerable(),
            old(session).tick + 1 + Intervals::highest() <= u32::MAX,
        ensures
            (final(self)@, final(session)@) == old(self)@.rate(
                old(session)@,
                card,
                rating,
                match input {
                    Some(input) => Some(input@),
                    None => None,
                },
                seen,
            ),
            final(self)@.wf(),
            final(session)@.answerable(),
    {
        match rating {
            Rating::Good => self.summary.ok += 1,
            Rating::Bad => self.summary.ko += 1,
        }
        let answer = card.value.compute();
        self.last_card = Some(RatedCard { card, rating, input, answer });
        session.review_at(rating, seen);
        proof {
            old(session)@.lemma_review_keeps_answerable(rating, seen);
        }
        self.current_card = next_card(session);
        self.hide_answer();
    }

    /// Answers to `action` with a stamp given by the caller: see
    /// [`StateView::update`].
    pub fn update_at(&mut self, session: &mut Session, action: Action, seen: Option<u64>)
        requires
            old(self)@.wf(),
            old(self).summary.ok < usize::MAX,
            old(self).summary.ko < usize::MAX,
            old(session)@.answerable(),
            old(session).tick + 1 + Intervals::highest() <= u32::MAX,
        ensures
            (final(self)@, final(session)@) == old(self)@.update(old(session)@, action@, seen),
            final(self)@.wf(),
            final(session)@.answerable(),
    {
        if let Some(card) = self.current_card {
            match action {
                Action::Input(input) => {
                    let expected = card.value.compute();
                    let rating = if input == decimal_text(expected as usize) {
                        Rating::Good
                    } else {
                        Rating::Bad
                    };
                    self.rate(session, card, rating, Some(input), seen);
                },
                Action::Review(rating) => {
                    self.rate(session, card, rating, None, seen);
                },
                Action::ShowAnswer => self.show_answer(),
                Action::Undo => {
                    session.rollback();
                    if let Some(last_card) = &self.last_card {
                        match last_card.rating {
                            Rating::Good => self.summary.ok -= 1,
                            Rating::Bad => self.summary.ko -= 1,
                        }
                    }
                    self.last_card = None;
                    self.show_answer();
                    self.current_card = next_card(session);
                },
                Action::Exit => self.current_card = None,
            }
        }
    }

    /// Answers to `action`. A review is stamped with the wall clock, where
    /// that can be read; all but the stamp is as in [`StateView::update`].
    pub fn update(&mut self, session: &mut Session, action: Action)
        requires
            old(self)@.wf(),
            old(self).summary.ok < usize::MAX,
            old(self).summary.ko < usize::MAX,
            old(session)@.answerable(),
            old(session).tick + 1 + Intervals::highest() <= u32::MAX,
        ensures
            exists|seen: Option<u64>|
                (final(self)@, final(session)@) == #[trigger] old(self)@.update(
                    old(session)@,
                    action@,
                    seen,
                ),
            final(self)@.wf(),
            final(session)@.answerable(),
    {
        let seen = seconds_since_epoch();
        self.update_at(session, action, seen);
    }
}

impl SessionView {
    /// A review keeps every answer within a byte.
    pub proof fn lemma_review_keeps_answerable(self, rating: Rating, seen: Option<u64>)
        requires
            self.answerable(),
        ensures
            self.review(rating, seen).answerable(),
    {
        let after = self.review(rating, seen);
        self.lemma_review_rates_first_only(rating, seen);
        assert forall|i: int| 0 <= i < after.cards.len() implies (#[trigger] after.cards[i]).value.product()
            <= u8::MAX by {
            let value = after.cards[i].value;
            assert(has_identity(after.cards, value));
            assert(has_identity(self.cards, value));
            let j = choose|j: int|
                0 <= j < self.cards.len() && (#[trigger] self.cards[j]).value == value;
        }
    }
}

} // verus!
