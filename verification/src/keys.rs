//! From keys to actions: what each key means while a card is shown.
//!
//! Digits are collected in a line until Enter or the space bar sends them as
//! an answer. The arrow keys rate the card or take the last review back. Any
//! other key shows the answer while it is hidden.

use vstd::prelude::*;
use crate::card::Rating;
use crate::state::{Action, ActionView, State};
use crate::text::{char_is_digit, is_digit};

verus! {

/// A key, as far as the drill tells keys apart.
#[derive(Clone, Copy, Debug, PartialEq, Eq)]
pub enum Key {
    Up,
    Right,
    Left,
    Enter,
    Backspace,
    Char(char),
    Other,
}

/// What the terminal reports.
#[derive(Clone, Copy, Debug, PartialEq, Eq)]
pub enum Event {
    /// A key was pressed. `control` says that Control, and no other
    /// modifier, was held.
    Key { key: Key, control: bool },
    /// Anything else: the mouse, a new size.
    Other,
}

/// What follows from one event.
#[derive(Clone, Debug)]
pub enum Step {
    /// The learner has acted.
    Done(Action),
    /// A digit joined the line and is to be echoed.
    Typed(char),
    /// The last digit left the line and is to be wiped off the screen.
    Erased,
    /// Nothing happened.
    Ignored,
}

/// A step as mathematical values.
pub enum StepView {
    Done(ActionView),
    Typed(char),
    Erased,
    Ignored,
}

impl View for Step {
    type V = StepView;

    open spec fn view(&self) -> StepView {
        match self {
            Step::Done(action) => StepView::Done(action@),
            Step::Typed(ch) => StepView::Typed(*ch),
            Step::Erased => StepView::Erased,
            Step::Ignored => StepView::Ignored,
        }
    }
}

/// What a key press that is none of the drill's keys does: it shows the
/// answer, if that is hidden.
pub open spec fn any_key(answer_visible: bool) -> StepView {
    if answer_visible {
        StepView::Ignored
    } else {
        StepView::Done(ActionView::ShowAnswer)
    }
}

/// The step that follows from `event`, and the line after it. `can_undo`
/// says that there is a last card to take back.
pub open spec fn step_on(
    can_undo: bool,
    answer_visible: bool,
    line: Seq<char>,
    event: Event,
) -> (StepView, Seq<char>) {
    match event {
        Event::Other => (StepView::Ignored, line),
        Event::Key { key, control } => if control && key == Key::Char('c') {
            (StepView::Done(ActionView::Exit), line)
        } else if key == Key::Up && can_undo {
            (StepView::Done(ActionView::Undo), line)
        } else if key == Key::Right && answer_visible {
            (StepView::Done(ActionView::Review(Rating::Good)), line)
        } else if key == Key::Left {
            (StepView::Done(ActionView::Review(Rating::Bad)), line)
        } else if (key == Key::Enter || key == Key::Char(' ')) && line.len() > 0 {
            (StepView::Done(ActionView::Input(line)), line)
        } else if key == Key::Backspace {
            if line.len() > 0 {
                (StepView::Erased, line.drop_last())
            } else {
                (StepView::Ignored, line)
            }
        } else {
            match key {
                Key::Char(ch) => if is_digit(ch) {
                    (StepView::Typed(ch), line.push(ch))
                } else {
                    (any_key(answer_visible), line)
                },
                _ => (any_key(answer_visible), line),
            }
        },
    }
}

impl Action {
    /// Takes one event while `state` is shown and `line` holds the digits
    /// typed so far: see [`step_on`].
    pub fn on_event(state: &State, line: &mut String, event: Event) -> (step: Step)
        ensures
            (step@, final(line)@) == step_on(
                state.last_card is Some,
                state.answer_visible,
                old(line)@,
                event,
            ),
    {
        let filled = !line.as_str().is_empty();
        match event {
            Event::Other => Step::Ignored,
            Event::Key { key, control } => match key {
                Key::Char('c') if control => Step::Done(Action::Exit),
                Key::Up if state.last_card.is_some() => Step::Done(Action::Undo),
                Key::Right if state.answer_visible => Step::Done(Action::Review(Rating::Good)),
                Key::Left => Step::Done(Action::Review(Rating::Bad)),
                Key::Enter if filled => Step::Done(Action::Input(line.clone())),
                Key::Char(' ') if filled => Step::Done(Action::Input(line.clone())),
                Key::Backspace => {
                    if filled {
                        line.pop();
                        Step::Erased
                    } else {
                        Step::Ignored
                    }
                },
                Key::Char(ch) => {
                    if char_is_digit(ch) {
                        line.push(ch);
                        Step::Typed(ch)
                    } else {
                        Self::on_any_key(state)
                    }
                },
                _ => Self::on_any_key(state),
            },
        }
    }

    /// What a key that is none of the drill's keys does: see [`any_key`].
    fn on_any_key(state: &State) -> (step: Step)
        ensures
            step@ == any_key(state.answer_visible),
    {
        if state.answer_visible {
            Step::Ignored
        } else {
            Step::Done(Action::ShowAnswer)
        }
    }
}

} // verus!
