//! What is shown: the card, the verdict on the last one, the summary at the
//! end. The pieces are values; putting them on a terminal is left to the
//! caller.

use vstd::prelude::*;
use crate::card::{Card, Factors, Rating};
use crate::state::{RatedCard, RatedCardView, State, StateView, Summary};
use crate::text::{decimal, push_decimal};

verus! {

/// A color to write in.
#[derive(Clone, Copy, Debug, PartialEq, Eq)]
pub enum Tone {
    Green,
    Red,
}

/// One thing to do to the screen.
#[derive(Clone, Debug, PartialEq, Eq)]
pub enum Piece {
    Print(String),
    Foreground(Tone),
    ResetColor,
    NextLine,
}

/// A piece as mathematical values.
pub enum PieceView {
    Print(Seq<char>),
    Foreground(Tone),
    ResetColor,
    NextLine,
}

impl View for Piece {
    type V = PieceView;

    open spec fn view(&self) -> PieceView {
        match self {
            Piece::Print(text) => PieceView::Print(text@),
            Piece::Foreground(tone) => PieceView::Foreground(*tone),
            Piece::ResetColor => PieceView::ResetColor,
            Piece::NextLine => PieceView::NextLine,
        }
    }
}

/// The views of `pieces`, in their order.
pub open spec fn views(pieces: Seq<Piece>) -> Seq<PieceView> {
    pieces.map_values(|piece: Piece| piece@)
}

/// An item as it is asked: the two factors around an x.
pub open spec fn item_text(value: Factors) -> Seq<char> {
    decimal(value.0 as nat) + " x "@ + decimal(value.1 as nat)
}

/// "(s)" behind a count above one.
pub open spec fn plural_text(count: nat) -> Seq<char> {
    if count > 1 {
        "(s)"@
    } else {
        ""@
    }
}

/// The summary in words.
pub open spec fn summary_text(ok: nat, ko: nat) -> Seq<char> {
    "Summary: "@ + decimal(ok) + " OK"@ + plural_text(ok) + "; "@ + decimal(ko) + " KO"@
        + plural_text(ko)
}

/// The verdict on the card reviewed last: the item with the answer in green
/// after a good answer and in red after a bad one, and with the right answer
/// behind a wrong one that was typed.
pub open spec fn verdict_pieces(rated: RatedCardView) -> Seq<PieceView> {
    let item = item_text(rated.card.value);
    let answer = decimal(rated.answer as nat);
    match rated.rating {
        Rating::Good => seq![
            PieceView::Print(item + " = "@ + answer),
            PieceView::Foreground(Tone::Green),
            PieceView::Print(" OK"@),
            PieceView::ResetColor,
            PieceView::NextLine,
        ],
        Rating::Bad => match rated.input {
            Some(input) => seq![
                PieceView::Print(item + " != "@ + input),
                PieceView::Foreground(Tone::Red),
                PieceView::Print(" KO!!!"@),
                PieceView::ResetColor,
                PieceView::Print(" => "@ + answer),
                PieceView::ResetColor,
                PieceView::NextLine,
            ],
            None => seq![
                PieceView::Print(item + " = "@ + answer),
                PieceView::Foreground(Tone::Red),
                PieceView::Print(" KO!!!"@),
                PieceView::ResetColor,
                PieceView::NextLine,
            ],
        },
    }
}

/// The card shown: the item, and its answer where that is visible.
pub open spec fn question_pieces(card: Card, answer_visible: bool) -> Seq<PieceView> {
    let question = PieceView::Print(item_text(card.value) + " = "@);
    if answer_visible {
        seq![question, PieceView::Print(decimal(card.value.product() as nat))]
    } else {
        seq![question]
    }
}

/// All that is shown for a state, on a cleared screen: the verdict on the
/// last card, if there is one, and below it the card shown, if there is
/// one.
pub open spec fn frame(state: StateView) -> Seq<PieceView> {
    (match state.last_card {
        Some(rated) => verdict_pieces(rated),
        None => Seq::empty(),
    }) + (match state.current_card {
        Some(card) => question_pieces(card, state.answer_visible),
        None => Seq::empty(),
    })
}

impl Factors {
    /// The item as it is asked: see [`item_text`].
    pub fn text(&self) -> (text: String)
        ensures
            text@ == item_text(*self),
    {
        let mut text = String::new();
        push_decimal(&mut text, self.0 as usize);
        text.push_str(" x ");
        push_decimal(&mut text, self.1 as usize);
        assert(text@ =~= item_text(*self));
        text
    }
}

/// "(s)" behind a count above one.
fn plural(count: usize) -> (text: &'static str)
    ensures
        text@ == plural_text(count as nat),
{
    if count > 1 {
        "(s)"
    } else {
        ""
    }
}

impl Summary {
    /// The summary in words: see [`summary_text`].
    pub fn text(&self) -> (text: String)
        ensures
            text@ == summary_text(self.ok as nat, self.ko as nat),
    {
        let mut text = String::new();
        text.push_str("Summary: ");
        push_decimal(&mut text, self.ok);
        text.push_str(" OK");
        text.push_str(plural(self.ok));
        text.push_str("; ");
        push_decimal(&mut text, self.ko);
        text.push_str(" KO");
        text.push_str(plural(self.ko));
        assert(text@ =~= summary_text(self.ok as nat, self.ko as nat));
        text
    }
}

/// Two pieces of text in one string.
fn two(first: &str, second: &str) -> (text: String)
    ensures
        text@ == first@ + second@,
{
    let mut text = String::new();
    text.push_str(first);
    text.push_str(second);
    assert(text@ =~= first@ + second@);
    text
}

/// Three pieces of text in one string.
fn three(first: &str, second: &str, third: &str) -> (text: String)
    ensures
        text@ == first@ + second@ + third@,
{
    let mut text = String::new();
    text.push_str(first);
    text.push_str(second);
    text.push_str(third);
    assert(text@ =~= first@ + second@ + third@);
    text
}

/// `text` as a string of its own.
fn owned(text: &str) -> (copy: String)
    ensures
        copy@ == text@,
{
    let mut copy = String::new();
    copy.push_str(text);
    assert(copy@ =~= text@);
    copy
}

/// `n` in decimal.
fn number(n: u8) -> (text: String)
    ensures
        text@ == decimal(n as nat),
{
    let mut text = String::new();
    push_decimal(&mut text, n as usize);
    assert(text@ =~= decimal(n as nat));
    text
}

impl RatedCard {
    /// The verdict on the card: see [`verdict_pieces`].
    pub fn pieces(&self) -> (pieces: Vec<Piece>)
        ensures
            views(pieces@) == verdict_pieces(self@),
    {
        let item = self.card.value.text();
        let answer = number(self.answer);
        let mut pieces: Vec<Piece> = Vec::new();
        match self.rating {
            Rating::Good => {
                pieces.push(Piece::Print(three(item.as_str(), " = ", answer.as_str())));
                pieces.push(Piece::Foreground(Tone::Green));
                pieces.push(Piece::Print(owned(" OK")));
                pieces.push(Piece::ResetColor);
                pieces.push(Piece::NextLine);
            },
            Rating::Bad => {
                if let Some(input) = &self.input {
                    pieces.push(Piece::Print(three(item.as_str(), " != ", input.as_str())));
                    pieces.push(Piece::Foreground(Tone::Red));
                    pieces.push(Piece::Print(owned(" KO!!!")));
                    pieces.push(Piece::ResetColor);
                    pieces.push(Piece::Print(two(" => ", answer.as_str())));
                    pieces.push(Piece::ResetColor);
                    pieces.push(Piece::NextLine);
                } else {
                    pieces.push(Piece::Print(three(item.as_str(), " = ", answer.as_str())));
                    pieces.push(Piece::Foreground(Tone::Red));
                    pieces.push(Piece::Print(owned(" KO!!!")));
                    pieces.push(Piece::ResetColor);
                    pieces.push(Piece::NextLine);
                }
            },
        }
        assert(views(pieces@) =~= verdict_pieces(self@));
        pieces
    }
}

impl State {
    /// All that is shown for the state: see [`frame`].
    pub fn frame(&self) -> (pieces: Vec<Piece>)
        requires
            self@.wf(),
        ensures
            views(pieces@) == frame(self@),
    {
        let mut pieces: Vec<Piece> = match &self.last_card {
            Some(rated) => rated.pieces(),
            None => Vec::new(),
        };
        let ghost verdict = views(pieces@);
        if let Some(card) = &self.current_card {
            let item = card.value.text();
            pieces.push(Piece::Print(two(item.as_str(), " = ")));
            if self.answer_visible {
                let expected = card.value.compute();
                pieces.push(Piece::Print(number(expected)));
            }
            assert(views(pieces@) =~= verdict + question_pieces(*card, self.answer_visible));
        }
        assert(views(pieces@) =~= frame(self@));
        pieces
    }
}

} // verus!
