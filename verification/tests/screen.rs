use multa::{
    Action, Card, Factors, Piece, RatedCard, Rating, Session, State, Status, Summary, Tone,
};

fn item(x: u8, y: u8) -> Card {
    Card {
        status: Status::Unseen,
        interval: 2,
        value: Factors(x, y),
        last_result: None,
        last_seen: None,
    }
}

fn print(text: &str) -> Piece {
    Piece::Print(String::from(text))
}

#[test]
fn summary_text_has_plurals_above_one() {
    assert_eq!(Summary::new().text(), "Summary: 0 OK; 0 KO");
    assert_eq!(Summary { ok: 1, ko: 1 }.text(), "Summary: 1 OK; 1 KO");
    assert_eq!(Summary { ok: 2, ko: 1 }.text(), "Summary: 2 OK(s); 1 KO");
    assert_eq!(
        Summary { ok: 12, ko: 345 }.text(),
        "Summary: 12 OK(s); 345 KO(s)"
    );
}

#[test]
fn frame_at_the_start_asks_the_first_card() {
    let session = Session::from(vec![item(6, 7), item(3, 4)]);
    let state = State::new(&session, false);
    assert_eq!(state.frame(), vec![print("6 x 7 = ")]);
}

#[test]
fn frame_shows_the_answer_when_visible() {
    let session = Session::from(vec![item(6, 7), item(3, 4)]);
    let mut state = State::new(&session, false);
    state.show_answer();
    assert_eq!(state.frame(), vec![print("6 x 7 = "), print("42")]);
}

#[test]
fn frame_after_a_good_answer() {
    let mut session = Session::from(vec![item(6, 7), item(3, 4)]);
    let mut state = State::new(&session, false);
    state.update(&mut session, Action::Input(String::from("42")));
    assert_eq!(
        state.frame(),
        vec![
            print("6 x 7 = 42"),
            Piece::Foreground(Tone::Green),
            print(" OK"),
            Piece::ResetColor,
            Piece::NextLine,
            print("3 x 4 = "),
        ]
    );
}

#[test]
fn frame_after_a_wrong_answer() {
    let mut session = Session::from(vec![item(6, 7), item(3, 4)]);
    let mut state = State::new(&session, false);
    state.update(&mut session, Action::Input(String::from("48")));
    assert_eq!(
        state.frame(),
        vec![
            print("6 x 7 != 48"),
            Piece::Foreground(Tone::Red),
            print(" KO!!!"),
            Piece::ResetColor,
            print(" => 42"),
            Piece::ResetColor,
            Piece::NextLine,
            print("3 x 4 = "),
        ]
    );
}

#[test]
fn frame_after_the_learner_rated_bad() {
    let mut session = Session::from(vec![item(6, 7), item(3, 4)]);
    let mut state = State::new(&session, false);
    state.update(&mut session, Action::Review(Rating::Bad));
    assert_eq!(
        state.frame(),
        vec![
            print("6 x 7 = 42"),
            Piece::Foreground(Tone::Red),
            print(" KO!!!"),
            Piece::ResetColor,
            Piece::NextLine,
            print("3 x 4 = "),
        ]
    );
}

#[test]
fn frame_at_the_end_shows_the_last_verdict_only() {
    let mut session = Session::from(vec![item(6, 7), item(3, 4)]);
    let mut state = State::new(&session, false);
    state.update(&mut session, Action::Review(Rating::Good));
    state.update(&mut session, Action::Exit);
    assert_eq!(
        state.frame(),
        vec![
            print("6 x 7 = 42"),
            Piece::Foreground(Tone::Green),
            print(" OK"),
            Piece::ResetColor,
            Piece::NextLine,
        ]
    );
}

#[test]
fn verdict_uses_the_answer_that_was_stored() {
    let rated = RatedCard {
        card: item(2, 5),
        input: Some(String::from("")),
        answer: 11,
        rating: Rating::Bad,
    };
    assert_eq!(
        rated.pieces(),
        vec![
            print("2 x 5 != "),
            Piece::Foreground(Tone::Red),
            print(" KO!!!"),
            Piece::ResetColor,
            print(" => 11"),
            Piece::ResetColor,
            Piece::NextLine,
        ]
    );
}
