use multa::{Action, Card, Factors, Rating, Session, State, Status};

fn plain(x: u8, y: u8) -> Card {
    Card {
        status: Status::Unseen,
        interval: 2,
        value: Factors(x, y),
        last_result: None,
        last_seen: None,
    }
}

fn deck() -> Session {
    Session::from(vec![plain(6, 7), plain(3, 4), plain(9, 9)])
}

#[test]
fn a_drill_starts_with_the_first_card() {
    let session = deck();
    let state = State::new(&session, false);
    assert_eq!(state.current_card, Some(plain(6, 7)));
    assert!(state.last_card.is_none());
    assert!(!state.answer_visible);
    assert!(!state.examination);
    assert_eq!((state.summary.ok, state.summary.ko), (0, 0));

    let exam = State::new(&session, true);
    assert!(exam.answer_visible);
    assert!(exam.examination);
}

#[test]
fn a_drill_on_an_empty_session_shows_nothing() {
    let mut session = Session::from(Vec::new());
    let mut state = State::new(&session, false);
    assert_eq!(state.current_card, None);
    state.update(&mut session, Action::Review(Rating::Good));
    assert_eq!(session.tick, 0);
    assert_eq!((state.summary.ok, state.summary.ko), (0, 0));
}

#[test]
fn the_right_answer_is_rated_good() {
    let mut session = deck();
    let mut state = State::new(&session, false);
    state.update_at(&mut session, Action::Input(String::from("42")), Some(5));

    assert_eq!((state.summary.ok, state.summary.ko), (1, 0));
    let last = state.last_card.clone().unwrap();
    assert_eq!(last.card, plain(6, 7));
    assert_eq!(last.rating, Rating::Good);
    assert_eq!(last.input, Some(String::from("42")));
    assert_eq!(last.answer, 42);
    assert_eq!(session.tick, 1);
    assert_eq!(state.current_card, Some(plain(3, 4)));
    assert_eq!(state.current_card, session.peek().cloned());
    let reviewed = session.cards[2];
    assert_eq!(reviewed.value, Factors(6, 7));
    assert_eq!(reviewed.status, Status::Learning(4));
    assert_eq!(reviewed.last_result, Some(Rating::Good));
    assert_eq!(reviewed.last_seen, Some(5));
}

#[test]
fn a_wrong_answer_is_rated_bad() {
    for input in ["43", "042", "4", "", "42 ", "forty-two"] {
        let mut session = deck();
        let mut state = State::new(&session, false);
        state.update(&mut session, Action::Input(String::from(input)));
        assert_eq!((state.summary.ok, state.summary.ko), (0, 1));
        let last = state.last_card.clone().unwrap();
        assert_eq!(last.rating, Rating::Bad);
        assert_eq!(last.input, Some(String::from(input)));
        assert_eq!(last.answer, 42);
        assert_eq!(session.cards[2].status, Status::Learning(3));
    }
}

#[test]
fn the_learner_can_rate_the_card() {
    let mut session = deck();
    let mut state = State::new(&session, false);
    state.show_answer();
    assert!(state.answer_visible);
    state.update(&mut session, Action::Review(Rating::Bad));

    assert_eq!((state.summary.ok, state.summary.ko), (0, 1));
    let last = state.last_card.clone().unwrap();
    assert_eq!(last.card, plain(6, 7));
    assert_eq!(last.input, None);
    assert_eq!(last.answer, 42);
    assert!(!state.answer_visible);
    assert_eq!(state.current_card, Some(plain(3, 4)));
    assert_eq!(session.tick, 1);
}

#[test]
fn show_answer_shows_it_but_in_an_examination() {
    let mut session = deck();
    let mut state = State::new(&session, false);
    state.update(&mut session, Action::ShowAnswer);
    assert!(state.answer_visible);
    assert_eq!(session.tick, 0);
    state.hide_answer();
    assert!(!state.answer_visible);

    let mut exam = State::new(&session, true);
    exam.hide_answer();
    assert!(exam.answer_visible);
    exam.answer_visible = false;
    exam.show_answer();
    assert!(!exam.answer_visible);
}

#[test]
fn undo_takes_the_last_card_back() {
    let mut session = deck();
    let mut state = State::new(&session, false);
    state.update(&mut session, Action::Review(Rating::Good));
    state.update(&mut session, Action::Review(Rating::Bad));
    assert_eq!((state.summary.ok, state.summary.ko), (1, 1));
    assert_eq!(session.tick, 2);

    state.update(&mut session, Action::Undo);

    assert_eq!((state.summary.ok, state.summary.ko), (1, 0));
    assert!(state.last_card.is_none());
    assert!(state.answer_visible);
    assert_eq!(session.tick, 1);
    assert_eq!(state.current_card, Some(plain(3, 4)));

    state.update(&mut session, Action::Undo);
    assert_eq!((state.summary.ok, state.summary.ko), (1, 0));
    assert_eq!(session.tick, 1);
}

#[test]
fn exit_ends_the_drill() {
    let mut session = deck();
    let mut state = State::new(&session, false);
    state.update(&mut session, Action::Review(Rating::Good));
    state.update(&mut session, Action::Exit);
    assert_eq!(state.current_card, None);
    assert_eq!(session.tick, 1);

    state.update(&mut session, Action::Review(Rating::Good));
    state.update(&mut session, Action::Undo);
    assert_eq!(session.tick, 1);
    assert_eq!((state.summary.ok, state.summary.ko), (1, 0));
    assert!(state.last_card.is_some());
}
