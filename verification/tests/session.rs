use multa::{Card, Factors, Rating, Session, Status};

fn a_card(id: u8, status: Status) -> Card {
    Card {
        status,
        interval: 2,
        value: Factors(id, id),
        last_result: None,
        last_seen: None,
    }
}

#[test]
fn from_cards() {
    let session = Session::from(vec![
        a_card(3, Status::Unseen),
        a_card(2, Status::Learning(1)),
        a_card(1, Status::Learning(0)),
        a_card(4, Status::Unseen),
    ]);

    assert_eq!(
        session.cards,
        vec![
            a_card(1, Status::Learning(0)),
            a_card(3, Status::Unseen),
            a_card(4, Status::Unseen),
            a_card(2, Status::Learning(1)),
        ]
    )
}

#[test]
fn apply_changes() {
    let mut session = Session::from(vec![
        a_card(1, Status::Unseen),
        a_card(2, Status::Unseen),
        a_card(3, Status::Unseen),
        a_card(4, Status::Unseen),
    ]);
    session.apply_changes(vec![
        a_card(1, Status::Learning(1)),
        a_card(2, Status::Learning(0)),
        a_card(3, Status::Unseen),
    ]);

    assert_eq!(
        session.cards,
        vec![
            a_card(2, Status::Learning(0)),
            a_card(3, Status::Unseen),
            a_card(4, Status::Unseen),
            a_card(1, Status::Learning(1)),
        ]
    )
}

#[test]
fn get_cards_to_save() {
    let session = Session {
        snapshot: None,
        tick: 2,
        cards: vec![
            a_card(1, Status::Learning(3)),
            a_card(2, Status::Learning(4)),
        ],
    };

    assert_eq!(
        session.get_cards_to_save(),
        [
            a_card(1, Status::Learning(1)),
            a_card(2, Status::Learning(2))
        ]
    );

    let session = Session {
        snapshot: None,
        tick: 6,
        cards: vec![a_card(1, Status::Learning(5))],
    };

    assert_eq!(
        session.get_cards_to_save(),
        [a_card(1, Status::Learning(0))]
    )
}

#[test]
fn session_review() {
    let mut session = Session::from(vec![
        a_card(9, Status::Unseen),
        a_card(8, Status::Unseen),
        a_card(7, Status::Unseen),
        a_card(6, Status::Unseen),
    ]);

    assert_eq!(session.tick, 0);
    let card = session.peek().unwrap();
    assert_eq!(card.value, Factors(9, 9));
    session.review(Rating::Bad);
    // 9x9 due: 3,  interval: 2

    assert_eq!(session.tick, 1);
    let card = session.peek().unwrap();
    assert_eq!(card.value, Factors(8, 8));
    session.review(Rating::Good);
    // 8x8 due: 5,  interval: 3

    assert_eq!(session.tick, 2);
    let card = session.peek().unwrap();
    assert_eq!(card.value, Factors(7, 7));
    session.review(Rating::Good);
    // 7x7 due: 6,  interval: 3

    assert_eq!(session.tick, 3);
    let card = session.peek().unwrap();
    assert_eq!(card.value, Factors(9, 9));
    session.review(Rating::Good);
    // 9x9 due: 7,  interval: 3

    assert_eq!(session.tick, 4);
    let card = session.peek().unwrap();
    assert_eq!(card.value, Factors(6, 6));
    session.review(Rating::Good);
    // 6x6 due: 8,  interval: 3

    assert_eq!(session.tick, 5);
    let card = session.peek().unwrap();
    assert_eq!(card.value, Factors(8, 8));
    session.review(Rating::Good);
    // 8x8 due: 11,  interval: 5

    assert_eq!(session.tick, 6);
    let card = session.peek().unwrap();
    assert_eq!(card.value, Factors(7, 7));
    session.review(Rating::Good);
    // 7x7 due: 12,  interval: 5

    assert_eq!(session.tick, 7);
    let card = session.peek().unwrap();
    assert_eq!(card.value, Factors(9, 9));
    session.review(Rating::Good);
    // 9x9 due: 13,  interval: 5
}

#[test]
fn session_review_rollback() {
    let mut session = Session::from(vec![
        a_card(9, Status::Unseen),
        a_card(8, Status::Unseen),
        a_card(7, Status::Unseen),
        a_card(6, Status::Unseen),
    ]);

    assert_eq!(session.tick, 0);
    let card = session.peek().unwrap();
    assert_eq!(card.value, Factors(9, 9));
    session.review(Rating::Bad);
    // 9x9 due: 3,  interval: 2

    assert_eq!(session.tick, 1);
    let card = session.peek().unwrap();
    assert_eq!(card.value, Factors(8, 8));
    session.rollback();
    let card = session.peek().unwrap();
    assert_eq!(card.value, Factors(9, 9));
}
