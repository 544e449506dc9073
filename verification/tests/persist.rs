use multa::persist::{cards_to_save, lay_over, least_due};
use multa::{Card, Factors, Rating, Session, Status};

fn fresh(id: u8) -> Card {
    Card {
        status: Status::Unseen,
        interval: 2,
        value: Factors(id, id),
        last_result: None,
        last_seen: None,
    }
}

fn scheduled(id: u8, interval: u32, status: Status) -> Card {
    Card {
        status,
        interval,
        value: Factors(id, id),
        last_result: Some(Rating::Good),
        last_seen: Some(1_700_000_000 + id as u64),
    }
}

#[test]
fn offset_is_the_least_of_clock_and_due_ticks() {
    let cards = vec![
        scheduled(1, 3, Status::Learning(9)),
        fresh(2),
        scheduled(3, 55, Status::Learned(7)),
    ];
    assert_eq!(least_due(&cards, 6), 6);
    assert_eq!(least_due(&cards, 7), 7);
    assert_eq!(least_due(&cards, 8), 7);
    assert_eq!(least_due(&cards, 100), 7);
    assert_eq!(least_due(&Vec::new(), 12), 12);
    assert_eq!(least_due(&vec![fresh(1), fresh(2)], 12), 12);
}

#[test]
fn save_at_tick_six_moves_due_nine_to_three() {
    let session = Session {
        snapshot: None,
        tick: 6,
        cards: vec![fresh(2), scheduled(1, 3, Status::Learning(9)), fresh(3)],
    };
    let saved = session.get_cards_to_save();
    assert_eq!(saved, vec![scheduled(1, 3, Status::Learning(3))]);

    let mut loaded = Session::from(vec![fresh(3), fresh(1), fresh(2)]);
    loaded.apply_changes(saved);
    assert_eq!(loaded.tick, 0);
    assert_eq!(
        loaded.cards,
        vec![fresh(3), fresh(2), scheduled(1, 3, Status::Learning(3))]
    );
}

#[test]
fn save_keeps_the_gaps_between_due_ticks() {
    let session = Session {
        snapshot: None,
        tick: 40,
        cards: vec![
            scheduled(1, 5, Status::Learning(25)),
            scheduled(2, 55, Status::Learned(90)),
            fresh(3),
            scheduled(4, 8, Status::Learning(47)),
        ],
    };
    assert_eq!(
        session.get_cards_to_save(),
        vec![
            scheduled(1, 5, Status::Learning(0)),
            scheduled(2, 55, Status::Learned(65)),
            scheduled(4, 8, Status::Learning(22)),
        ]
    );
    assert_eq!(session.tick, 40);
    assert_eq!(session.cards.len(), 4);
}

#[test]
fn nothing_to_save_from_unseen_cards() {
    let session = Session::from(vec![fresh(1), fresh(2)]);
    assert!(session.get_cards_to_save().is_empty());
    let empty = Session::from(Vec::new());
    assert!(empty.get_cards_to_save().is_empty());
    assert!(cards_to_save(&Vec::new(), 9).is_empty());
}

#[test]
fn what_is_saved_comes_back() {
    let mut old = Session::from(vec![fresh(1), fresh(2), fresh(3), fresh(4), fresh(5)]);
    old.review_at(Rating::Good, Some(10));
    old.review_at(Rating::Bad, Some(11));
    old.review_at(Rating::Good, Some(12));
    let offset = 3;
    assert_eq!(old.tick, 3);
    let saved = old.get_cards_to_save();
    assert_eq!(saved.len(), 3);

    let mut new = Session::from(vec![fresh(5), fresh(4), fresh(3), fresh(2), fresh(1)]);
    new.apply_changes(saved);

    assert_eq!(new.tick, 0);
    assert_eq!(new.cards.len(), 5);
    for card in &old.cards {
        let back = new
            .cards
            .iter()
            .find(|other| other.value == card.value)
            .unwrap();
        assert_eq!(back.interval, card.interval);
        assert_eq!(back.last_result, card.last_result);
        assert_eq!(back.last_seen, card.last_seen);
        match (card.status, back.status) {
            (Status::Unseen, Status::Unseen) => assert_eq!(*back, fresh(card.value.0)),
            (Status::Learning(due), Status::Learning(moved)) => assert_eq!(moved, due - offset),
            (Status::Learned(due), Status::Learned(moved)) => assert_eq!(moved, due - offset),
            _ => panic!("the status changed its variant"),
        }
    }
    let unseen: Vec<u8> = new
        .cards
        .iter()
        .filter(|card| card.status == Status::Unseen)
        .map(|card| card.value.0)
        .collect();
    assert_eq!(unseen, vec![5, 4]);
}

#[test]
fn changes_for_unknown_identities_are_dropped() {
    let mut session = Session::from(vec![fresh(1), fresh(2)]);
    session.apply_changes(vec![
        scheduled(7, 3, Status::Learning(0)),
        scheduled(2, 5, Status::Learning(4)),
    ]);
    assert_eq!(
        session.cards,
        vec![fresh(1), scheduled(2, 5, Status::Learning(4))]
    );
}

#[test]
fn the_later_of_two_changes_for_one_identity_counts() {
    let mut session = Session::from(vec![fresh(1), fresh(2)]);
    session.apply_changes(vec![
        scheduled(2, 3, Status::Learning(1)),
        scheduled(2, 8, Status::Learning(6)),
    ]);
    assert_eq!(
        session.cards,
        vec![fresh(1), scheduled(2, 8, Status::Learning(6))]
    );
}

#[test]
fn apply_changes_keeps_clock_and_snapshot() {
    let mut session = Session::from(vec![fresh(1), fresh(2)]);
    session.review(Rating::Good);
    session.apply_changes(vec![scheduled(2, 3, Status::Learning(1))]);
    assert_eq!(session.tick, 1);
    assert!(session.snapshot.is_some());
    assert_eq!(session.peek().unwrap().value, Factors(2, 2));
}

#[test]
fn lay_over_moves_no_card() {
    let mut cards = vec![fresh(3), fresh(1), fresh(2)];
    lay_over(
        &mut cards,
        vec![
            scheduled(1, 3, Status::Learning(0)),
            scheduled(3, 55, Status::Learned(9)),
        ],
    );
    assert_eq!(
        cards,
        vec![
            scheduled(3, 55, Status::Learned(9)),
            scheduled(1, 3, Status::Learning(0)),
            fresh(2),
        ]
    );
}

#[test]
fn lay_over_changes_the_first_card_of_an_identity_only() {
    let mut cards = vec![fresh(1), fresh(2), fresh(1)];
    lay_over(&mut cards, vec![scheduled(1, 3, Status::Learning(0))]);
    assert_eq!(
        cards,
        vec![scheduled(1, 3, Status::Learning(0)), fresh(2), fresh(1)]
    );
}

#[test]
fn identities_are_told_apart_by_both_factors() {
    let mut cards = vec![Card::new(2, 3), Card::new(3, 2), Card::new(1, 0), Card::new(0, 1)];
    let mut change = Card::new(3, 2);
    change.status = Status::Learning(1);
    let mut other = Card::new(0, 1);
    other.status = Status::Learned(2);
    lay_over(&mut cards, vec![change, other]);
    assert_eq!(cards, vec![Card::new(2, 3), change, Card::new(1, 0), other]);
}

#[test]
fn load_without_a_history_is_a_new_session() {
    let session = Session::load(None);
    assert_eq!(session.tick, 0);
    assert!(session.snapshot.is_none());
    assert_eq!(session.cards.len(), 64);
    assert!(session
        .cards
        .iter()
        .all(|card| *card == Card::new(card.value.0, card.value.1)));
}

#[test]
fn load_lays_the_history_over_a_new_session() {
    let history = vec![
        scheduled(7, 8, Status::Learning(4)),
        scheduled(1, 3, Status::Learning(0)),
        scheduled(3, 55, Status::Learned(9)),
        scheduled(5, 3, Status::Learning(0)),
    ];
    let session = Session::load(Some(history));
    assert_eq!(session.tick, 0);
    assert!(session.snapshot.is_none());
    assert_eq!(session.cards.len(), 64);
    assert_eq!(session.cards[0], scheduled(5, 3, Status::Learning(0)));
    assert_eq!(session.cards[62], scheduled(3, 55, Status::Learned(9)));
    assert_eq!(session.cards[63], scheduled(7, 8, Status::Learning(4)));
    for card in &session.cards[1..62] {
        assert_eq!(*card, Card::new(card.value.0, card.value.1));
    }
    assert!(!session.cards.iter().any(|card| card.value == Factors(1, 1)));
}
