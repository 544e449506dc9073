use multa::{report, Card, Factors, Rating, Session, Status};

fn seen(x: u8, y: u8, interval: u32, result: Option<Rating>, at: Option<u64>) -> Card {
    Card {
        status: if result.is_some() {
            Status::Learning(1)
        } else {
            Status::Unseen
        },
        interval,
        value: Factors(x, y),
        last_result: result,
        last_seen: at,
    }
}

#[test]
fn report_on_nothing_says_so() {
    let session = Session::from(Vec::new());
    assert_eq!(report(&session), vec![String::from("Nothing to show")]);
}

#[test]
fn report_lists_cards_by_last_review() {
    let session = Session {
        snapshot: None,
        tick: 0,
        cards: vec![
            seen(6, 7, 5, Some(Rating::Good), Some(300)),
            seen(2, 2, 2, None, None),
            seen(9, 9, 2, Some(Rating::Bad), Some(100)),
            seen(3, 4, 55, Some(Rating::Good), Some(0)),
            seen(8, 2, 2, None, None),
            seen(5, 5, 3, Some(Rating::Bad), Some(300)),
        ],
    };
    assert_eq!(
        report(&session),
        vec![
            "ok 2 x 2 = 4 interval 2",
            "ok 8 x 2 = 16 interval 2",
            "ok 3 x 4 = 12 interval 55",
            "ko 9 x 9 = 81 interval 2",
            "ok 6 x 7 = 42 interval 5",
            "ko 5 x 5 = 25 interval 3",
        ]
    );
    assert_eq!(session.cards[0].value, Factors(6, 7));
}

#[test]
fn report_on_a_new_session_has_a_line_for_each_card() {
    let session = Session::new();
    let lines = report(&session);
    assert_eq!(lines.len(), 64);
    for (line, card) in lines.iter().zip(session.cards.iter()) {
        let Factors(x, y) = card.value;
        assert_eq!(*line, format!("ok {} x {} = {} interval 2", x, y, x * y));
    }
}

#[test]
fn report_sorts_the_largest_stamp_last() {
    let session = Session {
        snapshot: None,
        tick: 0,
        cards: vec![
            seen(2, 3, 2, Some(Rating::Good), Some(u64::MAX)),
            seen(2, 4, 2, Some(Rating::Good), Some(u64::MAX - 1)),
            seen(2, 5, 2, None, None),
        ],
    };
    assert_eq!(
        report(&session),
        vec![
            "ok 2 x 5 = 10 interval 2",
            "ok 2 x 4 = 8 interval 2",
            "ok 2 x 3 = 6 interval 2",
        ]
    );
}
