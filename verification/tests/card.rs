use multa::{Card, Factors, Intervals, Rating, Status};

#[test]
fn compute_is_the_product() {
    assert_eq!(Factors(2, 2).compute(), 4);
    assert_eq!(Factors(7, 8).compute(), 56);
    assert_eq!(Factors(9, 9).compute(), 81);
    assert_eq!(Factors(15, 17).compute(), 255);
    assert_eq!(Factors(0, 200).compute(), 0);
}

#[test]
fn factors_text_puts_an_x_between() {
    assert_eq!(Factors(7, 8).text(), "7 x 8");
    assert_eq!(Factors(12, 0).text(), "12 x 0");
    assert_eq!(Factors(255, 100).text(), "255 x 100");
}

#[test]
fn map_due_keeps_the_variant() {
    assert_eq!(Status::Unseen.map_due(|due| due + 1), Status::Unseen);
    assert_eq!(Status::Learning(4).map_due(|due| due + 1), Status::Learning(5));
    assert_eq!(Status::Learned(9).map_due(|due| due - 9), Status::Learned(0));
}

#[test]
fn map_due_does_not_call_on_unseen() {
    let mapped = Status::Unseen.map_due(|_| panic!("no due tick to map"));
    assert_eq!(mapped, Status::Unseen);
}

#[test]
fn new_card_is_unseen_on_the_first_rung() {
    let card = Card::new(6, 7);
    assert_eq!(card.value, Factors(6, 7));
    assert_eq!(card.interval, Intervals::first());
    assert_eq!(card.status, Status::Unseen);
    assert_eq!(card.last_result, None);
    assert_eq!(card.last_seen, None);
}

#[test]
fn bad_review_sends_to_the_first_rung() {
    let card = Card {
        value: Factors(3, 4),
        interval: 34,
        status: Status::Learned(90),
        last_result: Some(Rating::Good),
        last_seen: Some(5),
    };
    let after = card.review(Rating::Bad, 10, Some(77));
    assert_eq!(
        after,
        Card {
            value: Factors(3, 4),
            interval: 2,
            status: Status::Learning(13),
            last_result: Some(Rating::Bad),
            last_seen: Some(77),
        }
    );
}

#[test]
fn good_review_climbs_and_is_due_after_the_next_tick() {
    let card = Card::new(3, 4);
    let after = card.review(Rating::Good, 0, None);
    assert_eq!(after.interval, 3);
    assert_eq!(after.status, Status::Learning(4));
    assert_eq!(after.last_result, Some(Rating::Good));
    assert_eq!(after.last_seen, None);
    let again = after.review(Rating::Good, 7, Some(1));
    assert_eq!(again.interval, 5);
    assert_eq!(again.status, Status::Learning(13));
}

#[test]
fn reaching_the_top_rung_makes_a_card_learned() {
    let mut card = Card::new(9, 9);
    card.interval = 34;
    let after = card.review(Rating::Good, 100, None);
    assert_eq!(after.interval, 55);
    assert_eq!(after.status, Status::Learned(156));
    let stays = after.review(Rating::Good, 200, None);
    assert_eq!(stays.interval, 55);
    assert_eq!(stays.status, Status::Learned(256));
    let falls = stays.review(Rating::Bad, 300, None);
    assert_eq!(falls.interval, 2);
    assert_eq!(falls.status, Status::Learning(303));
}

#[test]
fn an_interval_off_the_ladder_recovers_on_a_good_review() {
    let mut card = Card::new(2, 2);
    card.interval = 4;
    let after = card.review(Rating::Good, 0, None);
    assert_eq!(after.interval, 2);
    assert_eq!(after.status, Status::Learning(3));
}

#[test]
fn review_at_the_last_tick_that_fits() {
    let card = Card::new(2, 3);
    let mut top = card;
    top.interval = 55;
    let after = top.review(Rating::Good, u32::MAX - 56, None);
    assert_eq!(after.status, Status::Learned(u32::MAX));
}
