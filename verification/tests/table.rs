use multa::{Factors, TimeTables};

fn table_in_order() -> Vec<Factors> {
    let mut items = Vec::new();
    for x in 2..10 {
        for y in 2..10 {
            items.push(Factors(x, y));
        }
    }
    items
}

#[test]
fn gen_holds_each_item_once() {
    let items = TimeTables::gen();
    assert_eq!(items.len(), 64);
    for item in table_in_order() {
        assert_eq!(items.iter().filter(|other| **other == item).count(), 1);
    }
}

#[test]
fn gen_is_shuffled() {
    let ordered = table_in_order();
    let first = TimeTables::gen();
    let second = TimeTables::gen();
    let third = TimeTables::gen();
    assert!(first != ordered || second != ordered || third != ordered);
    assert!(first != second || second != third);
}
