use compressed_set::item::Item;

#[test]
fn item_lengths_and_values() {
    let single = Item::new(7);
    assert_eq!(single, Item::Numbers(7, None));
    assert_eq!(single.len(), 1);
    assert_eq!(single.at(0, 3), Some(7));
    assert_eq!(single.at(1, 3), None);
    assert_eq!(single.last_number(3), 7);
    assert!(single.can_add());
    assert!(single.is_numbers());
    assert!(!single.is_sequence());

    let pair = Item::Numbers(7, Some(4));
    assert_eq!(pair.len(), 2);
    assert_eq!(pair.at(1, 3), Some(11));
    assert_eq!(pair.at(2, 3), None);
    assert_eq!(pair.last_number(3), 11);
    assert!(!pair.can_add());

    let run = Item::Sequence(5, 3);
    assert_eq!(run.len(), 4);
    assert_eq!(run.at(0, 10), Some(5));
    assert_eq!(run.at(3, 10), Some(35));
    assert_eq!(run.at(4, 10), None);
    assert_eq!(run.last_number(10), 35);
    assert!(run.can_add());
    assert!(run.is_sequence());
    assert!(!Item::Sequence(5, u16::MAX).can_add());
}

#[test]
fn item_to_sequence_and_grow() {
    let mut run = Item::new(9).to_sequence();
    assert_eq!(run, Item::Sequence(9, 0));
    run.seq_add();
    assert_eq!(run, Item::Sequence(9, 1));
    assert_eq!(run.last_number(4), 13);
    let mut pair = Item::new(2);
    pair.seq_add();
    assert_eq!(pair, Item::Numbers(2, None));
}
