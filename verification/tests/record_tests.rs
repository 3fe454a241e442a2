use rs::record::{key_less, key_order, Item, Rec};
use std::cmp::Ordering;

#[test]
fn test_rec_creation() {
    let key = [1u8; 10];
    let payload = [2u8; 90];
    let rec = Rec::new(key, payload);
    assert_eq!(rec.key, key);
    assert_eq!(rec.payload, payload);
}

#[test]
fn test_item_ordering() {
    let rec1 = Rec::new([1u8; 10], [0u8; 90]);
    let rec2 = Rec::new([2u8; 10], [0u8; 90]);

    let item1 = Item::new(rec1.clone(), 0, 0);
    let item2 = Item::new(rec2.clone(), 0, 0);

    assert!(item1 < item2, "Items should be ordered by key");
}

#[test]
fn test_item_generation_ordering() {
    let rec = Rec::new([1u8; 10], [0u8; 90]);

    let item_gen0 = Item::new(rec.clone(), 0, 0);
    let item_gen1 = Item::new(rec.clone(), 1, 0);

    assert!(
        item_gen0 < item_gen1,
        "Same key, lower generation should come first"
    );
}

#[test]
fn test_item_seq_ordering() {
    let rec = Rec::new([1u8; 10], [0u8; 90]);

    let item_seq0 = Item::new(rec.clone(), 0, 0);
    let item_seq1 = Item::new(rec.clone(), 0, 1);

    assert!(
        item_seq0 < item_seq1,
        "Same key and gen, lower seq should come first"
    );
}

#[test]
fn test_rec_sizes() {
    assert_eq!(Rec::SIZE, 100);
    assert_eq!(Rec::KEY_SIZE, 10);
    assert_eq!(Rec::PAYLOAD_SIZE, 90);
}

#[test]
fn test_rec_duplicate_is_equal() {
    let mut payload = [0u8; 90];
    payload[89] = 7;
    let rec = Rec::new([3u8; 10], payload);
    assert_eq!(rec.duplicate(), rec);
}

#[test]
fn test_key_order_is_lexicographic() {
    let a = [0u8, 0, 0, 0, 0, 0, 0, 0, 0, 255];
    let b = [0u8, 0, 0, 0, 0, 0, 0, 0, 1, 0];
    assert_eq!(key_order(&a, &b), Ordering::Less);
    assert_eq!(key_order(&b, &a), Ordering::Greater);
    assert_eq!(key_order(&a, &a), Ordering::Equal);
    // bytes compare unsigned: 200 is above 100
    let c = [200u8; 10];
    let d = [100u8; 10];
    assert_eq!(key_order(&c, &d), Ordering::Greater);
}

#[test]
fn test_key_less_matches_array_order() {
    let keys: [[u8; 10]; 4] = [
        [0u8; 10],
        [0u8, 0, 0, 0, 0, 0, 0, 0, 0, 1],
        [1u8, 0, 0, 0, 0, 0, 0, 0, 0, 0],
        [255u8; 10],
    ];
    for a in keys.iter() {
        for b in keys.iter() {
            assert_eq!(key_less(a, b), a < b);
        }
    }
}

#[test]
fn test_item_generation_outranks_key() {
    let low_key_late = Item::new(Rec::new([1u8; 10], [0u8; 90]), 1, 0);
    let high_key_early = Item::new(Rec::new([9u8; 10], [0u8; 90]), 0, 5);
    assert!(high_key_early < low_key_late);
    assert_eq!(high_key_early.order(&low_key_late), Ordering::Less);
    assert_eq!(low_key_late.order(&high_key_early), Ordering::Greater);
    assert!(low_key_late.precedes(&high_key_early) == false);
    assert!(high_key_early.precedes(&low_key_late));
}

#[test]
fn test_item_equality_ignores_payload() {
    let a = Item::new(Rec::new([1u8; 10], [0u8; 90]), 2, 3);
    let b = Item::new(Rec::new([1u8; 10], [9u8; 90]), 2, 3);
    let c = Item::new(Rec::new([1u8; 10], [0u8; 90]), 2, 4);
    assert!(a == b);
    assert!(a != c);
    assert_eq!(a.partial_cmp(&b), Some(Ordering::Equal));
    assert_eq!(a.partial_cmp(&c), Some(Ordering::Less));
}
