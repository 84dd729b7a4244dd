use game_2048::TileValue;

#[test]
fn rejects_non_powers_of_two_and_small_values() {
    assert!(TileValue::new(6).is_none());
    assert!(TileValue::new(0).is_none());
    assert!(TileValue::new(1).is_none());
    assert!(TileValue::new(3).is_none());
    assert!(TileValue::new(12).is_none());
}

#[test]
fn accepts_powers_of_two() {
    assert_eq!(TileValue::new(2).map(|t| t.get()), Some(2));
    assert_eq!(TileValue::new(4).map(|t| t.get()), Some(4));
    assert_eq!(TileValue::new(1024).map(|t| t.get()), Some(1024));
}

#[test]
fn next_value_doubles() {
    let two = TileValue::new(2).unwrap();
    assert_eq!(two.next_value().get(), 4);
    assert_eq!(two.next_value().next_value().get(), 8);
    assert_eq!(TileValue::new(2048).unwrap().next_value().get(), 4096);
}

#[test]
fn converts_into_usize() {
    let t = TileValue::new(64).unwrap();
    assert_eq!(usize::from(t), 64);
    assert_eq!(TileValue::new(8), TileValue::new(8));
    assert_ne!(TileValue::new(8), TileValue::new(16));
}
