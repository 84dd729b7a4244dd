use game_2048::Direction;

#[test]
fn maps_wasd_keys() {
    assert_eq!(Direction::from_wasd('w'), Some(Direction::Up));
    assert_eq!(Direction::from_wasd('a'), Some(Direction::Left));
    assert_eq!(Direction::from_wasd('s'), Some(Direction::Down));
    assert_eq!(Direction::from_wasd('d'), Some(Direction::Right));
}

#[test]
fn ignores_case_of_keys() {
    assert_eq!(Direction::from_wasd('W'), Some(Direction::Up));
    assert_eq!(Direction::from_wasd('A'), Some(Direction::Left));
    assert_eq!(Direction::from_wasd('S'), Some(Direction::Down));
    assert_eq!(Direction::from_wasd('D'), Some(Direction::Right));
}

#[test]
fn other_keys_map_to_nothing() {
    assert_eq!(Direction::from_wasd('q'), None);
    assert_eq!(Direction::from_wasd(' '), None);
    assert_eq!(Direction::from_wasd('x'), None);
}
