use game_2048::Board;

#[test]
fn renders_narrow_cells_without_padding_lines() {
    let b = Board::from_rows([[2, 0, 0, 0], [0; 4], [0; 4], [0, 0, 0, 4]]).unwrap();
    let expected = "/---------------\\\n| 2 |   |   |   |\n|---------------|\n|   |   |   |   |\n|---------------|\n|   |   |   |   |\n|---------------|\n|   |   |   | 4 |\n\\---------------/";
    assert_eq!(b.render(), expected);
}

#[test]
fn renders_wide_cells_centred_with_padding_lines() {
    let b = Board::from_rows([[1024, 2, 0, 0], [0; 4], [0; 4], [0, 0, 0, 16]]).unwrap();
    let expected = "/---------------------------\\\n|      |      |      |      |\n| 1024 |  2   |      |      |\n|      |      |      |      |\n|---------------------------|\n|      |      |      |      |\n|      |      |      |      |\n|      |      |      |      |\n|---------------------------|\n|      |      |      |      |\n|      |      |      |      |\n|      |      |      |      |\n|---------------------------|\n|      |      |      |      |\n|      |      |      |  16  |\n|      |      |      |      |\n\\---------------------------/";
    assert_eq!(b.render(), expected);
}

#[test]
fn largest_face_sets_the_width() {
    let b = Board::from_rows([[2, 0, 0, 0], [0; 4], [0, 128, 0, 0], [0, 0, 0, 4]]).unwrap();
    assert_eq!(b.largest(), 128);
    let first = b.render().lines().next().unwrap().to_string();
    assert_eq!(first.len(), 2 + 3 + 5 * 4);
    assert_eq!(Board::empty().largest(), 0);
}
