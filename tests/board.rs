use game_2048::{Board, Direction};

fn faces(b: &Board) -> [[usize; 4]; 4] {
    let mut out = [[0usize; 4]; 4];
    for y in 0..4 {
        for x in 0..4 {
            out[y][x] = b.get(y, x).map(|t| t.get()).unwrap_or(0);
        }
    }
    out
}

fn occupied(b: &Board) -> usize {
    faces(b).iter().flatten().filter(|v| **v != 0).count()
}

fn board(rows: [[usize; 4]; 4]) -> Board {
    Board::from_rows(rows).unwrap()
}

#[test]
fn new_board_has_two_small_tiles() {
    for _ in 0..200 {
        let b = Board::new();
        assert_eq!(occupied(&b), 2);
        for v in faces(&b).iter().flatten() {
            assert!(*v == 0 || *v == 2 || *v == 4);
        }
    }
}

#[test]
fn from_rows_rejects_bad_faces() {
    assert!(Board::from_rows([[3, 0, 0, 0], [0; 4], [0; 4], [0; 4]]).is_none());
    assert!(Board::from_rows([[0; 4], [0; 4], [0; 4], [0, 0, 0, 1]]).is_none());
    let b = board([[2, 0, 0, 0], [0, 4, 0, 0], [0; 4], [0, 0, 0, 1024]]);
    assert_eq!(faces(&b), [[2, 0, 0, 0], [0, 4, 0, 0], [0; 4], [0, 0, 0, 1024]]);
}

#[test]
fn count_score_sums_faces() {
    let b = board([[2, 4, 0, 0], [0, 8, 0, 0], [0; 4], [0, 0, 0, 1024]]);
    assert_eq!(b.count_score(), 1038);
    assert_eq!(Board::empty().count_score(), 0);
}

#[test]
fn pair_slides_and_merges_toward_occupied_end() {
    let mut b = board([[2, 2, 0, 0], [0; 4], [0; 4], [0; 4]]);
    assert_eq!(b.slide_tiles(Direction::Left), Some(4));
    assert_eq!(faces(&b), [[4, 0, 0, 0], [0; 4], [0; 4], [0; 4]]);
}

#[test]
fn make_move_merges_pair_and_spawns_one_tile() {
    let mut b = board([[2, 2, 0, 0], [0; 4], [0; 4], [0; 4]]);
    assert_eq!(b.make_move(Direction::Left), Some(4));
    assert_eq!(b.get(0, 0).map(|t| t.get()), Some(4));
    assert_eq!(occupied(&b), 2);
    let f = faces(&b);
    let spawned: Vec<usize> = f.iter().flatten().copied().filter(|v| *v != 0).collect();
    assert!(spawned.contains(&4));
    assert!(f.iter().flatten().all(|v| *v == 0 || *v == 2 || *v == 4));
}

#[test]
fn full_lane_merges_pairwise_once() {
    let mut b = board([[2, 2, 2, 2], [0; 4], [0; 4], [0; 4]]);
    assert_eq!(b.slide_tiles(Direction::Right), Some(8));
    assert_eq!(faces(&b)[0], [0, 0, 4, 4]);
}

#[test]
fn merged_tile_does_not_merge_again() {
    let mut b = board([[4, 0, 2, 2], [0; 4], [0; 4], [0; 4]]);
    assert_eq!(b.slide_tiles(Direction::Right), Some(4));
    assert_eq!(faces(&b)[0], [0, 0, 4, 4]);
    let mut c = board([[4, 2, 2, 0], [0; 4], [0; 4], [0; 4]]);
    assert_eq!(c.slide_tiles(Direction::Right), Some(4));
    assert_eq!(faces(&c)[0], [0, 0, 4, 4]);
    let mut d = board([[4, 2, 2, 4], [0; 4], [0; 4], [0; 4]]);
    assert_eq!(d.slide_tiles(Direction::Right), Some(4));
    assert_eq!(faces(&d)[0], [0, 4, 4, 4]);
}

#[test]
fn unequal_tile_blocks_the_slide() {
    let mut b = board([[0; 4], [0; 4], [0; 4], [4, 0, 2, 0]]);
    assert_eq!(b.slide_tiles(Direction::Right), Some(0));
    assert_eq!(faces(&b)[3], [0, 0, 4, 2]);
}

#[test]
fn each_direction_slides_its_own_way() {
    let rows = [[0, 0, 0, 0], [0, 2, 0, 0], [0, 0, 0, 0], [0, 0, 0, 0]];
    let mut up = board(rows);
    assert_eq!(up.slide_tiles(Direction::Up), Some(0));
    assert_eq!(faces(&up), [[0, 2, 0, 0], [0; 4], [0; 4], [0; 4]]);
    let mut down = board(rows);
    assert_eq!(down.slide_tiles(Direction::Down), Some(0));
    assert_eq!(faces(&down), [[0; 4], [0; 4], [0; 4], [0, 2, 0, 0]]);
    let mut left = board(rows);
    assert_eq!(left.slide_tiles(Direction::Left), Some(0));
    assert_eq!(faces(&left), [[0; 4], [2, 0, 0, 0], [0; 4], [0; 4]]);
    let mut right = board(rows);
    assert_eq!(right.slide_tiles(Direction::Right), Some(0));
    assert_eq!(faces(&right), [[0; 4], [0, 0, 0, 2], [0; 4], [0; 4]]);
}

#[test]
fn column_merges_upward() {
    let mut b = board([[0, 0, 0, 4], [0, 0, 0, 0], [0, 0, 0, 4], [0, 0, 0, 16]]);
    assert_eq!(b.slide_tiles(Direction::Up), Some(8));
    assert_eq!(faces(&b), [[0, 0, 0, 8], [0, 0, 0, 16], [0; 4], [0; 4]]);
}

#[test]
fn blocked_move_changes_nothing() {
    let rows = [[2, 4, 0, 0], [8, 0, 0, 0], [0; 4], [0; 4]];
    let mut b = board(rows);
    assert_eq!(b.make_move(Direction::Left), None);
    assert_eq!(faces(&b), rows);
    assert_eq!(b.make_move(Direction::Up), None);
    assert_eq!(faces(&b), rows);
}

#[test]
fn successful_move_keeps_face_sum_before_spawn() {
    let rows = [[2, 2, 4, 4], [8, 0, 8, 2], [0, 2, 0, 2], [16, 16, 16, 0]];
    let before = board(rows).count_score();
    let mut b = board(rows);
    assert_eq!(b.slide_tiles(Direction::Left), Some(64));
    assert_eq!(b.count_score(), before);
    assert_eq!(faces(&b), [[4, 8, 0, 0], [16, 2, 0, 0], [4, 0, 0, 0], [32, 16, 0, 0]]);
}

#[test]
fn successful_move_count_follows_merges_and_spawn() {
    let rows = [[2, 2, 4, 4], [8, 0, 8, 2], [0, 2, 0, 2], [16, 16, 16, 0]];
    let mut b = board(rows);
    let before = occupied(&b);
    let score = b.make_move(Direction::Left);
    assert_eq!(score, Some(64));
    assert_eq!(occupied(&b), before - 5 + 1);
}

#[test]
fn full_checkerboard_has_no_move() {
    let b = board([[2, 4, 2, 4], [4, 2, 4, 2], [2, 4, 2, 4], [4, 2, 4, 2]]);
    assert!(!b.can_make_move());
    let mut m = b;
    assert_eq!(m.make_move(Direction::Left), None);
    assert_eq!(m.make_move(Direction::Up), None);
}

#[test]
fn full_board_with_equal_neighbours_can_move() {
    let row_pair = board([[2, 2, 2, 4], [4, 2, 4, 2], [2, 4, 2, 4], [4, 2, 4, 2]]);
    assert!(row_pair.can_make_move());
    let column_pair = board([[2, 4, 2, 4], [4, 2, 4, 2], [2, 4, 2, 4], [4, 2, 4, 4]]);
    assert!(column_pair.can_make_move());
    let column_only = board([[2, 4, 2, 4], [4, 2, 4, 2], [4, 8, 16, 32], [64, 128, 256, 512]]);
    assert!(column_only.can_make_move());
}

#[test]
fn board_with_empty_cell_can_move() {
    let b = board([[2, 4, 2, 4], [4, 2, 4, 2], [2, 4, 0, 4], [4, 2, 4, 2]]);
    assert!(b.can_make_move());
}

#[test]
fn spawn_at_picks_empty_cells_column_by_column() {
    let mut b = Board::empty();
    b.spawn_at(0, false);
    assert_eq!(faces(&b)[0][0], 2);
    b.spawn_at(5, true);
    assert_eq!(faces(&b)[2][1], 4);
    assert_eq!(occupied(&b), 2);
    b.spawn_at(13, false);
    assert_eq!(faces(&b)[3][3], 2);
    b.spawn_at(13 + 13, false);
    assert_eq!(faces(&b)[1][0], 2);
}

#[test]
fn spawn_at_leaves_full_board_alone() {
    let rows = [[2, 4, 2, 4], [4, 2, 4, 2], [2, 4, 2, 4], [4, 2, 4, 2]];
    let mut b = board(rows);
    b.spawn_at(3, true);
    assert_eq!(faces(&b), rows);
}

#[test]
fn sum_fits_reports_overflowing_boards() {
    assert!(board([[2, 4, 0, 0], [0; 4], [0; 4], [0, 0, 0, 1 << 40]]).sum_fits());
    let big = 1usize << (usize::BITS - 1);
    assert!(board([[big, 0, 0, 0], [0; 4], [0; 4], [0, 0, 0, 0]]).sum_fits());
    assert!(!board([[big, 0, 0, 0], [0; 4], [0; 4], [0, 0, 0, big]]).sum_fits());
}

#[test]
fn large_tiles_merge_when_their_sum_fits() {
    let mut b = board([[1 << 30, 1 << 30, 0, 0], [0; 4], [0; 4], [0; 4]]);
    assert_eq!(b.make_move(Direction::Left), Some(1 << 31));
    assert_eq!(faces(&b)[0][0], 1 << 31);
}

#[test]
fn successful_move_changes_the_board() {
    let rows = [[0, 0, 0, 0], [0, 0, 2, 0], [0, 0, 0, 0], [4, 0, 0, 0]];
    for dir in [Direction::Up, Direction::Down, Direction::Left, Direction::Right] {
        let mut b = board(rows);
        let score = b.make_move(dir);
        assert_eq!(score, Some(0));
        assert_ne!(faces(&b), rows);
        assert_eq!(occupied(&b), 3);
    }
}

#[test]
fn merges_on_a_full_board_leave_room_for_the_spawn() {
    let rows = [[2, 2, 4, 8], [4, 8, 16, 32], [8, 16, 32, 64], [16, 32, 64, 128]];
    let mut b = board(rows);
    assert!(b.can_make_move());
    let before = b.count_score();
    assert_eq!(b.make_move(Direction::Left), Some(4));
    let f = faces(&b);
    assert_eq!(f[0][..3], [4, 4, 8]);
    assert_eq!(f[1..], rows[1..]);
    assert_eq!(occupied(&b), 16);
    let gained = b.count_score() - before;
    assert!(gained == 2 || gained == 4);
}

#[test]
fn count_score_takes_tiles_beyond_the_move_limit() {
    let b = board([[134217728, 2, 0, 0], [0; 4], [0; 4], [0, 0, 0, 1 << 40]]);
    assert_eq!(b.count_score(), 134217728 + 2 + (1usize << 40));
}
