use vstd::prelude::*;
use crate::tile_value::{TileValue, is_tile_magnitude, is_power_of_two};
use crate::direction::Direction;
use crate::grid::{
    seq_sum, lanes_sum_from, lemma_lanes_sum, lemma_lane_tiles_sum, lane_sum_upto,
    is_grid, lane_pos, put, lane_at, slide, grid_sum, grid_count, row_sum, in_grid, has_empty,
    has_adjacent_pair, lemma_lane_pos, empties_upto, empty_cells, spawned,
    lemma_empty_cells, lemma_spawned, lane_tiles_upto, lane_tiles, merge_pairs, merge_score, packed,
    lane_index, lane_depth, score_upto, lemma_lane_tiles_same, lemma_lane_tiles_bound,
    slide_keeps_face_sum, slide_removes_one_tile_per_merge, slide_leaves_room,
};
use crate::chance::{random_usize, random_ratio};

verus! {

/// The face value of a cell: the tile's magnitude, or 0 where it is empty.
pub open spec fn face(c: Option<TileValue>) -> nat {
    match c {
        Some(t) => t@,
        None => 0,
    }
}

/// The faces of a list of tiles.
pub open spec fn tile_faces(s: Seq<TileValue>) -> Seq<nat> {
    s.map_values(|t: TileValue| t@)
}

/// The sum of the first `y` rows.
pub open spec fn rows_sum(g: Seq<Seq<nat>>, y: int) -> nat
    decreases y,
{
    if y <= 0 {
        0
    } else {
        rows_sum(g, y - 1) + row_sum(g[y - 1])
    }
}

/// The sum of the first `x` faces of a row.
pub open spec fn row_prefix(r: Seq<nat>, x: int) -> nat
    decreases x,
{
    if x <= 0 {
        0
    } else {
        row_prefix(r, x - 1) + r[x - 1]
    }
}

/// The first faces of a row sum to no more than the whole row.
proof fn lemma_row_prefix_mono(r: Seq<nat>, x: int)
    requires
        0 <= x <= 4,
    ensures
        row_prefix(r, x) <= row_sum(r),
    decreases 4 - x,
{
    if x < 4 {
        lemma_row_prefix_mono(r, x + 1);
    } else {
        reveal_with_fuel(row_prefix, 5);
    }
}

/// The first rows sum to no more than all four.
proof fn lemma_rows_sum_mono(g: Seq<Seq<nat>>, y: int)
    requires
        0 <= y <= 4,
    ensures
        rows_sum(g, y) <= rows_sum(g, 4),
    decreases 4 - y,
{
    if y < 4 {
        lemma_rows_sum_mono(g, y + 1);
    }
}

fn face_of(c: Option<TileValue>) -> (r: usize)
    ensures
        r == face(c),
{
    match c {
        Some(t) => t.get(),
        None => 0,
    }
}

/// The 4x4 board of a sliding-tile merge game.
#[derive(Debug, Clone, Copy)]
pub struct Board {
    tiles: [[Option<TileValue>; 4]; 4],
}

impl View for Board {
    type V = Seq<Seq<nat>>;

    closed spec fn view(&self) -> Seq<Seq<nat>> {
        Seq::new(4, |y: int| Seq::new(4, |x: int| face(self.tiles[y][x])))
    }
}

impl Board {
    /// A board's view is always a 4x4 grid, as the laws over grids require.
    pub proof fn lemma_grid(&self)
        ensures
            is_grid(self@),
    {
    }

    /// The board with no tile on it.
    pub fn empty() -> (r: Board)
        ensures
            forall|y: int, x: int| 0 <= y < 4 && 0 <= x < 4 ==> #[trigger] r@[y][x] == 0,
            is_grid(r@),
    {
        let row: [Option<TileValue>; 4] = [None, None, None, None];
        Board { tiles: [row, row, row, row] }
    }

    /// A fresh board: two tiles, each a 2 nine times in ten and else a 4, on two
    /// distinct cells drawn at random.
    pub fn new() -> (r: Board)
        ensures
            grid_count(r@) == 2,
            forall|y: int, x: int| 0 <= y < 4 && 0 <= x < 4 ==> #[trigger] r@[y][x] == 0 || r@[y][x] == 2
                || r@[y][x] == 4,
    {
        let mut board = Board::empty();
        let ghost g0 = board@;
        let pick = random_usize();
        let four = random_ratio(1, 10);
        board.spawn_at(pick, four);
        let ghost g1 = board@;
        let pick = random_usize();
        let four = random_ratio(1, 10);
        board.spawn_at(pick, four);
        proof {
            assert(g0[0][0] == 0);
            lemma_spawned(g0, g1);
            assert(grid_count(g0) == 0);
            assert(has_empty(g1)) by {
                if g1[0][0] == 0 {
                    assert(g1[0][0] == 0);
                } else {
                    assert(g1[0][1] == 0);
                }
            }
            lemma_spawned(g1, board@);
        }
        board
    }

    /// The board whose row `y`, column `x` shows `rows[y][x]`, with 0 for an empty
    /// cell; `None` where some face is neither 0 nor a power of two of at least 2.
    pub fn from_rows(rows: [[usize; 4]; 4]) -> (r: Option<Board>)
        ensures
            r is Some <==> forall|y: int, x: int| 0 <= y < 4 && 0 <= x < 4 ==> (#[trigger] rows[y][x] == 0
                || is_tile_magnitude(rows[y][x] as nat)),
            r matches Some(b) ==> forall|y: int, x: int| 0 <= y < 4 && 0 <= x < 4 ==> #[trigger] b@[y][x]
                == rows[y][x],
    {
        let mut board = Board::empty();
        let mut y: usize = 0;
        while y < 4
            invariant
                y <= 4,
                forall|yy: int, xx: int| 0 <= yy < y && 0 <= xx < 4 ==> (#[trigger] rows[yy][xx] == 0
                    || is_tile_magnitude(rows[yy][xx] as nat)),
                forall|yy: int, xx: int| 0 <= yy < 4 && 0 <= xx < 4 ==> #[trigger] board@[yy][xx]
                    == if yy < y { rows[yy][xx] as nat } else { 0 },
            decreases 4 - y,
        {
            let mut x: usize = 0;
            while x < 4
                invariant
                    y < 4,
                    x <= 4,
                    forall|yy: int, xx: int| 0 <= yy < y && 0 <= xx < 4 ==> (#[trigger] rows[yy][xx] == 0
                        || is_tile_magnitude(rows[yy][xx] as nat)),
                    forall|xx: int| 0 <= xx < x ==> (#[trigger] rows[y as int][xx] == 0
                        || is_tile_magnitude(rows[y as int][xx] as nat)),
                    forall|yy: int, xx: int| 0 <= yy < 4 && 0 <= xx < 4 ==> #[trigger] board@[yy][xx]
                        == if yy < y || (yy == y && xx < x) { rows[yy][xx] as nat } else { 0 },
                decreases 4 - x,
            {
                let face = rows[y][x];
                if face != 0 {
                    let tile = TileValue::new(face);
                    if tile.is_none() {
                        return None;
                    }
                    board.set(y, x, tile);
                }
                x = x + 1;
            }
            y = y + 1;
        }
        Some(board)
    }

    /// The cell at row `y`, column `x`.
    pub fn get(&self, y: usize, x: usize) -> (r: Option<TileValue>)
        requires
            y < 4,
            x < 4,
        ensures
            face(r) == self@[y as int][x as int],
            r matches Some(t) ==> is_tile_magnitude(t@),
    {
        let r = self.tiles[y][x];
        if let Some(t) = r {
            t.get();
        }
        r
    }

    fn set(&mut self, y: usize, x: usize, v: Option<TileValue>)
        requires
            y < 4,
            x < 4,
        ensures
            final(self)@ == put(old(self)@, (y as int, x as int), face(v)),
    {
        let mut row = self.tiles[y];
        row[x] = v;
        self.tiles[y] = row;
        assert(self@ =~~= put(old(self)@, (y as int, x as int), face(v)));
    }

    /// The cell at the given depth of lane `index` for a move in direction `dir`.
    fn get_cell(&self, dir: Direction, depth: usize, index: usize) -> (r: Option<TileValue>)
        requires
            depth < 4,
            index < 4,
        ensures
            face(r) == lane_at(self@, dir, index as int, depth as int),
            r matches Some(t) ==> is_tile_magnitude(t@),
    {
        match dir {
            Direction::Up => self.get(3 - depth, index),
            Direction::Down => self.get(depth, index),
            Direction::Left => self.get(index, 3 - depth),
            Direction::Right => self.get(index, depth),
        }
    }

    fn set_cell(&mut self, dir: Direction, depth: usize, index: usize, v: Option<TileValue>)
        requires
            depth < 4,
            index < 4,
        ensures
            final(self)@ == put(old(self)@, lane_pos(dir, depth as int, index as int), face(v)),
    {
        match dir {
            Direction::Up => self.set(3 - depth, index, v),
            Direction::Down => self.set(depth, index, v),
            Direction::Left => self.set(index, 3 - depth, v),
            Direction::Right => self.set(index, depth, v),
        }
    }

    /// The sum of the faces of all tiles on the board.
    pub fn count_score(self) -> (r: usize)
        requires
            grid_sum(self@) <= usize::MAX,
        ensures
            r == grid_sum(self@),
    {
        let ghost g = self@;
        proof {
            reveal_with_fuel(rows_sum, 5);
        }
        let mut total: usize = 0;
        let mut y: usize = 0;
        while y < 4
            invariant
                g == self@,
                y <= 4,
                total == rows_sum(g, y as int),
                rows_sum(g, 4) == grid_sum(g),
                grid_sum(g) <= usize::MAX,
            decreases 4 - y,
        {
            let a = face_of(self.get(y, 0));
            let b = face_of(self.get(y, 1));
            let c = face_of(self.get(y, 2));
            let d = face_of(self.get(y, 3));
            proof {
                lemma_rows_sum_mono(g, y as int + 1);
            }
            total = total + a + b + c + d;
            y = y + 1;
        }
        total
    }

    /// Whether some move can still change the board: an empty cell, or two equal
    /// tiles next to each other in a row or a column.
    pub fn can_make_move(&self) -> (r: bool)
        ensures
            r == (has_empty(self@) || has_adjacent_pair(self@)),
    {
        let ghost g = self@;
        let mut y: usize = 0;
        while y < 4
            invariant
                g == self@,
                y <= 4,
                forall|yy: int, xx: int| 0 <= yy < y && 0 <= xx < 4 ==> #[trigger] g[yy][xx] != 0,
            decreases 4 - y,
        {
            let mut x: usize = 0;
            while x < 4
                invariant
                    g == self@,
                    y < 4,
                    x <= 4,
                    forall|yy: int, xx: int| 0 <= yy < y && 0 <= xx < 4 ==> #[trigger] g[yy][xx] != 0,
                    forall|xx: int| 0 <= xx < x ==> #[trigger] g[y as int][xx] != 0,
                decreases 4 - x,
            {
                if self.get(y, x).is_none() {
                    return true;
                }
                x = x + 1;
            }
            y = y + 1;
        }
        assert(!has_empty(g));
        let mut y: usize = 0;
        while y < 4
            invariant
                g == self@,
                !has_empty(g),
                y <= 4,
                forall|yy: int, xx: int| 0 <= yy < y && 0 <= xx < 3 ==> #[trigger] g[yy][xx] != g[yy][xx + 1],
            decreases 4 - y,
        {
            let mut last_value: Option<usize> = None;
            let mut x: usize = 0;
            while x < 4
                invariant
                    g == self@,
                    !has_empty(g),
                    y < 4,
                    x <= 4,
                    forall|yy: int, xx: int| 0 <= yy < y && 0 <= xx < 3 ==> #[trigger] g[yy][xx] != g[yy][xx + 1],
                    forall|xx: int| 0 <= xx < x - 1 ==> #[trigger] g[y as int][xx] != g[y as int][xx + 1],
                    x == 0 ==> last_value is None,
                    x > 0 ==> last_value is Some && last_value->0 == g[y as int][x - 1],
                decreases 4 - x,
            {
                if let Some(tile_value) = self.get(y, x) {
                    let v = tile_value.get();
                    if last_value == Some(v) {
                        assert(g[y as int][x - 1] != 0 && g[y as int][x - 1] == g[y as int][(x - 1) + 1]);
                        return true;
                    } else {
                        last_value = Some(v);
                    }
                }
                x = x + 1;
            }
            y = y + 1;
        }
        let mut x: usize = 0;
        while x < 4
            invariant
                g == self@,
                !has_empty(g),
                x <= 4,
                forall|yy: int, xx: int| 0 <= yy < 4 && 0 <= xx < 3 ==> #[trigger] g[yy][xx] != g[yy][xx + 1],
                forall|yy: int, xx: int| 0 <= yy < 3 && 0 <= xx < x ==> #[trigger] g[yy][xx] != g[yy + 1][xx],
            decreases 4 - x,
        {
            let mut last_value: Option<usize> = None;
            let mut y: usize = 0;
            while y < 4
                invariant
                    g == self@,
                    !has_empty(g),
                    x < 4,
                    y <= 4,
                    forall|yy: int, xx: int| 0 <= yy < 4 && 0 <= xx < 3 ==> #[trigger] g[yy][xx] != g[yy][xx + 1],
                    forall|yy: int, xx: int| 0 <= yy < 3 && 0 <= xx < x ==> #[trigger] g[yy][xx] != g[yy + 1][xx],
                    forall|yy: int| 0 <= yy < y - 1 ==> #[trigger] g[yy][x as int] != g[yy + 1][x as int],
                    y == 0 ==> last_value is None,
                    y > 0 ==> last_value is Some && last_value->0 == g[y - 1][x as int],
                decreases 4 - y,
            {
                if let Some(tile_value) = self.get(y, x) {
                    let v = tile_value.get();
                    if last_value == Some(v) {
                        assert(g[y - 1][x as int] != 0 && g[y - 1][x as int] == g[(y - 1) + 1][x as int]);
                        return true;
                    } else {
                        last_value = Some(v);
                    }
                }
                y = y + 1;
            }
            x = x + 1;
        }
        false
    }

    /// Compacts lane `index` toward the edge `dir` points at: its tiles, read from
    /// that edge inward, have each pair of equal neighbours merged once and are
    /// packed against the edge. Returns the score of the merges.
    fn compact_lane(&mut self, dir: Direction, index: usize) -> (gained: usize)
        requires
            index < 4,
            seq_sum(lane_tiles(old(self)@, dir, index as int)) <= usize::MAX,
        ensures
            forall|i: int, d: int| 0 <= i < 4 && 0 <= d < 4 ==> #[trigger] lane_at(final(self)@, dir, i, d) == if i
                == index {
                packed(old(self)@, dir, index as int, d)
            } else {
                lane_at(old(self)@, dir, i, d)
            },
            gained == merge_score(lane_tiles(old(self)@, dir, index as int)),
            gained <= seq_sum(lane_tiles(old(self)@, dir, index as int)),
    {
        let ghost g = self@;
        proof {
            lemma_lane_pos(dir);
            lemma_lane_tiles_bound(g, dir, index as int, 4, lane_at(g, dir, index as int, 0) + lane_at(g, dir, index as int, 1)
                + lane_at(g, dir, index as int, 2) + lane_at(g, dir, index as int, 3));
        }
        let mut tiles: Vec<TileValue> = Vec::new();
        let mut depth: usize = 4;
        while depth > 0
            invariant
                depth <= 4,
                index < 4,
                self@ == g,
                tile_faces(tiles@) == lane_tiles_upto(g, dir, index as int, 4 - depth),
            decreases depth,
        {
            depth = depth - 1;
            let ghost before = tile_faces(tiles@);
            if let Some(t) = self.get_cell(dir, depth, index) {
                tiles.push(t);
                assert(tile_faces(tiles@) =~= before.push(t@));
            }
        }
        let ghost ts = tile_faces(tiles@);
        let n = tiles.len();
        let mut merged: Vec<TileValue> = Vec::new();
        let mut gained: usize = 0;
        let mut j: usize = 0;
        assert(ts.subrange(0, n as int) =~= ts);
        while j < n
            invariant
                j <= n,
                n == tiles.len(),
                n <= 4,
                ts == tile_faces(tiles@),
                seq_sum(ts) <= usize::MAX,
                tile_faces(merged@) + merge_pairs(ts.subrange(j as int, n as int)) == merge_pairs(ts),
                gained + merge_score(ts.subrange(j as int, n as int)) == merge_score(ts),
                gained + seq_sum(ts.subrange(j as int, n as int)) <= seq_sum(ts),
            decreases n - j,
        {
            let ghost rest = ts.subrange(j as int, n as int);
            let ghost done = tile_faces(merged@);
            proof {
                assert(rest.subrange(1, rest.len() as int) =~= ts.subrange(j + 1, n as int));
                assert(seq_sum(rest) == ts[j as int] + seq_sum(ts.subrange(j + 1, n as int)));
                if j + 1 < n {
                    let rest1 = ts.subrange(j + 1, n as int);
                    assert(rest1.subrange(1, rest1.len() as int) =~= ts.subrange(j + 2, n as int));
                    assert(seq_sum(rest1) == ts[j + 1] + seq_sum(ts.subrange(j + 2, n as int)));
                }
            }
            if j + 1 < n && tiles[j].get() == tiles[j + 1].get() {
                let m = tiles[j].next_value();
                gained = gained + m.get();
                merged.push(m);
                proof {
                    assert(rest.subrange(2, rest.len() as int) =~= ts.subrange(j + 2, n as int));
                    assert(tile_faces(merged@) =~= done.push(m@));
                    assert(done.push(m@) + merge_pairs(ts.subrange(j + 2, n as int)) =~= done + (seq![m@]
                        + merge_pairs(ts.subrange(j + 2, n as int))));
                }
                j = j + 2;
            } else {
                let t = tiles[j];
                merged.push(t);
                proof {
                    assert(rest.subrange(1, rest.len() as int) =~= ts.subrange(j + 1, n as int));
                    assert(tile_faces(merged@) =~= done.push(t@));
                    assert(done.push(t@) + merge_pairs(ts.subrange(j + 1, n as int)) =~= done + (seq![t@]
                        + merge_pairs(ts.subrange(j + 1, n as int))));
                }
                j = j + 1;
            }
        }
        let ghost r = tile_faces(merged@);
        proof {
            assert(ts.subrange(n as int, n as int) =~= Seq::<nat>::empty());
            assert(r + Seq::<nat>::empty() =~= r);
        }
        let mut depth: usize = 4;
        while depth > 0
            invariant
                depth <= 4,
                index < 4,
                r == tile_faces(merged@),
                r == merge_pairs(lane_tiles(g, dir, index as int)),
                forall|i: int, d: int| 0 <= i < 4 && 0 <= d < 4 ==> #[trigger] lane_at(self@, dir, i, d) == if i
                    == index && d >= depth {
                    packed(g, dir, index as int, d)
                } else {
                    lane_at(g, dir, i, d)
                },
                forall|d: int, i: int| 0 <= d < 4 && 0 <= i < 4 ==> #[trigger] in_grid(lane_pos(dir, d, i)),
                forall|d1: int, i1: int, d2: int, i2: int|
                    #[trigger] lane_pos(dir, d1, i1) == #[trigger] lane_pos(dir, d2, i2) ==> d1 == d2 && i1 == i2,
            decreases depth,
        {
            depth = depth - 1;
            let k = 3 - depth;
            let cell = if k < merged.len() {
                Some(merged[k])
            } else {
                None
            };
            proof {
                if k < merged.len() {
                    assert(r[k as int] == merged@[k as int]@);
                }
                assert(face(cell) == packed(g, dir, index as int, depth as int));
            }
            let ghost prev = self@;
            self.set_cell(dir, depth, index, cell);
            proof {
                assert forall|i: int, d: int| 0 <= i < 4 && 0 <= d < 4 implies #[trigger] lane_at(self@, dir, i, d) == if i
                    == index && d >= depth {
                    packed(g, dir, index as int, d)
                } else {
                    lane_at(g, dir, i, d)
                } by {
                    if i != index || d != depth {
                        assert(lane_pos(dir, d, i) != lane_pos(dir, depth as int, index as int));
                        assert(lane_at(self@, dir, i, d) == lane_at(prev, dir, i, d));
                    }
                }
            }
        }
        gained
    }

    /// Whether two boards show the same faces in every cell.
    pub fn same_tiles(&self, other: &Board) -> (r: bool)
        ensures
            r == (self@ == other@),
    {
        let mut y: usize = 0;
        while y < 4
            invariant
                y <= 4,
                forall|yy: int, xx: int| 0 <= yy < y && 0 <= xx < 4 ==> #[trigger] self@[yy][xx] == other@[yy][xx],
            decreases 4 - y,
        {
            let mut x: usize = 0;
            while x < 4
                invariant
                    y < 4,
                    x <= 4,
                    forall|yy: int, xx: int| 0 <= yy < y && 0 <= xx < 4 ==> #[trigger] self@[yy][xx] == other@[yy][xx],
                    forall|xx: int| 0 <= xx < x ==> #[trigger] self@[y as int][xx] == other@[y as int][xx],
                decreases 4 - x,
            {
                if face_of(self.get(y, x)) != face_of(other.get(y, x)) {
                    return false;
                }
                x = x + 1;
            }
            y = y + 1;
        }
        assert(self@ =~~= other@);
        true
    }

    /// Slides and merges every lane toward `dir`, placing no new tile. Returns the
    /// score the merges gain, or `None` where nothing moved, which leaves the board
    /// as it was.
    pub fn slide_tiles(&mut self, dir: Direction) -> (r: Option<usize>)
        requires
            grid_sum(old(self)@) <= usize::MAX,
        ensures
            final(self)@ == slide(old(self)@, dir).0,
            r is None <==> final(self)@ == old(self)@,
            r matches Some(n) ==> n == slide(old(self)@, dir).1,
    {
        let ghost g0 = self@;
        let before = *self;
        proof {
            lemma_lane_pos(dir);
            lemma_lanes_sum(g0, dir);
        }
        let mut added_score: usize = 0;
        let mut index: usize = 0;
        while index < 4
            invariant
                index <= 4,
                grid_sum(g0) <= usize::MAX,
                before@ == g0,
                forall|i: int, d: int| 0 <= i < 4 && 0 <= d < 4 ==> #[trigger] lane_at(self@, dir, i, d) == if i < index {
                    packed(g0, dir, i, d)
                } else {
                    lane_at(g0, dir, i, d)
                },
                added_score == score_upto(g0, dir, index as int),
                added_score + lanes_sum_from(g0, dir, index as int) <= grid_sum(g0),
                forall|d: int, i: int| 0 <= d < 4 && 0 <= i < 4 ==> #[trigger] in_grid(lane_pos(dir, d, i)),
            decreases 4 - index,
        {
            proof {
                assert forall|d: int| 0 <= d < 4 implies #[trigger] lane_at(self@, dir, index as int, d) == lane_at(
                    g0, dir, index as int, d) by {
                    assert(lane_at(self@, dir, index as int, d) == lane_at(g0, dir, index as int, d));
                }
                lemma_lane_tiles_same(self@, g0, dir, index as int, 4);
                lemma_lane_tiles_sum(g0, dir, index as int, 4);
                assert(lanes_sum_from(g0, dir, index as int) == lane_sum_upto(g0, dir, index as int, 4) + lanes_sum_from(
                    g0, dir, index as int + 1));
            }
            let ghost cur = self@;
            let gained = self.compact_lane(dir, index);
            proof {
                assert forall|i: int, d: int| 0 <= i < 4 && 0 <= d < 4 && i == index implies packed(cur, dir, i, d)
                    == packed(g0, dir, i, d) by {}
            }
            added_score = added_score + gained;
            index = index + 1;
        }
        proof {
            reveal_with_fuel(score_upto, 5);
            let s = slide(g0, dir).0;
            assert forall|y: int, x: int| 0 <= y < 4 && 0 <= x < 4 implies #[trigger] self@[y][x] == s[y][x] by {
                let i = lane_index(dir, y, x);
                let d = lane_depth(dir, y, x);
                assert(lane_pos(dir, d, i) == (y, x));
                assert(lane_at(self@, dir, i, d) == packed(g0, dir, i, d));
            }
            assert(self@ =~~= s);
        }
        if self.same_tiles(&before) {
            None
        } else {
            Some(added_score)
        }
    }

    /// The empty cells, column by column, as (column, row) pairs.
    fn available_cells(&self) -> (r: Vec<(usize, usize)>)
        ensures
            r@.len() == empty_cells(self@).len(),
            forall|i: int| 0 <= i < r@.len() ==> (#[trigger] r@[i]).0 as int == empty_cells(self@)[i].0
                && r@[i].1 as int == empty_cells(self@)[i].1,
    {
        let ghost g = self@;
        let mut available_cells: Vec<(usize, usize)> = Vec::new();
        let mut x: usize = 0;
        while x < 4
            invariant
                x <= 4,
                g == self@,
                available_cells@.len() == empties_upto(g, 4 * x as int).len(),
                forall|i: int| 0 <= i < available_cells@.len() ==> (#[trigger] available_cells@[i]).0 as int
                    == empties_upto(g, 4 * x as int)[i].0 && available_cells@[i].1 as int == empties_upto(g, 4 * x as int)[i].1,
            decreases 4 - x,
        {
            let mut y: usize = 0;
            while y < 4
                invariant
                    x < 4,
                    y <= 4,
                    g == self@,
                    available_cells@.len() == empties_upto(g, 4 * x + y).len(),
                    forall|i: int| 0 <= i < available_cells@.len() ==> (#[trigger] available_cells@[i]).0 as int
                        == empties_upto(g, 4 * x + y)[i].0 && available_cells@[i].1 as int == empties_upto(g, 4 * x + y)[i].1,
                decreases 4 - y,
            {
                let ghost k: int = 4 * x + y + 1;
                assert((k - 1) / 4 == x && (k - 1) % 4 == y);
                if self.get(y, x).is_none() {
                    available_cells.push((x, y));
                }
                y = y + 1;
            }
            x = x + 1;
        }
        available_cells
    }

    /// Places a new tile, a 4 where `four` holds and a 2 otherwise, on the empty
    /// cell that `pick` selects: cell `pick % n` of the `n` empty cells listed
    /// column by column. A full board is left as it is.
    pub fn spawn_at(&mut self, pick: usize, four: bool)
        ensures
            ({
                let e = empty_cells(old(self)@);
                if e.len() == 0 {
                    final(self)@ == old(self)@
                } else {
                    let p = e[pick as int % e.len() as int];
                    final(self)@ == put(old(self)@, (p.1, p.0), if four { 4 } else { 2 })
                }
            }),
            spawned(old(self)@, final(self)@),
    {
        proof {
            lemma_empty_cells(self@);
        }
        let available_cells = self.available_cells();
        if available_cells.len() == 0 {
            return;
        }
        let (x, y) = available_cells[pick % available_cells.len()];
        proof {
            reveal_with_fuel(is_power_of_two, 3);
        }
        let value: usize = if four { 4 } else { 2 };
        let ghost g = self@;
        self.set(y, x, TileValue::new(value));
        proof {
            let v: nat = value as nat;
            assert(g[y as int][x as int] == 0);
            assert(self@ == put(g, (y as int, x as int), v));
        }
    }

    /// Whether the faces on the board add up to a number that fits in a `usize`,
    /// as `make_move` and `count_score` require.
    pub fn sum_fits(&self) -> (r: bool)
        ensures
            r == (grid_sum(self@) <= usize::MAX),
    {
        let ghost g = self@;
        proof {
            reveal_with_fuel(rows_sum, 5);
        }
        let mut total: usize = 0;
        let mut y: usize = 0;
        while y < 4
            invariant
                g == self@,
                y <= 4,
                total == rows_sum(g, y as int),
                rows_sum(g, 4) == grid_sum(g),
            decreases 4 - y,
        {
            proof {
                lemma_rows_sum_mono(g, y as int + 1);
            }
            let mut x: usize = 0;
            let ghost start: int = total as int;
            while x < 4
                invariant
                    g == self@,
                    y < 4,
                    x <= 4,
                    start == rows_sum(g, y as int),
                    rows_sum(g, y as int + 1) <= rows_sum(g, 4),
                    rows_sum(g, 4) == grid_sum(g),
                    total == start + row_prefix(g[y as int], x as int),
                decreases 4 - x,
            {
                let v = face_of(self.get(y, x));
                proof {
                    lemma_row_prefix_mono(g[y as int], x as int + 1);
                }
                match total.checked_add(v) {
                    Some(t) => {
                        total = t;
                    },
                    None => {
                        return false;
                    },
                }
                x = x + 1;
            }
            proof {
                reveal_with_fuel(row_prefix, 5);
            }
            y = y + 1;
        }
        true
    }

    /// Makes a move: slides and merges every lane toward `dir` and, where that
    /// changed the board and an empty cell is left, places one new tile (2 nine
    /// times in ten, else 4) on an empty cell drawn at random. Returns the score the
    /// merges gain, or `None` where nothing could move, which leaves the board as it
    /// was and places no tile.
    #[verifier::rlimit(40)]
    pub fn make_move(&mut self, dir: Direction) -> (r: Option<usize>)
        requires
            grid_sum(old(self)@) <= usize::MAX,
        ensures
            r is None <==> slide(old(self)@, dir).0 == old(self)@,
            r is None ==> final(self)@ == old(self)@,
            r matches Some(n) ==> n == slide(old(self)@, dir).1 && spawned(slide(old(self)@, dir).0, final(self)@),
            r is Some ==> final(self)@ != old(self)@,
            r is Some ==> grid_count(final(self)@) + slide(old(self)@, dir).2 == grid_count(old(self)@) + 1,
            r is Some ==> grid_sum(final(self)@) == grid_sum(old(self)@) + 2 || grid_sum(final(self)@) == grid_sum(
                old(self)@) + 4,
    {
        let ghost g0 = self@;
        let added_score = self.slide_tiles(dir);
        if added_score.is_none() {
            return None;
        }
        let ghost g1 = self@;
        let pick = random_usize();
        let four = random_ratio(1, 10);
        self.spawn_at(pick, four);
        proof {
            assert(is_grid(g0));
            assert(g1 == slide(g0, dir).0 && g1 != g0);
            slide_keeps_face_sum(g0, dir);
            slide_removes_one_tile_per_merge(g0, dir);
            slide_leaves_room(g0, dir);
            assert(has_empty(g1));
            lemma_spawned(g1, self@);
            assert(grid_sum(self@) != grid_sum(g0));
        }
        added_score
    }
}

} // verus!
