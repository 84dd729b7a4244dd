use vstd::prelude::*;
use crate::direction::Direction;

verus! {

/// A 4x4 grid of cell values, rows first; 0 stands for an empty cell.
pub open spec fn is_grid(g: Seq<Seq<nat>>) -> bool {
    g.len() == 4 && forall|y: int| 0 <= y < 4 ==> #[trigger] g[y].len() == 4
}

/// The cell (row, column) at the given depth of a lane. Depth 3 is the edge the
/// tiles slide toward, depth 0 the opposite edge; the index picks the lane.
pub open spec fn lane_pos(dir: Direction, depth: int, index: int) -> (int, int) {
    match dir {
        Direction::Up => (3 - depth, index),
        Direction::Down => (depth, index),
        Direction::Left => (index, 3 - depth),
        Direction::Right => (index, depth),
    }
}

/// The face at a (row, column) position.
pub open spec fn at(g: Seq<Seq<nat>>, p: (int, int)) -> nat {
    g[p.0][p.1]
}

/// The grid with the cell at a (row, column) position set to `v`.
pub open spec fn put(g: Seq<Seq<nat>>, p: (int, int), v: nat) -> Seq<Seq<nat>> {
    g.update(p.0, g[p.0].update(p.1, v))
}

/// The face at the given depth of a lane.
pub open spec fn lane_at(g: Seq<Seq<nat>>, dir: Direction, index: int, depth: int) -> nat {
    at(g, lane_pos(dir, depth, index))
}

/// The sum of the faces of a row.
pub open spec fn row_sum(r: Seq<nat>) -> nat {
    r[0] + r[1] + r[2] + r[3]
}

/// The sum of all tile faces.
pub open spec fn grid_sum(g: Seq<Seq<nat>>) -> nat {
    row_sum(g[0]) + row_sum(g[1]) + row_sum(g[2]) + row_sum(g[3])
}

/// 1 for a tile, 0 for an empty cell.
pub open spec fn occupied(v: nat) -> nat {
    if v != 0 { 1 } else { 0 }
}

/// The number of tiles in a row.
pub open spec fn row_count(r: Seq<nat>) -> nat {
    occupied(r[0]) + occupied(r[1]) + occupied(r[2]) + occupied(r[3])
}

/// The number of occupied cells.
pub open spec fn grid_count(g: Seq<Seq<nat>>) -> nat {
    row_count(g[0]) + row_count(g[1]) + row_count(g[2]) + row_count(g[3])
}

/// A (row, column) position on the board.
pub open spec fn in_grid(p: (int, int)) -> bool {
    0 <= p.0 < 4 && 0 <= p.1 < 4
}

/// Some cell of the grid is empty.
pub open spec fn has_empty(g: Seq<Seq<nat>>) -> bool {
    exists|y: int, x: int| 0 <= y < 4 && 0 <= x < 4 && #[trigger] g[y][x] == 0
}

/// Two equal tiles side by side in a row or on top of each other in a column.
pub open spec fn has_adjacent_pair(g: Seq<Seq<nat>>) -> bool {
    (exists|y: int, x: int| 0 <= y < 4 && 0 <= x < 3 && #[trigger] g[y][x] != 0 && g[y][x] == g[y][x + 1])
    || (exists|y: int, x: int| 0 <= y < 3 && 0 <= x < 4 && #[trigger] g[y][x] != 0 && g[y][x] == g[y + 1][x])
}

/// The cells of the lanes are the cells of the grid, each met once.
pub proof fn lemma_lane_pos(dir: Direction)
    ensures
        forall|d: int, i: int| 0 <= d < 4 && 0 <= i < 4 ==> #[trigger] in_grid(lane_pos(dir, d, i)),
        forall|d1: int, i1: int, d2: int, i2: int|
            #[trigger] lane_pos(dir, d1, i1) == #[trigger] lane_pos(dir, d2, i2) ==> d1 == d2 && i1 == i2,
{
}

/// The empty cells among the first `k` cells taken column by column, as
/// (column, row) pairs.
pub open spec fn empties_upto(g: Seq<Seq<nat>>, k: int) -> Seq<(int, int)>
    decreases k,
{
    if k <= 0 {
        Seq::empty()
    } else {
        let x = (k - 1) / 4;
        let y = (k - 1) % 4;
        if g[y][x] == 0 {
            empties_upto(g, k - 1).push((x, y))
        } else {
            empties_upto(g, k - 1)
        }
    }
}

/// All empty cells, column by column, as (column, row) pairs.
pub open spec fn empty_cells(g: Seq<Seq<nat>>) -> Seq<(int, int)> {
    empties_upto(g, 16)
}

/// `f` is `s` with one new tile of 2 or 4 on a cell that was empty, or `s` itself
/// where no cell was empty.
pub open spec fn spawned(s: Seq<Seq<nat>>, f: Seq<Seq<nat>>) -> bool {
    if has_empty(s) {
        exists|y: int, x: int, v: nat| 0 <= y < 4 && 0 <= x < 4 && s[y][x] == 0 && (v == 2 || v == 4)
            && f == #[trigger] put(s, (y, x), v)
    } else {
        f == s
    }
}

/// The listed cells are exactly the empty ones, so the list is empty only on a
/// full grid.
pub proof fn lemma_empties(g: Seq<Seq<nat>>, k: int)
    requires
        is_grid(g),
        0 <= k <= 16,
    ensures
        forall|i: int| 0 <= i < empties_upto(g, k).len() ==> {
            let p = #[trigger] empties_upto(g, k)[i];
            0 <= p.0 < 4 && 0 <= p.1 < 4 && g[p.1][p.0] == 0
        },
        (exists|j: int| 0 <= j < k && #[trigger] g[j % 4][j / 4] == 0) ==> empties_upto(g, k).len() > 0,
    decreases k,
{
    if k > 0 {
        lemma_empties(g, k - 1);
        let e = empties_upto(g, k - 1);
        let x = (k - 1) / 4;
        let y = (k - 1) % 4;
        if g[y][x] == 0 {
            assert(empties_upto(g, k) == e.push((x, y)));
        }
        if exists|j: int| 0 <= j < k && #[trigger] g[j % 4][j / 4] == 0 {
            let j = choose|j: int| 0 <= j < k && #[trigger] g[j % 4][j / 4] == 0;
            if j < k - 1 {
                assert(empties_upto(g, k - 1).len() > 0);
            }
        }
    }
}

/// A grid has an empty cell exactly when the list of empty cells is not empty.
pub proof fn lemma_empty_cells(g: Seq<Seq<nat>>)
    requires
        is_grid(g),
    ensures
        forall|i: int| 0 <= i < empty_cells(g).len() ==> {
            let p = #[trigger] empty_cells(g)[i];
            0 <= p.0 < 4 && 0 <= p.1 < 4 && g[p.1][p.0] == 0
        },
        has_empty(g) <==> empty_cells(g).len() > 0,
{
    lemma_empties(g, 16);
    if has_empty(g) {
        let (y, x) = choose|y: int, x: int| 0 <= y < 4 && 0 <= x < 4 && #[trigger] g[y][x] == 0;
        let j = 4 * x + y;
        assert(j % 4 == y && j / 4 == x);
        assert(g[j % 4][j / 4] == 0);
    }
    if empty_cells(g).len() > 0 {
        let p = empty_cells(g)[0];
        assert(g[p.1][p.0] == 0);
    }
}


/// Writing one cell changes the sum and the number of occupied cells by what it
/// takes out and what it puts in.
pub proof fn lemma_put(g: Seq<Seq<nat>>, p: (int, int), v: nat)
    requires
        is_grid(g),
        in_grid(p),
    ensures
        is_grid(put(g, p, v)),
        grid_sum(put(g, p, v)) + at(g, p) == grid_sum(g) + v,
        grid_count(put(g, p, v)) + occupied(at(g, p)) == grid_count(g) + occupied(v),
{
    let h = put(g, p, v);
    assert(is_grid(h));
    assert forall|y: int| 0 <= y < 4 && y != p.0 implies #[trigger] h[y] == g[y] by {}
    let r = h[p.0];
    assert(row_sum(r) + g[p.0][p.1] == row_sum(g[p.0]) + v);
    assert(row_count(r) + occupied(g[p.0][p.1]) == row_count(g[p.0]) + occupied(v));
}

/// A spawn adds one tile, of 2 or 4, where a cell was empty, and nothing
/// otherwise.
pub proof fn lemma_spawned(s: Seq<Seq<nat>>, f: Seq<Seq<nat>>)
    requires
        is_grid(s),
        spawned(s, f),
    ensures
        is_grid(f),
        grid_count(f) == grid_count(s) + (if has_empty(s) { 1nat } else { 0nat }),
        has_empty(s) ==> grid_sum(f) == grid_sum(s) + 2 || grid_sum(f) == grid_sum(s) + 4,
        forall|y: int, x: int| 0 <= y < 4 && 0 <= x < 4 ==> #[trigger] f[y][x] == s[y][x]
            || (s[y][x] == 0 && (f[y][x] == 2 || f[y][x] == 4)),
{
    if has_empty(s) {
        let (y, x, v) = choose|y: int, x: int, v: nat| 0 <= y < 4 && 0 <= x < 4 && s[y][x] == 0 && (v == 2
            || v == 4) && f == #[trigger] put(s, (y, x), v);
        lemma_put(s, (y, x), v);
    }
}



/// The tiles among the `k` cells of a lane nearest its target edge, nearest first.
pub open spec fn lane_tiles_upto(g: Seq<Seq<nat>>, dir: Direction, index: int, k: int) -> Seq<nat>
    decreases k,
{
    if k <= 0 {
        Seq::empty()
    } else {
        let v = lane_at(g, dir, index, 4 - k);
        if v != 0 {
            lane_tiles_upto(g, dir, index, k - 1).push(v)
        } else {
            lane_tiles_upto(g, dir, index, k - 1)
        }
    }
}

/// The tiles of a lane read from its target edge inward, empty cells dropped.
pub open spec fn lane_tiles(g: Seq<Seq<nat>>, dir: Direction, index: int) -> Seq<nat> {
    lane_tiles_upto(g, dir, index, 4)
}

/// Merges each pair of equal neighbours of a list of tiles once, from its front:
/// the pair becomes one tile of twice the face, which merges no further.
pub open spec fn merge_pairs(s: Seq<nat>) -> Seq<nat>
    decreases s.len(),
{
    if s.len() == 0 {
        s
    } else if s.len() >= 2 && s[0] == s[1] {
        seq![2 * s[0]] + merge_pairs(s.subrange(2, s.len() as int))
    } else {
        seq![s[0]] + merge_pairs(s.subrange(1, s.len() as int))
    }
}

/// The score of `merge_pairs`: the sum of the faces its merges make.
pub open spec fn merge_score(s: Seq<nat>) -> nat
    decreases s.len(),
{
    if s.len() == 0 {
        0
    } else if s.len() >= 2 && s[0] == s[1] {
        2 * s[0] + merge_score(s.subrange(2, s.len() as int))
    } else {
        merge_score(s.subrange(1, s.len() as int))
    }
}

/// The face at the given depth of a lane after the move: the merged tiles packed
/// against the target edge.
pub open spec fn packed(g: Seq<Seq<nat>>, dir: Direction, index: int, depth: int) -> nat {
    let r = merge_pairs(lane_tiles(g, dir, index));
    let j = 3 - depth;
    if 0 <= j < r.len() {
        r[j]
    } else {
        0
    }
}

/// The lane that the cell at row `y`, column `x` belongs to.
pub open spec fn lane_index(dir: Direction, y: int, x: int) -> int {
    match dir {
        Direction::Up | Direction::Down => x,
        Direction::Left | Direction::Right => y,
    }
}

/// The depth of the cell at row `y`, column `x` in its lane.
pub open spec fn lane_depth(dir: Direction, y: int, x: int) -> int {
    match dir {
        Direction::Up => 3 - y,
        Direction::Down => y,
        Direction::Left => 3 - x,
        Direction::Right => x,
    }
}

/// The number of merges a lane makes.
pub open spec fn lane_merges(g: Seq<Seq<nat>>, dir: Direction, index: int) -> nat {
    (lane_tiles(g, dir, index).len() - merge_pairs(lane_tiles(g, dir, index)).len()) as nat
}

/// A whole move's slide and merge: the resulting grid, the score it gains, and the
/// number of merges it makes.
pub open spec fn slide(g: Seq<Seq<nat>>, dir: Direction) -> (Seq<Seq<nat>>, nat, nat) {
    (
        Seq::new(4, |y: int| Seq::new(4, |x: int| packed(g, dir, lane_index(dir, y, x), lane_depth(dir, y, x)))),
        merge_score(lane_tiles(g, dir, 0)) + merge_score(lane_tiles(g, dir, 1)) + merge_score(lane_tiles(g, dir, 2))
            + merge_score(lane_tiles(g, dir, 3)),
        lane_merges(g, dir, 0) + lane_merges(g, dir, 1) + lane_merges(g, dir, 2) + lane_merges(g, dir, 3),
    )
}

/// The score of the first `m` lanes.
pub open spec fn score_upto(g: Seq<Seq<nat>>, dir: Direction, m: int) -> nat
    decreases m,
{
    if m <= 0 {
        0
    } else {
        score_upto(g, dir, m - 1) + merge_score(lane_tiles(g, dir, m - 1))
    }
}

/// A lane's tiles depend on that lane's cells alone.
pub proof fn lemma_lane_tiles_same(a: Seq<Seq<nat>>, b: Seq<Seq<nat>>, dir: Direction, index: int, k: int)
    requires
        0 <= k <= 4,
        forall|d: int| 0 <= d < 4 ==> #[trigger] lane_at(a, dir, index, d) == lane_at(b, dir, index, d),
    ensures
        lane_tiles_upto(a, dir, index, k) == lane_tiles_upto(b, dir, index, k),
    decreases k,
{
    if k > 0 {
        lemma_lane_tiles_same(a, b, dir, index, k - 1);
        assert(lane_at(a, dir, index, 4 - k) == lane_at(b, dir, index, 4 - k));
    }
}

/// A lane lists at most as many tiles as cells were read, none of them above the
/// largest face on it.
pub proof fn lemma_lane_tiles_bound(g: Seq<Seq<nat>>, dir: Direction, index: int, k: int, bound: nat)
    requires
        0 <= k <= 4,
        forall|d: int| 0 <= d < 4 ==> #[trigger] lane_at(g, dir, index, d) <= bound,
    ensures
        lane_tiles_upto(g, dir, index, k).len() <= k,
        forall|j: int| 0 <= j < lane_tiles_upto(g, dir, index, k).len() ==> #[trigger] lane_tiles_upto(g, dir, index, k)[j]
            <= bound && lane_tiles_upto(g, dir, index, k)[j] != 0,
    decreases k,
{
    if k > 0 {
        lemma_lane_tiles_bound(g, dir, index, k - 1, bound);
        assert(lane_at(g, dir, index, 4 - k) <= bound);
    }
}


/// The sum of a list of faces.
pub open spec fn seq_sum(s: Seq<nat>) -> nat
    decreases s.len(),
{
    if s.len() == 0 {
        0
    } else {
        s[0] + seq_sum(s.subrange(1, s.len() as int))
    }
}

/// The sum of the faces from position `j` of a list on.
pub open spec fn tail_sum(s: Seq<nat>, j: int) -> nat
    decreases s.len() - j,
{
    if j >= s.len() || j < 0 {
        0
    } else {
        s[j] + tail_sum(s, j + 1)
    }
}

/// The sum and the number of tiles among the `k` cells of a lane nearest its edge.
pub open spec fn lane_sum_upto(g: Seq<Seq<nat>>, dir: Direction, index: int, k: int) -> nat
    decreases k,
{
    if k <= 0 {
        0
    } else {
        lane_sum_upto(g, dir, index, k - 1) + lane_at(g, dir, index, 4 - k)
    }
}

pub open spec fn lane_count_upto(g: Seq<Seq<nat>>, dir: Direction, index: int, k: int) -> nat
    decreases k,
{
    if k <= 0 {
        0
    } else {
        lane_count_upto(g, dir, index, k - 1) + occupied(lane_at(g, dir, index, 4 - k))
    }
}

proof fn lemma_tail_sum(s: Seq<nat>, j: int)
    requires
        0 <= j <= s.len(),
    ensures
        seq_sum(s.subrange(j, s.len() as int)) == tail_sum(s, j),
    decreases s.len() - j,
{
    if j < s.len() {
        lemma_tail_sum(s, j + 1);
        let t = s.subrange(j, s.len() as int);
        assert(t.subrange(1, t.len() as int) =~= s.subrange(j + 1, s.len() as int));
    }
}

proof fn lemma_seq_sum_push(s: Seq<nat>, v: nat)
    ensures
        seq_sum(s.push(v)) == seq_sum(s) + v,
    decreases s.len(),
{
    if s.len() > 0 {
        let t = s.subrange(1, s.len() as int);
        lemma_seq_sum_push(t, v);
        assert(s.push(v).subrange(1, s.len() as int + 1) =~= t.push(v));
        assert(s.push(v)[0] == s[0]);
        assert(seq_sum(s.push(v)) == s[0] + seq_sum(t.push(v)));
    } else {
        assert(s.push(v).subrange(1, 1) =~= Seq::<nat>::empty());
        assert(seq_sum(Seq::<nat>::empty()) == 0);
        assert(s =~= Seq::<nat>::empty());
    }
}

proof fn lemma_seq_sum_cons(a: nat, t: Seq<nat>)
    ensures
        seq_sum(seq![a] + t) == a + seq_sum(t),
{
    let s = seq![a] + t;
    assert(s.subrange(1, s.len() as int) =~= t);
}

/// Reading a lane's tiles keeps their sum and counts its occupied cells.
pub proof fn lemma_lane_tiles_sum(g: Seq<Seq<nat>>, dir: Direction, index: int, k: int)
    requires
        0 <= k <= 4,
    ensures
        seq_sum(lane_tiles_upto(g, dir, index, k)) == lane_sum_upto(g, dir, index, k),
        lane_tiles_upto(g, dir, index, k).len() == lane_count_upto(g, dir, index, k),
        forall|j: int| 0 <= j < lane_tiles_upto(g, dir, index, k).len() ==> #[trigger] lane_tiles_upto(g, dir, index, k)[j] != 0,
    decreases k,
{
    if k > 0 {
        lemma_lane_tiles_sum(g, dir, index, k - 1);
        let v = lane_at(g, dir, index, 4 - k);
        if v != 0 {
            lemma_seq_sum_push(lane_tiles_upto(g, dir, index, k - 1), v);
        }
    } else {
        assert(seq_sum(Seq::<nat>::empty()) == 0);
    }
}

/// Merging keeps the sum of the faces and never lengthens the list; each merge
/// takes two tiles of the list, so there are at most half as many merges as tiles.
pub proof fn lemma_merge_pairs(s: Seq<nat>)
    ensures
        seq_sum(merge_pairs(s)) == seq_sum(s),
        merge_pairs(s).len() <= s.len(),
        2 * (s.len() - merge_pairs(s).len()) <= s.len(),
        merge_pairs(s).len() == s.len() ==> merge_pairs(s) == s,
        (forall|j: int| 0 <= j < s.len() ==> #[trigger] s[j] != 0) ==> forall|j: int| 0 <= j < merge_pairs(s).len()
            ==> #[trigger] merge_pairs(s)[j] != 0,
    decreases s.len(),
{
    if s.len() > 0 {
        let t1 = s.subrange(1, s.len() as int);
        lemma_seq_sum_cons(s[0], t1);
        assert(s =~= seq![s[0]] + t1);
        if s.len() >= 2 && s[0] == s[1] {
            let t2 = s.subrange(2, s.len() as int);
            lemma_merge_pairs(t2);
            lemma_seq_sum_cons(2 * s[0], merge_pairs(t2));
            lemma_seq_sum_cons(s[1], t2);
            assert(t1 =~= seq![s[1]] + t2);
            if (forall|j: int| 0 <= j < s.len() ==> #[trigger] s[j] != 0) {
                assert forall|j: int| 0 <= j < t2.len() implies #[trigger] t2[j] != 0 by {
                    assert(t2[j] == s[j + 2]);
                }
            }
        } else {
            lemma_merge_pairs(t1);
            lemma_seq_sum_cons(s[0], merge_pairs(t1));
            if merge_pairs(s).len() == s.len() {
                assert(merge_pairs(s) =~= seq![s[0]] + t1);
            }
            if (forall|j: int| 0 <= j < s.len() ==> #[trigger] s[j] != 0) {
                assert forall|j: int| 0 <= j < t1.len() implies #[trigger] t1[j] != 0 by {
                    assert(t1[j] == s[j + 1]);
                }
            }
        }
    }
}


/// The grid is the sum of its lanes, in sum of faces and in number of tiles.
pub proof fn lemma_grid_by_lanes(g: Seq<Seq<nat>>, dir: Direction)
    ensures
        grid_sum(g) == lane_sum_upto(g, dir, 0, 4) + lane_sum_upto(g, dir, 1, 4) + lane_sum_upto(g, dir, 2, 4)
            + lane_sum_upto(g, dir, 3, 4),
        grid_count(g) == lane_count_upto(g, dir, 0, 4) + lane_count_upto(g, dir, 1, 4) + lane_count_upto(g, dir, 2, 4)
            + lane_count_upto(g, dir, 3, 4),
{
    reveal_with_fuel(lane_sum_upto, 5);
    reveal_with_fuel(lane_count_upto, 5);
}

/// What a slide leaves in one lane: its merged tiles, packed at the edge.
proof fn lemma_slid_lane(g: Seq<Seq<nat>>, dir: Direction, index: int)
    requires
        0 <= index < 4,
    ensures
        is_grid(slide(g, dir).0),
        forall|d: int| 0 <= d < 4 ==> #[trigger] lane_at(slide(g, dir).0, dir, index, d) == packed(g, dir, index, d),
        lane_sum_upto(slide(g, dir).0, dir, index, 4) == seq_sum(lane_tiles(g, dir, index)),
        lane_count_upto(slide(g, dir).0, dir, index, 4) == merge_pairs(lane_tiles(g, dir, index)).len(),
        lane_tiles(g, dir, index).len() == lane_count_upto(g, dir, index, 4),
        seq_sum(lane_tiles(g, dir, index)) == lane_sum_upto(g, dir, index, 4),
        merge_pairs(lane_tiles(g, dir, index)).len() <= lane_tiles(g, dir, index).len(),
{
    let h = slide(g, dir).0;
    assert forall|d: int| 0 <= d < 4 implies #[trigger] lane_at(h, dir, index, d) == packed(g, dir, index, d) by {
        let p = lane_pos(dir, d, index);
        assert(lane_index(dir, p.0, p.1) == index && lane_depth(dir, p.0, p.1) == d);
    }
    let ts = lane_tiles(g, dir, index);
    let r = merge_pairs(ts);
    lemma_lane_tiles_sum(g, dir, index, 4);
    assert(ts.len() <= 4) by {
        lemma_lane_tiles_bound(g, dir, index, 4, lane_sum_upto(g, dir, index, 4) + lane_at(g, dir, index, 0)
            + lane_at(g, dir, index, 1) + lane_at(g, dir, index, 2) + lane_at(g, dir, index, 3));
    }
    lemma_merge_pairs(ts);
    let first: nat = if 0 < r.len() { r[0] } else { 0 };
    let second: nat = if 1 < r.len() { r[1] } else { 0 };
    let third: nat = if 2 < r.len() { r[2] } else { 0 };
    let fourth: nat = if 3 < r.len() { r[3] } else { 0 };
    assert(lane_sum_upto(h, dir, index, 4) == first + second + third + fourth) by {
        reveal_with_fuel(lane_sum_upto, 5);
    }
    assert(lane_count_upto(h, dir, index, 4) == r.len()) by {
        reveal_with_fuel(lane_count_upto, 5);
    }
    assert(seq_sum(r) == first + second + third + fourth) by {
        lemma_tail_sum(r, 0);
        assert(r.subrange(0, r.len() as int) =~= r);
        reveal_with_fuel(tail_sum, 5);
    }
}

/// A slide only moves and merges tiles: the sum of the faces after it is the sum
/// before it.
pub proof fn slide_keeps_face_sum(g: Seq<Seq<nat>>, dir: Direction)
    requires
        is_grid(g),
    ensures
        grid_sum(slide(g, dir).0) == grid_sum(g),
{
    lemma_grid_by_lanes(g, dir);
    lemma_grid_by_lanes(slide(g, dir).0, dir);
    lemma_slid_lane(g, dir, 0);
    lemma_slid_lane(g, dir, 1);
    lemma_slid_lane(g, dir, 2);
    lemma_slid_lane(g, dir, 3);
    lemma_merge_pairs(lane_tiles(g, dir, 0));
    lemma_merge_pairs(lane_tiles(g, dir, 1));
    lemma_merge_pairs(lane_tiles(g, dir, 2));
    lemma_merge_pairs(lane_tiles(g, dir, 3));
}

/// A slide keeps every tile but those merged away: each merge takes exactly one
/// tile off the grid.
pub proof fn slide_removes_one_tile_per_merge(g: Seq<Seq<nat>>, dir: Direction)
    requires
        is_grid(g),
    ensures
        is_grid(slide(g, dir).0),
        grid_count(slide(g, dir).0) + slide(g, dir).2 == grid_count(g),
{
    lemma_grid_by_lanes(g, dir);
    lemma_grid_by_lanes(slide(g, dir).0, dir);
    lemma_slid_lane(g, dir, 0);
    lemma_slid_lane(g, dir, 1);
    lemma_slid_lane(g, dir, 2);
    lemma_slid_lane(g, dir, 3);
}


/// A full lane without merges stays as it is.
proof fn lemma_full_lane(g: Seq<Seq<nat>>, dir: Direction, index: int)
    requires
        forall|d: int| 0 <= d < 4 ==> #[trigger] lane_at(g, dir, index, d) != 0,
        lane_merges(g, dir, index) == 0,
    ensures
        forall|d: int| 0 <= d < 4 ==> #[trigger] packed(g, dir, index, d) == lane_at(g, dir, index, d),
{
    let ts = lane_tiles(g, dir, index);
    assert(ts =~= seq![lane_at(g, dir, index, 3), lane_at(g, dir, index, 2), lane_at(g, dir, index, 1), lane_at(
        g, dir, index, 0)]) by {
        reveal_with_fuel(lane_tiles_upto, 5);
        assert(lane_at(g, dir, index, 0) != 0 && lane_at(g, dir, index, 1) != 0);
        assert(lane_at(g, dir, index, 2) != 0 && lane_at(g, dir, index, 3) != 0);
    }
    lemma_merge_pairs(ts);
}

/// A slide that changes the grid leaves an empty cell: a tile that moves leaves
/// its cell, and a merge frees one. So a successful move always has room for the
/// new tile.
pub proof fn slide_leaves_room(g: Seq<Seq<nat>>, dir: Direction)
    requires
        is_grid(g),
        slide(g, dir).0 != g,
    ensures
        has_empty(slide(g, dir).0),
{
    let h = slide(g, dir).0;
    if !has_empty(h) {
        slide_removes_one_tile_per_merge(g, dir);
        lemma_lane_pos(dir);
        assert(forall|y: int, x: int| 0 <= y < 4 && 0 <= x < 4 ==> #[trigger] h[y][x] != 0);
        assert(grid_count(h) == 16);
        assert(forall|y: int, x: int| 0 <= y < 4 && 0 <= x < 4 ==> #[trigger] g[y][x] != 0);
        assert forall|i: int, d: int| 0 <= i < 4 && 0 <= d < 4 implies #[trigger] packed(g, dir, i, d) == lane_at(g, dir, i, d) by {
            assert forall|e: int| 0 <= e < 4 implies #[trigger] lane_at(g, dir, i, e) != 0 by {
                assert(in_grid(lane_pos(dir, e, i)));
            }
            lemma_full_lane(g, dir, i);
        }
        assert forall|y: int| 0 <= y < 4 implies #[trigger] h[y] =~= g[y] by {
            assert forall|x: int| 0 <= x < 4 implies #[trigger] h[y][x] == g[y][x] by {
                let i = lane_index(dir, y, x);
                let d = lane_depth(dir, y, x);
                assert(lane_pos(dir, d, i) == (y, x));
                assert(packed(g, dir, i, d) == lane_at(g, dir, i, d));
            }
        }
        assert(h =~= g);
    }
}

/// No tile merges with more than one other in a move: each merge of a lane takes
/// two of its tiles that no other merge takes, so a lane of `n` tiles makes at
/// most `n / 2` merges (a chain such as 4, 2, 2 into one 8 would make two merges
/// out of three tiles).
pub proof fn lane_merges_each_tile_once(g: Seq<Seq<nat>>, dir: Direction, index: int)
    ensures
        2 * lane_merges(g, dir, index) <= lane_tiles(g, dir, index).len(),
{
    lemma_merge_pairs(lane_tiles(g, dir, index));
}


/// The sum of the faces of lanes `i` to 3.
pub open spec fn lanes_sum_from(g: Seq<Seq<nat>>, dir: Direction, i: int) -> nat
    decreases 4 - i,
{
    if i >= 4 {
        0
    } else {
        lane_sum_upto(g, dir, i, 4) + lanes_sum_from(g, dir, i + 1)
    }
}

/// The grid's sum is the sum of all its lanes.
pub proof fn lemma_lanes_sum(g: Seq<Seq<nat>>, dir: Direction)
    ensures
        lanes_sum_from(g, dir, 0) == grid_sum(g),
{
    lemma_grid_by_lanes(g, dir);
    reveal_with_fuel(lanes_sum_from, 5);
}


/// In a whole move each merge takes two tiles that no other merge takes: a grid
/// of `n` tiles makes at most `n / 2` merges.
pub proof fn move_merges_each_tile_once(g: Seq<Seq<nat>>, dir: Direction)
    ensures
        2 * slide(g, dir).2 <= grid_count(g),
{
    lemma_grid_by_lanes(g, dir);
    lemma_slid_lane(g, dir, 0);
    lemma_slid_lane(g, dir, 1);
    lemma_slid_lane(g, dir, 2);
    lemma_slid_lane(g, dir, 3);
    lane_merges_each_tile_once(g, dir, 0);
    lane_merges_each_tile_once(g, dir, 1);
    lane_merges_each_tile_once(g, dir, 2);
    lane_merges_each_tile_once(g, dir, 3);
}

} // verus!
