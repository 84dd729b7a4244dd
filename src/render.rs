use vstd::prelude::*;
use vstd::string::StringExecFns;
use crate::board::Board;

verus! {

/// `n` copies of `c`.
pub open spec fn repeat_char(c: char, n: nat) -> Seq<char>
    decreases n,
{
    if n == 0 {
        Seq::empty()
    } else {
        repeat_char(c, (n - 1) as nat).push(c)
    }
}

/// The character of a decimal digit.
pub open spec fn digit_char(d: nat) -> char {
    if d == 0 { '0' } else if d == 1 { '1' } else if d == 2 { '2' } else if d == 3 { '3' } else if d == 4 {
        '4'
    } else if d == 5 { '5' } else if d == 6 { '6' } else if d == 7 { '7' } else if d == 8 { '8' } else {
        '9'
    }
}

/// The decimal digits of `n`, most significant first, without leading zeros.
pub open spec fn decimal(n: nat) -> Seq<char>
    decreases n,
{
    if n < 10 {
        seq![digit_char(n)]
    } else {
        decimal(n / 10).push(digit_char(n % 10))
    }
}

/// The largest face among the first `k` cells, row by row.
pub open spec fn largest_upto(g: Seq<Seq<nat>>, k: int) -> nat
    decreases k,
{
    if k <= 0 {
        0
    } else {
        let v = g[(k - 1) / 4][(k - 1) % 4];
        let m = largest_upto(g, k - 1);
        if v > m { v } else { m }
    }
}

/// The width of a cell: two more than the digits of the largest face.
pub open spec fn cell_width(g: Seq<Seq<nat>>) -> nat {
    decimal(largest_upto(g, 16)).len() + 2
}

/// A face centred in `w` columns, the odd space going to the right; an empty
/// cell is `w` spaces.
pub open spec fn cell_text(v: nat, w: nat) -> Seq<char> {
    if v == 0 {
        repeat_char(' ', w)
    } else {
        let pad = (w - decimal(v).len()) as nat;
        repeat_char(' ', pad / 2) + decimal(v) + repeat_char(' ', (pad - pad / 2) as nat)
    }
}

/// The first `k` cells of a row, each closed by a bar, after an opening bar.
pub open spec fn cells_text(r: Seq<nat>, w: nat, k: int) -> Seq<char>
    decreases k,
{
    if k <= 0 {
        seq!['|']
    } else {
        cells_text(r, w, k - 1) + cell_text(r[k - 1], w) + seq!['|']
    }
}

/// The horizontal rule of a board whose cells are `w` wide.
pub open spec fn rule(w: nat) -> Seq<char> {
    repeat_char('-', 3 + 4 * w)
}

/// A line of four empty cells, used above and below each row of wide cells.
pub open spec fn padding_line(w: nat) -> Seq<char> {
    if w >= 5 {
        cells_text(seq![0nat, 0nat, 0nat, 0nat], w, 4) + seq!['\n']
    } else {
        Seq::empty()
    }
}

/// Row `i` of the grid: a separating rule after the first row, then the faces.
pub open spec fn row_text(g: Seq<Seq<nat>>, w: nat, i: int) -> Seq<char> {
    (if i != 0 {
        seq!['|'] + rule(w) + seq!['|', '\n']
    } else {
        Seq::empty()
    }) + padding_line(w) + cells_text(g[i], w, 4) + seq!['\n'] + padding_line(w)
}

/// The first `n` rows of the grid as text.
pub open spec fn rows_text(g: Seq<Seq<nat>>, w: nat, n: int) -> Seq<char>
    decreases n,
{
    if n <= 0 {
        Seq::empty()
    } else {
        rows_text(g, w, n - 1) + row_text(g, w, n - 1)
    }
}

/// The board drawn as a bordered ASCII grid.
pub open spec fn rendering(g: Seq<Seq<nat>>) -> Seq<char> {
    let w = cell_width(g);
    seq!['/'] + rule(w) + seq!['\\', '\n'] + rows_text(g, w, 4) + seq!['\\'] + rule(w) + seq!['/']
}

fn push_repeat(s: &mut String, piece: &str, n: usize)
    requires
        piece@.len() == 1,
    ensures
        final(s)@ == old(s)@ + repeat_char(piece@[0], n as nat),
{
    let mut i: usize = 0;
    while i < n
        invariant
            i <= n,
            piece@.len() == 1,
            s@ == old(s)@ + repeat_char(piece@[0], i as nat),
        decreases n - i,
    {
        s.append(piece);
        proof {
            assert(piece@ =~= seq![piece@[0]]);
        }
        i = i + 1;
        assert(s@ =~= old(s)@ + repeat_char(piece@[0], i as nat));
    }
}

fn digit_str(d: usize) -> (r: &'static str)
    requires
        d < 10,
    ensures
        r@ == seq![digit_char(d as nat)],
{
    proof {
        reveal_strlit("0");
        reveal_strlit("1");
        reveal_strlit("2");
        reveal_strlit("3");
        reveal_strlit("4");
        reveal_strlit("5");
        reveal_strlit("6");
        reveal_strlit("7");
        reveal_strlit("8");
        reveal_strlit("9");
    }
    match d {
        0 => "0",
        1 => "1",
        2 => "2",
        3 => "3",
        4 => "4",
        5 => "5",
        6 => "6",
        7 => "7",
        8 => "8",
        _ => "9",
    }
}

fn push_decimal(s: &mut String, n: usize)
    ensures
        final(s)@ == old(s)@ + decimal(n as nat),
    decreases n,
{
    if n >= 10 {
        push_decimal(s, n / 10);
    }
    s.append(digit_str(n % 10));
    assert(s@ =~= old(s)@ + decimal(n as nat));
}

fn decimal_len(n: usize) -> (r: usize)
    ensures
        r == decimal(n as nat).len(),
        1 <= r <= 20,
    decreases n,
{
    proof {
        lemma_decimal_len_bound(n as nat);
    }
    if n >= 10 {
        decimal_len(n / 10) + 1
    } else {
        1
    }
}

/// Every number has a digit, and one that fits in 64 bits has at most 20.
proof fn lemma_decimal_len_bound(n: nat)
    ensures
        decimal(n).len() >= 1,
        n <= usize::MAX ==> decimal(n).len() <= 20,
{
    reveal_with_fuel(decimal, 21);
    lemma_decimal_mono(0, n);
    if n <= usize::MAX {
        lemma_decimal_mono(n, 99999999999999999999);
        assert(decimal(99999999999999999999).len() == 20);
    }
}

/// Larger numbers take at least as many digits.
pub proof fn lemma_decimal_mono(a: nat, b: nat)
    requires
        a <= b,
    ensures
        decimal(a).len() <= decimal(b).len(),
    decreases b,
{
    if a >= 10 {
        lemma_decimal_mono(a / 10, b / 10);
    }
}


/// No face among the first `k` cells is above their largest.
proof fn lemma_largest(g: Seq<Seq<nat>>, k: int)
    requires
        0 <= k <= 16,
    ensures
        forall|j: int| 0 <= j < k ==> #[trigger] g[j / 4][j % 4] <= largest_upto(g, k),
        largest_upto(g, k) == 0 || exists|j: int| 0 <= j < k && #[trigger] g[j / 4][j % 4] == largest_upto(g, k),
    decreases k,
{
    if k > 0 {
        lemma_largest(g, k - 1);
    }
}

fn push_cell(s: &mut String, v: usize, w: usize)
    requires
        v != 0 ==> decimal(v as nat).len() <= w,
    ensures
        final(s)@ == old(s)@ + cell_text(v as nat, w as nat),
{
    proof {
        reveal_strlit(" ");
    }
    if v == 0 {
        push_repeat(s, " ", w);
    } else {
        let len = decimal_len(v);
        let pad = w - len;
        let left = pad / 2;
        push_repeat(s, " ", left);
        push_decimal(s, v);
        push_repeat(s, " ", pad - left);
        assert(s@ =~= old(s)@ + cell_text(v as nat, w as nat));
    }
}

fn push_padding(s: &mut String, w: usize)
    ensures
        final(s)@ == old(s)@ + padding_line(w as nat),
{
    proof {
        reveal_strlit("|");
        reveal_strlit("\n");
    }
    if w >= 5 {
        s.append("|");
        let mut x: usize = 0;
        while x < 4
            invariant
                x <= 4,
                s@ == old(s)@ + cells_text(seq![0nat, 0nat, 0nat, 0nat], w as nat, x as int),
            decreases 4 - x,
        {
            proof {
                reveal_strlit(" ");
                reveal_strlit("|");
            }
            push_repeat(s, " ", w);
            s.append("|");
            x = x + 1;
            assert(s@ =~= old(s)@ + cells_text(seq![0nat, 0nat, 0nat, 0nat], w as nat, x as int));
        }
        s.append("\n");
    }
    assert(s@ =~= old(s)@ + padding_line(w as nat));
}

impl Board {
    fn push_row(&self, s: &mut String, i: usize, width: usize, rule_len: usize)
        requires
            i < 4,
            rule_len == 3 + 4 * width,
            forall|y: int, x: int| 0 <= y < 4 && 0 <= x < 4 && #[trigger] self@[y][x] != 0 ==> decimal(self@[y][x]).len()
                <= width,
        ensures
            final(s)@ == old(s)@ + row_text(self@, width as nat, i as int),
    {
        proof {
            reveal_strlit("-");
            reveal_strlit("|");
            reveal_strlit("|\n");
            reveal_strlit("\n");
        }
        if i != 0 {
            s.append("|");
            push_repeat(s, "-", rule_len);
            s.append("|\n");
        }
        push_padding(s, width);
        self.push_row_cells(s, i, width);
        s.append("\n");
        push_padding(s, width);
        assert(s@ =~= old(s)@ + row_text(self@, width as nat, i as int));
    }
    /// The largest face on the board, 0 on an empty board.
    pub fn largest(&self) -> (r: usize)
        ensures
            r == largest_upto(self@, 16),
    {
        let ghost g = self@;
        let mut largest_value: usize = 0;
        let mut k: usize = 0;
        while k < 16
            invariant
                k <= 16,
                g == self@,
                largest_value == largest_upto(g, k as int),
            decreases 16 - k,
        {
            let v = match self.get(k / 4, k % 4) {
                Some(t) => t.get(),
                None => 0,
            };
            if v > largest_value {
                largest_value = v;
            }
            k = k + 1;
        }
        largest_value
    }

    fn push_row_cells(&self, s: &mut String, y: usize, w: usize)
        requires
            y < 4,
            forall|x: int| 0 <= x < 4 ==> #[trigger] self@[y as int][x] != 0 ==> decimal(self@[y as int][x]).len() <= w,
        ensures
            final(s)@ == old(s)@ + cells_text(self@[y as int], w as nat, 4),
    {
        proof {
            reveal_strlit("|");
        }
        s.append("|");
        let mut x: usize = 0;
        while x < 4
            invariant
                x <= 4,
                y < 4,
                forall|x: int| 0 <= x < 4 ==> #[trigger] self@[y as int][x] != 0 ==> decimal(self@[y as int][x]).len() <= w,
                s@ == old(s)@ + cells_text(self@[y as int], w as nat, x as int),
            decreases 4 - x,
        {
            proof {
                reveal_strlit("|");
            }
            let v = match self.get(y, x) {
                Some(t) => t.get(),
                None => 0,
            };
            push_cell(s, v, w);
            s.append("|");
            x = x + 1;
            assert(s@ =~= old(s)@ + cells_text(self@[y as int], w as nat, x as int));
        }
    }

    /// The board drawn as a bordered ASCII grid: cells as wide as the largest
    /// face's digits plus two, faces centred, rows parted by rules, and wide
    /// cells padded by an empty line above and below.
    pub fn render(&self) -> (r: String)
        ensures
            r@ == rendering(self@),
    {
        let ghost g = self@;
        let largest_value = self.largest();
        let width = decimal_len(largest_value) + 2;
        proof {
            lemma_largest(g, 16);
            assert forall|y: int, x: int| 0 <= y < 4 && 0 <= x < 4 && #[trigger] g[y][x] != 0 implies decimal(
                g[y][x]).len() <= width by {
                let j = 4 * y + x;
                assert(j / 4 == y && j % 4 == x);
                assert(g[j / 4][j % 4] <= largest_upto(g, 16));
                lemma_decimal_mono(g[y][x], largest_upto(g, 16));
            }
            reveal_strlit("/");
            reveal_strlit("\\\n");
            reveal_strlit("\\");
            reveal_strlit("-");
        }
        let rule_len = 3 + width * 4;
        let mut s = String::new();
        s.append("/");
        push_repeat(&mut s, "-", rule_len);
        s.append("\\\n");
        let ghost head = s@;
        let mut i: usize = 0;
        while i < 4
            invariant
                i <= 4,
                g == self@,
                width == cell_width(g),
                rule_len == 3 + 4 * width,
                width <= 22,
                forall|y: int, x: int| 0 <= y < 4 && 0 <= x < 4 && #[trigger] g[y][x] != 0 ==> decimal(g[y][x]).len() <= width,
                s@ == head + rows_text(g, width as nat, i as int),
            decreases 4 - i,
        {
            self.push_row(&mut s, i, width, rule_len);
            i = i + 1;
            assert(s@ =~= head + rows_text(g, width as nat, i as int));
        }
        s.append("\\");
        push_repeat(&mut s, "-", rule_len);
        s.append("/");
        assert(s@ =~= rendering(g));
        s
    }
}

} // verus!
