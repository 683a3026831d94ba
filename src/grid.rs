//! The board: 81 cells, each a bitmask of the values (1..=9) it may still hold.
use vstd::prelude::*;
use vstd::arithmetic::div_mod::lemma_fundamental_div_mod_converse;

verus! {

/// Cell index, `row * 9 + column`.
pub type Index = usize;

/// A cell: bit `v` set means that value `v` is still a candidate.
pub type Cell = u16;

/// Every value 1..=9 is a candidate; bit 0 is unused.
pub const CELL_MASK: u16 = 0x3fe;

/// The bits a cell may never hold.
pub const OUTSIDE_MASK: u16 = 0xfc01;

/// The mask holding value `v` alone.
pub open spec fn bit(v: int) -> u16 {
    (1u16 << (v as u16))
}

/// The mask `c` has exactly one bit set.
pub open spec fn is_single(c: u16) -> bool {
    c != 0 && c & ((c - 1) as u16) == 0
}

/// The mask `c` holds only candidate bits 1..=9.
pub open spec fn cell_wf(c: u16) -> bool {
    c & OUTSIDE_MASK == 0
}

/// Every candidate of `a` is a candidate of `b`.
pub open spec fn subset(a: u16, b: u16) -> bool {
    a & !b == 0
}

/// A cell resolved to one value holds one of the nine single-value masks.
pub proof fn lemma_single_is_value(c: u16)
    requires
        cell_wf(c),
        is_single(c),
    ensures
        exists|v: int| 1 <= v <= 9 && c == #[trigger] bit(v),
{
    assert(c & 0xfc01 == 0 && c != 0 && c & ((c - 1) as u16) == 0 ==> c == 2 || c == 4 || c == 8
        || c == 16 || c == 32 || c == 64 || c == 128 || c == 256 || c == 512) by (bit_vector);
    assert(bit(1) == 2 && bit(2) == 4 && bit(3) == 8 && bit(4) == 16 && bit(5) == 32) by (bit_vector);
    assert(bit(6) == 64 && bit(7) == 128 && bit(8) == 256 && bit(9) == 512) by (bit_vector);
    if c == 2 { assert(c == bit(1)); } else if c == 4 { assert(c == bit(2)); } else if c == 8 {
        assert(c == bit(3));
    } else if c == 16 { assert(c == bit(4)); } else if c == 32 { assert(c == bit(5)); } else if c
        == 64 { assert(c == bit(6)); } else if c == 128 { assert(c == bit(7)); } else if c == 256 {
        assert(c == bit(8));
    } else { assert(c == bit(9)); }
}

/// A single-value mask is a resolved, well-formed cell.
pub proof fn lemma_value_is_single(v: int)
    requires
        1 <= v <= 9,
    ensures
        is_single(bit(v)),
        cell_wf(bit(v)),
{
    let w = v as u16;
    assert(1 <= w <= 9 ==> ((1u16 << w) != 0 && (1u16 << w) & (((1u16 << w) - 1) as u16) == 0
        && (1u16 << w) & 0xfc01 == 0)) by (bit_vector);
}

/// Row of a cell index.
pub open spec fn row_of(idx: int) -> int {
    idx / 9
}

/// Column of a cell index.
pub open spec fn col_of(idx: int) -> int {
    idx % 9
}

/// Box (0..9, row-major) of a cell index.
pub open spec fn box_of(idx: int) -> int {
    3 * (idx / 27) + (idx % 9) / 3
}

/// First cell index of box `s`.
pub open spec fn box_start(s: int) -> int {
    27 * (s / 3) + 3 * (s % 3)
}

/// The `k`-th cell (0..9) of group `grp` (0: row, 1: column, 2: box) through cell `idx`.
pub open spec fn group_cell(grp: int, idx: int, k: int) -> int {
    if grp == 0 {
        row_of(idx) * 9 + k
    } else if grp == 1 {
        k * 9 + col_of(idx)
    } else {
        box_start(box_of(idx)) + 9 * (k / 3) + k % 3
    }
}

pub proof fn lemma_group_cell_range(grp: int, idx: int, k: int)
    requires
        0 <= grp < 3,
        0 <= idx < 81,
        0 <= k < 9,
    ensures
        0 <= group_cell(grp, idx, k) < 81,
{
}

/// Two cells of one group see the same group.
pub proof fn lemma_group_shared(grp: int, idx: int, k1: int, k: int)
    requires
        0 <= grp < 3,
        0 <= idx < 81,
        0 <= k1 < 9,
        0 <= k < 9,
    ensures
        group_cell(grp, group_cell(grp, idx, k1), k) == group_cell(grp, idx, k),
{
    let r = row_of(idx);
    let cl = col_of(idx);
    if grp == 0 {
        lemma_fundamental_div_mod_converse(r * 9 + k1, 9, r, k1);
    } else if grp == 1 {
        lemma_fundamental_div_mod_converse(k1 * 9 + cl, 9, k1, cl);
    } else {
        let b = box_of(idx);
        let (bq, bm) = (b / 3, b % 3);
        let (q, m) = (k1 / 3, k1 % 3);
        let c = box_start(b) + 9 * q + m;
        lemma_fundamental_div_mod_converse(c, 27, bq, 9 * q + 3 * bm + m);
        lemma_fundamental_div_mod_converse(c, 9, 3 * bq + q, 3 * bm + m);
        lemma_fundamental_div_mod_converse(3 * bm + m, 3, bm, m);
        assert(box_of(c) == b);
    }
}

/// The nine cells of a group are distinct.
pub proof fn lemma_group_injective(grp: int, idx: int, k1: int, k2: int)
    requires
        0 <= grp < 3,
        0 <= idx < 81,
        0 <= k1 < 9,
        0 <= k2 < 9,
        group_cell(grp, idx, k1) == group_cell(grp, idx, k2),
    ensures
        k1 == k2,
{
}

/// A cell belongs to each of its groups.
pub proof fn lemma_group_self(grp: int, idx: int) -> (k: int)
    requires
        0 <= grp < 3,
        0 <= idx < 81,
    ensures
        0 <= k < 9,
        group_cell(grp, idx, k) == idx,
{
    if grp == 0 {
        col_of(idx)
    } else if grp == 1 {
        row_of(idx)
    } else {
        3 * (row_of(idx) % 3) + col_of(idx) % 3
    }
}

/// Splits a cell index into (row, column).
pub fn pair_from_cell(cell: Index) -> (r: (Index, Index))
    requires
        cell < 81,
    ensures
        r.0 == row_of(cell as int),
        r.1 == col_of(cell as int),
        r.0 < 9,
        r.1 < 9,
{
    (cell / 9, cell % 9)
}

/// Joins (row, column) into a cell index.
pub fn cell_from_pair(i: Index, j: Index) -> (r: Index)
    requires
        i < 9,
        j < 9,
    ensures
        r == i * 9 + j,
        r < 81,
        row_of(r as int) == i,
        col_of(r as int) == j,
{
    (i * 9) + j
}

/// The box that holds a cell.
pub fn square_from_cell(cell: Index) -> (r: Index)
    requires
        cell < 81,
    ensures
        r == box_of(cell as int),
        r < 9,
{
    let (i, j) = pair_from_cell(cell);
    (3 * (i / 3)) + (j / 3)
}

/// The `c`-th cell (0..9, row-major) of box `s`.
pub fn cell_from_square(s: Index, c: Index) -> (r: Index)
    requires
        s < 9,
        c < 9,
    ensures
        r == box_start(s as int) + 9 * (c / 3) + c % 3,
        r < 81,
{
    (27 * (s / 3) + 3 * (s % 3)) + ((9 * (c / 3)) + (c % 3))
}

/// A board of 81 candidate masks, indexed by `row * 9 + column`.
pub struct Sudoku {
    cells: Vec<Cell>,
}

/// A board has 81 cells, each holding candidate bits 1..=9 only.
pub open spec fn grid_wf(g: Seq<u16>) -> bool {
    &&& g.len() == 81
    &&& forall|i: int| 0 <= i < 81 ==> cell_wf(#[trigger] g[i])
}

/// Every cell of the board is resolved to one value.
pub open spec fn all_single(g: Seq<u16>) -> bool {
    forall|i: int| 0 <= i < g.len() ==> is_single(#[trigger] g[i])
}

/// Every candidate of each cell of `h` is a candidate of that cell in `g`.
pub open spec fn refines(h: Seq<u16>, g: Seq<u16>) -> bool {
    &&& h.len() == g.len()
    &&& forall|i: int| 0 <= i < g.len() ==> subset(#[trigger] h[i], g[i])
}

/// The value a resolved cell holds.
pub open spec fn value_of(c: u16) -> int {
    choose|v: int| 1 <= v <= 9 && c == bit(v)
}

/// The text of one cell: its value, or `_` while it is not resolved.
pub open spec fn cell_text(c: u16) -> Seq<char> {
    if is_single(c) && cell_wf(c) {
        seq![' ', (('0' as int) + value_of(c)) as char, ' ']
    } else {
        seq![' ', '_', ' ']
    }
}

/// The text of the first `n` cells of row `i`.
pub open spec fn row_text(g: Seq<u16>, i: int, n: int) -> Seq<char>
    decreases n,
{
    if n <= 0 {
        Seq::empty()
    } else {
        row_text(g, i, n - 1) + cell_text(g[i * 9 + n - 1])
    }
}

/// The text of the first `n` rows: a leading newline, then each row
/// followed by a newline.
pub open spec fn grid_text(g: Seq<u16>, n: int) -> Seq<char>
    decreases n,
{
    if n <= 0 {
        seq!['\n']
    } else {
        grid_text(g, n - 1) + row_text(g, n - 1, 9) + seq!['\n']
    }
}

/// Each cell's text is three characters, the middle one its digit or `_`.
pub proof fn lemma_row_text(g: Seq<u16>, i: int, n: int)
    requires
        0 <= n <= 9,
    ensures
        row_text(g, i, n).len() == 3 * n,
        forall|j: int| 0 <= j < n ==> #[trigger] row_text(g, i, n)[3 * j + 1] == cell_text(g[i * 9 + j])[1],
    decreases n,
{
    if n > 0 {
        lemma_row_text(g, i, n - 1);
        let prev = row_text(g, i, n - 1);
        let cur = row_text(g, i, n);
        assert forall|j: int| 0 <= j < n implies #[trigger] cur[3 * j + 1] == cell_text(g[i * 9 + j])[1] by {
            if j < n - 1 {
                assert(cur[3 * j + 1] == prev[3 * j + 1]);
            }
        }
    }
}

/// The text of `n` rows is `1 + 28 * n` characters; the digit of cell
/// `(i, j)` stands at `28 * i + 3 * j + 2`.
pub proof fn lemma_grid_text(g: Seq<u16>, n: int)
    requires
        0 <= n <= 9,
    ensures
        grid_text(g, n).len() == 1 + 28 * n,
        forall|i: int, j: int|
            0 <= i < n && 0 <= j < 9 ==> #[trigger] grid_text(g, n)[28 * i + 3 * j + 2] == cell_text(
                g[i * 9 + j],
            )[1],
    decreases n,
{
    if n > 0 {
        lemma_grid_text(g, n - 1);
        lemma_row_text(g, n - 1, 9);
        let prev = grid_text(g, n - 1);
        let cur = grid_text(g, n);
        assert forall|i: int, j: int| 0 <= i < n && 0 <= j < 9 implies #[trigger] cur[28 * i + 3 * j
            + 2] == cell_text(g[i * 9 + j])[1] by {
            if i < n - 1 {
                assert(cur[28 * i + 3 * j + 2] == prev[28 * i + 3 * j + 2]);
            } else {
                assert(cur[28 * i + 3 * j + 2] == row_text(g, n - 1, 9)[3 * j + 1]);
            }
        }
    }
}

impl Clone for Sudoku {
    /// An independent copy of the board.
    fn clone(&self) -> (r: Sudoku)
        ensures
            r@ == self@,
    {
        let cells = self.cells.clone();
        assert(cells@ =~= self.cells@);
        Sudoku { cells }
    }
}

/// The board with every value a candidate of every cell, then each clue
/// `(row, column, value)` written in turn.
pub open spec fn seeded(clues: Seq<(usize, usize, u8)>) -> Seq<u16>
    decreases clues.len(),
{
    if clues.len() == 0 {
        Seq::new(81, |i: int| CELL_MASK)
    } else {
        let (i, j, v) = clues.last();
        seeded(clues.drop_last()).update(i * 9 + j, bit(v as int))
    }
}

/// Each clue names a row and a column in 0..9 and a value in 1..=9.
pub open spec fn clues_wf(clues: Seq<(usize, usize, u8)>) -> bool {
    forall|k: int|
        0 <= k < clues.len() ==> {
            let (i, j, v) = #[trigger] clues[k];
            i < 9 && j < 9 && 1 <= v <= 9
        }
}

/// Seeding valid clues gives a well-formed board.
pub proof fn lemma_seeded_wf(clues: Seq<(usize, usize, u8)>)
    requires
        clues_wf(clues),
    ensures
        grid_wf(seeded(clues)),
    decreases clues.len(),
{
    if clues.len() == 0 {
        assert(CELL_MASK & OUTSIDE_MASK == 0) by (bit_vector);
    } else {
        let (i, j, v) = clues.last();
        assert(clues_wf(clues.drop_last()));
        lemma_seeded_wf(clues.drop_last());
        lemma_value_is_single(v as int);
    }
}

impl View for Sudoku {
    type V = Seq<u16>;

    closed spec fn view(&self) -> Seq<u16> {
        self.cells@
    }
}

impl Sudoku {
    /// The board of [`seeded`]: all values open, then the clues written in.
    pub fn seed(clues: &Vec<(Index, Index, u8)>) -> (r: Sudoku)
        requires
            clues_wf(clues@),
        ensures
            r.wf(),
            r@ == seeded(clues@),
    {
        let mut cells: Vec<Cell> = Vec::new();
        while cells.len() < 81
            invariant
                cells.len() <= 81,
                forall|k: int| 0 <= k < cells.len() ==> cells[k] == CELL_MASK,
            decreases 81 - cells.len(),
        {
            cells.push(CELL_MASK);
        }
        let mut s = Sudoku { cells };
        assert(s@ =~= seeded(clues@.take(0)));
        assert(CELL_MASK & OUTSIDE_MASK == 0) by (bit_vector);
        let mut k: usize = 0;
        while k < clues.len()
            invariant
                clues_wf(clues@),
                k <= clues.len(),
                s.wf(),
                s@ == seeded(clues@.take(k as int)),
            decreases clues.len() - k,
        {
            let (i, j, v) = clues[k];
            assert(clues@.take(k + 1).drop_last() =~= clues@.take(k as int));
            s.set_value(cell_from_pair(i, j), v);
            k = k + 1;
        }
        assert(clues@.take(k as int) =~= clues@);
        s
    }

    pub open spec fn wf(&self) -> bool {
        grid_wf(self@)
    }

    /// Reads a cell.
    pub fn get_cell(&self, c: Index) -> (r: Cell)
        requires
            self.wf(),
            c < 81,
        ensures
            r == self@[c as int],
    {
        self.cells[c]
    }

    /// Sets a cell to hold a given bit pattern.
    pub fn set_bit_pattern(&mut self, c: Index, bp: u16)
        requires
            old(self).wf(),
            c < 81,
            cell_wf(bp),
        ensures
            final(self)@ == old(self)@.update(c as int, bp),
            final(self).wf(),
    {
        self.cells.set(c, bp);
    }

    /// Sets a cell to hold the single value `v` (1..=9).
    pub fn set_value(&mut self, c: Index, v: u8)
        requires
            old(self).wf(),
            c < 81,
            1 <= v <= 9,
        ensures
            final(self)@ == old(self)@.update(c as int, bit(v as int)),
            final(self).wf(),
    {
        proof {
            lemma_value_is_single(v as int);
        }
        self.set_bit_pattern(c, 1u16 << (v as u16));
    }

    /// The value of a resolved cell, or `None` while it has several candidates or none.
    pub fn get_value(&self, c: Index) -> (r: Option<u8>)
        requires
            self.wf(),
            c < 81,
        ensures
            r is Some <==> is_single(self@[c as int]),
            r matches Some(v) ==> 1 <= v <= 9 && self@[c as int] == bit(v as int) && v == value_of(
                self@[c as int],
            ),
    {
        let cell = self.cells[c];
        let mut v: u8 = 1;
        while v <= 9
            invariant
                1 <= v <= 10,
                cell == self@[c as int],
                forall|w: int| 1 <= w < v ==> cell != #[trigger] bit(w),
            decreases 10 - v,
        {
            if cell == 1u16 << (v as u16) {
                proof {
                    lemma_value_is_single(v as int);
                    lemma_value_unique(cell);
                }
                return Some(v);
            }
            v = v + 1;
        }
        proof {
            if is_single(cell) {
                lemma_single_is_value(cell);
            }
        }
        None
    }

    /// Every cell is resolved to one value.
    pub fn is_solved(&self) -> (r: bool)
        requires
            self.wf(),
        ensures
            r == all_single(self@),
    {
        let mut i: usize = 0;
        while i < 81
            invariant
                self.wf(),
                i <= 81,
                forall|k: int| 0 <= k < i ==> is_single(#[trigger] self@[k]),
            decreases 81 - i,
        {
            let c = self.cells[i];
            if !(c != 0 && c & (c - 1) == 0) {
                return false;
            }
            i = i + 1;
        }
        true
    }

    /// Renders the board: a leading newline, then each row as ` v ` per cell
    /// (` _ ` for a cell that is not resolved) followed by a newline.
    pub fn print(&self) -> (r: String)
        requires
            self.wf(),
        ensures
            r@ == grid_text(self@, 9),
    {
        let mut s = String::new();
        proof {
            reveal_strlit("\n");
        }
        s.append("\n");
        assert(s@ =~= grid_text(self@, 0));
        let mut i: usize = 0;
        while i < 9
            invariant
                self.wf(),
                i <= 9,
                s@ == grid_text(self@, i as int),
            decreases 9 - i,
        {
            let mut j: usize = 0;
            while j < 9
                invariant
                    self.wf(),
                    i < 9,
                    j <= 9,
                    s@ == grid_text(self@, i as int) + row_text(self@, i as int, j as int),
                decreases 9 - j,
            {
                let cell = cell_from_pair(i, j);
                let text = cell_str(self.get_value(cell));
                proof {
                    assert(cell_wf(self@[cell as int]));
                }
                s.append(text);
                proof {
                    assert(s@ =~= grid_text(self@, i as int) + row_text(self@, i as int, j + 1));
                }
                j = j + 1;
            }
            proof {
                reveal_strlit("\n");
            }
            s.append("\n");
            proof {
                assert(s@ =~= grid_text(self@, i + 1));
            }
            i = i + 1;
        }
        s
    }
}

/// A resolved mask names one value only.
pub proof fn lemma_value_unique(c: u16)
    requires
        exists|v: int| 1 <= v <= 9 && c == #[trigger] bit(v),
    ensures
        1 <= value_of(c) <= 9,
        c == bit(value_of(c)),
        forall|w: int| 1 <= w <= 9 && c == #[trigger] bit(w) ==> w == value_of(c),
{
    let v = value_of(c);
    assert forall|w: int| 1 <= w <= 9 && c == #[trigger] bit(w) implies w == v by {
        let a = w as u16;
        let b = v as u16;
        assert(1 <= a <= 9 && 1 <= b <= 9 && (1u16 << a) == (1u16 << b) ==> a == b) by (bit_vector);
    }
}

/// The text of a cell value.
fn cell_str(v: Option<u8>) -> (r: &'static str)
    requires
        v matches Some(x) ==> 1 <= x <= 9,
    ensures
        r@ == (match v {
            Some(x) => seq![' ', (('0' as int) + x) as char, ' '],
            None => seq![' ', '_', ' '],
        }),
{
    match v {
        Some(1) => { proof { reveal_strlit(" 1 "); } " 1 " },
        Some(2) => { proof { reveal_strlit(" 2 "); } " 2 " },
        Some(3) => { proof { reveal_strlit(" 3 "); } " 3 " },
        Some(4) => { proof { reveal_strlit(" 4 "); } " 4 " },
        Some(5) => { proof { reveal_strlit(" 5 "); } " 5 " },
        Some(6) => { proof { reveal_strlit(" 6 "); } " 6 " },
        Some(7) => { proof { reveal_strlit(" 7 "); } " 7 " },
        Some(8) => { proof { reveal_strlit(" 8 "); } " 8 " },
        Some(_) => { proof { reveal_strlit(" 9 "); } " 9 " },
        None => { proof { reveal_strlit(" _ "); } " _ " },
    }
}

} // verus!
