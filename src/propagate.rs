//! One propagation pass over the board, and passes repeated to a fixpoint.
use vstd::prelude::*;
use crate::grid::{
    Index, Sudoku, CELL_MASK, is_single, cell_wf, subset, grid_wf, group_cell, pair_from_cell,
    cell_from_pair, square_from_cell, cell_from_square, lemma_group_cell_range, refines, seeded,
    clues_wf,
};

verus! {

/// A pass met a contradiction: a cell lost its last candidate, or two cells
/// of one row, column or box were resolved to the same value.
#[derive(Debug, Clone, Copy, PartialEq, Eq, Structural)]
pub struct Contradiction;

/// Union of the resolved values among the first `n` cells of a group, the cell itself left out.
pub open spec fn taken_in(g: Seq<u16>, grp: int, idx: int, n: int) -> u16
    decreases n,
{
    if n <= 0 {
        0
    } else {
        let p = group_cell(grp, idx, n - 1);
        let t = taken_in(g, grp, idx, n - 1);
        if p != idx && is_single(g[p]) {
            t | g[p]
        } else {
            t
        }
    }
}

/// The values (1..=9) that none of the first `n` cells of a group may take, the cell itself left out.
pub open spec fn free_in(g: Seq<u16>, grp: int, idx: int, n: int) -> u16
    decreases n,
{
    if n <= 0 {
        CELL_MASK
    } else {
        let p = group_cell(grp, idx, n - 1);
        let f = free_in(g, grp, idx, n - 1);
        if p != idx {
            f & !g[p]
        } else {
            f
        }
    }
}

/// Values resolved in some peer of cell `idx`.
pub open spec fn taken(g: Seq<u16>, idx: int) -> u16 {
    taken_in(g, 0, idx, 9) | taken_in(g, 1, idx, 9) | taken_in(g, 2, idx, 9)
}

/// Candidates of cell `idx` that no other cell of its row, of its column, or of its box may take.
pub open spec fn hidden(g: Seq<u16>, idx: int) -> u16 {
    (free_in(g, 0, idx, 9) | free_in(g, 1, idx, 9) | free_in(g, 2, idx, 9)) & !taken(g, idx)
        & g[idx]
}

/// No other cell of a group through `idx` holds the same mask as `idx`.
pub open spec fn no_clash(g: Seq<u16>, idx: int) -> bool {
    forall|grp: int, k: int|
        0 <= grp < 3 && 0 <= k < 9 && group_cell(grp, idx, k) != idx ==> g[#[trigger] group_cell(
            grp,
            idx,
            k,
        )] != g[idx]
}

/// The new mask of an open cell: a hidden single where there is one, else
/// its candidates without the values its peers hold.
pub open spec fn narrowed(g: Seq<u16>, idx: int) -> u16 {
    if is_single(hidden(g, idx)) {
        hidden(g, idx)
    } else {
        g[idx] & !taken(g, idx)
    }
}

/// What the pass makes of cell `idx`: `None` on a contradiction.
pub open spec fn step(g: Seq<u16>, idx: int) -> Option<u16> {
    if is_single(g[idx]) {
        if no_clash(g, idx) {
            Some(g[idx])
        } else {
            None
        }
    } else if narrowed(g, idx) == 0 {
        None
    } else {
        Some(narrowed(g, idx))
    }
}

/// The pass from cell `idx` on, in index order, each cell seeing the
/// masks the pass has already written; `n` counts the cells changed.
pub open spec fn pass_from(g: Seq<u16>, idx: int, n: nat) -> Option<(Seq<u16>, nat)>
    decreases 81 - idx,
{
    if idx >= 81 {
        Some((g, n))
    } else {
        match step(g, idx) {
            None => None,
            Some(m) => if m == g[idx] {
                pass_from(g, idx + 1, n)
            } else {
                pass_from(g.update(idx, m), idx + 1, n + 1)
            },
        }
    }
}

/// One propagation pass: the new board and the number of cells it changed.
pub open spec fn pass(g: Seq<u16>) -> Option<(Seq<u16>, nat)> {
    pass_from(g, 0, 0)
}

/// Sum of all masks of a board: a measure that shrinks as candidates go.
pub open spec fn mask_sum(g: Seq<u16>) -> nat
    decreases g.len(),
{
    if g.len() == 0 {
        0
    } else {
        mask_sum(g.drop_last()) + g.last() as nat
    }
}

pub proof fn lemma_mask_sum_update(g: Seq<u16>, j: int, m: u16)
    requires
        0 <= j < g.len(),
    ensures
        mask_sum(g.update(j, m)) + g[j] == mask_sum(g) + m,
    decreases g.len(),
{
    let u = g.update(j, m);
    if j == g.len() - 1 {
        assert(u.drop_last() =~= g.drop_last());
    } else {
        lemma_mask_sum_update(g.drop_last(), j, m);
        assert(u.drop_last() =~= g.drop_last().update(j, m));
    }
}

/// What a pass makes of a cell lies within that cell's candidates.
pub proof fn lemma_step_subset(g: Seq<u16>, idx: int)
    requires
        grid_wf(g),
        0 <= idx < 81,
        step(g, idx) is Some,
    ensures
        subset(step(g, idx)->Some_0, g[idx]),
        cell_wf(step(g, idx)->Some_0),
        step(g, idx)->Some_0 <= g[idx],
        is_single(g[idx]) ==> step(g, idx)->Some_0 == g[idx],
{
    let c = g[idx];
    let m = step(g, idx)->Some_0;
    let f = free_in(g, 0, idx, 9) | free_in(g, 1, idx, 9) | free_in(g, 2, idx, 9);
    let t = taken(g, idx);
    assert(cell_wf(c));
    assert(subset(f & !t & c, c) && subset(c & !t, c) && subset(c, c)) by (bit_vector);
    assert(subset(m, c) && c & 0xfc01 == 0 ==> m & 0xfc01 == 0 && m <= c) by (bit_vector);
}

/// Facts of a pass from cell `i` on: it only removes candidates, keeps
/// resolved cells, and changes nothing exactly when its count does not grow.
pub proof fn lemma_pass_from(g: Seq<u16>, i: int, n: nat)
    requires
        grid_wf(g),
        0 <= i <= 81,
        pass_from(g, i, n) is Some,
    ensures
        ({
            let (h, m) = pass_from(g, i, n)->Some_0;
            &&& grid_wf(h)
            &&& refines(h, g)
            &&& m >= n
            &&& forall|j: int| 0 <= j < 81 && is_single(g[j]) ==> h[j] == g[j]
            &&& forall|j: int| 0 <= j < i ==> h[j] == g[j]
            &&& m == n ==> h == g && forall|j: int| i <= j < 81 ==> #[trigger] step(g, j) == Some(
                g[j],
            )
            &&& m > n ==> mask_sum(h) < mask_sum(g)
        }),
    decreases 81 - i,
{
    if i >= 81 {
        assert forall|j: int| 0 <= j < 81 implies subset(#[trigger] g[j], g[j]) by {
            let a = g[j];
            assert(subset(a, a)) by (bit_vector);
        }
    } else {
        lemma_step_subset(g, i);
        let m = step(g, i)->Some_0;
        let c = g[i];
        assert(subset(c, c)) by (bit_vector);
        if m == g[i] {
            lemma_pass_from(g, i + 1, n);
            let (h, k) = pass_from(g, i, n)->Some_0;
            assert(pass_from(g, i, n) == pass_from(g, i + 1, n));
            if k == n {
                assert forall|j: int| i <= j < 81 implies #[trigger] step(g, j) == Some(g[j]) by {
                    if j > i {
                        assert(step(g, j) == Some(g[j]));
                    }
                }
            }
        } else {
            let g2 = g.update(i, m);
            assert(grid_wf(g2));
            lemma_pass_from(g2, i + 1, n + 1);
            lemma_mask_sum_update(g, i, m);
            let (h, k) = pass_from(g2, i + 1, n + 1)->Some_0;
            assert(pass_from(g, i, n) == pass_from(g2, i + 1, n + 1));
            assert(mask_sum(h) <= mask_sum(g2));
            assert(mask_sum(g2) < mask_sum(g));
            assert forall|j: int| 0 <= j < 81 && is_single(g[j]) implies h[j] == g[j] by {
                if j != i {
                    assert(g2[j] == g[j]);
                }
            }
            assert forall|j: int| 0 <= j < 81 implies subset(#[trigger] h[j], g[j]) by {
                if j == i {
                    let a = h[j];
                    assert(subset(a, m) && subset(m, c) ==> subset(a, c)) by (bit_vector);
                }
            }
        }
    }
}

/// A pass never adds a candidate to any cell, and never changes a resolved cell.
pub proof fn lemma_pass_monotone(g: Seq<u16>)
    requires
        grid_wf(g),
        pass(g) is Some,
    ensures
        grid_wf(pass(g)->Some_0.0),
        refines(pass(g)->Some_0.0, g),
        forall|j: int| 0 <= j < 81 && is_single(g[j]) ==> #[trigger] pass(g)->Some_0.0[j] == g[j],
{
    lemma_pass_from(g, 0, 0);
}

/// Passes repeated until one changes nothing; `None` when one meets a contradiction.
pub open spec fn settle(g: Seq<u16>) -> Option<Seq<u16>>
    decreases mask_sum(g),
    via settle_decreases
{
    if !grid_wf(g) {
        None
    } else {
        match pass(g) {
            None => None,
            Some((h, n)) => if n == 0 {
                Some(h)
            } else {
                settle(h)
            },
        }
    }
}

#[via_fn]
proof fn settle_decreases(g: Seq<u16>) {
    if grid_wf(g) {
        if pass(g) is Some {
            lemma_pass_from(g, 0, 0);
        }
    }
}

/// No cell is empty, and no resolved cell shares its value with another
/// cell of its row, its column or its box.
pub open spec fn consistent(g: Seq<u16>) -> bool {
    forall|idx: int|
        0 <= idx < 81 ==> #[trigger] g[idx] != 0 && (is_single(g[idx]) ==> no_clash(g, idx))
}

/// A pass changes nothing on this board.
pub open spec fn is_fixpoint(g: Seq<u16>) -> bool {
    pass(g) == Some((g, 0nat))
}

/// A pass that changes no cell leaves a consistent board.
pub proof fn lemma_fixpoint_consistent(g: Seq<u16>)
    requires
        grid_wf(g),
        pass(g) matches Some((_, n)) && n == 0,
    ensures
        is_fixpoint(g),
        consistent(g),
{
    lemma_pass_from(g, 0, 0);
    assert forall|idx: int| 0 <= idx < 81 implies #[trigger] g[idx] != 0 && (is_single(g[idx])
        ==> no_clash(g, idx)) by {
        assert(step(g, idx) == Some(g[idx]));
    }
}

/// Facts of the passes run to a fixpoint: the result is a consistent
/// fixpoint within the candidates of the start, with its resolved cells kept.
pub proof fn lemma_settle(g: Seq<u16>)
    requires
        settle(g) is Some,
    ensures
        ({
            let h = settle(g)->Some_0;
            &&& grid_wf(h)
            &&& is_fixpoint(h)
            &&& consistent(h)
            &&& refines(h, g)
            &&& mask_sum(h) <= mask_sum(g)
            &&& forall|j: int| 0 <= j < 81 && is_single(g[j]) ==> #[trigger] h[j] == g[j]
        }),
    decreases mask_sum(g),
{
    lemma_pass_from(g, 0, 0);
    let (h1, n) = pass(g)->Some_0;
    if n == 0 {
        lemma_fixpoint_consistent(g);
    } else {
        lemma_settle(h1);
        let h = settle(g)->Some_0;
        assert forall|j: int| 0 <= j < 81 implies subset(#[trigger] h[j], g[j]) by {
            let (a, b, c) = (h[j], h1[j], g[j]);
            assert(subset(a, b) && subset(b, c) ==> subset(a, c)) by (bit_vector);
        }
        assert forall|j: int| 0 <= j < 81 && is_single(g[j]) implies #[trigger] h[j] == g[j] by {
            assert(h1[j] == g[j]);
        }
    }
}

/// Propagation to a fixpoint is idempotent: settling a settled board
/// succeeds and changes nothing.
pub proof fn lemma_settle_idempotent(g: Seq<u16>)
    requires
        settle(g) is Some,
    ensures
        settle(settle(g)->Some_0) == settle(g),
{
    lemma_settle(g);
}

impl Sudoku {
    /// Builds the board of the clues `(row, column, value)` and runs one
    /// propagation pass on it; a contradiction there is an error.
    pub fn new(clues: &Vec<(Index, Index, u8)>) -> (r: Result<Sudoku, Contradiction>)
        requires
            clues_wf(clues@),
        ensures
            r is Ok <==> pass(seeded(clues@)) is Some,
            r matches Ok(s) ==> s.wf() && s@ == pass(seeded(clues@))->Some_0.0,
    {
        let mut s = Sudoku::seed(clues);
        match s.constrain() {
            Ok(_) => Ok(s),
            Err(e) => Err(e),
        }
    }

    /// Runs propagation passes until one changes no cell.
    pub fn reflow(&mut self) -> (r: Result<(), Contradiction>)
        requires
            old(self).wf(),
        ensures
            final(self).wf(),
            r is Ok <==> settle(old(self)@) is Some,
            r is Ok ==> settle(old(self)@) == Some(final(self)@),
    {
        loop
            invariant
                self.wf(),
                settle(self@) == settle(old(self)@),
            decreases mask_sum(self@),
        {
            let ghost before = self@;
            match self.constrain() {
                Err(e) => {
                    return Err(e);
                },
                Ok(n) => {
                    proof {
                        lemma_pass_from(before, 0, 0);
                    }
                    if n == 0 {
                        return Ok(());
                    }
                },
            }
        }
    }

    /// Runs one propagation pass over every cell, returning the number of
    /// cells whose mask changed.
    pub fn constrain(&mut self) -> (r: Result<usize, Contradiction>)
        requires
            old(self).wf(),
        ensures
            final(self).wf(),
            r matches Ok(n) ==> pass(old(self)@) == Some((final(self)@, n as nat)),
            r is Err <==> pass(old(self)@) is None,
            forall|j: int| 0 <= j < 81 && is_single(old(self)@[j]) ==> #[trigger] final(self)@[j] == old(self)@[j],
    {
        let mut changed: usize = 0;
        let mut idx: usize = 0;
        while idx < 81
            invariant
                self.wf(),
                idx <= 81,
                changed <= idx,
                pass(old(self)@) == pass_from(self@, idx as int, changed as nat),
                forall|j: int| idx <= j < 81 ==> #[trigger] self@[j] == old(self)@[j],
                forall|j: int| 0 <= j < 81 && is_single(old(self)@[j]) ==> #[trigger] self@[j] == old(self)@[j],
            decreases 81 - idx,
        {
            let cell = self.get_cell(idx);
            if cell != 0 && cell & (cell - 1) == 0 {
                if self.clashes(idx) {
                    assert(step(self@, idx as int) is None);
                    assert(pass_from(self@, idx as int, changed as nat) is None);
                    return Err(Contradiction);
                }
                idx = idx + 1;
                continue;
            }
            let (row_vals, row_bp) = self.scan_group(0, idx);
            let (col_vals, col_bp) = self.scan_group(1, idx);
            let (squ_vals, squ_bp) = self.scan_group(2, idx);
            let all_vals = row_vals | col_vals | squ_vals;
            let bp = (row_bp | col_bp | squ_bp) & !all_vals & cell;
            let next = if bp != 0 && bp & (bp - 1) == 0 {
                bp
            } else {
                cell & !all_vals
            };
            assert(next == narrowed(self@, idx as int));
            if next == 0 {
                assert(step(self@, idx as int) is None);
                assert(pass_from(self@, idx as int, changed as nat) is None);
                return Err(Contradiction);
            }
            if next != cell {
                proof {
                    assert(cell_wf(cell));
                    assert(cell & 0xfc01 == 0 ==> (cell & !all_vals) & 0xfc01 == 0
                        && (((row_bp | col_bp | squ_bp) & !all_vals & cell) & 0xfc01 == 0))
                        by (bit_vector);
                }
                self.set_bit_pattern(idx, next);
                changed = changed + 1;
            }
            idx = idx + 1;
        }
        Ok(changed)
    }

    /// Scans one group through cell `idx` (0: row, 1: column, 2: box),
    /// returning the values resolved in its other cells and the values
    /// none of its other cells may take.
    fn scan_group(&self, grp: usize, idx: Index) -> (r: (u16, u16))
        requires
            self.wf(),
            grp < 3,
            idx < 81,
        ensures
            r.0 == taken_in(self@, grp as int, idx as int, 9),
            r.1 == free_in(self@, grp as int, idx as int, 9),
    {
        let mut vals: u16 = 0;
        let mut bp: u16 = CELL_MASK;
        let mut k: usize = 0;
        while k < 9
            invariant
                self.wf(),
                grp < 3,
                idx < 81,
                k <= 9,
                vals == taken_in(self@, grp as int, idx as int, k as int),
                bp == free_in(self@, grp as int, idx as int, k as int),
            decreases 9 - k,
        {
            let p = self.group_index(grp, idx, k);
            if p != idx {
                let cell = self.get_cell(p);
                bp = bp & !cell;
                if cell != 0 && cell & (cell - 1) == 0 {
                    vals = vals | cell;
                }
            }
            k = k + 1;
        }
        (vals, bp)
    }

    /// The `k`-th cell of group `grp` through cell `idx`.
    fn group_index(&self, grp: usize, idx: Index, k: usize) -> (r: Index)
        requires
            grp < 3,
            idx < 81,
            k < 9,
        ensures
            r == group_cell(grp as int, idx as int, k as int),
            r < 81,
    {
        proof {
            lemma_group_cell_range(grp as int, idx as int, k as int);
        }
        let (i, j) = pair_from_cell(idx);
        if grp == 0 {
            cell_from_pair(i, k)
        } else if grp == 1 {
            cell_from_pair(k, j)
        } else {
            cell_from_square(square_from_cell(idx), k)
        }
    }

    /// Whether another cell of a group through `idx` holds the same mask as `idx`.
    fn clashes(&self, idx: Index) -> (r: bool)
        requires
            self.wf(),
            idx < 81,
        ensures
            r == !no_clash(self@, idx as int),
    {
        let cell = self.get_cell(idx);
        let mut grp: usize = 0;
        while grp < 3
            invariant
                self.wf(),
                idx < 81,
                grp <= 3,
                cell == self@[idx as int],
                forall|g2: int, k: int|
                    0 <= g2 < grp && 0 <= k < 9 && group_cell(g2, idx as int, k) != idx
                        ==> self@[#[trigger] group_cell(g2, idx as int, k)] != cell,
            decreases 3 - grp,
        {
            let mut k: usize = 0;
            while k < 9
                invariant
                    self.wf(),
                    idx < 81,
                    grp < 3,
                    k <= 9,
                    cell == self@[idx as int],
                    forall|g2: int, k2: int|
                        0 <= g2 < grp && 0 <= k2 < 9 && group_cell(g2, idx as int, k2) != idx
                            ==> self@[#[trigger] group_cell(g2, idx as int, k2)] != cell,
                    forall|k2: int|
                        0 <= k2 < k && group_cell(grp as int, idx as int, k2) != idx
                            ==> self@[#[trigger] group_cell(grp as int, idx as int, k2)] != cell,
                decreases 9 - k,
            {
                let p = self.group_index(grp, idx, k);
                if p != idx && self.get_cell(p) == cell {
                    return true;
                }
                k = k + 1;
            }
            grp = grp + 1;
        }
        false
    }
}

} // verus!
