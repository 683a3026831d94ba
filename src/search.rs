//! Depth-first search over the cells that propagation leaves open.
use vstd::prelude::*;
use std::collections::HashSet;
use crate::grid::{
    Index, Sudoku, bit, is_single, cell_wf, subset, grid_wf, all_single, refines, seeded,
    clues_wf, grid_text, lemma_value_is_single, group_cell, value_of, lemma_group_cell_range,
    lemma_group_shared, lemma_group_injective, lemma_group_self, lemma_single_is_value, lemma_value_unique,
    box_of, lemma_grid_text, cell_text,
};
use vstd::set_lib::{lemma_int_range, lemma_subset_equality, set_int_range};
use crate::propagate::{Contradiction, consistent, no_clash, step, pass_from, taken_in, free_in,
    taken, hidden, settle, pass, mask_sum, lemma_settle};

verus! {

broadcast use vstd::std_specs::hash::group_hash_axioms;

/// The cells chosen as branch points on the current search path.
pub type Guesses = HashSet<Index>;

/// Counters of the work a search performed.
#[derive(Debug, Clone, Copy, PartialEq, Eq, Structural)]
pub struct Stats {
    /// Values tried in a branch cell.
    pub total_guesses: usize,
    /// Tried values whose branch came to nothing.
    pub bad_guesses: usize,
}

impl Stats {
    /// Both counters at zero.
    pub fn new() -> (r: Stats)
        ensures
            r.total_guesses == 0,
            r.bad_guesses == 0,
    {
        Stats { total_guesses: 0, bad_guesses: 0 }
    }

    /// Counts one more value tried (saturating).
    fn count_guess(&mut self)
        ensures
            final(self).total_guesses == if old(self).total_guesses < usize::MAX {
                old(self).total_guesses + 1
            } else {
                old(self).total_guesses as int
            },
            final(self).bad_guesses == old(self).bad_guesses,
    {
        if self.total_guesses < usize::MAX {
            self.total_guesses = self.total_guesses + 1;
        }
    }

    /// Counts one more branch that came to nothing (saturating).
    fn count_bad(&mut self)
        ensures
            final(self).bad_guesses == if old(self).bad_guesses < usize::MAX {
                old(self).bad_guesses + 1
            } else {
                old(self).bad_guesses as int
            },
            final(self).total_guesses == old(self).total_guesses,
    {
        if self.bad_guesses < usize::MAX {
            self.bad_guesses = self.bad_guesses + 1;
        }
    }
}

/// How the counters moved from `a` to `b`: neither went down, the bad
/// guesses stay within all guesses, and unless the total saturated, each
/// guess counted as bad was counted as a guess: as many of each when the
/// search failed, no more bad ones than guesses when it succeeded.
pub open spec fn counted(a: Stats, b: Stats, found: bool) -> bool {
    &&& a.total_guesses <= b.total_guesses
    &&& a.bad_guesses <= b.bad_guesses
    &&& b.bad_guesses <= b.total_guesses
    &&& b.total_guesses < usize::MAX ==> if found {
        b.bad_guesses - a.bad_guesses <= b.total_guesses - a.total_guesses
    } else {
        b.bad_guesses - a.bad_guesses == b.total_guesses - a.total_guesses
    }
}

/// Why no solution came back.
#[derive(Debug, Clone, Copy, PartialEq, Eq, Structural)]
pub enum SolveError {
    /// Propagation on the clues alone met a contradiction.
    Contradiction,
    /// Every branch of the search came to nothing.
    SearchExhausted,
}

/// A solved board: every cell resolved, no value twice in a row, column or box.
pub open spec fn is_solution(g: Seq<u16>) -> bool {
    &&& grid_wf(g)
    &&& all_single(g)
    &&& consistent(g)
}

/// Nine distinct values, each in 1..=9, are all of 1..=9.
proof fn lemma_pigeonhole(vals: Seq<int>)
    requires
        vals.len() == 9,
        vals.no_duplicates(),
        forall|k: int| 0 <= k < 9 ==> 1 <= #[trigger] vals[k] <= 9,
    ensures
        forall|v: int| 1 <= v <= 9 ==> #[trigger] vals.contains(v),
{
    vals.unique_seq_to_set();
    lemma_int_range(1, 10);
    let r = set_int_range(1, 10);
    assert(vals.to_set().subset_of(r));
    lemma_subset_equality(vals.to_set(), r);
    assert forall|v: int| 1 <= v <= 9 implies #[trigger] vals.contains(v) by {
        assert(r.contains(v));
        assert(vals.to_set().contains(v));
    }
}

/// Two cells of one group of a solved board hold different values.
proof fn lemma_solution_distinct(g: Seq<u16>, grp: int, idx: int, k1: int, k2: int)
    requires
        is_solution(g),
        0 <= grp < 3,
        0 <= idx < 81,
        0 <= k1 < 9,
        0 <= k2 < 9,
        k1 != k2,
    ensures
        g[group_cell(grp, idx, k1)] != g[group_cell(grp, idx, k2)],
{
    let m1 = group_cell(grp, idx, k1);
    lemma_group_cell_range(grp, idx, k1);
    lemma_group_shared(grp, idx, k1, k2);
    if group_cell(grp, idx, k2) == m1 {
        lemma_group_injective(grp, idx, k1, k2);
    }
    assert(is_single(g[m1]));
    assert(no_clash(g, m1));
    assert(g[group_cell(grp, m1, k2)] != g[m1]);
}

/// In a solved board every row, every column and every box holds each
/// value 1..=9 exactly once: group `grp` (0: row, 1: column, 2: box)
/// through any cell `idx` has exactly one cell resolved to `v`.
pub proof fn lemma_solution_groups(g: Seq<u16>, grp: int, idx: int, v: int)
    requires
        is_solution(g),
        0 <= grp < 3,
        0 <= idx < 81,
        1 <= v <= 9,
    ensures
        exists|k: int| 0 <= k < 9 && g[#[trigger] group_cell(grp, idx, k)] == bit(v),
        forall|k1: int, k2: int|
            0 <= k1 < 9 && 0 <= k2 < 9 && g[#[trigger] group_cell(grp, idx, k1)] == bit(v) && g[
            #[trigger] group_cell(grp, idx, k2)] == bit(v) ==> k1 == k2,
{
    assert forall|k1: int, k2: int|
        0 <= k1 < 9 && 0 <= k2 < 9 && g[#[trigger] group_cell(grp, idx, k1)] == bit(v) && g[
        #[trigger] group_cell(grp, idx, k2)] == bit(v) implies k1 == k2 by {
        if k1 != k2 {
            lemma_solution_distinct(g, grp, idx, k1, k2);
        }
    }
    let vals = Seq::new(9, |k: int| value_of(g[group_cell(grp, idx, k)]));
    assert forall|k: int| 0 <= k < 9 implies 1 <= #[trigger] vals[k] <= 9 && g[group_cell(
        grp,
        idx,
        k,
    )] == bit(vals[k]) by {
        let c = g[group_cell(grp, idx, k)];
        lemma_group_cell_range(grp, idx, k);
        lemma_single_is_value(c);
        lemma_value_unique(c);
    }
    assert forall|k1: int, k2: int| 0 <= k1 < 9 && 0 <= k2 < 9 && k1 != k2 implies vals[k1]
        != vals[k2] by {
        lemma_solution_distinct(g, grp, idx, k1, k2);
        assert(g[group_cell(grp, idx, k1)] == bit(vals[k1]));
        assert(g[group_cell(grp, idx, k2)] == bit(vals[k2]));
    }
    assert(vals.no_duplicates());
    lemma_pigeonhole(vals);
    assert(vals.contains(v));
    let k = choose|k: int| 0 <= k < 9 && vals[k] == v;
    assert(g[group_cell(grp, idx, k)] == bit(v));
}

/// Board `sol` solves board `g`: it is solved and keeps to the candidates of `g`.
pub open spec fn solves(sol: Seq<u16>, g: Seq<u16>) -> bool {
    is_solution(sol) && refines(sol, g)
}

/// Facts of masks: a nonzero part of a single mask is that mask, and two
/// different single masks share no bit.
proof fn lemma_single_bits(a: u16, b: u16)
    ensures
        subset(a, b) && a != 0 && is_single(b) ==> a == b,
        is_single(a) && is_single(b) && a != b ==> a & b == 0,
{
    assert(subset(a, b) && a != 0 && is_single(b) ==> a == b) by (bit_vector);
    assert(is_single(a) && is_single(b) && a != b ==> a & b == 0) by (bit_vector);
}

/// The value a solution gives cell `idx` is none of the values resolved in its peers.
proof fn lemma_taken_disjoint(g: Seq<u16>, sol: Seq<u16>, grp: int, idx: int, n: int)
    requires
        grid_wf(g),
        solves(sol, g),
        0 <= grp < 3,
        0 <= idx < 81,
        0 <= n <= 9,
    ensures
        sol[idx] & taken_in(g, grp, idx, n) == 0,
    decreases n,
{
    if n == 0 {
        let x = sol[idx];
        assert(x & 0u16 == 0) by (bit_vector);
    } else {
        lemma_taken_disjoint(g, sol, grp, idx, n - 1);
        let p = group_cell(grp, idx, n - 1);
        lemma_group_cell_range(grp, idx, n - 1);
        if p != idx && is_single(g[p]) {
            assert(subset(sol[p], g[p]) && sol[p] != 0 && is_single(sol[p]));
            assert(is_single(sol[idx]));
            lemma_single_bits(sol[p], g[p]);
            let ks = lemma_group_self(grp, idx);
            lemma_solution_distinct(sol, grp, idx, n - 1, ks);
            lemma_single_bits(sol[p], sol[idx]);
            let (x, t, y) = (sol[idx], taken_in(g, grp, idx, n - 1), g[p]);
            assert(x & t == 0 && y & x == 0 ==> x & (t | y) == 0) by (bit_vector);
        }
    }
}

/// A value free in a group through `idx` is a candidate of no other cell of it.
proof fn lemma_free_excludes(g: Seq<u16>, grp: int, idx: int, n: int, h: u16, k: int)
    requires
        0 <= grp < 3,
        0 <= idx < 81,
        0 <= k < n <= 9,
        group_cell(grp, idx, k) != idx,
        subset(h, free_in(g, grp, idx, n)),
    ensures
        h & g[group_cell(grp, idx, k)] == 0,
    decreases n,
{
    let p = group_cell(grp, idx, n - 1);
    let f = free_in(g, grp, idx, n - 1);
    if p != idx {
        let x = g[p];
        assert(subset(h, f & !x) ==> subset(h, f) && h & x == 0) by (bit_vector);
    }
    if k < n - 1 {
        lemma_free_excludes(g, grp, idx, n - 1, h, k);
    }
}

/// What a pass makes of a cell keeps the value each solution gives it.
proof fn lemma_step_keeps(g: Seq<u16>, sol: Seq<u16>, idx: int)
    requires
        grid_wf(g),
        solves(sol, g),
        0 <= idx < 81,
    ensures
        step(g, idx) matches Some(m) && subset(sol[idx], m),
{
    let c = g[idx];
    let x = sol[idx];
    assert(x != 0 && is_single(x));
    lemma_single_bits(x, c);
    let ks = lemma_group_self(0, idx);
    if is_single(c) {
        assert forall|grp: int, k: int|
            0 <= grp < 3 && 0 <= k < 9 && group_cell(grp, idx, k) != idx implies g[#[trigger] group_cell(
            grp,
            idx,
            k,
        )] != g[idx] by {
            let p = group_cell(grp, idx, k);
            lemma_group_cell_range(grp, idx, k);
            if g[p] == c {
                lemma_single_bits(sol[p], g[p]);
                let kg = lemma_group_self(grp, idx);
                lemma_solution_distinct(sol, grp, idx, k, kg);
            }
        }
        assert(subset(x, x)) by (bit_vector);
    } else {
        lemma_taken_disjoint(g, sol, 0, idx, 9);
        lemma_taken_disjoint(g, sol, 1, idx, 9);
        lemma_taken_disjoint(g, sol, 2, idx, 9);
        let (t0, t1, t2) = (taken_in(g, 0, idx, 9), taken_in(g, 1, idx, 9), taken_in(g, 2, idx, 9));
        let t = taken(g, idx);
        assert(x & t0 == 0 && x & t1 == 0 && x & t2 == 0 && subset(x, c) && x != 0 ==> subset(
            x,
            c & !(t0 | t1 | t2),
        ) && (c & !(t0 | t1 | t2)) != 0) by (bit_vector);
        let h = hidden(g, idx);
        if is_single(h) {
            let (f0, f1, f2) = (free_in(g, 0, idx, 9), free_in(g, 1, idx, 9), free_in(g, 2, idx, 9));
            assert(h == (f0 | f1 | f2) & !t & c);
            assert(is_single(h) && h == (f0 | f1 | f2) & !t & c ==> subset(h, c) && (subset(h, f0)
                || subset(h, f1) || subset(h, f2))) by (bit_vector);
            let grp: int = if subset(h, f0) { 0 } else if subset(h, f1) { 1 } else { 2 };
            assert(cell_wf(c));
            assert(subset(h, c) && cell_wf(c) ==> cell_wf(h)) by (bit_vector);
            lemma_single_is_value(h);
            let v = choose|v: int| 1 <= v <= 9 && h == #[trigger] bit(v);
            lemma_solution_groups(sol, grp, idx, v);
            let k = choose|k: int| 0 <= k < 9 && sol[#[trigger] group_cell(grp, idx, k)] == bit(v);
            let p = group_cell(grp, idx, k);
            lemma_group_cell_range(grp, idx, k);
            if p != idx {
                lemma_free_excludes(g, grp, idx, 9, h, k);
                let y = g[p];
                assert(subset(h, y) && h != 0 ==> h & y != 0) by (bit_vector);
            }
            assert(x == h);
            assert(subset(x, x)) by (bit_vector);
        }
    }
}

/// A pass keeps every solution of the board it starts from, and never fails on such a board.
proof fn lemma_pass_from_keeps(g: Seq<u16>, sol: Seq<u16>, i: int, n: nat)
    requires
        grid_wf(g),
        solves(sol, g),
        0 <= i <= 81,
    ensures
        pass_from(g, i, n) matches Some((h, _)) && solves(sol, h),
    decreases 81 - i,
{
    if i < 81 {
        lemma_step_keeps(g, sol, i);
        crate::propagate::lemma_step_subset(g, i);
        let m = step(g, i)->Some_0;
        if m == g[i] {
            lemma_pass_from_keeps(g, sol, i + 1, n);
        } else {
            let g2 = g.update(i, m);
            assert(grid_wf(g2));
            assert(refines(sol, g2));
            lemma_pass_from_keeps(g2, sol, i + 1, n + 1);
        }
    }
}

/// Propagation to a fixpoint keeps every solution of the board it starts
/// from, and never fails on a board that has one.
pub proof fn lemma_settle_keeps(g: Seq<u16>, sol: Seq<u16>)
    requires
        grid_wf(g),
        solves(sol, g),
    ensures
        settle(g) matches Some(h) && solves(sol, h),
    decreases mask_sum(g),
{
    lemma_pass_from_keeps(g, sol, 0, 0);
    crate::propagate::lemma_pass_from(g, 0, 0);
    let (h, n) = pass(g)->Some_0;
    if n != 0 {
        lemma_settle_keeps(h, sol);
    }
}

/// Each cell of a solved board holds one value 1..=9.
proof fn lemma_solution_cell(sol: Seq<u16>, i: int)
    requires
        is_solution(sol),
        0 <= i < 81,
    ensures
        1 <= value_of(sol[i]) <= 9,
        sol[i] == bit(value_of(sol[i])),
{
    assert(cell_wf(sol[i]) && is_single(sol[i]));
    lemma_single_is_value(sol[i]);
    lemma_value_unique(sol[i]);
}

/// A solution that gives cell `idx` value `v` solves the board with `v` written there.
proof fn lemma_branch_keeps(g: Seq<u16>, sol: Seq<u16>, idx: int, v: int)
    requires
        grid_wf(g),
        solves(sol, g),
        0 <= idx < 81,
        sol[idx] == bit(v),
    ensures
        solves(sol, g.update(idx, bit(v))),
{
    let x = sol[idx];
    assert(subset(x, x)) by (bit_vector);
}

/// No two clues name one cell with different values.
pub open spec fn clues_agree(clues: Seq<(usize, usize, u8)>) -> bool {
    forall|a: int, b: int|
        0 <= a < clues.len() && 0 <= b < clues.len() && (#[trigger] clues[a]).0 == (
        #[trigger] clues[b]).0 && clues[a].1 == clues[b].1 ==> clues[a].2 == clues[b].2
}

/// Each clue stands, resolved, in the seeded board.
proof fn lemma_seeded_clue(clues: Seq<(usize, usize, u8)>, k: int)
    requires
        clues_wf(clues),
        clues_agree(clues),
        0 <= k < clues.len(),
    ensures
        seeded(clues)[clues[k].0 * 9 + clues[k].1] == bit(clues[k].2 as int),
    decreases clues.len(),
{
    let last = clues.len() - 1;
    let (i, j, v) = clues[k];
    assert(clues_wf(clues.drop_last()));
    crate::grid::lemma_seeded_wf(clues.drop_last());
    assert(clues[last].0 < 9 && clues[last].1 < 9);
    if k != last {
        let rest = clues.drop_last();
        assert(clues_wf(rest));
        assert(clues_agree(rest)) by {
            assert forall|a: int, b: int|
                0 <= a < rest.len() && 0 <= b < rest.len() && (#[trigger] rest[a]).0 == (
                #[trigger] rest[b]).0 && rest[a].1 == rest[b].1 implies rest[a].2 == rest[b].2 by {
                assert(rest[a] == clues[a] && rest[b] == clues[b]);
            }
        }
        assert(rest[k] == clues[k]);
        lemma_seeded_clue(rest, k);
        let (i2, j2, v2) = clues[last];
        if i2 * 9 + j2 == i * 9 + j {
            assert(i2 == i && j2 == j);
            assert(v2 == v);
        }
    }
}

/// A solution of the clues keeps every clue: the cell of each clue
/// `(row, column, value)` holds that value.
pub proof fn lemma_clues_kept(clues: Seq<(usize, usize, u8)>, sol: Seq<u16>)
    requires
        clues_wf(clues),
        clues_agree(clues),
        solves(sol, seeded(clues)),
    ensures
        forall|k: int|
            0 <= k < clues.len() ==> sol[(#[trigger] clues[k]).0 * 9 + clues[k].1] == bit(
                clues[k].2 as int,
            ),
{
    assert forall|k: int| 0 <= k < clues.len() implies sol[(#[trigger] clues[k]).0 * 9
        + clues[k].1] == bit(clues[k].2 as int) by {
        let (i, j, v) = clues[k];
        let c = i * 9 + j;
        lemma_seeded_clue(clues, k);
        lemma_value_is_single(v as int);
        assert(0 <= c < 81);
        assert(subset(sol[c], seeded(clues)[c]) && sol[c] != 0);
        lemma_single_bits(sol[c], bit(v as int));
    }
}

/// A pass from cell `i` on fails on a board where two cells at or after `i`
/// of one group are resolved to the same value.
proof fn lemma_pass_from_clash(g: Seq<u16>, i: int, n: nat, grp: int, p: int, k: int)
    requires
        g.len() == 81,
        0 <= grp < 3,
        0 <= p < 81,
        0 <= k < 9,
        group_cell(grp, p, k) != p,
        0 <= i <= p,
        i <= group_cell(grp, p, k),
        is_single(g[p]),
        g[group_cell(grp, p, k)] == g[p],
    ensures
        pass_from(g, i, n) is None,
    decreases 81 - i,
{
    let q = group_cell(grp, p, k);
    lemma_group_cell_range(grp, p, k);
    let kp = lemma_group_self(grp, p);
    lemma_group_shared(grp, p, k, kp);
    if i == p {
        assert(!no_clash(g, p));
    } else if i == q {
        assert(group_cell(grp, q, kp) == p);
        assert(!no_clash(g, q));
    } else if let Some(m) = step(g, i) {
        if m == g[i] {
            lemma_pass_from_clash(g, i + 1, n, grp, p, k);
        } else {
            lemma_pass_from_clash(g.update(i, m), i + 1, n + 1, grp, p, k);
        }
    }
}

/// Two clues with one value in one row, one column or one box make the
/// first pass fail, so building the board fails.
pub proof fn lemma_conflicting_clues(clues: Seq<(usize, usize, u8)>, a: int, b: int)
    requires
        clues_wf(clues),
        clues_agree(clues),
        0 <= a < clues.len(),
        0 <= b < clues.len(),
        clues[a].2 == clues[b].2,
        clues[a].0 != clues[b].0 || clues[a].1 != clues[b].1,
        clues[a].0 == clues[b].0 || clues[a].1 == clues[b].1 || box_of(clues[a].0 * 9 + clues[a].1)
            == box_of(clues[b].0 * 9 + clues[b].1),
    ensures
        pass(seeded(clues)) is None,
{
    let g = seeded(clues);
    crate::grid::lemma_seeded_wf(clues);
    lemma_seeded_clue(clues, a);
    lemma_seeded_clue(clues, b);
    lemma_value_is_single(clues[a].2 as int);
    let (ia, ja, ib, jb) = (clues[a].0 as int, clues[a].1 as int, clues[b].0 as int, clues[b].1 as int);
    let (p, q) = (ia * 9 + ja, ib * 9 + jb);
    let grp: int = if ia == ib { 0 } else if ja == jb { 1 } else { 2 };
    let kq = lemma_group_self(grp, q);
    let kp = lemma_group_self(grp, p);
    assert(group_cell(grp, p, kq) == q) by {
        lemma_group_shared(grp, q, kp, kq);
        if grp == 2 {
            assert(box_of(p) == box_of(q));
        }
    }
    lemma_pass_from_clash(g, 0, 0, grp, p, kq);
}

/// The mask holds exactly one candidate, a value in 1..=9.
pub open spec fn one_candidate(c: u16) -> bool {
    exists|v: int| 1 <= v <= 9 && c == #[trigger] bit(v)
}

/// Every cell of a solved board has exactly one candidate.
pub proof fn lemma_solution_one_candidate(sol: Seq<u16>)
    requires
        is_solution(sol),
    ensures
        forall|i: int| 0 <= i < 81 ==> one_candidate(#[trigger] sol[i]),
{
    assert forall|i: int| 0 <= i < 81 implies one_candidate(#[trigger] sol[i]) by {
        lemma_solution_cell(sol, i);
        let v = value_of(sol[i]);
        assert(1 <= v <= 9 && sol[i] == bit(v));
    }
}

/// Board `a` comes no later than board `b` in the order the search tries
/// boards: they are equal, or at the first cell where they differ `a`
/// holds the smaller mask (for single values, the smaller value).
pub open spec fn search_le(a: Seq<u16>, b: Seq<u16>) -> bool {
    a == b || exists|i: int|
        0 <= i < 81 && #[trigger] a[i] < b[i] && forall|j: int| 0 <= j < i ==> a[j] == b[j]
}

/// A board has at most one first solution in search order, so the result
/// of the search depends on the board alone.
pub proof fn lemma_first_solution_unique(g: Seq<u16>, a: Seq<u16>, b: Seq<u16>)
    requires
        solves(a, g),
        solves(b, g),
        search_le(a, b),
        search_le(b, a),
    ensures
        a == b,
{
    if a != b {
        let i = choose|i: int|
            0 <= i < 81 && #[trigger] a[i] < b[i] && forall|j: int| 0 <= j < i ==> a[j] == b[j];
        let k = choose|k: int|
            0 <= k < 81 && #[trigger] b[k] < a[k] && forall|j: int| 0 <= j < k ==> b[j] == a[j];
        if i < k {
            assert(b[i] == a[i]);
        } else if k < i {
            assert(a[k] == b[k]);
        }
    }
}

/// A resolved cell of a board holds the same mask in each of its solutions.
proof fn lemma_single_fixed(g: Seq<u16>, sol: Seq<u16>, j: int)
    requires
        solves(sol, g),
        0 <= j < 81,
        is_single(g[j]),
    ensures
        sol[j] == g[j],
{
    assert(subset(sol[j], g[j]) && sol[j] != 0);
    lemma_single_bits(sol[j], g[j]);
}

/// The only solution of a board whose cells are all resolved is the board itself.
proof fn lemma_solved_board_unique(g: Seq<u16>, sol: Seq<u16>)
    requires
        g.len() == 81,
        all_single(g),
        solves(sol, g),
    ensures
        sol == g,
{
    assert forall|j: int| 0 <= j < 81 implies sol[j] == g[j] by {
        lemma_single_fixed(g, sol, j);
    }
    assert(sol =~= g);
}

/// Two solutions of `g` that agree before cell `idx`, where `a` holds a
/// smaller value than `b`: `a` comes first.
proof fn lemma_first_differs(g: Seq<u16>, a: Seq<u16>, b: Seq<u16>, idx: int, val: int)
    requires
        solves(a, g),
        solves(b, g),
        0 <= idx < 81,
        forall|j: int| 0 <= j < idx ==> is_single(#[trigger] g[j]),
        1 <= val <= 9,
        a[idx] == bit(val),
        value_of(b[idx]) > val,
    ensures
        search_le(a, b),
{
    lemma_solution_cell(b, idx);
    let (x, y) = (val as u16, value_of(b[idx]) as u16);
    assert(1 <= x < y <= 9 ==> (1u16 << x) < (1u16 << y)) by (bit_vector);
    assert forall|j: int| 0 <= j < idx implies a[j] == b[j] by {
        lemma_single_fixed(g, a, j);
        lemma_single_fixed(g, b, j);
    }
    assert(a[idx] < b[idx]);
}

/// The character of the text `t` of a board that shows cell `c`.
pub open spec fn digit_at(t: Seq<char>, c: int) -> char {
    t[28 * (c / 9) + 3 * (c % 9) + 2]
}

/// The digit character of value `v`.
pub open spec fn digit(v: int) -> char {
    (('0' as int) + v) as char
}

/// The text of a solved board is 253 characters and shows each cell's value.
pub proof fn lemma_solution_text(g: Seq<u16>)
    requires
        is_solution(g),
    ensures
        grid_text(g, 9).len() == 253,
        forall|c: int| 0 <= c < 81 ==> #[trigger] digit_at(grid_text(g, 9), c) == digit(value_of(g[c])),
{
    lemma_grid_text(g, 9);
    assert forall|c: int| 0 <= c < 81 implies #[trigger] digit_at(grid_text(g, 9), c) == digit(
        value_of(g[c]),
    ) by {
        let (i, j) = (c / 9, c % 9);
        assert(c == i * 9 + j);
        assert(grid_text(g, 9)[28 * i + 3 * j + 2] == cell_text(g[i * 9 + j])[1]);
        assert(is_single(g[c]) && cell_wf(g[c]));
    }
}

/// In the text of a solved board every row, column and box shows each
/// digit 1..=9 exactly once.
pub proof fn lemma_solution_text_groups(g: Seq<u16>, grp: int, idx: int, v: int)
    requires
        is_solution(g),
        0 <= grp < 3,
        0 <= idx < 81,
        1 <= v <= 9,
    ensures
        exists|k: int| 0 <= k < 9 && digit_at(grid_text(g, 9), #[trigger] group_cell(grp, idx, k)) == digit(v),
        forall|k1: int, k2: int|
            0 <= k1 < 9 && 0 <= k2 < 9 && digit_at(grid_text(g, 9), #[trigger] group_cell(grp, idx, k1))
                == digit(v) && digit_at(grid_text(g, 9), #[trigger] group_cell(grp, idx, k2)) == digit(v)
                ==> k1 == k2,
{
    lemma_solution_text(g);
    lemma_solution_groups(g, grp, idx, v);
    let t = grid_text(g, 9);
    assert forall|k: int| 0 <= k < 9 implies (digit_at(t, #[trigger] group_cell(grp, idx, k)) == digit(v)
        <==> g[group_cell(grp, idx, k)] == bit(v)) by {
        let c = group_cell(grp, idx, k);
        lemma_group_cell_range(grp, idx, k);
        lemma_solution_cell(g, c);
        lemma_value_is_single(v);
        lemma_value_unique(g[c]);
        let w = value_of(g[c]);
        assert(digit(w) == digit(v) ==> w == v);
    }
    let k = choose|k: int| 0 <= k < 9 && g[#[trigger] group_cell(grp, idx, k)] == bit(v);
    assert(digit_at(t, group_cell(grp, idx, k)) == digit(v));
}

/// The text of a solution of the clues shows each clue `(row, column,
/// value)` at its cell.
pub proof fn lemma_solution_text_clues(clues: Seq<(usize, usize, u8)>, g: Seq<u16>)
    requires
        clues_wf(clues),
        clues_agree(clues),
        solves(g, seeded(clues)),
    ensures
        forall|k: int|
            0 <= k < clues.len() ==> digit_at(grid_text(g, 9), (#[trigger] clues[k]).0 * 9 + clues[k].1)
                == digit(clues[k].2 as int),
{
    lemma_solution_text(g);
    lemma_clues_kept(clues, g);
    assert forall|k: int| 0 <= k < clues.len() implies digit_at(grid_text(g, 9), (#[trigger] clues[k]).0
        * 9 + clues[k].1) == digit(clues[k].2 as int) by {
        let (i, j, v) = clues[k];
        let c = i * 9 + j;
        assert(0 <= c < 81);
        lemma_value_unique(g[c]);
        assert(value_of(g[c]) == v);
    }
}

/// The first cell, by index, that is open and not a pending guess.
fn find_next_guess(s: &Sudoku, guesses: &Guesses) -> (r: Option<Index>)
    requires
        s.wf(),
    ensures
        r matches Some(i) ==> i < 81 && !is_single(s@[i as int]) && !guesses@.contains(i),
        r matches Some(i) ==> forall|j: int|
            0 <= j < i ==> is_single(#[trigger] s@[j]) || guesses@.contains(j as usize),
        r is None ==> forall|j: int|
            0 <= j < 81 ==> is_single(#[trigger] s@[j]) || guesses@.contains(j as usize),
{
    let mut idx: usize = 0;
    while idx < 81
        invariant
            s.wf(),
            idx <= 81,
            forall|j: int| 0 <= j < idx ==> is_single(#[trigger] s@[j]) || guesses@.contains(
                j as usize,
            ),
        decreases 81 - idx,
    {
        let cell = s.get_cell(idx);
        if !(cell != 0 && cell & (cell - 1) == 0) && !guesses.contains(&idx) {
            return Some(idx);
        }
        idx = idx + 1;
    }
    None
}

/// Every candidate of a cell is kept by itself.
proof fn lemma_refines_self(g: Seq<u16>)
    ensures
        refines(g, g),
{
    assert forall|i: int| 0 <= i < g.len() implies subset(#[trigger] g[i], g[i]) by {
        let a = g[i];
        assert(subset(a, a)) by (bit_vector);
    }
}

/// Refinement is transitive.
proof fn lemma_refines_trans(a: Seq<u16>, b: Seq<u16>, c: Seq<u16>)
    requires
        refines(a, b),
        refines(b, c),
    ensures
        refines(a, c),
{
    assert forall|i: int| 0 <= i < c.len() implies subset(#[trigger] a[i], c[i]) by {
        let (x, y, z) = (a[i], b[i], c[i]);
        assert(subset(x, y) && subset(y, z) ==> subset(x, z)) by (bit_vector);
    }
}

/// Searches for a solution within the candidates of `s`: picks a branch
/// cell, tries each of its values in ascending order on a copy of the
/// board, propagates, and recurses where cells stay open.
fn try_guess(stats: &mut Stats, s: &Sudoku, guesses: &mut Guesses) -> (r: Result<Sudoku, ()>)
    requires
        s.wf(),
        consistent(s@),
        forall|g: usize| old(guesses)@.contains(g) ==> g < 81 && is_single(s@[g as int]),
        old(stats).bad_guesses <= old(stats).total_guesses,
    ensures
        r matches Ok(sol) ==> sol.wf() && is_solution(sol@) && refines(sol@, s@),
        r matches Ok(sol) ==> forall|other: Seq<u16>| #[trigger] solves(other, s@) ==> search_le(sol@, other),
        r is Err ==> final(guesses)@ == old(guesses)@,
        r is Ok ==> old(guesses)@.subset_of(final(guesses)@),
        counted(*old(stats), *final(stats), r is Ok),
        r is Err ==> forall|sol: Seq<u16>| !#[trigger] solves(sol, s@),
    decreases mask_sum(s@),
{
    let idx = match find_next_guess(s, guesses) {
        None => {
            proof {
                lemma_refines_self(s@);
                assert forall|other: Seq<u16>| #[trigger] solves(other, s@) implies search_le(s@, other) by {
                    lemma_solved_board_unique(s@, other);
                }
            }
            return Ok(s.clone());
        },
        Some(i) => i,
    };
    guesses.insert(idx);
    let cell = s.get_cell(idx);
    let mut val: u8 = 1;
    proof {
        assert forall|j: int| 0 <= j < idx implies is_single(#[trigger] s@[j]) by {
            if old(guesses)@.contains(j as usize) {
                assert(is_single(s@[(j as usize) as int]));
            }
        }
        assert forall|sol: Seq<u16>| #[trigger] solves(sol, s@) implies value_of(sol[idx as int])
            >= 1 by {
            lemma_solution_cell(sol, idx as int);
        }
    }
    while val <= 9
        invariant
            s.wf(),
            idx < 81,
            counted(*old(stats), *stats, false),
            forall|j: int| 0 <= j < idx ==> is_single(#[trigger] s@[j]),
            cell == s@[idx as int],
            !is_single(cell),
            1 <= val <= 10,
            guesses@ == old(guesses)@.insert(idx),
            !old(guesses)@.contains(idx),
            forall|g: usize| old(guesses)@.contains(g) ==> g < 81 && is_single(s@[g as int]),
            forall|sol: Seq<u16>| #[trigger] solves(sol, s@) ==> value_of(sol[idx as int]) >= val,
        decreases 10 - val,
    {
        let ghost set = s@.update(idx as int, bit(val as int));
        if cell & (1u16 << (val as u16)) == 0 {
            proof {
                assert forall|sol: Seq<u16>| #[trigger] solves(sol, s@) implies value_of(
                    sol[idx as int],
                ) != val by {
                    lemma_solution_cell(sol, idx as int);
                    if value_of(sol[idx as int]) == val {
                        let (x, w) = (sol[idx as int], val as u16);
                        assert(1 <= w <= 9 && subset(x, cell) && x == (1u16 << w) ==> cell & (1u16
                            << w) != 0) by (bit_vector);
                    }
                }
            }
        } else {
            stats.count_guess();
            let mut candidate = s.clone();
            candidate.set_value(idx, val);
            proof {
                let b = bit(val as int);
                let w = val as u16;
                assert(1 <= w <= 9 && cell & (1u16 << w) != 0 ==> subset(1u16 << w, cell)
                    && (1u16 << w) <= cell) by (bit_vector);
                lemma_value_is_single(val as int);
                assert(b < cell);
                crate::propagate::lemma_mask_sum_update(s@, idx as int, b);
                assert forall|i: int| 0 <= i < 81 implies subset(#[trigger] set[i], s@[i]) by {
                    if i != idx {
                        let a = s@[i];
                        assert(subset(a, a)) by (bit_vector);
                    }
                }
            }
            match candidate.reflow() {
                Err(_) => {
                    stats.count_bad();
                    proof {
                        assert forall|sol: Seq<u16>| #[trigger] solves(sol, s@) implies value_of(
                            sol[idx as int],
                        ) != val by {
                            lemma_solution_cell(sol, idx as int);
                            if value_of(sol[idx as int]) == val {
                                lemma_branch_keeps(s@, sol, idx as int, val as int);
                                lemma_settle_keeps(set, sol);
                            }
                        }
                    }
                },
                Ok(()) => {
                    proof {
                        lemma_settle(set);
                        lemma_refines_trans(candidate@, set, s@);
                    }
                    if candidate.is_solved() {
                        proof {
                            assert forall|other: Seq<u16>| #[trigger] solves(other, s@) implies search_le(candidate@, other) by {
                                lemma_solution_cell(other, idx as int);
                                if value_of(other[idx as int]) == val {
                                    lemma_branch_keeps(s@, other, idx as int, val as int);
                                    lemma_settle_keeps(set, other);
                                    lemma_solved_board_unique(candidate@, other);
                                } else {
                                    assert(candidate@[idx as int] == set[idx as int]);
                                    lemma_first_differs(s@, candidate@, other, idx as int, val as int);
                                }
                            }
                        }
                        return Ok(candidate);
                    }
                    match try_guess(stats, &candidate, guesses) {
                        Ok(solved) => {
                            proof {
                                lemma_refines_trans(solved@, candidate@, s@);
                                assert forall|other: Seq<u16>| #[trigger] solves(other, s@) implies search_le(solved@, other) by {
                                    lemma_solution_cell(other, idx as int);
                                    if value_of(other[idx as int]) == val {
                                        lemma_branch_keeps(s@, other, idx as int, val as int);
                                        lemma_settle_keeps(set, other);
                                        assert(solves(other, candidate@));
                                    } else {
                                        lemma_single_fixed(candidate@, solved@, idx as int);
                                        lemma_first_differs(s@, solved@, other, idx as int, val as int);
                                    }
                                }
                            }
                            return Ok(solved);
                        },
                        Err(()) => {
                            stats.count_bad();
                            proof {
                                assert forall|sol: Seq<u16>| #[trigger] solves(sol, s@) implies value_of(
                                    sol[idx as int],
                                ) != val by {
                                    lemma_solution_cell(sol, idx as int);
                                    if value_of(sol[idx as int]) == val {
                                        lemma_branch_keeps(s@, sol, idx as int, val as int);
                                        lemma_settle_keeps(set, sol);
                                        assert(solves(sol, candidate@));
                                    }
                                }
                            }
                        },
                    }
                },
            }
        }
        val = val + 1;
    }
    guesses.remove(&idx);
    proof {
        assert(guesses@ =~= old(guesses)@);
        assert forall|sol: Seq<u16>| !#[trigger] solves(sol, s@) by {
            if solves(sol, s@) {
                lemma_solution_cell(sol, idx as int);
            }
        }
    }
    Err(())
}

/// Solves the puzzle of the clues `(row, column, value)`: builds the
/// board, propagates to a fixpoint, then searches. Counts the search's
/// guesses in `stats`.
pub fn solve_grid(clues: &Vec<(Index, Index, u8)>, stats: &mut Stats) -> (r: Result<
    Sudoku,
    SolveError,
>)
    requires
        clues_wf(clues@),
        old(stats).bad_guesses <= old(stats).total_guesses,
    ensures
        counted(*old(stats), *final(stats), r is Ok),
        r matches Ok(sol) ==> sol.wf() && solves(sol@, seeded(clues@)),
        r matches Ok(sol) ==> forall|other: Seq<u16>|
            #[trigger] solves(other, seeded(clues@)) ==> search_le(sol@, other),
        r is Err ==> forall|sol: Seq<u16>| !#[trigger] solves(sol, seeded(clues@)),
        r == Err::<Sudoku, SolveError>(SolveError::Contradiction) <==> (pass(seeded(clues@)) is None
            || settle(pass(seeded(clues@))->Some_0.0) is None),
{
    proof {
        crate::grid::lemma_seeded_wf(clues@);
    }
    let ghost seed = seeded(clues@);
    let mut s = match Sudoku::new(clues) {
        Ok(s) => s,
        Err(Contradiction) => {
            proof {
                assert forall|sol: Seq<u16>| !#[trigger] solves(sol, seed) by {
                    if solves(sol, seed) {
                        lemma_pass_from_keeps(seed, sol, 0, 0);
                    }
                }
            }
            return Err(SolveError::Contradiction);
        },
    };
    proof {
        crate::propagate::lemma_pass_monotone(seeded(clues@));
    }
    let ghost start = s@;
    match s.reflow() {
        Ok(()) => {},
        Err(Contradiction) => {
            proof {
                assert forall|sol: Seq<u16>| !#[trigger] solves(sol, seed) by {
                    if solves(sol, seed) {
                        lemma_pass_from_keeps(seed, sol, 0, 0);
                        lemma_settle_keeps(start, sol);
                    }
                }
            }
            return Err(SolveError::Contradiction);
        },
    }
    proof {
        lemma_settle(start);
        lemma_refines_trans(s@, start, seeded(clues@));
    }
    let mut guesses: Guesses = HashSet::new();
    match try_guess(stats, &s, &mut guesses) {
        Ok(sol) => {
            proof {
                lemma_refines_trans(sol@, s@, seeded(clues@));
                assert forall|other: Seq<u16>| #[trigger] solves(other, seed) implies search_le(sol@, other) by {
                    lemma_pass_from_keeps(seed, other, 0, 0);
                    lemma_settle_keeps(start, other);
                    assert(solves(other, s@));
                }
            }
            Ok(sol)
        },
        Err(()) => {
            proof {
                assert forall|sol: Seq<u16>| !#[trigger] solves(sol, seed) by {
                    if solves(sol, seed) {
                        lemma_pass_from_keeps(seed, sol, 0, 0);
                        lemma_settle_keeps(start, sol);
                        assert(solves(sol, s@));
                    }
                }
            }
            Err(SolveError::SearchExhausted)
        },
    }
}

/// Solves the puzzle of the clues `(row, column, value)` and renders the
/// solution as text (see [`Sudoku::print`]): the first solution in the
/// order the search tries values.
pub fn solve(clues: &Vec<(Index, Index, u8)>) -> (r: Result<String, SolveError>)
    requires
        clues_wf(clues@),
    ensures
        r matches Ok(text) ==> exists|sol: Seq<u16>|
            solves(sol, seeded(clues@)) && text@ == #[trigger] grid_text(sol, 9) && forall|other: Seq<u16>|
                #[trigger] solves(other, seeded(clues@)) ==> search_le(sol, other),
        r is Err ==> forall|sol: Seq<u16>| !#[trigger] solves(sol, seeded(clues@)),
        r == Err::<String, SolveError>(SolveError::Contradiction) <==> (pass(seeded(clues@)) is None
            || settle(pass(seeded(clues@))->Some_0.0) is None),
{
    let mut stats = Stats::new();
    match solve_grid(clues, &mut stats) {
        Ok(sol) => Ok(sol.print()),
        Err(e) => Err(e),
    }
}

} // verus!
