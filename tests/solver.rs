use sudoku::grid::{cell_from_pair, cell_from_square, pair_from_cell, square_from_cell, Sudoku};
use sudoku::propagate::Contradiction;
use sudoku::search::{solve, solve_grid, SolveError, Stats};

fn seventeen() -> Vec<(usize, usize, u8)> {
    vec![
        (1, 5, 3), (1, 7, 8), (1, 8, 5), (2, 2, 1), (2, 4, 2), (3, 3, 5), (3, 5, 7), (4, 2, 4),
        (4, 6, 1), (5, 1, 9), (6, 0, 5), (6, 7, 7), (6, 8, 3), (7, 2, 2), (7, 4, 1), (8, 4, 4),
        (8, 8, 9),
    ]
}

fn driver_puzzle() -> Vec<(usize, usize, u8)> {
    vec![
        (0, 2, 7), (0, 4, 8), (0, 6, 1), (1, 1, 9), (1, 3, 1), (1, 5, 3), (1, 7, 8), (2, 0, 5),
        (2, 4, 4), (2, 8, 6), (3, 1, 1), (3, 7, 4), (4, 0, 8), (4, 2, 2), (4, 6, 6), (4, 8, 7),
        (5, 1, 6), (5, 7, 5), (6, 0, 4), (6, 4, 6), (6, 8, 2), (7, 1, 2), (7, 3, 8), (7, 5, 4),
        (7, 7, 1), (8, 2, 9), (8, 4, 5), (8, 6, 4),
    ]
}

fn values(s: &Sudoku) -> Vec<u8> {
    (0..81).map(|c| s.get_value(c).expect("cell not resolved")).collect()
}

fn assert_valid(v: &[u8]) {
    for a in 0..9 {
        let mut row = [false; 10];
        let mut col = [false; 10];
        let mut bx = [false; 10];
        for b in 0..9 {
            row[v[cell_from_pair(a, b)] as usize] = true;
            col[v[cell_from_pair(b, a)] as usize] = true;
            bx[v[cell_from_square(a, b)] as usize] = true;
        }
        for x in 1..10 {
            assert!(row[x] && col[x] && bx[x]);
        }
    }
}

#[test]
fn seventeen_clue_puzzle_is_solved() {
    let mut stats = Stats::new();
    let sol = solve_grid(&seventeen(), &mut stats).unwrap();
    let v = values(&sol);
    assert_valid(&v);
    for (i, j, x) in seventeen() {
        assert_eq!(v[cell_from_pair(i, j)], x);
    }
    assert!(stats.bad_guesses <= stats.total_guesses);
}

#[test]
fn driver_puzzle_renders_solution() {
    let text = solve(&driver_puzzle()).unwrap();
    let expected = "\n 3  4  7  5  8  6  1  2  9 \n 2  9  6  1  7  3  5  8  4 \n 5  8  1  2  4  9  3  7  6 \n 9  1  5  6  2  7  8  4  3 \n 8  3  2  4  1  5  6  9  7 \n 7  6  4  9  3  8  2  5  1 \n 4  5  8  7  6  1  9  3  2 \n 6  2  3  8  9  4  7  1  5 \n 1  7  9  3  5  2  4  6  8 \n";
    assert_eq!(text, expected);
}

#[test]
fn driver_puzzle_keeps_clues() {
    let mut stats = Stats::new();
    let sol = solve_grid(&driver_puzzle(), &mut stats).unwrap();
    let v = values(&sol);
    assert_valid(&v);
    for (i, j, x) in driver_puzzle() {
        assert_eq!(v[cell_from_pair(i, j)], x);
    }
}

#[test]
fn conflicting_clues_fail_construction() {
    let clues = vec![(0, 0, 5), (0, 3, 5)];
    assert!(matches!(Sudoku::new(&clues), Err(Contradiction)));
    assert_eq!(solve(&clues), Err(SolveError::Contradiction));
}

#[test]
fn conflicting_clues_in_column_and_box() {
    assert!(Sudoku::new(&vec![(0, 4, 2), (7, 4, 2)]).is_err());
    assert!(Sudoku::new(&vec![(0, 0, 9), (2, 2, 9)]).is_err());
}

#[test]
fn full_grid_needs_no_guess() {
    let digits = "347586129296173584581249376915627843832415697764938251458761932623894715179352468";
    let clues: Vec<(usize, usize, u8)> = digits
        .bytes()
        .enumerate()
        .map(|(c, b)| (c / 9, c % 9, b - b'0'))
        .collect();
    let mut stats = Stats::new();
    let sol = solve_grid(&clues, &mut stats).unwrap();
    assert_eq!(stats.total_guesses, 0);
    assert_eq!(values(&sol), clues.iter().map(|t| t.2).collect::<Vec<u8>>());
}

#[test]
fn every_cell_of_solution_has_one_candidate() {
    let mut stats = Stats::new();
    let sol = solve_grid(&seventeen(), &mut stats).unwrap();
    assert!(sol.is_solved());
    for c in 0..81 {
        assert_eq!(sol.get_cell(c).count_ones(), 1);
        assert_eq!(sol.get_cell(c) & 1, 0);
    }
}

#[test]
fn empty_grid_renders_blanks() {
    let s = Sudoku::seed(&vec![]);
    let row = " _ ".repeat(9);
    let expected = format!("\n{}", format!("{}\n", row).repeat(9));
    assert_eq!(s.print(), expected);
    assert_eq!(expected.len(), 253);
    assert_eq!(s.get_value(0), None);
    assert!(!s.is_solved());
}

#[test]
fn empty_puzzle_is_solved_by_search() {
    let mut stats = Stats::new();
    let sol = solve_grid(&vec![], &mut stats).unwrap();
    assert_valid(&values(&sol));
    assert!(stats.total_guesses > 0);
}

#[test]
fn one_pass_only_removes_candidates() {
    let mut s = Sudoku::seed(&seventeen());
    let before: Vec<u16> = (0..81).map(|c| s.get_cell(c)).collect();
    let changed = s.constrain().unwrap();
    assert!(changed > 0);
    let mut n = 0;
    for c in 0..81 {
        let now = s.get_cell(c);
        assert_eq!(now & !before[c], 0);
        if now != before[c] {
            n += 1;
        }
    }
    assert_eq!(n, changed);
}

#[test]
fn reflow_twice_changes_nothing() {
    let mut s = Sudoku::seed(&driver_puzzle());
    s.reflow().unwrap();
    let once: Vec<u16> = (0..81).map(|c| s.get_cell(c)).collect();
    s.reflow().unwrap();
    let twice: Vec<u16> = (0..81).map(|c| s.get_cell(c)).collect();
    assert_eq!(once, twice);
    assert_eq!(s.constrain(), Ok(0));
}

#[test]
fn naked_elimination_removes_peer_values() {
    let mut s = Sudoku::seed(&vec![(0, 0, 1), (1, 1, 2), (4, 2, 3)]);
    s.constrain().unwrap();
    // cell (0, 2) sees 1 in its row, 2 in its box, 3 in its column
    assert_eq!(s.get_cell(2), 0x3fe & !0b1110);
}

#[test]
fn hidden_single_is_resolved() {
    // the nines block every cell of row 0 but the first, without touching its peers
    let clues = vec![(1, 3, 9), (2, 6, 9), (3, 1, 9), (4, 4, 9), (5, 7, 9), (6, 2, 9), (7, 5, 9), (8, 8, 9)];
    let mut s = Sudoku::seed(&clues);
    s.reflow().unwrap();
    assert_eq!(s.get_value(0), Some(9));
}

#[test]
fn set_and_get_value() {
    let mut s = Sudoku::seed(&vec![]);
    s.set_value(40, 7);
    assert_eq!(s.get_value(40), Some(7));
    assert_eq!(s.get_cell(40), 1 << 7);
    s.set_bit_pattern(40, 0b0110);
    assert_eq!(s.get_value(40), None);
}

#[test]
fn index_mapping() {
    assert_eq!(pair_from_cell(0), (0, 0));
    assert_eq!(pair_from_cell(80), (8, 8));
    assert_eq!(pair_from_cell(40), (4, 4));
    assert_eq!(cell_from_pair(3, 7), 34);
    assert_eq!(square_from_cell(34), 5);
    assert_eq!(square_from_cell(80), 8);
    assert_eq!(cell_from_square(4, 0), 30);
    assert_eq!(cell_from_square(8, 8), 80);
    assert_eq!(cell_from_square(1, 4), 13);
}

#[test]
fn hidden_contradiction_exhausts_search() {
    // row 0 needs a 7, but its only open cells share a box with the 7 at (1, 8)
    let clues = vec![(0, 0, 1), (0, 1, 2), (0, 2, 3), (0, 3, 4), (0, 4, 5), (0, 5, 6), (1, 8, 7)];
    assert!(Sudoku::new(&clues).is_ok());
    let mut stats = Stats::new();
    assert!(matches!(solve_grid(&clues, &mut stats), Err(SolveError::SearchExhausted)));
    assert_eq!(stats.total_guesses, 2);
    assert_eq!(stats.bad_guesses, 2);
    assert_eq!(solve(&clues), Err(SolveError::SearchExhausted));
}

#[test]
fn repeated_clue_on_one_cell_is_kept() {
    let clues = vec![(4, 4, 5), (4, 4, 5)];
    let mut stats = Stats::new();
    let sol = solve_grid(&clues, &mut stats).unwrap();
    assert_eq!(sol.get_value(40), Some(5));
}

#[test]
fn empty_puzzle_gives_first_board_in_search_order() {
    let text = solve(&vec![]).unwrap();
    let lines: Vec<&str> = text.lines().filter(|l| !l.is_empty()).collect();
    assert_eq!(lines[0], " 1  2  3  4  5  6  7  8  9 ");
    assert_eq!(lines[1], " 4  5  6  7  8  9  1  2  3 ");
    assert_eq!(text.len(), 253);
}

#[test]
fn clue_order_does_not_change_result() {
    let clues = vec![(0, 0, 9), (4, 4, 1), (8, 8, 5), (2, 7, 3)];
    let mut reversed = clues.clone();
    reversed.reverse();
    assert_eq!(solve(&clues), solve(&reversed));
}

#[test]
fn stats_count_every_value_tried() {
    let mut stats = Stats::new();
    solve_grid(&vec![], &mut stats).unwrap();
    assert!(stats.total_guesses > 0);
    assert!(stats.total_guesses > stats.bad_guesses);
}
