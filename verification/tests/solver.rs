use sudoku::Board;
use sudoku::BoardResult;
use sudoku::SweepOutcome;
use sudoku::Tile;
use sudoku::char_to_maxnine;
use sudoku::get_col;
use sudoku::get_influences;
use sudoku::get_row;
use sudoku::get_sqr;
use sudoku::search::solve_all;
use sudoku::search::tally;

// A valid fully solved grid (the classic textbook example).
const SOLVED: [&str; 9] = [
    "534678912",
    "672195348",
    "198342567",
    "859761423",
    "426853791",
    "713924856",
    "961537284",
    "287419635",
    "345286179",
];

fn grid_text(rows: &[String]) -> String {
    let mut s = String::new();
    for r in rows {
        s.push_str(r);
        s.push('\n');
    }
    s
}

fn solved_rows() -> Vec<String> {
    SOLVED.iter().map(|r| r.to_string()).collect()
}

fn set_cell(rows: &mut [String], r: usize, c: usize, ch: char) {
    let mut chars: Vec<char> = rows[r].chars().collect();
    chars[c] = ch;
    rows[r] = chars.into_iter().collect();
}

fn board_digits(b: &Board) -> Vec<u8> {
    b.tiles_vec()
        .iter()
        .map(|t| match t.value {
            Some(v) => v + 1,
            None => 0,
        })
        .collect()
}

fn expected_digits(rows: &[String]) -> Vec<u8> {
    let mut out = Vec::new();
    for r in rows {
        for c in r.chars() {
            out.push(c.to_digit(10).unwrap() as u8);
        }
    }
    out
}

fn tiles_equal(a: &Tile, b: &Tile) -> bool {
    a.index == b.index && a.value == b.value && a.hints == b.hints
}

// The puzzle whose four blanks form a swappable rectangle: rows 3 and 4,
// columns 5 and 8, values 1 and 3. It has exactly two solutions.
fn two_solution_rows() -> Vec<String> {
    let mut rows = solved_rows();
    set_cell(&mut rows, 3, 5, '0');
    set_cell(&mut rows, 3, 8, '0');
    set_cell(&mut rows, 4, 5, '0');
    set_cell(&mut rows, 4, 8, '0');
    rows
}

// A grid with two conflicting 3s in row 0 (columns 0 and 1) and one blank
// at cell (8, 0): the duplicated 3 covers that cell's last possible digit,
// so its candidate set empties out during propagation.
fn contradiction_rows() -> Vec<String> {
    let mut rows = solved_rows();
    set_cell(&mut rows, 0, 0, '3');
    set_cell(&mut rows, 8, 0, '0');
    rows
}

#[test]
fn topology_row_col_sqr() {
    assert_eq!(get_row(0), 0);
    assert_eq!(get_col(0), 0);
    assert_eq!(get_sqr(0), 0);
    assert_eq!(get_row(80), 8);
    assert_eq!(get_col(80), 8);
    assert_eq!(get_sqr(80), 8);
    assert_eq!(get_row(40), 4);
    assert_eq!(get_col(40), 4);
    assert_eq!(get_sqr(40), 4);
    assert_eq!(get_sqr(5), 1);
    assert_eq!(get_sqr(30), 4);
}

#[test]
fn influences_of_corner() {
    let infs = get_influences(0);
    assert_eq!(infs.len(), 20);
    let mut sorted = infs.clone();
    sorted.sort();
    let mut expected: Vec<u8> = vec![1, 2, 3, 4, 5, 6, 7, 8];
    expected.extend(vec![9, 18, 27, 36, 45, 54, 63, 72]);
    expected.extend(vec![10, 11, 19, 20]);
    expected.sort();
    assert_eq!(sorted, expected);
    let mut dedup = sorted.clone();
    dedup.dedup();
    assert_eq!(dedup.len(), 20);
}

#[test]
fn influences_of_center() {
    let infs = get_influences(40);
    assert_eq!(infs.len(), 20);
    assert!(!infs.contains(&40));
    for q in infs.iter() {
        let same = get_row(*q) == 4 || get_col(*q) == 4 || get_sqr(*q) == 4;
        assert!(same);
    }
}

#[test]
fn char_mapping() {
    assert_eq!(char_to_maxnine('1'), Some(0));
    assert_eq!(char_to_maxnine('2'), Some(1));
    assert_eq!(char_to_maxnine('3'), Some(2));
    assert_eq!(char_to_maxnine('4'), Some(3));
    assert_eq!(char_to_maxnine('5'), Some(4));
    assert_eq!(char_to_maxnine('6'), Some(5));
    assert_eq!(char_to_maxnine('7'), Some(6));
    assert_eq!(char_to_maxnine('8'), Some(7));
    assert_eq!(char_to_maxnine('9'), Some(8));
    assert_eq!(char_to_maxnine('0'), None);
    assert_eq!(char_to_maxnine('x'), None);
}

#[test]
fn default_tile_is_open() {
    let t = Tile::default();
    assert_eq!(t.index, 0);
    assert_eq!(t.value, None);
    assert_eq!(t.hints, [true; 9]);
}

#[test]
fn parse_round_trip_of_solved_grid() {
    let rows = solved_rows();
    let b = Board::try_from_str(&grid_text(&rows)).expect("grid parses");
    assert!(b.is_well_formed());
    let tiles = b.tiles_vec();
    assert_eq!(tiles.len(), 81);
    let expected = expected_digits(&rows);
    for (i, t) in tiles.iter().enumerate() {
        assert_eq!(t.index as usize, i);
        assert_eq!(t.value, Some(expected[i] - 1));
        let mut hints = [false; 9];
        hints[(expected[i] - 1) as usize] = true;
        assert_eq!(t.hints, hints);
    }
    match b.try_solve() {
        BoardResult::Solved(s) => {
            assert_eq!(board_digits(&s), expected);
        }
        _ => panic!("a solved grid must resolve to Solved"),
    }
}

#[test]
fn parse_skips_filler_characters() {
    let rows = solved_rows();
    let mut text = String::new();
    for r in rows.iter() {
        for (c, ch) in r.chars().enumerate() {
            text.push(ch);
            if c % 3 == 2 {
                text.push('|');
            }
            text.push(' ');
        }
        text.push('\n');
        text.push('\n');
    }
    let b = Board::try_from_str(&text).expect("filler characters are skipped");
    assert_eq!(board_digits(&b), expected_digits(&rows));
}

#[test]
fn parse_blank_cells_open_all_candidates() {
    let mut rows = solved_rows();
    set_cell(&mut rows, 0, 0, '0');
    let b = Board::try_from_str(&grid_text(&rows)).expect("grid parses");
    let tiles = b.tiles_vec();
    assert_eq!(tiles[0].value, None);
    assert_eq!(tiles[0].hints, [true; 9]);
}

#[test]
fn malformed_too_few_digits() {
    let rows = solved_rows();
    let mut text = grid_text(&rows[..8]);
    text.push_str("53467891"); // only 80 digits in total
    assert!(Board::try_from_str(&text).is_err());
}

#[test]
fn malformed_too_many_digits() {
    let mut text = grid_text(&solved_rows());
    text.push('7'); // 82 digits in total
    assert!(Board::try_from_str(&text).is_err());
}

#[test]
fn malformed_empty_text() {
    assert!(Board::try_from_str("").is_err());
}

#[test]
fn propagation_is_idempotent_at_fixpoint() {
    let rows = two_solution_rows();
    let mut b = Board::try_from_str(&grid_text(&rows)).expect("grid parses");
    assert!(b.propagate());
    let before: Vec<Tile> = b.tiles_vec();
    match b.sweep() {
        SweepOutcome::NoChange => {}
        _ => panic!("a sweep after the fixpoint must change nothing"),
    }
    let after: Vec<Tile> = b.tiles_vec();
    for i in 0..81 {
        assert!(tiles_equal(&before[i], &after[i]));
    }
}

#[test]
fn contradiction_stops_the_sweep() {
    let rows = contradiction_rows();
    let mut b = Board::try_from_str(&grid_text(&rows)).expect("grid parses");
    let before = b.tiles_vec();
    match b.sweep() {
        SweepOutcome::Contradiction => {}
        _ => panic!("the duplicated row must produce a contradiction"),
    }
    let after = b.tiles_vec();
    // The contradiction arises at cell 72; every later tile is untouched.
    assert_eq!(after[72].hints, [false; 9]);
    for i in 73..81 {
        assert!(tiles_equal(&before[i], &after[i]));
    }
}

#[test]
fn contradiction_resolves_to_failed() {
    let rows = contradiction_rows();
    let b = Board::try_from_str(&grid_text(&rows)).expect("grid parses");
    match b.try_solve() {
        BoardResult::Failed(f) => {
            let tiles = f.tiles_vec();
            assert!(tiles.iter().any(|t| t.hints == [false; 9]));
        }
        _ => panic!("the conflicting grid must resolve to Failed"),
    }
}

#[test]
fn branch_yields_one_clone_per_candidate() {
    let rows = two_solution_rows();
    let mut b = Board::try_from_str(&grid_text(&rows)).expect("grid parses");
    assert!(b.propagate());
    let parent = b.tiles_vec();
    // The first undetermined tile is cell (3, 5) = position 32 with the
    // candidate digits 1 and 3 (internal values 0 and 2).
    assert_eq!(parent[32].value, None);
    let clones = b.branch_clones();
    assert_eq!(clones.len(), 2);
    let committed = [0u8, 2u8]; // ascending digit order
    for (k, clone) in clones.iter().enumerate() {
        let tiles = clone.tiles_vec();
        for i in 0..81 {
            if i == 32 {
                assert_eq!(tiles[i].value, Some(committed[k]));
                let mut hints = [false; 9];
                hints[committed[k] as usize] = true;
                assert_eq!(tiles[i].hints, hints);
                assert_eq!(tiles[i].index, parent[i].index);
            } else {
                assert!(tiles_equal(&tiles[i], &parent[i]));
            }
        }
    }
}

#[test]
fn branch_result_from_try_solve() {
    let rows = two_solution_rows();
    let b = Board::try_from_str(&grid_text(&rows)).expect("grid parses");
    match b.try_solve() {
        BoardResult::Branch(clones) => {
            assert_eq!(clones.len(), 2);
        }
        _ => panic!("the two-solution grid must branch"),
    }
}

#[test]
fn two_solution_grid_finds_both() {
    let rows = two_solution_rows();
    let b = Board::try_from_str(&grid_text(&rows)).expect("grid parses");
    let (solved, failed) = solve_all(b);
    assert_eq!(solved.len(), 2);
    assert_eq!(failed.len(), 0);

    let first = expected_digits(&solved_rows());
    let mut swapped_rows = solved_rows();
    set_cell(&mut swapped_rows, 3, 5, '3');
    set_cell(&mut swapped_rows, 3, 8, '1');
    set_cell(&mut swapped_rows, 4, 5, '1');
    set_cell(&mut swapped_rows, 4, 8, '3');
    let second = expected_digits(&swapped_rows);

    let got: Vec<Vec<u8>> = solved.iter().map(board_digits).collect();
    assert!(got.contains(&first));
    assert!(got.contains(&second));
}

#[test]
fn unique_solution_grid() {
    let mut rows = solved_rows();
    for c in 0..9 {
        set_cell(&mut rows, 0, c, '0');
    }
    let b = Board::try_from_str(&grid_text(&rows)).expect("grid parses");
    let (solved, failed) = solve_all(b);
    assert_eq!(solved.len(), 1);
    assert_eq!(failed.len(), 0);
    assert_eq!(board_digits(&solved[0]), expected_digits(&solved_rows()));
}

#[test]
fn textbook_puzzle_unique_solution() {
    // The classic textbook puzzle whose unique solution is the SOLVED grid.
    let rows: Vec<String> = vec![
        "530070000".to_string(),
        "600195000".to_string(),
        "098000060".to_string(),
        "800060003".to_string(),
        "400803001".to_string(),
        "700020006".to_string(),
        "060000280".to_string(),
        "000419005".to_string(),
        "000080079".to_string(),
    ];
    let b = Board::try_from_str(&grid_text(&rows)).expect("puzzle parses");
    let (solved, _failed) = solve_all(b);
    assert_eq!(solved.len(), 1);
    assert_eq!(board_digits(&solved[0]), expected_digits(&solved_rows()));
}

#[test]
fn full_grid_resolves_immediately() {
    let rows = solved_rows();
    let b = Board::try_from_str(&grid_text(&rows)).expect("grid parses");
    let (solved, failed) = solve_all(b);
    assert_eq!(solved.len(), 1);
    assert_eq!(failed.len(), 0);
    assert_eq!(board_digits(&solved[0]), expected_digits(&rows));
}

#[test]
fn conflicting_grid_only_fails() {
    let rows = contradiction_rows();
    let b = Board::try_from_str(&grid_text(&rows)).expect("grid parses");
    let (solved, failed) = solve_all(b);
    assert_eq!(solved.len(), 0);
    assert_eq!(failed.len(), 1);
}

#[test]
fn tally_counts_each_verdict_once() {
    let rows = solved_rows();
    let b = Board::try_from_str(&grid_text(&rows)).expect("grid parses");
    let f = Board::try_from_str(&grid_text(&contradiction_rows())).expect("grid parses");
    let results = vec![
        BoardResult::Solved(b),
        BoardResult::Failed(f),
        BoardResult::Solved(b),
    ];
    let (s, d) = tally(&results).expect("no branch verdict");
    assert_eq!(s, 2);
    assert_eq!(d, 1);
}

#[test]
fn tally_rejects_branch_verdicts() {
    let rows = solved_rows();
    let b = Board::try_from_str(&grid_text(&rows)).expect("grid parses");
    let results = vec![BoardResult::Solved(b), BoardResult::Branch(vec![b])];
    assert!(tally(&results).is_err());
}

#[test]
fn tally_of_empty_run() {
    let results: Vec<BoardResult> = Vec::new();
    let (s, d) = tally(&results).expect("empty run has no branch verdict");
    assert_eq!(s, 0);
    assert_eq!(d, 0);
}
