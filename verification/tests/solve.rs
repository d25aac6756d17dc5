use sudoku::bits::digit_bits_empty;
use sudoku::Board;
use sudoku::bits::digit_bits_get;
use sudoku::bits::digit_bits_ones;
use sudoku::bits::digit_bits_set;
use sudoku::solve::solve;
use sudoku::Constraint;
use sudoku::Digit;
use sudoku::MaybeDigit;
use sudoku::NormalSudokuRules;
use sudoku::Solution;
use sudoku::Sudoku;

fn test_solution(sudoku: &str, solution: &str) {
    let sudoku = Sudoku::parse(sudoku).unwrap();
    let expected = Solution(Sudoku::parse(solution).unwrap().board.map(|d| match d {
        MaybeDigit::Definitely(d) => d,
        _ => unreachable!(),
    }));

    let solution = solve(&sudoku).unwrap();
    assert_eq!(expected, solution);
}

#[test]
fn basic() {
    test_solution(
        "3 7 5 6 2 _ _ _ 4
4 9 2 3 _ 8 _ 5 6
_ _ _ _ 9 4 _ 7 _
7 4 8 1 5 _ 6 3 2
1 2 _ 8 6 _ _ 4 5
6 5 9 2 _ 3 7 _ _
2 _ 4 7 3 6 5 8 9
_ 8 6 4 1 5 3 2 _
_ 3 7 _ 8 2 _ 6 1",
        "3 7 5 6 2 1 8 9 4
4 9 2 3 7 8 1 5 6
8 6 1 5 9 4 2 7 3
7 4 8 1 5 9 6 3 2
1 2 3 8 6 7 9 4 5
6 5 9 2 4 3 7 1 8
2 1 4 7 3 6 5 8 9
9 8 6 4 1 5 3 2 7
5 3 7 9 8 2 4 6 1",
    );
}

#[test]
fn basic_extreme() {
    test_solution(
        "_ _ 1 _ _ _ 7 _ _
_ _ _ _ 1 _ 4 8 5
8 4 _ 6 _ _ _ 3 _
5 _ _ 1 9 _ _ _ _
_ _ 3 5 _ _ _ _ 6
_ _ _ _ _ _ 5 _ _
_ 5 9 3 _ _ 6 4 _
1 8 _ 7 2 _ _ _ 3
3 _ _ _ _ _ _ _ _",
        "2 3 1 4 5 8 7 6 9
6 9 7 2 1 3 4 8 5
8 4 5 6 7 9 2 3 1
5 6 8 1 9 7 3 2 4
9 7 3 5 4 2 8 1 6
4 1 2 8 3 6 5 9 7
7 5 9 3 8 1 6 4 2
1 8 6 7 2 4 9 5 3
3 2 4 9 6 5 1 7 8",
    );
}

// https://www.youtube.com/watch?v=Ui1hrp7rovw
#[test]
fn basic_steering_wheel() {
    test_solution(
        "_ _ _ 1 _ 2 _ _ _
_ 6 _ _ _ _ _ 7 _
_ _ 8 _ _ _ 9 _ _
4 _ _ _ _ _ _ _ 3
_ 5 _ _ _ 7 _ _ _
2 _ _ _ 8 _ _ _ 1
_ _ 9 _ _ _ 8 _ 5
_ 7 _ _ _ _ _ 6 _
_ _ _ 3 _ 4 _ _ _",
        "9 3 4 1 7 2 6 5 8
5 6 1 9 4 8 3 7 2
7 2 8 6 3 5 9 1 4
4 1 7 2 6 9 5 8 3
8 5 3 4 1 7 2 9 6
2 9 6 5 8 3 7 4 1
1 4 9 7 2 6 8 3 5
3 7 2 8 5 1 4 6 9
6 8 5 3 9 4 1 2 7",
    );
}

const BASIC_PUZZLE: &str = "3 7 5 6 2 _ _ _ 4
4 9 2 3 _ 8 _ 5 6
_ _ _ _ 9 4 _ 7 _
7 4 8 1 5 _ 6 3 2
1 2 _ 8 6 _ _ 4 5
6 5 9 2 _ 3 7 _ _
2 _ 4 7 3 6 5 8 9
_ 8 6 4 1 5 3 2 _
_ 3 7 _ 8 2 _ 6 1";

#[test]
fn repeated_solves_agree() {
    let first = solve(&Sudoku::parse(BASIC_PUZZLE).unwrap()).unwrap();
    let second = solve(&Sudoku::parse(BASIC_PUZZLE).unwrap()).unwrap();
    assert_eq!(first, second);
}

#[test]
fn duplicate_in_row_has_no_solution() {
    let text = "5 5 _ _ _ _ _ _ _
_ _ _ _ _ _ _ _ _
_ _ _ _ _ _ _ _ _
_ _ _ _ _ _ _ _ _
_ _ _ _ _ _ _ _ _
_ _ _ _ _ _ _ _ _
_ _ _ _ _ _ _ _ _
_ _ _ _ _ _ _ _ _
_ _ _ _ _ _ _ _ _";
    let sudoku = Sudoku::parse(text).unwrap();
    assert_eq!(solve(&sudoku), Err(()));
}

#[test]
fn empty_grid_solution_is_legal() {
    let text = "_ _ _ _ _ _ _ _ _
_ _ _ _ _ _ _ _ _
_ _ _ _ _ _ _ _ _
_ _ _ _ _ _ _ _ _
_ _ _ _ _ _ _ _ _
_ _ _ _ _ _ _ _ _
_ _ _ _ _ _ _ _ _
_ _ _ _ _ _ _ _ _
_ _ _ _ _ _ _ _ _";
    let sudoku = Sudoku::parse(text).unwrap();
    let solution = solve(&sudoku).unwrap();
    let cells = solution.0.cells();
    assert_eq!(cells.len(), 81);

    // Every row, column, and box holds each digit exactly once.
    for x in 0..9 {
        let mut seen = [false; 10];
        for y in 0..9 {
            let d = cells[x * 9 + y].to_u8() as usize;
            assert!((1..=9).contains(&d));
            assert!(!seen[d]);
            seen[d] = true;
        }
    }
    for y in 0..9 {
        let mut seen = [false; 10];
        for x in 0..9 {
            let d = cells[x * 9 + y].to_u8() as usize;
            assert!(!seen[d]);
            seen[d] = true;
        }
    }
    for bx in [0, 3, 6] {
        for by in [0, 3, 6] {
            let mut seen = [false; 10];
            for k in 0..9 {
                let d = cells[(bx + k / 3) * 9 + by + k % 3].to_u8() as usize;
                assert!(!seen[d]);
                seen[d] = true;
            }
        }
    }
}

#[test]
fn solution_keeps_given_digits() {
    let puzzle = Sudoku::parse(BASIC_PUZZLE).unwrap();
    let given = puzzle.board.cells();
    let solution = solve(&Sudoku::parse(BASIC_PUZZLE).unwrap()).unwrap();
    let solved = solution.0.cells();
    for i in 0..81 {
        if let MaybeDigit::Definitely(d) = given[i] {
            assert_eq!(d, solved[i]);
        }
    }
}

#[test]
fn render_round_trip() {
    let solved = "3 7 5 6 2 1 8 9 4
4 9 2 3 7 8 1 5 6
8 6 1 5 9 4 2 7 3
7 4 8 1 5 9 6 3 2
1 2 3 8 6 7 9 4 5
6 5 9 2 4 3 7 1 8
2 1 4 7 3 6 5 8 9
9 8 6 4 1 5 3 2 7
5 3 7 9 8 2 4 6 1";
    let parsed = Sudoku::parse(solved).unwrap();
    assert_eq!(parsed.board.render(), solved);

    // A partially filled grid round-trips the same way.
    let puzzle = Sudoku::parse(BASIC_PUZZLE).unwrap();
    assert_eq!(puzzle.board.render(), BASIC_PUZZLE);
}

#[test]
fn parse_rejects_malformed_text() {
    // Too few rows.
    assert!(Sudoku::parse("1 2 3\n4 5 6").is_none());
    // A row with a tenth token.
    let text = "1 2 3 4 5 6 7 8 9 1
_ _ _ _ _ _ _ _ _
_ _ _ _ _ _ _ _ _
_ _ _ _ _ _ _ _ _
_ _ _ _ _ _ _ _ _
_ _ _ _ _ _ _ _ _
_ _ _ _ _ _ _ _ _
_ _ _ _ _ _ _ _ _
_ _ _ _ _ _ _ _ _";
    assert!(Sudoku::parse(text).is_none());
    // A row with only eight tokens.
    let text = "1 2 3 4 5 6 7 8
_ _ _ _ _ _ _ _ _
_ _ _ _ _ _ _ _ _
_ _ _ _ _ _ _ _ _
_ _ _ _ _ _ _ _ _
_ _ _ _ _ _ _ _ _
_ _ _ _ _ _ _ _ _
_ _ _ _ _ _ _ _ _
_ _ _ _ _ _ _ _ _";
    assert!(Sudoku::parse(text).is_none());
    assert!(Sudoku::parse("").is_none());
}

#[test]
fn parse_accepts_extra_blanks_and_odd_tokens() {
    // Runs of blanks separate tokens, and a token that is neither a digit
    // nor `_` reads as an unresolved cell.
    let text = "1  2\t3 4 5 6 7 8 9
_ _ _ _ _ _ _ _ x9
_ _ _ _ _ _ _ _ _
_ _ _ _ _ _ _ _ _
_ _ _ _ _ _ _ _ _
_ _ _ _ _ _ _ _ _
_ _ _ _ _ _ _ _ _
_ _ _ _ _ _ _ _ _
_ _ _ _ _ _ _ _ _";
    let parsed = Sudoku::parse(text).unwrap();
    let cells = parsed.board.cells();
    assert_eq!(cells[0], MaybeDigit::Definitely(Digit::One));
    assert_eq!(cells[2], MaybeDigit::Definitely(Digit::Three));
    assert_eq!(cells[17], MaybeDigit::Hole);
}

#[test]
fn parse_accepts_trailing_newline() {
    let with_newline = format!("{}\n", BASIC_PUZZLE);
    let a = Sudoku::parse(&with_newline).unwrap();
    let b = Sudoku::parse(BASIC_PUZZLE).unwrap();
    assert_eq!(a.board.cells(), b.board.cells());
}

#[test]
fn board_equality_is_cell_for_cell() {
    let a = Sudoku::parse(BASIC_PUZZLE).unwrap().board;
    let b = Sudoku::parse(BASIC_PUZZLE).unwrap().board;
    assert_eq!(a, b);
    let mut c = Sudoku::parse(BASIC_PUZZLE).unwrap().board;
    c.set(0, 0, MaybeDigit::Hole);
    assert_ne!(a, c);
}

#[test]
fn cell_mut_writes_through() {
    let mut board = Sudoku::parse(BASIC_PUZZLE).unwrap().board;
    *board.cell_mut(3) = MaybeDigit::Definitely(Digit::Nine);
    assert_eq!(board.cells()[3], MaybeDigit::Definitely(Digit::Nine));
    assert_eq!(board.cell(3), MaybeDigit::Definitely(Digit::Nine));
}

#[test]
fn views_follow_the_grid_layout() {
    let board = Sudoku::parse(BASIC_PUZZLE).unwrap().board;

    let row = board.row(0);
    assert_eq!(row.get(0), MaybeDigit::Definitely(Digit::Three));
    assert_eq!(row.get(8), MaybeDigit::Definitely(Digit::Four));

    let col = board.column(0);
    assert_eq!(col.get(3), MaybeDigit::Definitely(Digit::Seven));

    // The box around row 4, column 4 covers rows 3..6 and columns 3..6.
    let boxed = board.box_of((4, 4));
    assert_eq!(boxed.get(0), MaybeDigit::Definitely(Digit::One));
    assert_eq!(boxed.get(4), MaybeDigit::Definitely(Digit::Six));
    assert_eq!(boxed.get(8), MaybeDigit::Definitely(Digit::Three));

    let rows = board.rows();
    assert_eq!(rows[2].get(4), MaybeDigit::Definitely(Digit::Nine));
    let cols = board.columns();
    assert_eq!(cols[8].get(0), MaybeDigit::Definitely(Digit::Four));

    assert_eq!(board.cell(9), MaybeDigit::Definitely(Digit::Four));
    assert_eq!(board.get(1, 0), MaybeDigit::Definitely(Digit::Four));
}

#[test]
fn new_lays_out_rows_then_columns() {
    let mut grid = [[MaybeDigit::Hole; 9]; 9];
    grid[2][5] = MaybeDigit::Definitely(Digit::Seven);
    let board = Board::new(grid);
    assert_eq!(board.cell(2 * 9 + 5), MaybeDigit::Definitely(Digit::Seven));
    assert_eq!(board.get(2, 5), MaybeDigit::Definitely(Digit::Seven));
    assert_eq!(board.get(5, 2), MaybeDigit::Hole);
}

#[test]
fn map_transforms_every_cell() {
    let board = Sudoku::parse(BASIC_PUZZLE).unwrap().board;
    let flags = board.map(|m| matches!(m, MaybeDigit::Definitely(_)));
    assert!(flags.cell(0));
    assert!(!flags.cell(5));
}

#[test]
fn digit_new_values() {
    for v in 1..=9u8 {
        assert_eq!(Digit::new(v).to_u8(), v);
    }
}

#[test]
fn candidates_narrow_and_never_widen() {
    let sudoku = Sudoku::parse(BASIC_PUZZLE).unwrap();

    // Start from a candidate set that holds only the digits 1, 2, and 3;
    // the rules may clear candidates but never add one.
    let mut prev = digit_bits_empty();
    digit_bits_set(&mut prev, 1, true);
    digit_bits_set(&mut prev, 2, true);
    digit_bits_set(&mut prev, 3, true);
    let narrowed = NormalSudokuRules.posibilities(0, 5, &sudoku.board, prev);
    for i in digit_bits_ones(&narrowed) {
        assert!([1, 2, 3].contains(&i));
    }

    // At row 0, column 5 of the basic puzzle the only legal digit is 1:
    // starting from all nine digits, exactly it must remain.
    let mut all = digit_bits_empty();
    for d in 1..=9 {
        digit_bits_set(&mut all, d, true);
    }
    let narrowed = NormalSudokuRules.posibilities(0, 5, &sudoku.board, all);
    assert_eq!(digit_bits_ones(&narrowed), vec![1]);
    assert!(digit_bits_get(&narrowed, 1));
    assert!(!digit_bits_get(&narrowed, 2));
}
