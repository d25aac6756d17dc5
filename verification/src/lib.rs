pub mod bits;
pub mod board;
pub mod constraint;
pub mod digit;
pub mod normal_sudoku_rules;
pub mod solution;
pub mod solve;
pub mod sudoku;

pub use board::Board;
pub use board::Group;
pub use digit::Digit;
pub use digit::MaybeDigit;
pub use constraint::Constraint;
pub use normal_sudoku_rules::NormalSudokuRules;
pub use solution::Solution;
pub use solve::solve;
pub use sudoku::Sudoku;
