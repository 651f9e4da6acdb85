pub mod sudoku;
