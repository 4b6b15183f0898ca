use gomoku::board::{Board, Cell};
use gomoku::game::Turn;

#[test]
fn test_count_consecutive_cells() {
    // Create a board with some stones placed in various patterns
    let mut board = Board::new(15);

    // Place a horizontal line of black stones
    board.set_cell(0, Cell::Black);
    board.set_cell(1, Cell::Black);
    board.set_cell(2, Cell::Black);
    board.set_cell(3, Cell::Black);

    // Place a vertical line of white stones
    board.set_cell(15, Cell::White);
    board.set_cell(30, Cell::White);
    board.set_cell(45, Cell::White);

    // Place a diagonal line of black stones
    board.set_cell(16, Cell::Black);
    board.set_cell(32, Cell::Black);
    board.set_cell(48, Cell::Black);

    // Test horizontal black line
    let results = board.count_consecutive_cells(0, Turn::Black);
    assert_eq!(results, vec![4, 4]);

    // Test vertical white line
    let results = board.count_consecutive_cells(15, Turn::White);
    assert_eq!(results, vec![3]);

    // Test diagonal black line
    let results = board.count_consecutive_cells(16, Turn::Black);
    assert_eq!(results, vec![4, 2, 2]);

    // Test empty position
    let results = board.count_consecutive_cells(230, Turn::Black);
    assert_eq!(results, vec![]);
}

#[test]
fn test_cell_predicates_and_names() {
    assert!(Cell::Empty.is_empty());
    assert!(Cell::Black.is_black());
    assert!(Cell::White.is_white());
    assert!(!Cell::Black.is_empty());
    assert_eq!(Cell::Empty.name(), "empty");
    assert_eq!(Cell::Black.name(), "black");
    assert_eq!(Cell::White.name(), "white");
    assert_eq!(Cell::Empty.symbol(), '.');
    assert_eq!(Cell::Black.symbol(), 'X');
    assert_eq!(Cell::White.symbol(), 'O');
}

#[test]
fn test_board_basics() {
    let mut board = Board::new(4);
    assert_eq!(board.board_size(), 4);
    assert_eq!(board.cells().len(), 16);
    assert_eq!(board.get_cell(5), Some(Cell::Empty));
    assert_eq!(board.get_cell(16), None);
    board.set_cell(5, Cell::White);
    assert_eq!(board.get_cell(5), Some(Cell::White));
    assert_eq!(board.cells()[5], Cell::White);
}

#[test]
fn test_legal_moves_shrink_by_one_per_placement() {
    // each legal placement removes one legal move and adds one illegal move
    let mut board = Board::new(5);
    let mut expected_legal = 25;
    for index in [3, 7, 11, 24, 0] {
        assert_eq!(board.legal_moves().len(), expected_legal);
        assert_eq!(board.illegal_moves().len(), 25 - expected_legal);
        board.set_cell(index, Cell::Black);
        expected_legal -= 1;
        assert_eq!(board.legal_moves().len(), expected_legal);
        assert_eq!(board.illegal_moves().len(), 25 - expected_legal);
    }
    // the lists are ascending and disjoint
    let legal = board.legal_moves();
    let illegal = board.illegal_moves();
    assert!(legal.windows(2).all(|w| w[0] < w[1]));
    assert!(illegal.windows(2).all(|w| w[0] < w[1]));
    assert_eq!(illegal, vec![0, 3, 7, 11, 24]);
}

#[test]
fn test_count_invariant_under_rotation() {
    // a stone pattern and its 180-degree rotation report the same runs
    let n: usize = 7;
    let pattern = [(3usize, Cell::Black), (4, Cell::Black), (5, Cell::Black), (10, Cell::White), (17, Cell::White)];
    let mut board = Board::new(n);
    let mut rotated = Board::new(n);
    for &(i, c) in pattern.iter() {
        board.set_cell(i, c);
        rotated.set_cell(n * n - 1 - i, c);
    }
    for &(i, _) in pattern.iter() {
        for turn in [Turn::Black, Turn::White] {
            assert_eq!(
                board.count_consecutive_cells(i, turn),
                rotated.count_consecutive_cells(n * n - 1 - i, turn)
            );
        }
    }
}

#[test]
fn test_render_board() {
    let mut board = Board::new(3);
    board.set_cell(4, Cell::Black);
    board.set_cell(8, Cell::White);
    assert_eq!(
        board.render(),
        "   A B C \n 1 . . . \n 2 . X . \n 3 . . O "
    );
}

#[test]
fn test_render_wide_row_numbers() {
    let board = Board::new(11);
    let text = board.render();
    let lines: Vec<&str> = text.split('\n').collect();
    assert_eq!(lines.len(), 12);
    assert_eq!(lines[0], "   A B C D E F G H I J K ");
    assert!(lines[1].starts_with(" 1 "));
    assert!(lines[10].starts_with("10 "));
    assert!(lines[11].starts_with("11 "));
}
