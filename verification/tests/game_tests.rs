use gomoku::board::Cell;
use gomoku::game::{Game, GameResult, PlaceStoneError, Turn};

#[test]
fn test_turn_alternation_and_names() {
    assert_eq!(Turn::Black.next(), Turn::White);
    assert_eq!(Turn::White.next(), Turn::Black);
    assert_eq!(Turn::Black.name(), "black");
    assert_eq!(Turn::White.name(), "white");
    assert_eq!(Turn::Black.symbol(), 'X');
    assert_eq!(Turn::White.symbol(), 'O');
    assert_eq!(Cell::from(Turn::Black), Cell::Black);
    assert_eq!(Cell::from(Turn::White), Cell::White);
}

#[test]
fn test_new_game_state() {
    let game = Game::new(15, 5);
    assert_eq!(game.board_size(), 15);
    assert_eq!(game.max_consecutive_stones(), 5);
    assert_eq!(game.turn(), Turn::Black);
    assert_eq!(game.turn_count(), 0);
    assert_eq!(game.game_result(), None);
    assert_eq!(game.history().len(), 1);
    assert!(game.board().cells().iter().all(|c| c.is_empty()));
}

#[test]
fn test_place_stone_invalid_index() {
    let mut game = Game::new(15, 5);
    let err = game.place_stone(300).unwrap_err();
    assert_eq!(
        err,
        PlaceStoneError::InvalidIndex {
            index: 300,
            max_allowed_index: 225
        }
    );
    // nothing changed
    assert_eq!(game.turn_count(), 0);
    assert_eq!(game.turn(), Turn::Black);
}

#[test]
fn test_place_stone_already_placed() {
    let mut game = Game::new(15, 5);
    game.place_stone(7).unwrap();
    let err = game.place_stone(7).unwrap_err();
    assert_eq!(
        err,
        PlaceStoneError::StoneAlreadyPlaced {
            index: 7,
            stone: Cell::Black
        }
    );
    assert_eq!(game.turn_count(), 1);
    assert_eq!(game.turn(), Turn::White);
}

#[test]
fn test_place_stone_reports_the_move() {
    let mut game = Game::new(15, 5);
    let result = game.place_stone(0).unwrap();
    assert_eq!(result.index, 0);
    assert_eq!(result.turn_was, Turn::Black);
    assert_eq!(result.stone, Cell::Black);
    assert_eq!(result.game_result, None);
    assert!(result.board_was.cells().iter().all(|c| c.is_empty()));
    assert_eq!(result.consecutive_stones, Vec::<usize>::new());
    assert_eq!(game.board().get_cell(0), Some(Cell::Black));
    assert_eq!(game.history().len(), 2);
}

#[test]
fn test_black_five_in_a_row_wins() {
    // Black at 0,1,2,3,4 with White elsewhere: Win(Black) on the 5th stone,
    // with the largest run-length entry equal to 5
    let mut game = Game::new(15, 5);
    let black = [0usize, 1, 2, 3, 4];
    let white = [15usize, 16, 17, 18];
    for k in 0..4 {
        let result = game.place_stone(black[k]).unwrap();
        assert_eq!(result.turn_was, Turn::Black);
        assert_eq!(result.game_result, None);
        let result = game.place_stone(white[k]).unwrap();
        assert_eq!(result.turn_was, Turn::White);
        assert_eq!(result.game_result, None);
    }
    let result = game.place_stone(black[4]).unwrap();
    assert_eq!(result.game_result, Some(GameResult::Win(Turn::Black)));
    assert_eq!(result.consecutive_stones[0], 5);
    assert_eq!(game.game_result(), Some(GameResult::Win(Turn::Black)));
}

#[test]
fn test_win_requires_exact_run_length() {
    // the win check is exact equality against the threshold: a run that
    // jumps from 4 to 6 when a gap is filled is not detected as a win
    let mut game = Game::new(15, 5);
    // Black builds X X X _ X X X on row 0; White plays far away on row 14
    let black = [0usize, 1, 2, 4, 5, 6];
    let white = [210usize, 212, 214, 180, 182, 184];
    for k in 0..6 {
        assert_eq!(game.place_stone(black[k]).unwrap().game_result, None);
        assert_eq!(game.place_stone(white[k]).unwrap().game_result, None);
    }
    // filling the gap makes a run of 7, not 5: no win is declared
    let result = game.place_stone(3).unwrap();
    assert_eq!(result.consecutive_stones[0], 7);
    assert_eq!(result.game_result, None);
}

#[test]
fn test_full_board_without_run_is_a_draw() {
    // a 3x3 game whose threshold can never be met fills up and draws
    // exactly when the move count reaches the board size squared
    let mut game = Game::new(3, 4);
    for index in 0..9 {
        assert_eq!(game.game_result(), None);
        let result = game.place_stone(index).unwrap();
        if index < 8 {
            assert_eq!(result.game_result, None, "no draw before the board is full");
        } else {
            assert_eq!(result.game_result, Some(GameResult::Draw));
        }
    }
    assert_eq!(game.turn_count(), 9);
    assert_eq!(game.game_result(), Some(GameResult::Draw));
}

#[test]
fn test_history_records_each_position() {
    let mut game = Game::new(5, 4);
    game.place_stone(12).unwrap();
    game.place_stone(6).unwrap();
    let history = game.history();
    assert_eq!(history.len(), 3);
    // each entry is tagged with the player to move at that point
    assert_eq!(history[0].0, Turn::Black);
    assert_eq!(history[1].0, Turn::White);
    assert_eq!(history[2].0, Turn::Black);
    assert!(history[0].1.cells().iter().all(|c| c.is_empty()));
    assert_eq!(history[1].1.get_cell(12), Some(Cell::Black));
    assert_eq!(history[1].1.get_cell(6), Some(Cell::Empty));
    assert_eq!(history[2].1.get_cell(6), Some(Cell::White));
}
