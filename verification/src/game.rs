//! The turn state machine: alternating turns over a board, win and draw
//! detection, and the per-move transition.

use vstd::prelude::*;

verus! {

use crate::board::{
    Board,
    BoardView,
    Cell,
    illegal_upto,
    lemma_moves_after_update,
    lemma_moves_partition,
    max_axis_run,
    run_lengths,
    sorted_desc,
    stone_count,
};

/// Whose move it is. Black always moves first.
#[derive(Debug, Clone, Copy, PartialEq, Eq, Structural, Hash)]
pub enum Turn {
    Black,
    White,
}

/// The stone color that `turn` places.
pub open spec fn cell_of(turn: Turn) -> Cell {
    match turn {
        Turn::Black => Cell::Black,
        Turn::White => Cell::White,
    }
}

impl Turn {
    pub fn name(self) -> (r: &'static str)
        ensures
            r@ == match self {
                Turn::Black => "black"@,
                Turn::White => "white"@,
            },
    {
        match self {
            Turn::Black => "black",
            Turn::White => "white",
        }
    }

    pub fn symbol(self) -> (r: char)
        ensures
            r == match self {
                Turn::Black => 'X',
                Turn::White => 'O',
            },
    {
        match self {
            Turn::Black => 'X',
            Turn::White => 'O',
        }
    }

    /// The other player.
    pub open spec fn spec_next(self) -> Turn {
        match self {
            Turn::Black => Turn::White,
            Turn::White => Turn::Black,
        }
    }

    pub fn next(self) -> (r: Turn)
        ensures
            r == self.spec_next(),
    {
        match self {
            Turn::Black => Turn::White,
            Turn::White => Turn::Black,
        }
    }
}

/// How a finished game ended.
#[derive(Debug, Clone, Copy, PartialEq, Eq, Structural, Hash)]
pub enum GameResult {
    Draw,
    Win(Turn),
}

/// The player who is to move after `count` stones have been placed: Black
/// moves first and the turns alternate strictly.
pub open spec fn turn_at(count: int) -> Turn {
    if count % 2 == 0 {
        Turn::Black
    } else {
        Turn::White
    }
}

/// Whether the stone just placed at `index` wins: the longest run through it
/// must equal the configured threshold exactly, and be a run of at least two.
pub open spec fn is_winning_placement(
    cells: Seq<Cell>,
    n: int,
    index: int,
    c: Cell,
    threshold: int,
) -> bool {
    max_axis_run(cells, n, index, c) >= 2 && max_axis_run(cells, n, index, c) == threshold
}

/// The mathematical content of a [`Game`].
pub struct GameView {
    pub size: int,
    pub max_consecutive: int,
    pub turn: Turn,
    pub count: int,
    pub history: Seq<(Turn, BoardView)>,
    pub result: Option<GameResult>,
    pub board: BoardView,
}

/// One game in progress or finished: a board, the turn to move, and the
/// history of board snapshots, one per move plus the initial empty state.
#[derive(Debug)]
pub struct Game {
    board_size: usize,
    max_consecutive_stones: usize,
    turn: Turn,
    turn_count: usize,
    history: Vec<(Turn, Board)>,
    game_result: Option<GameResult>,
    board: Board,
}

impl View for Game {
    type V = GameView;

    closed spec fn view(&self) -> GameView {
        GameView {
            size: self.board_size as int,
            max_consecutive: self.max_consecutive_stones as int,
            turn: self.turn,
            count: self.turn_count as int,
            history: self.history@.map_values(|p: (Turn, Board)| (p.0, p.1@)),
            result: self.game_result,
            board: self.board@,
        }
    }
}

impl Game {
    /// The internal consistency of a game: the board matches the configured
    /// size, exactly `count` cells are occupied, the history holds one
    /// snapshot per move plus the initial state, each tagged with the player
    /// to move, the last snapshot is the current board, and a game without a
    /// result still has room to move.
    pub open spec fn wf(&self) -> bool {
        &&& 1 <= self@.size
        &&& self@.size * self@.size <= usize::MAX
        &&& self@.board.size == self@.size
        &&& self@.board.cells.len() == self@.size * self@.size
        &&& self@.max_consecutive >= 0
        &&& 0 <= self@.count <= self@.size * self@.size
        &&& self@.turn == turn_at(self@.count)
        &&& self@.history.len() == self@.count + 1
        &&& (forall|i: int|
            0 <= i < self@.history.len() ==> (#[trigger] self@.history[i]).1.size == self@.size
                && self@.history[i].1.cells.len() == self@.size * self@.size
                && self@.history[i].0 == turn_at(i))
        &&& self@.history[self@.count].1.cells == self@.board.cells
        &&& stone_count(self@.board.cells) == self@.count
        &&& (self@.result is None ==> self@.count < self@.size * self@.size)
    }

    pub fn new(board_size: usize, max_consecutive_stones: usize) -> (r: Game)
        requires
            1 <= board_size,
            board_size * board_size <= usize::MAX,
        ensures
            r.wf(),
            r@.size == board_size,
            r@.max_consecutive == max_consecutive_stones,
            r@.turn == Turn::Black,
            r@.count == 0,
            r@.result is None,
            r@.board.cells == Seq::new((board_size * board_size) as nat, |i: int| Cell::Empty),
            r@.history.len() == 1,
            r@.history[0].0 == Turn::Black,
            r@.history[0].1.cells == r@.board.cells,
            r@.history[0].1.size == board_size,
    {
        let initial = Board::new(board_size);
        let board = Board::new(board_size);
        let mut history: Vec<(Turn, Board)> = Vec::new();
        history.push((Turn::Black, initial));
        let r = Game {
            board_size,
            max_consecutive_stones,
            turn: Turn::Black,
            turn_count: 0,
            history,
            game_result: None,
            board,
        };
        proof {
            lemma_empty_board_stone_count(r@.board.cells);
            assert(r@.history =~~= seq![(Turn::Black, r@.board)]);
            assert(1 <= (board_size as int) * (board_size as int)) by (nonlinear_arith)
                requires
                    1 <= board_size as int,
            ;
        }
        r
    }

    pub fn board_size(&self) -> (r: usize)
        ensures
            r == self@.size,
    {
        self.board_size
    }

    pub fn max_consecutive_stones(&self) -> (r: usize)
        ensures
            r == self@.max_consecutive,
    {
        self.max_consecutive_stones
    }

    pub fn turn(&self) -> (r: Turn)
        ensures
            r == self@.turn,
    {
        self.turn
    }

    pub fn turn_count(&self) -> (r: usize)
        ensures
            r == self@.count,
    {
        self.turn_count
    }

    pub fn history(&self) -> (r: &Vec<(Turn, Board)>)
        ensures
            r@.map_values(|p: (Turn, Board)| (p.0, p.1@)) == self@.history,
    {
        &self.history
    }

    pub fn game_result(&self) -> (r: Option<GameResult>)
        ensures
            r == self@.result,
    {
        self.game_result
    }

    pub fn board(&self) -> (r: &Board)
        ensures
            r@ == self@.board,
    {
        &self.board
    }
}

/// What one successful `place_stone` reports: where the stone went, whose it
/// is, the board as it was before the move, the same-color run lengths
/// through the new stone, and the game's result if the move ended it.
#[derive(Debug)]
pub struct PlaceStoneResult {
    pub index: usize,
    pub stone: Cell,
    pub turn_was: Turn,
    pub board_was: Board,
    /// The run lengths of at least 2 through the placed stone, one entry per
    /// axis, sorted in descending order.
    pub consecutive_stones: Vec<usize>,
    pub game_result: Option<GameResult>,
}

/// Why a `place_stone` call was rejected; the game is left untouched.
#[derive(Debug, Clone, Copy, PartialEq, Eq, Structural, Hash)]
pub enum PlaceStoneError {
    InvalidIndex { index: usize, max_allowed_index: usize },
    StoneAlreadyPlaced { index: usize, stone: Cell },
}

/// An empty board holds no stones.
proof fn lemma_empty_board_stone_count(cells: Seq<Cell>)
    requires
        forall|i: int| 0 <= i < cells.len() ==> cells[i] == Cell::Empty,
    ensures
        stone_count(cells) == 0,
{
    lemma_illegal_empty(cells, cells.len() as int);
}

proof fn lemma_illegal_empty(cells: Seq<Cell>, n: int)
    requires
        0 <= n <= cells.len(),
        forall|i: int| 0 <= i < cells.len() ==> cells[i] == Cell::Empty,
    ensures
        illegal_upto(cells, n).len() == 0,
    decreases n,
{
    if n > 0 {
        lemma_illegal_empty(cells, n - 1);
    }
}

impl Game {
    /// Place a stone for the player to move. Rejects an out-of-range index
    /// and an occupied cell without changing anything; otherwise it colors
    /// the cell, detects a win or a draw, advances the turn, and records the
    /// new position in the history.
    pub fn place_stone(&mut self, index: usize) -> (r: Result<
        PlaceStoneResult,
        PlaceStoneError,
    >)
        requires
            old(self).wf(),
            old(self)@.result is None,
        ensures
            final(self)@.size == old(self)@.size,
            final(self)@.max_consecutive == old(self)@.max_consecutive,
            match r {
                Err(PlaceStoneError::InvalidIndex { index: i, max_allowed_index }) => {
                    &&& *final(self) == *old(self)
                    &&& i == index
                    &&& max_allowed_index == old(self)@.size * old(self)@.size
                    &&& index >= old(self)@.size * old(self)@.size
                },
                Err(PlaceStoneError::StoneAlreadyPlaced { index: i, stone }) => {
                    &&& *final(self) == *old(self)
                    &&& i == index
                    &&& index < old(self)@.size * old(self)@.size
                    &&& stone == old(self)@.board.cells[index as int]
                    &&& stone != Cell::Empty
                },
                Ok(res) => {
                    &&& index < old(self)@.size * old(self)@.size
                    &&& old(self)@.board.cells[index as int] == Cell::Empty
                    &&& final(self).wf()
                    &&& final(self)@.board.cells == old(self)@.board.cells.update(
                        index as int,
                        cell_of(old(self)@.turn),
                    )
                    &&& final(self)@.turn == old(self)@.turn.spec_next()
                    &&& final(self)@.count == old(self)@.count + 1
                    &&& final(self)@.history == old(self)@.history.push(
                        (final(self)@.turn, final(self)@.board),
                    )
                    &&& final(self)@.result == (if is_winning_placement(
                        final(self)@.board.cells,
                        old(self)@.size,
                        index as int,
                        cell_of(old(self)@.turn),
                        old(self)@.max_consecutive,
                    ) {
                        Some(GameResult::Win(old(self)@.turn))
                    } else if old(self)@.count + 1 == old(self)@.size * old(self)@.size {
                        Some(GameResult::Draw)
                    } else {
                        None
                    })
                    &&& res.index == index
                    &&& res.turn_was == old(self)@.turn
                    &&& res.stone == cell_of(old(self)@.turn)
                    &&& res.board_was@.size == old(self)@.size
                    &&& res.board_was@.cells == old(self)@.board.cells
                    &&& sorted_desc(res.consecutive_stones@)
                    &&& res.consecutive_stones@.map_values(|u: usize| u as int).to_multiset()
                        == run_lengths(
                        final(self)@.board.cells,
                        old(self)@.size,
                        index as int,
                        cell_of(old(self)@.turn),
                    )
                    &&& (res.consecutive_stones@.len() > 0 <==> max_axis_run(
                        final(self)@.board.cells,
                        old(self)@.size,
                        index as int,
                        cell_of(old(self)@.turn),
                    ) >= 2)
                    &&& (res.consecutive_stones@.len() > 0 ==> res.consecutive_stones@[0]
                        == max_axis_run(
                        final(self)@.board.cells,
                        old(self)@.size,
                        index as int,
                        cell_of(old(self)@.turn),
                    ))
                    &&& res.game_result == final(self)@.result
                },
            },
    {
        let max_allowed_index = self.board.board_size() * self.board.board_size();
        let cell = match self.board.get_cell(index) {
            Some(cell) => cell,
            None => {
                return Err(PlaceStoneError::InvalidIndex { index, max_allowed_index });
            },
        };

        if !cell.is_empty() {
            return Err(PlaceStoneError::StoneAlreadyPlaced { index, stone: cell });
        }

        let ghost pre = *self;
        let board_was = self.board.clone();
        let turn_was = self.turn;
        self.board.set_cell(index, Cell::from(self.turn));

        let consecutive_stones = self.board.count_consecutive_cells(index, turn_was);
        let is_winning_move = consecutive_stones.len() > 0 && consecutive_stones[0]
            == self.max_consecutive_stones;

        self.turn = turn_was.next();
        self.turn_count = self.turn_count + 1;

        if is_winning_move {
            self.game_result = Some(GameResult::Win(turn_was));
        } else if self.turn_count == max_allowed_index {
            self.game_result = Some(GameResult::Draw);
        }

        let snapshot = self.board.clone();
        self.history.push((self.turn, snapshot));

        proof {
            lemma_moves_after_update(
                pre@.board.cells,
                index as int,
                cell_of(turn_was),
                pre@.board.cells.len() as int,
            );
            assert(self@.history =~= pre@.history.push((self@.turn, self@.board)));
            assert forall|i: int| 0 <= i < self@.history.len() implies (
            #[trigger] self@.history[i]).1.size == self@.size && self@.history[i].1.cells.len()
                == self@.size * self@.size && self@.history[i].0 == turn_at(i) by {
                if i < pre@.history.len() {
                    assert(pre@.history[i].1.size == pre@.size);
                }
            }
            if self.game_result is None {
                lemma_moves_partition(self@.board.cells, self@.board.cells.len() as int);
            }
        }

        Ok(
            PlaceStoneResult {
                index,
                stone: Cell::from(turn_was),
                turn_was,
                board_was,
                consecutive_stones,
                game_result: self.game_result,
            },
        )
    }
}

impl From<Turn> for Cell {
    fn from(turn: Turn) -> (r: Cell) {
        match turn {
            Turn::Black => Cell::Black,
            Turn::White => Cell::White,
        }
    }
}

impl vstd::std_specs::convert::FromSpecImpl<Turn> for Cell {
    open spec fn obeys_from_spec() -> bool {
        true
    }

    open spec fn from_spec(turn: Turn) -> Cell {
        cell_of(turn)
    }
}

} // verus!
