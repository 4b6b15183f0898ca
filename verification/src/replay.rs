//! Replay generation: one learner decision per call, with the surrounding
//! opponent moves, temporal history framing, and reward shaping.

use vstd::prelude::*;

verus! {

use crate::board::{
    Board,
    BoardView,
    Cell,
    legal_upto,
    lemma_legal_upto_membership,
    lemma_moves_partition,
    max_axis_run,
    sorted_desc,
};
use crate::board::{lemma_lone_stone_max_run, lemma_no_stones_all_empty};
use crate::game::{Game, GameResult, PlaceStoneResult, Turn, cell_of};
use crate::rng::{rand_below, rand_ratio};
use vstd::pervasive::unreached;

/// The mathematical content of a [`ReplayStep`].
pub struct ReplayStepView {
    pub turn: Turn,
    pub action: int,
    pub boards: Seq<(Turn, BoardView)>,
    pub next_boards: Option<Seq<(Turn, BoardView)>>,
    pub game_result: Option<GameResult>,
    pub reward: int,
}

/// One recorded transition: the learner's turn identity, the action it took,
/// the 4-frame history it acted on, the 4-frame history after the opponent's
/// reply (absent exactly when the transition is terminal), the terminal
/// result if any, and the shaped reward.
#[derive(Debug)]
pub struct ReplayStep {
    pub turn: Turn,
    pub action: usize,
    pub boards: Vec<(Turn, Board)>,
    pub next_boards: Option<Vec<(Turn, Board)>>,
    pub game_result: Option<GameResult>,
    pub reward: i32,
}

impl View for ReplayStep {
    type V = ReplayStepView;

    open spec fn view(&self) -> ReplayStepView {
        ReplayStepView {
            turn: self.turn,
            action: self.action as int,
            boards: self.boards@.map_values(|p: (Turn, Board)| (p.0, p.1@)),
            next_boards: match self.next_boards {
                Some(v) => Some(v@.map_values(|p: (Turn, Board)| (p.0, p.1@))),
                None => None,
            },
            game_result: self.game_result,
            reward: self.reward as int,
        }
    }
}

/// Copy a list of tagged board snapshots.
fn clone_frames(frames: &Vec<(Turn, Board)>) -> (r: Vec<(Turn, Board)>)
    ensures
        r@.map_values(|p: (Turn, Board)| (p.0, p.1@)) == frames@.map_values(
            |p: (Turn, Board)| (p.0, p.1@),
        ),
{
    let mut r: Vec<(Turn, Board)> = Vec::new();
    let mut i: usize = 0;
    let len = frames.len();
    while i < len
        invariant
            i <= len,
            len == frames@.len(),
            r@.len() == i,
            forall|k: int|
                0 <= k < i ==> (#[trigger] r@[k]).0 == frames@[k].0 && r@[k].1@ == frames@[k].1@,
        decreases len - i,
    {
        let p = &frames[i];
        r.push((p.0, p.1.clone()));
        i = i + 1;
    }
    proof {
        assert(r@.map_values(|p: (Turn, Board)| (p.0, p.1@)) =~~= frames@.map_values(
            |p: (Turn, Board)| (p.0, p.1@),
        ));
    }
    r
}

impl Clone for ReplayStep {
    fn clone(&self) -> (r: Self)
        ensures
            r@ == self@,
    {
        let r = ReplayStep {
            turn: self.turn,
            action: self.action,
            boards: clone_frames(&self.boards),
            next_boards: match &self.next_boards {
                Some(v) => Some(clone_frames(v)),
                None => None,
            },
            game_result: self.game_result,
            reward: self.reward,
        };
        proof {
            assert(r@.boards =~~= self@.boards);
            if self.next_boards is Some {
                assert(r@.next_boards.unwrap() =~~= self@.next_boards.unwrap());
            }
        }
        r
    }
}

/// Which policy plays the learner's opponent.
#[derive(Debug, Clone, Copy, PartialEq, Eq, Structural, Hash)]
pub enum Opponent {
    Random,
    SelfPlay,
}

/// The value-estimator capability the training loop consumes. The library
/// provides [`RandomPlayer`] as the uniform-random baseline; a trained
/// function approximator implements this outside the library.
pub trait Estimator {
    /// Abstract view of the estimator's parameters: the value a soft target
    /// update blends. An estimator without learned parameters may view them
    /// as an empty sequence.
    spec fn params(&self) -> Seq<int>;

    /// Choose a move for the player whose turn it is. Returning a move
    /// outside the legal set is a contract violation, not a recoverable
    /// game error. A move query evaluates the position; it never learns:
    /// only `train_step` and `sync_target` may change the parameters.
    fn next_move(&mut self, game: &Game) -> (r: usize)
        requires
            game.wf(),
            game@.result is None,
        ensures
            r < game@.size * game@.size,
            game@.board.cells[r as int] == Cell::Empty,
            final(self).params() == old(self).params(),
    ;

    /// One gradient step on a batch of transitions.
    fn train_step(&mut self, batch: &Vec<ReplayStep>);

    /// In-place Polyak blend of this estimator's parameters toward
    /// `source`'s by `tau_ppm` parts per million. A blend of 1.0 makes the
    /// parameters exactly the source's; a blend of 0.0 leaves them
    /// unchanged.
    fn sync_target(&mut self, source: &Self, tau_ppm: u32)
        ensures
            tau_ppm == 1_000_000 ==> final(self).params() == source.params(),
            tau_ppm == 0 ==> final(self).params() == old(self).params(),
    ;

    /// Persist a checkpoint at `path`; `false` reports a failure, which
    /// callers treat as non-fatal.
    fn save_checkpoint(&mut self, path: &str) -> bool;
}

/// The uniform-random baseline player.
#[derive(Debug)]
pub struct RandomPlayer {}

impl RandomPlayer {
    pub fn new() -> (r: RandomPlayer) {
        RandomPlayer {}
    }
}

/// A game that is still in progress has at least one legal move.
proof fn lemma_open_game_has_legal_moves(game: &Game)
    requires
        game.wf(),
        game@.result is None,
    ensures
        legal_upto(game@.board.cells, game@.board.cells.len() as int).len() > 0,
{
    lemma_moves_partition(game@.board.cells, game@.board.cells.len() as int);
}

impl Estimator for RandomPlayer {
    /// The baseline learns nothing: it has no parameters.
    open spec fn params(&self) -> Seq<int> {
        Seq::empty()
    }

    fn next_move(&mut self, game: &Game) -> (r: usize) {
        proof {
            lemma_open_game_has_legal_moves(game);
        }
        let legal_moves = game.board().legal_moves();
        let k = rand_below(legal_moves.len());
        let mv = legal_moves[k];
        proof {
            assert(legal_upto(game@.board.cells, game@.board.cells.len() as int).contains(mv));
            lemma_legal_upto_membership(
                game@.board.cells,
                game@.board.cells.len() as int,
                mv,
            );
        }
        mv
    }

    fn train_step(&mut self, batch: &Vec<ReplayStep>) {
    }

    fn sync_target(&mut self, source: &Self, tau_ppm: u32) {
    }

    fn save_checkpoint(&mut self, path: &str) -> bool {
        true
    }
}

/// An empty board of side length `size`, as a view.
pub open spec fn empty_board_view(size: int) -> BoardView {
    BoardView { size, cells: Seq::new((size * size) as nat, |i: int| Cell::Empty) }
}

/// The history snapshots from position `i` on whose recorded mover is
/// `player`, in chronological order.
pub open spec fn frames_matching_from(
    h: Seq<(Turn, BoardView)>,
    player: Turn,
    i: int,
) -> Seq<(Turn, BoardView)>
    decreases h.len() - i
        when 0 <= i <= h.len()
{
    if i >= h.len() {
        Seq::empty()
    } else {
        let rest = frames_matching_from(h, player, i + 1);
        if h[i].0 == player {
            seq![h[i]] + rest
        } else {
            rest
        }
    }
}

/// What `generate_history_boards` yields: the up-to-4 most recent snapshots
/// recorded for `player`, most recent last, left-padded with empty boards to
/// exactly 4 frames.
pub open spec fn spec_history_frames(
    player: Turn,
    h: Seq<(Turn, BoardView)>,
    size: int,
) -> Seq<(Turn, BoardView)> {
    let m = frames_matching_from(h, player, 0);
    let tail = if m.len() >= 4 {
        m.skip(m.len() - 4)
    } else {
        m
    };
    Seq::new((4 - tail.len()) as nat, |i: int| (player, empty_board_view(size))) + tail
}

/// The matching frames of a suffix are a suffix of all matching frames.
proof fn lemma_frames_split(h: Seq<(Turn, BoardView)>, player: Turn, i: int)
    requires
        0 <= i <= h.len(),
    ensures
        frames_matching_from(h, player, i).len() <= frames_matching_from(h, player, 0).len(),
        frames_matching_from(h, player, 0) == frames_matching_from(h, player, 0).take(
            frames_matching_from(h, player, 0).len() - frames_matching_from(h, player, i).len(),
        ) + frames_matching_from(h, player, i),
    decreases i,
{
    let whole = frames_matching_from(h, player, 0);
    if i == 0 {
        assert(whole =~= whole.take(0) + whole);
    } else {
        lemma_frames_split(h, player, i - 1);
        let fi = frames_matching_from(h, player, i);
        let fprev = frames_matching_from(h, player, i - 1);
        assert(whole =~= whole.take(whole.len() - fprev.len()) + fprev);
        if h[i - 1].0 == player {
            assert(fprev =~= seq![h[i - 1]] + fi);
        } else {
            assert(fprev =~= fi);
        }
        assert(whole =~= whole.take(whole.len() - fi.len()) + fi);
    }
}

/// Exactly 4 frames of `player`'s own past boards, most recent last,
/// left-padded with empty boards when the game is young.
pub fn generate_history_boards(player: Turn, game: &Game) -> (r: Vec<(Turn, Board)>)
    requires
        game.wf(),
    ensures
        r@.len() == 4,
        r@.map_values(|p: (Turn, Board)| (p.0, p.1@)) == spec_history_frames(
            player,
            game@.history,
            game@.size,
        ),
{
    let ghost h = game@.history;
    let ghost whole = frames_matching_from(h, player, 0);
    let hist = game.history();
    let mut rev_frames: Vec<(Turn, Board)> = Vec::new();
    let mut i: usize = hist.len();
    while i > 0 && rev_frames.len() < 4
        invariant
            game.wf(),
            h == game@.history,
            whole == frames_matching_from(h, player, 0),
            hist@.map_values(|p: (Turn, Board)| (p.0, p.1@)) == h,
            i <= hist@.len(),
            hist@.len() == h.len(),
            rev_frames@.len() == vstd::math::min(
                4,
                frames_matching_from(h, player, i as int).len() as int,
            ),
            forall|k: int|
                0 <= k < rev_frames@.len() ==> (#[trigger] rev_frames@[k]).0
                    == frames_matching_from(h, player, i as int)[frames_matching_from(
                    h,
                    player,
                    i as int,
                ).len() - 1 - k].0 && rev_frames@[k].1@ == frames_matching_from(
                    h,
                    player,
                    i as int,
                )[frames_matching_from(h, player, i as int).len() - 1 - k].1,
        decreases i,
    {
        i = i - 1;
        let p = &hist[i];
        let ghost fi = frames_matching_from(h, player, i as int);
        let ghost fnext = frames_matching_from(h, player, i as int + 1);
        proof {
            if h[i as int].0 == player {
                assert(fi =~= seq![h[i as int]] + fnext);
            } else {
                assert(fi =~= fnext);
            }
        }
        if p.0 == player {
            if rev_frames.len() < 4 {
                rev_frames.push((player, p.1.clone()));
                proof {
                    assert(h[i as int].0 == player);
                    assert(fnext.len() < 4);
                    assert forall|k: int| 0 <= k < rev_frames@.len() implies (
                    #[trigger] rev_frames@[k]).0 == fi[fi.len() - 1 - k].0 && rev_frames@[k].1@
                        == fi[fi.len() - 1 - k].1 by {
                        if k < rev_frames@.len() - 1 {
                            assert(fi[fi.len() - 1 - k] == fnext[fnext.len() - 1 - k]);
                        } else {
                            assert(fi[0] == h[i as int]);
                            assert(fi.len() - 1 - k == 0);
                        }
                    }
                }
            }
        }
    }
    let ghost m = rev_frames@.len() as int;
    let ghost fi_final = frames_matching_from(h, player, i as int);
    proof {
        lemma_frames_split(h, player, i as int);
        if i == 0 {
            assert(fi_final == whole);
        } else {
            assert(m == 4);
            assert(fi_final.len() >= 4);
        }
    }
    // Pad with empty boards, then append the collected frames oldest first.
    let n = game.board_size();
    let mut result: Vec<(Turn, Board)> = Vec::new();
    let pad = 4 - rev_frames.len();
    let mut j: usize = 0;
    while j < pad
        invariant
            j <= pad,
            pad == 4 - m,
            0 <= m <= 4,
            n == game@.size,
            game.wf(),
            result@.len() == j,
            forall|k: int|
                0 <= k < j ==> (#[trigger] result@[k]).0 == player && result@[k].1@
                    == empty_board_view(n as int),
        decreases pad - j,
    {
        result.push((player, Board::new(n)));
        j = j + 1;
    }
    let mut taken: usize = 0;
    while taken < rev_frames.len()
        invariant
            taken <= rev_frames@.len(),
            rev_frames@.len() == m,
            0 <= m <= 4,
            result@.len() == (4 - m) + taken,
            forall|k: int|
                0 <= k < 4 - m ==> (#[trigger] result@[k]).0 == player && result@[k].1@
                    == empty_board_view(n as int),
            n == game@.size,
            forall|k: int|
                4 - m <= k < result@.len() ==> (#[trigger] result@[k]).0 == rev_frames@[m - 1 - (k
                    - (4 - m))].0 && result@[k].1@ == rev_frames@[m - 1 - (k - (4 - m))].1@,
        decreases rev_frames@.len() - taken,
    {
        let ghost pre = result@;
        let p = &rev_frames[rev_frames.len() - 1 - taken];
        let t = p.0;
        let b = p.1.clone();
        result.push((t, b));
        proof {
            assert(result@ == pre.push((t, b)));
            assert(t == rev_frames@[m - 1 - taken].0);
            assert(b@ == rev_frames@[m - 1 - taken].1@);
            assert forall|k: int| 4 - m <= k < result@.len() implies (#[trigger] result@[k]).0
                == rev_frames@[m - 1 - (k - (4 - m))].0 && result@[k].1@ == rev_frames@[m - 1 - (k
                - (4 - m))].1@ by {
                if k < pre.len() {
                    assert(pre.push((t, b))[k] == pre[k]);
                    assert(result@[k] == pre[k]);
                } else {
                    assert(k == pre.len());
                    assert(result@[k] == (t, b));
                    assert(m - 1 - (k - (4 - m)) == m - 1 - taken);
                }
            }
        }
        taken = taken + 1;
    }
    proof {
        let tail = if whole.len() >= 4 {
            whole.skip(whole.len() - 4)
        } else {
            whole
        };
        assert(tail.len() == m) by {
            if i == 0 {
            } else {
                assert(fi_final.len() >= 4);
                assert(whole.len() >= 4);
            }
        }
        assert forall|k: int| 0 <= k < m implies tail[k].0 == (#[trigger] result@[4 - m + k]).0
            && tail[k].1 == result@[4 - m + k].1@ by {
            assert(result@[4 - m + k].0 == rev_frames@[m - 1 - k].0);
            assert(result@[4 - m + k].1@ == rev_frames@[m - 1 - k].1@);
            assert(rev_frames@[m - 1 - k].0 == fi_final[fi_final.len() - 1 - (m - 1 - k)].0);
            assert(rev_frames@[m - 1 - k].1@ == fi_final[fi_final.len() - 1 - (m - 1 - k)].1);
            assert(tail[k] == fi_final[fi_final.len() - m + k]);
        }
        assert(result@.map_values(|p: (Turn, Board)| (p.0, p.1@)) =~~= spec_history_frames(
            player,
            h,
            game@.size,
        ));
    }
    result
}

/// One move of the configured opponent policy: uniform random, or the same
/// estimator playing the other side.
fn opponent_move<E: Estimator>(opponent: Opponent, agent: &mut E, game: &Game) -> (r: usize)
    requires
        game.wf(),
        game@.result is None,
    ensures
        r < game@.size * game@.size,
        game@.board.cells[r as int] == Cell::Empty,
        final(agent).params() == old(agent).params(),
{
    match opponent {
        Opponent::Random => {
            let mut player = RandomPlayer::new();
            player.next_move(game)
        },
        Opponent::SelfPlay => agent.next_move(game),
    }
}

/// Every history framing has exactly 4 frames.
pub proof fn lemma_history_frames_len(player: Turn, h: Seq<(Turn, BoardView)>, size: int)
    ensures
        spec_history_frames(player, h, size).len() == 4,
{
}

/// For a brand-new game all 4 frames equal an empty board.
pub proof fn lemma_history_frames_new_game(player: Turn, size: int)
    ensures
        spec_history_frames(player, seq![(Turn::Black, empty_board_view(size))], size) == Seq::new(
            4,
            |i: int| (player, empty_board_view(size)),
        ),
{
    let h = seq![(Turn::Black, empty_board_view(size))];
    assert(frames_matching_from(h, player, 1) =~= Seq::<(Turn, BoardView)>::empty());
    if player == Turn::Black {
        assert(frames_matching_from(h, player, 0) =~= seq![(player, empty_board_view(size))]);
    } else {
        assert(frames_matching_from(h, player, 0) =~= Seq::<(Turn, BoardView)>::empty());
    }
    assert(spec_history_frames(player, h, size) =~= Seq::new(
        4,
        |i: int| (player, empty_board_view(size)),
    ));
}

/// Whether the run lengths through the learner's own move earn the
/// offensive bonus: a best run of 3 to 5.
pub open spec fn offensive_bonus(stones: Seq<usize>) -> bool {
    stones.len() > 0 && 3 <= stones[0] <= 5
}

/// Whether the move was defensively necessary: had the opponent placed at
/// the same cell of the pre-move board instead, it would have reached a run
/// of 4 to 5.
pub open spec fn defensive_bonus(board_was: BoardView, index: int, mover: Turn) -> bool {
    let opp = mover.spec_next();
    let vcells = board_was.cells.update(index, cell_of(opp));
    4 <= max_axis_run(vcells, board_was.size, index, cell_of(opp)) <= 5
}

/// The shaped reward of a move that ended nothing: 1 for an offensive run
/// of 3 to 5, else 1 for blocking an opponent run of 4 to 5, else 0. The
/// offensive bonus is checked first and at most one bonus applies. The
/// defensive probe colors a copy of the pre-move board; the real board is
/// never touched.
pub fn compute_nonterminal_reward(result: &PlaceStoneResult) -> (r: i32)
    requires
        result.board_was.wf(),
        (result.index as int) < result.board_was@.cells.len(),
    ensures
        r == if offensive_bonus(result.consecutive_stones@) {
            1int
        } else if defensive_bonus(result.board_was@, result.index as int, result.turn_was) {
            1int
        } else {
            0int
        },
{
    if result.consecutive_stones.len() > 0 {
        let n0 = result.consecutive_stones[0];
        if 3 <= n0 && n0 <= 5 {
            return 1;
        }
    }

    let opponent = result.turn_was.next();
    let mut virtual_board = result.board_was.clone();
    virtual_board.set_cell(result.index, Cell::from(opponent));
    let opponent_consecutive = virtual_board.count_consecutive_cells(result.index, opponent);
    if opponent_consecutive.len() > 0 {
        let n0 = opponent_consecutive[0];
        if 4 <= n0 && n0 <= 5 {
            return 1;
        }
    }
    0
}

/// Produce one replay step: reset a finished game, let the opponent move
/// when it is not the learner's turn, take one epsilon-greedy learner move,
/// let the opponent reply, and shape the reward. Terminal transitions carry
/// +100 when the learner's own move ended the game and -100 when the
/// opponent's reply did, and no next frames.
pub fn sample_replay<E: Estimator>(
    game: Game,
    agent_turn: Turn,
    agent: &mut E,
    opponent: Opponent,
    epsilon_ppm: u32,
) -> (r: (Game, Turn, ReplayStep))
    requires
        game.wf(),
        2 <= game@.size,
        epsilon_ppm <= 1_000_000,
        game@.result is Some || game@.turn == agent_turn || game@.count == 0,
    ensures
        r.0.wf(),
        r.0@.size == game@.size,
        r.0@.max_consecutive == game@.max_consecutive,
        game@.result is None ==> r.1 == agent_turn,
        r.2@.turn == r.1,
        r.2@.boards.len() == 4,
        r.2@.action < r.0@.size * r.0@.size,
        // the learner made its move this very call, at the recorded action:
        // the snapshot just before that move holds no stone there, and the
        // snapshot right after it holds the learner's
        ({
            let moved_at = if r.0@.turn == r.1.spec_next() {
                r.0@.count - 1
            } else {
                r.0@.count - 2
            };
            &&& 0 <= moved_at
            &&& r.0@.history[moved_at].1.cells[r.2@.action] == Cell::Empty
            &&& r.0@.history[moved_at + 1].1.cells[r.2@.action] == cell_of(r.1)
        }),
        // and so its stone still stands there on the returned board
        r.0@.board.cells[r.2@.action] == cell_of(r.1),
        // when the learner acts directly on the supplied game, the action is
        // one of that game's own legal moves
        game@.result is None && game@.turn == agent_turn ==> game@.board.cells[r.2@.action]
            == Cell::Empty,
        r.2@.game_result == r.0@.result,
        r.2@.game_result is Some <==> r.2@.next_boards is None,
        r.2@.next_boards matches Some(next) ==> next.len() == 4,
        // the post-reply frames are the returned game's own history framing
        r.2@.next_boards matches Some(next) ==> next == spec_history_frames(
            r.0@.turn,
            r.0@.history,
            r.0@.size,
        ),
        // a finished input is replaced by a fresh game: at most a pre-move,
        // the learner's move and a reply stand on what comes back
        game@.result is Some ==> 1 <= r.0@.count <= 3,
        // an input still in progress is continued, never discarded
        game@.result is None ==> r.0@.history.take(game@.history.len() as int) == game@.history
            && game@.count < r.0@.count <= game@.count + 3,
        // whose stone ended the game decides the terminal reward, win and
        // draw alike: +100 for the learner's own move, -100 for the reply
        r.2@.game_result is Some ==> r.2@.reward == (if r.0@.turn == r.1.spec_next() {
            100int
        } else {
            -100int
        }),
        r.2@.game_result is None ==> r.2@.reward == 0 || r.2@.reward == 1,
        r.2@.game_result matches Some(GameResult::Win(w)) ==> r.2@.reward == (if w == r.1 {
            100int
        } else {
            -100int
        }),
        r.0@.result is None ==> r.0@.turn == r.1,
        // when the learner acts directly on the supplied game, the recorded
        // frames are that game's framing, at most two stones are added, and
        // the shaped reward is exactly the bonus of the recorded move
        game@.result is None && game@.turn == agent_turn ==> r.2@.boards == spec_history_frames(
            agent_turn,
            game@.history,
            game@.size,
        ) && r.0@.count <= game@.count + 2,
        (game@.result is None && game@.turn == agent_turn && r.2@.game_result is None)
            ==> r.0@.count == game@.count + 2,
        // replay generation only queries the estimator; it never learns
        final(agent).params() == old(agent).params(),
        (game@.result is None && game@.turn == agent_turn && r.2@.game_result is None)
            ==> r.2@.reward == (if 3 <= max_axis_run(
            game@.board.cells.update(r.2@.action, cell_of(agent_turn)),
            game@.size,
            r.2@.action,
            cell_of(agent_turn),
        ) <= 5 {
            1int
        } else if defensive_bonus(game@.board, r.2@.action, agent_turn) {
            1int
        } else {
            0int
        }),
{
    let ghost input = game@;
    let mut game = game;
    let mut agent_turn = agent_turn;

    // start a new game if the current game is finished
    if game.game_result().is_some() {
        let new_game = Game::new(game.board_size(), game.max_consecutive_stones());
        let new_agent_turn = if rand_ratio(1, 2) {
            Turn::Black
        } else {
            Turn::White
        };
        game = new_game;
        agent_turn = new_agent_turn;
    }

    // let the opponent play if it's not the learner's turn; this can only
    // happen on a fresh game, where one stone cannot end anything
    if game.turn() != agent_turn {
        let ghost pre = game@;
        let action = opponent_move(opponent, agent, &game);
        let result = match game.place_stone(action) {
            Ok(result) => result,
            Err(_) => unreached(),
        };
        proof {
            lemma_no_stones_all_empty(pre.board.cells);
            lemma_lone_stone_max_run(
                pre.board.cells,
                pre.size,
                action as int,
                cell_of(pre.turn),
            );
            assert(4 <= pre.size * pre.size) by (nonlinear_arith)
                requires
                    2 <= pre.size,
            ;
        }
    }

    // let the learner play
    let ghost pre_learner = game@;
    let boards = generate_history_boards(agent_turn, &game);
    let agent_action = if 100 < epsilon_ppm && rand_ratio(epsilon_ppm, 1_000_000) {
        proof {
            lemma_open_game_has_legal_moves(&game);
        }
        let legal_moves = game.board().legal_moves();
        let mv = legal_moves[rand_below(legal_moves.len())];
        proof {
            assert(legal_upto(game@.board.cells, game@.board.cells.len() as int).contains(mv));
            lemma_legal_upto_membership(game@.board.cells, game@.board.cells.len() as int, mv);
        }
        mv
    } else {
        agent.next_move(&game)
    };
    let result_after_agent = match game.place_stone(agent_action) {
        Ok(result) => result,
        Err(_) => unreached(),
    };
    let ghost mid = game@;
    proof {
        let k = pre_learner.count;
        assert(game@.history[k] == pre_learner.history.push((game@.turn, game@.board))[k]);
        assert(game@.history[k] == pre_learner.history[k]);
        assert(pre_learner.history[k].1.cells == pre_learner.board.cells);
        assert(game@.history[k + 1].1.cells == game@.board.cells);
        if input.result is None {
            assert(game@.history.take(input.history.len() as int) =~= input.history);
        }
    }

    // return immediately if the game is finished (the learner's move ended it)
    if result_after_agent.game_result.is_some() {
        let step = ReplayStep {
            turn: result_after_agent.turn_was,
            action: agent_action,
            boards,
            next_boards: None,
            game_result: result_after_agent.game_result,
            reward: 100,
        };
        return (game, agent_turn, step);
    }

    // let the opponent play
    let opponent_action = opponent_move(opponent, agent, &game);
    let result_after_opponent = match game.place_stone(opponent_action) {
        Ok(result) => result,
        Err(_) => unreached(),
    };
    proof {
        // the reply fills an empty cell, so the learner's stone stays put
        assert(mid.board.cells[agent_action as int] == cell_of(agent_turn));
        assert(opponent_action != agent_action);
        assert(game@.board.cells[agent_action as int] == cell_of(agent_turn));
        // and the snapshots around the learner's move still stand
        let k = pre_learner.count;
        assert(game@.history[k] == mid.history.push((game@.turn, game@.board))[k]);
        assert(game@.history[k] == mid.history[k]);
        assert(mid.history[k] == pre_learner.history.push((mid.turn, mid.board))[k]);
        assert(mid.history[k] == pre_learner.history[k]);
        assert(pre_learner.history[k].1.cells == pre_learner.board.cells);
        assert(game@.history[k + 1] == mid.history.push((game@.turn, game@.board))[k + 1]);
        assert(game@.history[k + 1] == mid.history[k + 1]);
        assert(mid.history[k + 1].1.cells == mid.board.cells);
        if input.result is None {
            assert(game@.history.take(input.history.len() as int) =~= input.history);
        }
    }

    // return immediately if the game is finished (the opponent's reply ended
    // it); the step still records the learner's own earlier move
    if result_after_opponent.game_result.is_some() {
        let step = ReplayStep {
            turn: result_after_agent.turn_was,
            action: agent_action,
            boards,
            next_boards: None,
            game_result: result_after_opponent.game_result,
            reward: -100,
        };
        return (game, agent_turn, step);
    }

    // compute the shaped reward
    let reward_value = compute_nonterminal_reward(&result_after_agent);
    let next_boards = Some(generate_history_boards(game.turn(), &game));

    let step = ReplayStep {
        turn: result_after_agent.turn_was,
        action: agent_action,
        boards,
        next_boards,
        game_result: result_after_agent.game_result,
        reward: reward_value,
    };
    (game, agent_turn, step)
}

} // verus!
