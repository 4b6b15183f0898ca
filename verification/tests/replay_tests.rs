use gomoku::board::Cell;
use gomoku::game::{Game, GameResult, Turn};
use gomoku::replay::{
    compute_nonterminal_reward, generate_history_boards, sample_replay, Estimator, Opponent,
    RandomPlayer, ReplayStep,
};
use gomoku::replay_buffer::ReplayBuffer;
use gomoku::trainer::{
    decay_epsilon, evaluate, evaluate_many, is_terminal, td_frames, GomokuDDQNTrainer,
    TrainOptions, EVAL_GAMES,
};

fn tiny_step(action: usize) -> ReplayStep {
    ReplayStep {
        turn: Turn::Black,
        action,
        boards: Vec::new(),
        next_boards: None,
        game_result: None,
        reward: 0,
    }
}

#[test]
fn test_generate_history_boards_always_four_frames() {
    // a brand-new game yields 4 frames, all of them empty boards
    let game = Game::new(15, 5);
    for player in [Turn::Black, Turn::White] {
        let boards = generate_history_boards(player, &game);
        assert_eq!(boards.len(), 4);
        for (tag, board) in &boards {
            assert_eq!(*tag, player);
            assert!(board.cells().iter().all(|c| c.is_empty()));
        }
    }
}

#[test]
fn test_generate_history_boards_tracks_own_turns() {
    let mut game = Game::new(15, 5);
    game.place_stone(0).unwrap(); // Black
    game.place_stone(1).unwrap(); // White
    game.place_stone(2).unwrap(); // Black
    // Black's frames: padding, padding, the empty opening position, and the
    // position after White's reply; most recent last
    let boards = generate_history_boards(Turn::Black, &game);
    assert_eq!(boards.len(), 4);
    assert!(boards[0].1.cells().iter().all(|c| c.is_empty()));
    assert!(boards[1].1.cells().iter().all(|c| c.is_empty()));
    assert!(boards[2].1.cells().iter().all(|c| c.is_empty()));
    let latest = &boards[3].1;
    assert!(!latest.get_cell(0).unwrap().is_empty());
    assert!(!latest.get_cell(1).unwrap().is_empty());
    assert!(latest.get_cell(2).unwrap().is_empty());
}

#[test]
fn test_offensive_reward() {
    let mut game = Game::new(15, 5);
    game.place_stone(0).unwrap();
    game.place_stone(20).unwrap();
    game.place_stone(1).unwrap();
    game.place_stone(21).unwrap();
    let result = game.place_stone(2).unwrap(); // Black run of 3
    assert_eq!(result.consecutive_stones, vec![3]);
    assert_eq!(compute_nonterminal_reward(&result), 1);
}

#[test]
fn test_defensive_reward() {
    // White builds four in a row; Black blocks the fifth cell. The block
    // itself forms no run, but stopping a would-be run of 5 pays 1.
    let mut game = Game::new(15, 5);
    let black = [200usize, 202, 204, 206];
    let white = [30usize, 31, 32, 33];
    for k in 0..4 {
        game.place_stone(black[k]).unwrap();
        game.place_stone(white[k]).unwrap();
    }
    let result = game.place_stone(34).unwrap(); // Black blocks
    assert!(result.consecutive_stones.is_empty());
    assert_eq!(result.game_result, None);
    assert_eq!(compute_nonterminal_reward(&result), 1);
}

#[test]
fn test_neutral_reward() {
    let mut game = Game::new(15, 5);
    let result = game.place_stone(112).unwrap(); // lone stone, no threat
    assert_eq!(compute_nonterminal_reward(&result), 0);
}

#[test]
fn test_replay_buffer_eviction() {
    // after capacity + 1 insertions the buffer holds exactly capacity items
    // and the very first item is gone
    let mut buffer = ReplayBuffer::new(5);
    assert!(buffer.is_empty());
    for action in 0..6 {
        buffer.push(tiny_step(action));
    }
    assert_eq!(buffer.len(), 5);
    let contents = buffer.sample(100);
    assert_eq!(contents.len(), 5);
    let actions: Vec<usize> = contents.iter().map(|s| s.action).collect();
    assert_eq!(actions, vec![1, 2, 3, 4, 5]);
    assert!(!actions.contains(&0));
}

#[test]
fn test_replay_buffer_sampling_without_replacement() {
    let mut buffer = ReplayBuffer::new(10);
    for action in 0..10 {
        buffer.push(tiny_step(action));
    }
    let batch = buffer.sample(4);
    assert_eq!(batch.len(), 4);
    let mut actions: Vec<usize> = batch.iter().map(|s| s.action).collect();
    actions.sort();
    actions.dedup();
    assert_eq!(actions.len(), 4, "sampling must not repeat an entry");
    assert!(actions.iter().all(|a| *a < 10));
}

#[test]
fn test_sample_replay_step_shape() {
    let mut agent = RandomPlayer::new();
    let mut game = Game::new(15, 5);
    let mut agent_turn = Turn::Black;
    for _ in 0..40 {
        let was_open = game.game_result().is_none();
        let learner_to_move = game.turn() == agent_turn;
        let pre_cells: Vec<Cell> = game.board().cells().to_vec();
        let (g, t, step) = sample_replay(game, agent_turn, &mut agent, Opponent::Random, 500_000);
        assert_eq!(step.turn, t);
        assert_eq!(step.boards.len(), 4);
        assert_eq!(step.game_result, g.game_result());
        // the learner's stone stands at the recorded action
        assert_eq!(g.board().get_cell(step.action), Some(Cell::from(t)));
        // on a continued game the action was one of its legal moves
        if was_open && learner_to_move {
            assert_eq!(pre_cells[step.action], Cell::Empty);
        }
        // the snapshots around the learner's move bracket the action
        let moved_at = if g.turn() == t.next() {
            g.turn_count() - 1
        } else {
            g.turn_count() - 2
        };
        let history = g.history();
        assert_eq!(history[moved_at].1.get_cell(step.action), Some(Cell::Empty));
        assert_eq!(
            history[moved_at + 1].1.get_cell(step.action),
            Some(Cell::from(t))
        );
        match step.game_result {
            Some(result) => {
                assert!(step.next_boards.is_none());
                assert!(step.reward == 100 || step.reward == -100);
                if let GameResult::Win(winner) = result {
                    assert_eq!(step.reward == 100, winner == t);
                }
            }
            None => {
                assert_eq!(step.next_boards.as_ref().unwrap().len(), 4);
                assert!(step.reward == 0 || step.reward == 1);
            }
        }
        let cloned = step.clone();
        assert_eq!(cloned.action, step.action);
        assert_eq!(cloned.reward, step.reward);
        game = g;
        agent_turn = t;
    }
}

#[test]
fn test_sample_replay_resets_a_finished_game() {
    // Black wins quickly; the next call starts over on a fresh game
    let mut game = Game::new(15, 5);
    let black = [0usize, 1, 2, 3, 4];
    let white = [15usize, 16, 17, 18];
    for k in 0..4 {
        game.place_stone(black[k]).unwrap();
        game.place_stone(white[k]).unwrap();
    }
    game.place_stone(black[4]).unwrap();
    assert!(game.game_result().is_some());

    let mut agent = RandomPlayer::new();
    let (g, t, step) = sample_replay(game, Turn::Black, &mut agent, Opponent::Random, 0);
    // the finished game was discarded: at most a pre-move, the learner's
    // move and a reply stand on the returned board
    assert!(1 <= g.turn_count() && g.turn_count() <= 3);
    assert_eq!(g.board_size(), 15);
    assert_eq!(g.max_consecutive_stones(), 5);
    assert_eq!(g.board().get_cell(step.action), Some(Cell::from(t)));
}

#[test]
fn test_td_helpers() {
    let step = tiny_step(3);
    assert!(!is_terminal(&step));
    assert_eq!(td_frames(&step).len(), 0);
    let mut terminal = tiny_step(4);
    terminal.game_result = Some(GameResult::Draw);
    assert!(is_terminal(&terminal));
}

#[test]
fn test_decay_epsilon_schedule() {
    assert_eq!(decay_epsilon(500_000, 990_000, 10_000), 495_000);
    assert_eq!(decay_epsilon(10_000, 990_000, 10_000), 10_000); // clamped
    assert_eq!(decay_epsilon(1_000_000, 1_000_000, 0), 1_000_000);
    assert_eq!(decay_epsilon(0, 990_000, 0), 0);
}

#[test]
fn test_evaluate_finishes_the_game() {
    let mut agent = RandomPlayer::new();
    let (_agent_turn, game, result) = evaluate(&mut agent);
    assert_eq!(game.game_result(), Some(result));
    assert_eq!(game.board_size(), 15);
    assert_eq!(game.max_consecutive_stones(), 5);
}

#[test]
fn test_evaluate_many_tallies_every_game() {
    let mut agent = RandomPlayer::new();
    let (wins, losses, draws) = evaluate_many(&mut agent, 7);
    assert_eq!(wins + losses + draws, 7);
}

#[test]
fn test_train_epoch_tallies() {
    let mut agent = RandomPlayer::new();
    let mut target = RandomPlayer::new();
    let mut trainer = GomokuDDQNTrainer::new();
    let options = TrainOptions {
        save_path: None,
        replay_buffer_size: 64,
        batch_size: 8,
        iterations: 12,
        training_steps: 3,
        ..TrainOptions::default()
    };
    let (evals, failed_saves) = trainer.train(&mut agent, &mut target, 2, &options);
    assert_eq!(evals.len(), 2);
    assert_eq!(failed_saves, 0, "no save path, so no save can fail");
    for (w, l, d) in evals {
        assert_eq!(w + l + d, EVAL_GAMES);
    }
}

#[test]
fn test_train_reports_checkpoint_outcomes() {
    // the baseline's checkpoints always succeed, and the tally says so
    let mut agent = RandomPlayer::new();
    let mut target = RandomPlayer::new();
    let mut trainer = GomokuDDQNTrainer::new();
    let options = TrainOptions {
        save_path: Some("unused".to_string()),
        replay_buffer_size: 16,
        batch_size: 4,
        iterations: 4,
        training_steps: 1,
        ..TrainOptions::default()
    };
    let (evals, failed_saves) = trainer.train(&mut agent, &mut target, 1, &options);
    assert_eq!(evals.len(), 1);
    assert_eq!(failed_saves, 0);
}

#[test]
fn test_sync_target_on_baseline() {
    // a full blend and a zero blend both leave the baseline able to play
    let mut online = RandomPlayer::new();
    let mut target = RandomPlayer::new();
    target.sync_target(&online, 1_000_000);
    target.sync_target(&online, 0);
    let mut game = Game::new(15, 5);
    game.place_stone(7).unwrap();
    let mv = target.next_move(&game);
    assert!(game.board().get_cell(mv).unwrap().is_empty());
}

#[test]
fn test_default_options() {
    let options = TrainOptions::default();
    assert_eq!(options.replay_buffer_size, 10000);
    assert_eq!(options.batch_size, 32);
    assert_eq!(options.iterations, 100);
    assert_eq!(options.training_steps, 10);
    assert_eq!(options.epsilon_ppm, 500_000);
    assert_eq!(options.epsilon_decay_ppm, 990_000);
    assert_eq!(options.epsilon_min_ppm, 10_000);
    assert_eq!(options.gamma_ppm, 900_000);
    assert_eq!(options.learning_rate_ppm, 100);
    assert_eq!(options.max_grad_norm_ppm, 1_000_000);
    assert_eq!(options.tau_ppm, 1_000);
    assert!(options.save_path.is_none());
}

#[test]
fn test_estimator_contract_of_random_player() {
    let mut player = RandomPlayer::new();
    let mut game = Game::new(15, 5);
    game.place_stone(0).unwrap();
    for _ in 0..50 {
        let mv = player.next_move(&game);
        assert!(mv < 225);
        assert!(game.board().get_cell(mv).unwrap().is_empty());
    }
    assert!(player.save_checkpoint("unused"));
}
