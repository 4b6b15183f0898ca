//! The training orchestrator: epochs of environment interaction filling the
//! replay buffer, batched training steps with soft target synchronization,
//! periodic checkpointing, and evaluation against the uniform-random
//! baseline.

use vstd::prelude::*;

verus! {

use crate::board::Board;
use crate::game::{Game, GameResult, Turn};
use crate::replay::{Estimator, Opponent, RandomPlayer, ReplayStep, sample_replay};
use crate::replay_buffer::ReplayBuffer;
use crate::rng::rand_ratio;
use vstd::pervasive::unreached;

/// Training configuration. Rates are in parts per million, so that the
/// schedule is exact integer arithmetic: 1_000_000 stands for 1.0.
///
/// The discount factor, learning rate and gradient-norm cap configure the
/// estimator's own gradient step. `Estimator::train_step` takes only the
/// batch, so an estimator is built with these values out of band; the
/// orchestrator itself consumes the buffer, schedule and blend settings.
#[derive(Debug)]
pub struct TrainOptions {
    /// Where to persist the online estimator after each epoch; no
    /// checkpointing when absent.
    pub save_path: Option<String>,
    pub replay_buffer_size: usize,
    pub batch_size: usize,
    /// Environment interactions per epoch.
    pub iterations: usize,
    /// Gradient steps per epoch.
    pub training_steps: usize,
    /// Initial exploration rate.
    pub epsilon_ppm: u32,
    /// Multiplicative decay applied to the exploration rate per interaction.
    pub epsilon_decay_ppm: u32,
    /// Floor the exploration rate never falls below.
    pub epsilon_min_ppm: u32,
    /// Discount factor for the TD target.
    pub gamma_ppm: u32,
    pub learning_rate_ppm: u32,
    pub max_grad_norm_ppm: u32,
    /// Soft target-update rate.
    pub tau_ppm: u32,
}

impl TrainOptions {
    pub open spec fn wf(&self) -> bool {
        &&& 1 <= self.replay_buffer_size
        &&& self.epsilon_ppm <= 1_000_000
        &&& self.epsilon_decay_ppm <= 1_000_000
        &&& self.epsilon_min_ppm <= 1_000_000
    }
}

impl Default for TrainOptions {
    /// The documented defaults, used whenever configuration is missing or
    /// malformed.
    fn default() -> (r: TrainOptions)
        ensures
            r.wf(),
            r.save_path is None,
            r.replay_buffer_size == 10000,
            r.batch_size == 32,
            r.iterations == 100,
            r.training_steps == 10,
            r.epsilon_ppm == 500_000,
            r.epsilon_decay_ppm == 990_000,
            r.epsilon_min_ppm == 10_000,
            r.gamma_ppm == 900_000,
            r.learning_rate_ppm == 100,
            r.max_grad_norm_ppm == 1_000_000,
            r.tau_ppm == 1_000,
    {
        TrainOptions {
            save_path: None,
            replay_buffer_size: 10000,
            batch_size: 32,
            iterations: 100,
            training_steps: 10,
            epsilon_ppm: 500_000,
            epsilon_decay_ppm: 990_000,
            epsilon_min_ppm: 10_000,
            gamma_ppm: 900_000,
            learning_rate_ppm: 100,
            max_grad_norm_ppm: 1_000_000,
            tau_ppm: 1_000,
        }
    }
}

/// One step of the exploration schedule: decay multiplicatively, then clamp
/// to the floor.
pub fn decay_epsilon(epsilon_ppm: u32, decay_ppm: u32, min_ppm: u32) -> (r: u32)
    requires
        epsilon_ppm <= 1_000_000,
        decay_ppm <= 1_000_000,
    ensures
        r == vstd::math::max(
            min_ppm as int,
            (epsilon_ppm as int) * (decay_ppm as int) / 1_000_000,
        ),
        min_ppm <= 1_000_000 ==> r <= 1_000_000,
    {
    proof {
        assert((epsilon_ppm as int) * (decay_ppm as int) <= 1_000_000_000_000) by (nonlinear_arith)
            requires
                epsilon_ppm <= 1_000_000,
                decay_ppm <= 1_000_000,
        ;
    }
    let product = (epsilon_ppm as u64) * (decay_ppm as u64);
    proof {
        vstd::arithmetic::div_mod::lemma_div_is_ordered(
            product as int,
            1_000_000_000_000,
            1_000_000,
        );
    }
    let decayed = (product / 1_000_000) as u32;
    if decayed < min_ppm {
        min_ppm
    } else {
        decayed
    }
}

/// The frames the TD target is computed from: the post-reply history, or
/// the pre-move history as a stand-in for terminal transitions, whose
/// contribution the done flag masks out.
pub fn td_frames(step: &ReplayStep) -> (r: &Vec<(Turn, Board)>)
    ensures
        r@.map_values(|p: (Turn, Board)| (p.0, p.1@)) == (match step@.next_boards {
            Some(next) => next,
            None => step@.boards,
        }),
{
    match &step.next_boards {
        Some(next) => next,
        None => &step.boards,
    }
}

/// The done flag that masks the future value out of terminal transitions.
pub fn is_terminal(step: &ReplayStep) -> (r: bool)
    ensures
        r == (step@.game_result is Some),
{
    step.game_result.is_some()
}

/// Play one complete evaluation game against the uniform-random baseline,
/// with no exploration and no learning: the agent's color, the finished
/// game, and how it ended. The estimator is only queried; its parameters
/// come back unchanged.
pub fn evaluate<E: Estimator>(agent: &mut E) -> (r: (Turn, Game, GameResult))
    ensures
        r.1.wf(),
        r.1@.size == 15,
        r.1@.max_consecutive == 5,
        r.1@.result == Some(r.2),
        final(agent).params() == old(agent).params(),
{
    let mut game = Game::new(15, 5);
    let agent_turn = if rand_ratio(1, 2) {
        Turn::Black
    } else {
        Turn::White
    };

    while game.game_result().is_none()
        invariant
            game.wf(),
            game@.size == 15,
            game@.max_consecutive == 5,
            agent.params() == old(agent).params(),
        decreases 225 - game@.count,
    {
        let action = if game.turn() == agent_turn {
            agent.next_move(&game)
        } else {
            let mut baseline = RandomPlayer::new();
            baseline.next_move(&game)
        };

        let result = match game.place_stone(action) {
            Ok(result) => result,
            Err(_) => unreached(),
        };

        if let Some(game_result) = result.game_result {
            return (agent_turn, game, game_result);
        }
    }
    match game.game_result() {
        Some(game_result) => (agent_turn, game, game_result),
        None => unreached(),
    }
}

/// Play `n` evaluation games and tally them from the agent's side; no
/// learning happens, so the parameters come back unchanged.
pub fn evaluate_many<E: Estimator>(agent: &mut E, n: usize) -> (r: (usize, usize, usize))
    ensures
        r.0 + r.1 + r.2 == n,
        final(agent).params() == old(agent).params(),
{
    let mut agent_wins: usize = 0;
    let mut opponent_wins: usize = 0;
    let mut draws: usize = 0;
    let mut played: usize = 0;
    while played < n
        invariant
            played <= n,
            agent_wins + opponent_wins + draws == played,
            agent.params() == old(agent).params(),
        decreases n - played,
    {
        let (agent_turn, _game, game_result) = evaluate(agent);
        match game_result {
            GameResult::Win(winner) => {
                if winner == agent_turn {
                    agent_wins = agent_wins + 1;
                } else {
                    opponent_wins = opponent_wins + 1;
                }
            },
            GameResult::Draw => {
                draws = draws + 1;
            },
        }
        played = played + 1;
    }
    (agent_wins, opponent_wins, draws)
}

/// The double-network training driver.
#[derive(Debug)]
pub struct GomokuDDQNTrainer {}

/// Evaluation games played after each epoch.
pub const EVAL_GAMES: usize = 10;

impl GomokuDDQNTrainer {
    pub fn new() -> (r: GomokuDDQNTrainer) {
        GomokuDDQNTrainer {}
    }

    /// Run `epoches` training epochs with two independently owned
    /// estimators, never aliased: the online one takes the gradient steps,
    /// the target one is hard-copied from it at the start and soft-blended
    /// toward it after every step. Each epoch fills the replay buffer by
    /// self-play against the uniform-random opponent under an
    /// epsilon-greedy, decaying exploration schedule, takes batched
    /// gradient steps, checkpoints when configured, and evaluates. Returns
    /// the per-epoch (wins, losses, draws) tallies and how many checkpoint
    /// saves failed; a failed save never stops training.
    pub fn train<E: Estimator>(
        &mut self,
        agent: &mut E,
        target: &mut E,
        epoches: usize,
        options: &TrainOptions,
    ) -> (r: (Vec<(usize, usize, usize)>, usize))
        requires
            options.wf(),
        ensures
            r.0@.len() == epoches,
            forall|e: int|
                0 <= e < r.0@.len() ==> (#[trigger] r.0@[e]).0 + r.0@[e].1 + r.0@[e].2
                    == EVAL_GAMES,
            r.1 <= epoches,
            options.save_path is None ==> r.1 == 0,
    {
        // the target starts as an exact copy of the online parameters
        target.sync_target(&*agent, 1_000_000);

        let mut game = Game::new(15, 5);
        let mut agent_turn = if rand_ratio(1, 2) {
            Turn::Black
        } else {
            Turn::White
        };
        let mut epsilon = options.epsilon_ppm;
        let mut replay_buffer = ReplayBuffer::new(options.replay_buffer_size);
        let mut evals: Vec<(usize, usize, usize)> = Vec::new();
        let mut failed_saves: usize = 0;

        let mut epoch: usize = 0;
        while epoch < epoches
            invariant
                epoch <= epoches,
                failed_saves <= epoch,
                options.save_path is None ==> failed_saves == 0,
                options.wf(),
                game.wf(),
                game@.size == 15,
                game@.max_consecutive == 5,
                game@.result is Some || game@.turn == agent_turn || game@.count == 0,
                epsilon <= 1_000_000,
                replay_buffer.wf(),
                evals@.len() == epoch,
                forall|e: int|
                    0 <= e < evals@.len() ==> (#[trigger] evals@[e]).0 + evals@[e].1 + evals@[e].2
                        == EVAL_GAMES,
            decreases epoches - epoch,
        {
            // environment phase: gather transitions
            let mut iteration: usize = 0;
            while iteration < options.iterations
                invariant
                    iteration <= options.iterations,
                    options.wf(),
                    game.wf(),
                    game@.size == 15,
                    game@.max_consecutive == 5,
                    game@.result is Some || game@.turn == agent_turn || game@.count == 0,
                    epsilon <= 1_000_000,
                    replay_buffer.wf(),
                decreases options.iterations - iteration,
            {
                let (new_game, new_agent_turn, replay_step) = sample_replay(
                    game,
                    agent_turn,
                    agent,
                    Opponent::Random,
                    epsilon,
                );
                game = new_game;
                agent_turn = new_agent_turn;

                // record the step only when its turn matches the learner
                // bookkeeping
                if replay_step.turn == agent_turn {
                    replay_buffer.push(replay_step);
                    epsilon = decay_epsilon(
                        epsilon,
                        options.epsilon_decay_ppm,
                        options.epsilon_min_ppm,
                    );
                }
                iteration = iteration + 1;
            }

            // training phase: batched gradient steps with soft target sync
            let mut step: usize = 0;
            while step < options.training_steps
                invariant
                    step <= options.training_steps,
                    replay_buffer.wf(),
                decreases options.training_steps - step,
            {
                let batch = replay_buffer.sample(options.batch_size);
                agent.train_step(&batch);
                target.sync_target(&*agent, options.tau_ppm);
                step = step + 1;
            }

            // checkpoint; a failure is counted and reported, never fatal
            if let Some(path) = &options.save_path {
                if !agent.save_checkpoint(path.as_str()) {
                    failed_saves = failed_saves + 1;
                }
            }

            // evaluation against the uniform-random baseline
            let tally = evaluate_many(agent, EVAL_GAMES);
            evals.push(tally);
            epoch = epoch + 1;
        }
        (evals, failed_saves)
    }
}

} // verus!
