use vstd::prelude::*;

use crate::board::{
    lemma_available_height, lemma_col_height_props, lemma_count_chips_bounds, lemma_count_full,
    lemma_filled_count, lemma_place_count, lemma_unfilled_has_choice, Board, Chip, Minmaxxing,
};
use crate::bot::{
    lemma_admissible_nonempty, next_rand, Action, AgentState, Bot, Choice, GameResult, Rand,
};

verus! {

/// One game's live state: the shared board and whose turn it is.
pub struct Game {
    pub board: Board,
    pub turn: Chip,
}

impl Game {
    /// A fresh game: empty board, red to move.
    pub fn new() -> (g: Self)
        ensures
            g.board == (Board { upper: 0u64, lower: 0u32 }),
            g.board.wf(),
            g.board.count_chips() == 0,
            g.turn == Chip::Red,
    {
        let board = Board::new();
        proof {
            crate::board::lemma_empty_board_count(board);
        }
        Game { turn: Chip::Red, board }
    }

    /// Passes the turn to the other player.
    pub fn next_turn(&mut self)
        ensures
            final(self).turn == old(self).turn.spec_opposite(),
            final(self).board == old(self).board,
    {
        self.turn = self.turn.opposite()
    }
}

/// Running totals of finished games.
pub struct GameStatistics {
    pub red_wins: usize,
    pub yellow_wins: usize,
    pub ties: usize,
}

impl GameStatistics {
    pub fn new() -> (s: Self)
        ensures
            s.red_wins == 0,
            s.yellow_wins == 0,
            s.ties == 0,
    {
        GameStatistics { red_wins: 0, yellow_wins: 0, ties: 0 }
    }
}

/// One self-play game carried out in full at the specification level: from
/// `board` with `turn` to move, the acting agent draws its column from its
/// own state and logs the ply, the chip drops, and the game ends on a
/// four-in-a-row or a full board.  The guard cases never arise in a real
/// game and bottom out in a tie.
#[verifier::rlimit(100)]
pub open spec fn play_fold(red: AgentState, yellow: AgentState, board: Board, turn: Chip) -> (
    AgentState,
    AgentState,
    Board,
    GameResult,
)
    decreases 42 - board.count_chips(),
    via play_fold_decreases
{
    if !board.wf() || board.filled_spec() || red.expl < 0 || yellow.expl < 0 {
        (red, yellow, board, GameResult::Tie)
    } else {
        let acting = if turn == Chip::Red {
            red
        } else {
            yellow
        };
        let (col, mem2) = Bot::choose_result(acting.mem, acting.rand, acting.expl, board);
        let ply = Choice { board, column: col as usize };
        let acting2 = AgentState {
            mem: mem2,
            log: acting.log.push(ply),
            rand: next_rand(acting.rand),
            expl: acting.expl,
        };
        let red2 = if turn == Chip::Red {
            acting2
        } else {
            red
        };
        let yellow2 = if turn == Chip::Red {
            yellow
        } else {
            acting2
        };
        let row = board.col_height(col);
        let board2 = board.place_spec(col, turn);
        if board2.winner_spec(col, row) is Some {
            (
                red2,
                yellow2,
                board2,
                if turn == Chip::Red {
                    GameResult::RedWon
                } else {
                    GameResult::YellowWon
                },
            )
        } else if board2.filled_spec() {
            (red2, yellow2, board2, GameResult::Tie)
        } else {
            play_fold(red2, yellow2, board2, turn.spec_opposite())
        }
    }
}

#[via_fn]
proof fn play_fold_decreases(red: AgentState, yellow: AgentState, board: Board, turn: Chip) {
    lemma_count_chips_bounds(board);
    if !(!board.wf() || board.filled_spec() || red.expl < 0 || yellow.expl < 0) {
        let acting = if turn == Chip::Red {
            red
        } else {
            yellow
        };
        let (k, swapped) = Bot::canonical_key(acting.mem, board);
        let m1 = Bot::canonical_mem(acting.mem, board);
        let w = m1[k];
        let maxw = Bot::best_weight_upto(board, w, swapped, 7);
        let threshold = Bot::threshold_spec(maxw, acting.expl);
        lemma_unfilled_has_choice(board);
        crate::bot::lemma_best_weight_props(board, w, swapped, 7);
        lemma_admissible_nonempty(board, w, swapped, threshold);
        let adm = Bot::admissible_upto(board, w, swapped, threshold, 7);
        let col = Bot::choose_result(acting.mem, acting.rand, acting.expl, board).0;
        assert(col == adm[next_rand(acting.rand) % (adm.len() as int)]);
        assert(0 <= col < 7 && board.available_spec(col));
        lemma_available_height(board, col);
        lemma_col_height_props(board, col);
        lemma_place_count(board, col, turn);
        if board.count_chips() == 42 {
            lemma_count_full(board);
        }
    }
}

/// Plays `game` to its end: each agent chooses its column and remembers the
/// ply, red moving first from an empty board.  The whole game is pinned by
/// `play_fold`: both agents' memories, logs and random streams, the final
/// board, and the reported result are exactly what the fold computes.
fn play_logged_game(red_bot: &mut Bot, yellow_bot: &mut Bot, game: &mut Game) -> (result:
    GameResult)
    requires
        old(red_bot).wf(),
        old(yellow_bot).wf(),
        old(red_bot).played_choices@.len() == 0,
        old(yellow_bot).played_choices@.len() == 0,
        old(game).board.wf(),
        old(game).board.count_chips() == 0,
        old(game).turn == Chip::Red,
    ensures
        final(red_bot).wf(),
        final(yellow_bot).wf(),
        final(red_bot).exploration == old(red_bot).exploration,
        final(yellow_bot).exploration == old(yellow_bot).exploration,
        final(game).board.wf(),
        ({
            let end = play_fold(
                old(red_bot).state(),
                old(yellow_bot).state(),
                old(game).board,
                Chip::Red,
            );
            &&& final(red_bot).state() == end.0
            &&& final(yellow_bot).state() == end.1
            &&& final(game).board == end.2
            &&& result == end.3
        }),
        match result {
            GameResult::Tie => final(game).board.filled_spec(),
            GameResult::RedWon => exists|c: int, r: int|
                #[trigger] final(game).board.winner_spec(c, r) == Some(Chip::Red),
            GameResult::YellowWon => exists|c: int, r: int|
                #[trigger] final(game).board.winner_spec(c, r) == Some(Chip::Yellow),
        },
{
    loop
        invariant
            red_bot.wf(),
            yellow_bot.wf(),
            red_bot.exploration == old(red_bot).exploration,
            yellow_bot.exploration == old(yellow_bot).exploration,
            game.board.wf(),
            game.board.count_chips() < 42,
            red_bot.played_choices@.len() + yellow_bot.played_choices@.len()
                == game.board.count_chips(),
            game.turn == Chip::Red ==> red_bot.played_choices@.len()
                == yellow_bot.played_choices@.len(),
            game.turn == Chip::Yellow ==> red_bot.played_choices@.len()
                == yellow_bot.played_choices@.len() + 1,
            play_fold(old(red_bot).state(), old(yellow_bot).state(), old(game).board, Chip::Red)
                == play_fold(red_bot.state(), yellow_bot.state(), game.board, game.turn),
        decreases 42 - game.board.count_chips(),
    {
        let ghost pre_red = red_bot.state();
        let ghost pre_yellow = yellow_bot.state();
        let ghost pre_board = game.board;
        let ghost pre_turn = game.turn;
        proof {
            lemma_count_chips_bounds(game.board);
            if game.board.filled_spec() {
                lemma_filled_count(game.board);
            }
            lemma_unfilled_has_choice(game.board);
        }
        let choice = match game.turn {
            Chip::Red => red_bot.choose_move(game.board),
            Chip::Yellow => yellow_bot.choose_move(game.board),
        };
        let column = choice.column;
        match game.turn {
            Chip::Red => red_bot.remember_played_choice(choice),
            Chip::Yellow => yellow_bot.remember_played_choice(choice),
        };
        proof {
            lemma_col_height_props(game.board, column as int);
            lemma_available_height(game.board, column as int);
            lemma_place_count(game.board, column as int, game.turn);
            crate::board::lemma_place_preserves_wf(game.board, column as int, game.turn);
        }
        let row = match game.board.place_chip(column, game.turn) {
            Ok(r) => r,
            Err(_) => {
                proof {
                    assert(false);
                }
                0
            },
        };
        proof {
            let acting = if pre_turn == Chip::Red {
                pre_red
            } else {
                pre_yellow
            };
            let cr = Bot::choose_result(acting.mem, acting.rand, acting.expl, pre_board);
            assert(cr.0 == column as int);
            assert(choice == (Choice { board: pre_board, column: (cr.0 as usize) }));
            let acting2 = AgentState {
                mem: cr.1,
                log: acting.log.push(choice),
                rand: next_rand(acting.rand),
                expl: acting.expl,
            };
            if pre_turn == Chip::Red {
                assert(red_bot.state() == acting2);
                assert(yellow_bot.state() == pre_yellow);
            } else {
                assert(yellow_bot.state() == acting2);
                assert(red_bot.state() == pre_red);
            }
            assert(game.board == pre_board.place_spec(cr.0, pre_turn));
            assert(row as int == pre_board.col_height(cr.0));
        }
        if game.board.winner(column, row).is_some() {
            proof {
                assert(game.board.cell(column as int, row as int) == pre_turn.code());
                match pre_turn {
                    Chip::Red => assert(game.board.chip_at_spec(column as int, row as int)
                        == Some(Chip::Red)),
                    Chip::Yellow => assert(game.board.chip_at_spec(column as int, row as int)
                        == Some(Chip::Yellow)),
                }
                assert(game.board.winner_spec(column as int, row as int) == Some(pre_turn));
                assert(play_fold(pre_red, pre_yellow, pre_board, pre_turn) == (
                    red_bot.state(),
                    yellow_bot.state(),
                    game.board,
                    if pre_turn == Chip::Red {
                        GameResult::RedWon
                    } else {
                        GameResult::YellowWon
                    },
                ));
            }
            return match game.turn {
                Chip::Red => GameResult::RedWon,
                Chip::Yellow => GameResult::YellowWon,
            };
        } else if game.board.filled() {
            proof {
                assert(play_fold(pre_red, pre_yellow, pre_board, pre_turn) == (
                    red_bot.state(),
                    yellow_bot.state(),
                    game.board,
                    GameResult::Tie,
                ));
            }
            return GameResult::Tie;
        }
        game.next_turn();
        proof {
            assert(play_fold(pre_red, pre_yellow, pre_board, pre_turn) == play_fold(
                red_bot.state(),
                yellow_bot.state(),
                game.board,
                game.turn,
            ));
            lemma_count_chips_bounds(game.board);
            if game.board.count_chips() == 42 {
                lemma_count_full(game.board);
            }
        }
    }
}

/// The outcome-severity actions a finished pairwise game hands the two
/// agents: reward 10 to the winner and punishment 10 to the loser, or a
/// nudge of 1 on a tie, down for red and up for yellow.
pub open spec fn reward_actions(result: GameResult) -> (Action, Action) {
    match result {
        GameResult::RedWon => (Action::Reward(10), Action::Punish(10)),
        GameResult::YellowWon => (Action::Punish(10), Action::Reward(10)),
        GameResult::Tie => (Action::Punish(1), Action::Reward(1)),
    }
}

/// One pairwise self-play game from start to end, followed by the
/// outcome-severity lesson: the winner's plies are rewarded with base 10,
/// the loser's punished with base 10; a tie nudges red down and yellow up
/// by 1.  Both logs are drained afterwards; the memories end exactly at
/// the learning fold over the game the fold played.
fn play_rewarded_match(red_bot: &mut Bot, yellow_bot: &mut Bot, game: &mut Game) -> (result:
    GameResult)
    requires
        old(red_bot).wf(),
        old(yellow_bot).wf(),
        old(red_bot).played_choices@.len() == 0,
        old(yellow_bot).played_choices@.len() == 0,
        old(game).board.wf(),
        old(game).board.count_chips() == 0,
        old(game).turn == Chip::Red,
    ensures
        final(red_bot).wf(),
        final(yellow_bot).wf(),
        final(red_bot).played_choices@.len() == 0,
        final(yellow_bot).played_choices@.len() == 0,
        final(red_bot).exploration == old(red_bot).exploration,
        final(yellow_bot).exploration == old(yellow_bot).exploration,
        final(game).board.wf(),
        ({
            let end = play_fold(
                old(red_bot).state(),
                old(yellow_bot).state(),
                old(game).board,
                Chip::Red,
            );
            let actions = reward_actions(end.3);
            &&& result == end.3
            &&& final(game).board == end.2
            &&& final(red_bot).mem_view() == Bot::learn_fold(
                end.0.mem,
                end.0.log,
                actions.0,
                end.0.log.len() as int,
            )
            &&& final(yellow_bot).mem_view() == Bot::learn_fold(
                end.1.mem,
                end.1.log,
                actions.1,
                end.1.log.len() as int,
            )
            &&& final(red_bot).rand.0 as int == end.0.rand
            &&& final(yellow_bot).rand.0 as int == end.1.rand
        }),
        match result {
            GameResult::Tie => final(game).board.filled_spec(),
            GameResult::RedWon => exists|c: int, r: int|
                #[trigger] final(game).board.winner_spec(c, r) == Some(Chip::Red),
            GameResult::YellowWon => exists|c: int, r: int|
                #[trigger] final(game).board.winner_spec(c, r) == Some(Chip::Yellow),
        },
{
    let result = play_logged_game(red_bot, yellow_bot, game);
    let (red_action, yellow_action) = match result {
        GameResult::RedWon => (Action::Reward(10), Action::Punish(10)),
        GameResult::YellowWon => (Action::Punish(10), Action::Reward(10)),
        GameResult::Tie => (Action::Punish(1), Action::Reward(1)),
    };
    red_bot.learn_from_played_choices(red_action);
    yellow_bot.learn_from_played_choices(yellow_action);
    red_bot.clear_played_choices();
    yellow_bot.clear_played_choices();
    result
}

/// The board a fresh game starts from.
pub open spec fn fresh_board() -> Board {
    Board { upper: 0u64, lower: 0u32 }
}

/// What one full rewarded self-play game does to the two agents' states:
/// the game is played out by `play_fold` from a fresh board, the
/// outcome-severity lesson is applied, and both logs are drained.
pub open spec fn rewarded_match_states(red: AgentState, yellow: AgentState) -> (
    AgentState,
    AgentState,
    GameResult,
) {
    let end = play_fold(red, yellow, fresh_board(), Chip::Red);
    let actions = reward_actions(end.3);
    (
        AgentState {
            mem: Bot::learn_fold(end.0.mem, end.0.log, actions.0, end.0.log.len() as int),
            log: Seq::empty(),
            rand: end.0.rand,
            expl: red.expl,
        },
        AgentState {
            mem: Bot::learn_fold(end.1.mem, end.1.log, actions.1, end.1.log.len() as int),
            log: Seq::empty(),
            rand: end.1.rand,
            expl: yellow.expl,
        },
        end.3,
    )
}

/// What one full game of the outcome-plus-heuristic trainer does to the
/// two agents' states.
pub open spec fn board_position_match_states(red: AgentState, yellow: AgentState) -> (
    AgentState,
    AgentState,
    GameResult,
) {
    let end = play_fold(red, yellow, fresh_board(), Chip::Red);
    (
        AgentState {
            mem: board_position_lesson(end.0, Chip::Red, end.3),
            log: Seq::empty(),
            rand: end.0.rand,
            expl: red.expl,
        },
        AgentState {
            mem: board_position_lesson(end.1, Chip::Yellow, end.3),
            log: Seq::empty(),
            rand: end.1.rand,
            expl: yellow.expl,
        },
        end.3,
    )
}

/// What one full supervised game does to the learning agent's state.
pub open spec fn minmax_match_states(bot: AgentState, bot_turn: Chip) -> (AgentState, GameResult) {
    let end = minmax_play_fold(bot, bot_turn, fresh_board(), Chip::Red);
    (
        AgentState {
            mem: Bot::learn_fold(
                end.0.mem,
                end.0.log,
                minmax_outcome_action(bot_turn, end.2),
                end.0.log.len() as int,
            ),
            log: Seq::empty(),
            rand: end.0.rand,
            expl: bot.expl,
        },
        end.2,
    )
}

/// The agents' states after `n` rewarded self-play games with the colors
/// (and so the argument order) swapped after each game.
pub open spec fn rewarded_training_fold(red: AgentState, yellow: AgentState, n: int) -> (
    AgentState,
    AgentState,
)
    decreases n,
{
    if n <= 0 {
        (red, yellow)
    } else {
        let m = rewarded_match_states(red, yellow);
        rewarded_training_fold(m.1, m.0, n - 1)
    }
}

/// The agents' states after `n` outcome-plus-heuristic games with the
/// colors swapped after each game.
pub open spec fn board_position_training_fold(red: AgentState, yellow: AgentState, n: int) -> (
    AgentState,
    AgentState,
)
    decreases n,
{
    if n <= 0 {
        (red, yellow)
    } else {
        let m = board_position_match_states(red, yellow);
        board_position_training_fold(m.1, m.0, n - 1)
    }
}

/// The learning agent's state after `n` supervised games, its color
/// flipping after each game.
pub open spec fn minmax_training_fold(bot: AgentState, bot_turn: Chip, n: int) -> (
    AgentState,
    Chip,
)
    decreases n,
{
    if n <= 0 {
        (bot, bot_turn)
    } else {
        let m = minmax_match_states(bot, bot_turn);
        minmax_training_fold(m.0, bot_turn.spec_opposite(), n - 1)
    }
}

/// A fresh agent's state: empty memory and log, exploration margin 5, and
/// the given random-stream state.
pub open spec fn fresh_agent(rand: int) -> AgentState {
    AgentState { mem: Map::empty(), log: Seq::empty(), rand: rand, expl: 5 }
}

/// The shared seeding stream's state after `k` draws from `seed`.
pub open spec fn lcg_iter(seed: int, k: int) -> int
    decreases k,
{
    if k <= 0 {
        seed % 0x80000000
    } else {
        next_rand(lcg_iter(seed, k - 1))
    }
}

/// The two agents' states and the running tallies after `n` games of one
/// gladiator pair: each game is a rewarded self-play game from a fresh
/// board, its outcome is tallied, and then agents and tallies swap colors.
pub open spec fn gladiator_fold(
    red: AgentState,
    yellow: AgentState,
    red_wins: int,
    yellow_wins: int,
    ties: int,
    n: int,
) -> (AgentState, AgentState, int, int, int)
    decreases n,
{
    if n <= 0 {
        (red, yellow, red_wins, yellow_wins, ties)
    } else {
        let m = rewarded_match_states(red, yellow);
        let rw2 = if m.2 == GameResult::RedWon {
            red_wins + 1
        } else {
            red_wins
        };
        let yw2 = if m.2 == GameResult::YellowWon {
            yellow_wins + 1
        } else {
            yellow_wins
        };
        let t2 = if m.2 == GameResult::Tie {
            ties + 1
        } else {
            ties
        };
        gladiator_fold(m.1, m.0, yw2, rw2, t2, n - 1)
    }
}

/// A pair of agents fighting a series of self-play games; the better one
/// survives.
pub struct GladiatorGame {
    pub red_bot: Bot,
    pub yellow_bot: Bot,
    pub game: Game,
    pub statistics: GameStatistics,
}

impl GladiatorGame {
    /// Both agents rested with empty logs, a fresh game, and no games
    /// tallied yet.
    pub open spec fn ready(self) -> bool {
        &&& self.red_bot.wf()
        &&& self.yellow_bot.wf()
        &&& self.red_bot.played_choices@.len() == 0
        &&& self.yellow_bot.played_choices@.len() == 0
        &&& self.game.board == fresh_board()
        &&& self.game.board.wf()
        &&& self.game.board.count_chips() == 0
        &&& self.game.turn == Chip::Red
        &&& self.statistics.red_wins == 0
        &&& self.statistics.yellow_wins == 0
        &&& self.statistics.ties == 0
    }

    /// A fresh pair, each agent seeded from the shared stream (advanced
    /// once per agent) with exploration margin 5.
    pub fn new(rand: &mut Rand) -> (g: Self)
        requires
            old(rand).wf(),
        ensures
            g.ready(),
            g.red_bot.state() == fresh_agent(next_rand(old(rand).0 as int)),
            g.yellow_bot.state() == fresh_agent(next_rand(next_rand(old(rand).0 as int))),
            final(rand).wf(),
            final(rand).0 as int == next_rand(next_rand(old(rand).0 as int)),
    {
        let s1 = rand.next();
        let red_bot = Bot::new(5, s1);
        let s2 = rand.next();
        let yellow_bot = Bot::new(5, s2);
        let game = Game::new();
        let statistics = GameStatistics::new();
        GladiatorGame { red_bot, yellow_bot, game, statistics }
    }

    /// A fresh fight between two agents that already exist.
    pub fn new_from_bots(red_bot: Bot, yellow_bot: Bot) -> (g: Self)
        requires
            red_bot.wf(),
            yellow_bot.wf(),
            red_bot.played_choices@.len() == 0,
            yellow_bot.played_choices@.len() == 0,
        ensures
            g.ready(),
            g.red_bot == red_bot,
            g.yellow_bot == yellow_bot,
    {
        let game = Game::new();
        let statistics = GameStatistics::new();
        GladiatorGame { red_bot, yellow_bot, game, statistics }
    }

    /// Fights `iterations` games, swapping colors (and the tallies with
    /// them) after each so neither agent keeps the first move, and hands
    /// back the agent with more wins; equal tallies favor the agent
    /// holding red last.
    pub fn evaluate(self, iterations: usize) -> (winner: Bot)
        requires
            self.ready(),
        ensures
            winner.wf(),
            winner.played_choices@.len() == 0,
            winner.exploration == self.red_bot.exploration || winner.exploration
                == self.yellow_bot.exploration,
            ({
                let end = gladiator_fold(
                    self.red_bot.state(),
                    self.yellow_bot.state(),
                    0,
                    0,
                    0,
                    iterations as int,
                );
                winner.state() == if end.2 > end.3 {
                    end.0
                } else {
                    end.1
                }
            }),
    {
        let mut this = self;
        let mut i: usize = 0;
        while i < iterations
            invariant
                i <= iterations,
                this.red_bot.wf(),
                this.yellow_bot.wf(),
                this.red_bot.played_choices@.len() == 0,
                this.yellow_bot.played_choices@.len() == 0,
                this.game.board == fresh_board(),
                this.game.board.wf(),
                this.game.board.count_chips() == 0,
                this.game.turn == Chip::Red,
                this.statistics.red_wins + this.statistics.yellow_wins + this.statistics.ties
                    == i,
                (this.red_bot.exploration == self.red_bot.exploration
                    && this.yellow_bot.exploration == self.yellow_bot.exploration) || (
                this.red_bot.exploration == self.yellow_bot.exploration
                    && this.yellow_bot.exploration == self.red_bot.exploration),
                gladiator_fold(
                    self.red_bot.state(),
                    self.yellow_bot.state(),
                    0,
                    0,
                    0,
                    iterations as int,
                ) == gladiator_fold(
                    this.red_bot.state(),
                    this.yellow_bot.state(),
                    this.statistics.red_wins as int,
                    this.statistics.yellow_wins as int,
                    this.statistics.ties as int,
                    iterations - i,
                ),
            decreases iterations - i,
        {
            let ghost pre_red = this.red_bot.state();
            let ghost pre_yellow = this.yellow_bot.state();
            let result = play_rewarded_match(&mut this.red_bot, &mut this.yellow_bot,
                &mut this.game);
            proof {
                let m = rewarded_match_states(pre_red, pre_yellow);
                assert(this.red_bot.played_choices@ =~= Seq::<Choice>::empty());
                assert(this.yellow_bot.played_choices@ =~= Seq::<Choice>::empty());
                assert(this.red_bot.state() == m.0);
                assert(this.yellow_bot.state() == m.1);
                assert(result == m.2);
            }
            match result {
                GameResult::RedWon => {
                    this.statistics.red_wins += 1;
                },
                GameResult::YellowWon => {
                    this.statistics.yellow_wins += 1;
                },
                GameResult::Tie => {
                    this.statistics.ties += 1;
                },
            }
            core::mem::swap(&mut this.red_bot, &mut this.yellow_bot);
            core::mem::swap(&mut this.statistics.red_wins, &mut this.statistics.yellow_wins);
            this.game = Game::new();
            i += 1;
        }
        if this.statistics.red_wins > this.statistics.yellow_wins {
            this.red_bot
        } else {
            this.yellow_bot
        }
    }
}

/// The agent a fight hands on: the one with more wins after `n` games,
/// the agent holding red last on equal tallies.
pub open spec fn fight_winner(pair: (AgentState, AgentState), n: int) -> AgentState {
    let end = gladiator_fold(pair.0, pair.1, 0, 0, 0, n);
    if end.2 > end.3 {
        end.0
    } else {
        end.1
    }
}

/// A row of fights as the pairs of agent states fighting them.
pub open spec fn fights_view(fights: Seq<GladiatorGame>) -> Seq<(AgentState, AgentState)> {
    Seq::new(fights.len(), |i: int| (fights[i].red_bot.state(), fights[i].yellow_bot.state()))
}

/// Survivors paired up in encounter order; an odd last survivor is left
/// over unpaired.
pub open spec fn pair_up(winners: Seq<AgentState>) -> (
    Seq<(AgentState, AgentState)>,
    Option<AgentState>,
)
    decreases winners.len(),
{
    if winners.len() == 0 {
        (Seq::empty(), None::<AgentState>)
    } else if winners.len() == 1 {
        (Seq::empty(), Some(winners[0]))
    } else {
        let rest = pair_up(winners.skip(2));
        (seq![(winners[0], winners[1])] + rest.0, rest.1)
    }
}

proof fn lemma_pair_up_len(winners: Seq<AgentState>)
    ensures
        2 * pair_up(winners).0.len() + (if pair_up(winners).1 is Some {
            1int
        } else {
            0int
        }) == winners.len(),
    decreases winners.len(),
{
    if winners.len() >= 2 {
        lemma_pair_up_len(winners.skip(2));
    }
}

/// The round's survivors: each fight's winner in encounter order, then the
/// agent carried over unpaired from the round before, if any.
pub open spec fn round_winners(
    fights: Seq<(AgentState, AgentState)>,
    rem: Option<AgentState>,
    iterations: int,
) -> Seq<AgentState> {
    let fought = Seq::new(fights.len(), |i: int| fight_winner(fights[i], iterations));
    match rem {
        Some(b) => fought.push(b),
        None => fought,
    }
}

/// The whole tournament at the specification level: rounds of fights, the
/// survivors paired up again, until one agent is left.  The empty-field
/// guard never arises when the arena starts with at least one fight.
pub open spec fn tournament_fold(
    fights: Seq<(AgentState, AgentState)>,
    rem: Option<AgentState>,
    iterations: int,
) -> AgentState
    decreases 2 * fights.len() + (if rem is Some {
        1int
    } else {
        0int
    }),
    via tournament_fold_decreases
{
    if fights.len() == 0 {
        match rem {
            Some(b) => b,
            None => fresh_agent(0),
        }
    } else {
        let next = pair_up(round_winners(fights, rem, iterations));
        tournament_fold(next.0, next.1, iterations)
    }
}

#[via_fn]
proof fn tournament_fold_decreases(
    fights: Seq<(AgentState, AgentState)>,
    rem: Option<AgentState>,
    iterations: int,
) {
    if fights.len() > 0 {
        let winners = round_winners(fights, rem, iterations);
        lemma_pair_up_len(winners);
    }
}

/// A row of agents as their states.
pub open spec fn agents_view(agents: Seq<Bot>) -> Seq<AgentState> {
    Seq::new(agents.len(), |i: int| agents[i].state())
}

/// A possibly carried-over agent as its state.
pub open spec fn rem_view(rem: Option<Bot>) -> Option<AgentState> {
    match rem {
        Some(b) => Some(b.state()),
        None => None,
    }
}

/// An elimination tournament over independently seeded agent pairs.
pub struct GladiatorBotTrainer {
    pub fights: Vec<GladiatorGame>,
    pub remainder: Option<Bot>,
}

impl GladiatorBotTrainer {
    /// `arena_size` fresh pairs, all seeded from one deterministic stream
    /// advanced once per agent built.
    #[verifier::rlimit(100)]
    pub fn new(arena_size: usize) -> (t: Self)
        ensures
            t.fights@.len() == arena_size,
            forall|i: int| 0 <= i < arena_size ==> (#[trigger] t.fights@[i]).ready(),
            forall|i: int|
                0 <= i < arena_size ==> (#[trigger] t.fights@[i]).red_bot.state() == fresh_agent(
                    lcg_iter(0x40523, 2 * i + 1),
                ) && t.fights@[i].yellow_bot.state() == fresh_agent(lcg_iter(0x40523, 2 * i + 2)),
            t.remainder is None,
    {
        let mut rand = Rand::new(0x40523);
        let mut fights: Vec<GladiatorGame> = Vec::new();
        let mut i: usize = 0;
        while i < arena_size
            invariant
                i <= arena_size,
                rand.wf(),
                rand.0 as int == lcg_iter(0x40523, 2 * i),
                fights@.len() == i,
                forall|j: int| 0 <= j < i ==> (#[trigger] fights@[j]).ready(),
                forall|j: int|
                    0 <= j < i ==> (#[trigger] fights@[j]).red_bot.state() == fresh_agent(
                        lcg_iter(0x40523, 2 * j + 1),
                    ) && fights@[j].yellow_bot.state() == fresh_agent(
                        lcg_iter(0x40523, 2 * j + 2),
                    ),
            decreases arena_size - i,
        {
            let ghost pre_rand = rand.0 as int;
            let fight = GladiatorGame::new(&mut rand);
            proof {
                assert(lcg_iter(0x40523, 2 * (i as int) + 1) == next_rand(pre_rand));
                assert(lcg_iter(0x40523, 2 * (i as int) + 2) == next_rand(next_rand(pre_rand)));
                assert(fight.red_bot.state() == fresh_agent(lcg_iter(0x40523, 2 * (i as int) + 1)));
                assert(fight.yellow_bot.state() == fresh_agent(
                    lcg_iter(0x40523, 2 * (i as int) + 2),
                ));
            }
            fights.push(fight);
            i += 1;
        }
        GladiatorBotTrainer { fights, remainder: None }
    }

    /// Runs rounds until one agent is left: each round every pair fights
    /// `iterations` games, the survivors are paired up again in encounter
    /// order, and an odd survivor joins the end of the next round's field.
    /// The champion is exactly the tournament fold's.
    pub fn the_one_bot_to_rule_them_all(self, iterations: usize) -> (winner: Bot)
        requires
            self.fights@.len() >= 1,
            forall|i: int| 0 <= i < self.fights@.len() ==> (#[trigger] self.fights@[i]).ready(),
            self.remainder is None,
        ensures
            winner.wf(),
            winner.played_choices@.len() == 0,
            winner.state() == tournament_fold(
                fights_view(self.fights@),
                None::<AgentState>,
                iterations as int,
            ),
    {
        let mut this = self;
        proof {
            assert(rem_view(this.remainder) is None);
        }
        loop
            invariant
                forall|i: int|
                    0 <= i < this.fights@.len() ==> (#[trigger] this.fights@[i]).ready(),
                match this.remainder {
                    Some(b) => b.wf() && b.played_choices@.len() == 0,
                    None => true,
                },
                2 * this.fights@.len() + (if this.remainder is Some {
                    1int
                } else {
                    0int
                }) >= 1,
                tournament_fold(fights_view(self.fights@), None::<AgentState>, iterations as int)
                    == tournament_fold(
                    fights_view(this.fights@),
                    rem_view(this.remainder),
                    iterations as int,
                ),
            decreases 2 * this.fights@.len() + (if this.remainder is Some {
                1int
            } else {
                0int
            }),
        {
            if this.fights.len() == 0 {
                return match this.remainder {
                    Some(bot) => bot,
                    None => {
                        proof {
                            assert(false);
                        }
                        Bot::new(0, 0)
                    },
                };
            }
            let ghost round_fights = fights_view(this.fights@);
            let ghost round_rem = rem_view(this.remainder);
            let ghost n0 = this.fights@.len() as int;
            let mut winners: Vec<Bot> = Vec::new();
            while this.fights.len() > 0
                invariant
                    forall|i: int|
                        0 <= i < this.fights@.len() ==> (#[trigger] this.fights@[i]).ready(),
                    forall|i: int|
                        0 <= i < winners@.len() ==> (#[trigger] winners@[i]).wf()
                            && winners@[i].played_choices@.len() == 0,
                    winners@.len() + this.fights@.len() == n0,
                    round_fights.len() == n0,
                    forall|j: int|
                        0 <= j < winners@.len() ==> (#[trigger] winners@[j]).state()
                            == fight_winner(round_fights[j], iterations as int),
                    forall|j: int|
                        0 <= j < this.fights@.len() ==> ((#[trigger] this.fights@[j]).red_bot.state(),
                        this.fights@[j].yellow_bot.state()) == round_fights[winners@.len() + j],
                    match this.remainder {
                        Some(b) => b.wf() && b.played_choices@.len() == 0,
                        None => true,
                    },
                    rem_view(this.remainder) == round_rem,
                decreases this.fights@.len(),
            {
                let fight = this.fights.remove(0);
                proof {
                    assert((fight.red_bot.state(), fight.yellow_bot.state())
                        == round_fights[winners@.len() as int]);
                }
                let w = fight.evaluate(iterations);
                proof {
                    assert(w.state() == fight_winner(
                        round_fights[winners@.len() as int],
                        iterations as int,
                    ));
                }
                winners.push(w);
            }
            if let Some(rem) = this.remainder.take() {
                winners.push(rem);
            }
            let ghost w_full = agents_view(winners@);
            proof {
                assert(w_full =~= round_winners(round_fights, round_rem, iterations as int));
                assert(fights_view(this.fights@) =~= Seq::<(AgentState, AgentState)>::empty());
                assert(fights_view(this.fights@) + pair_up(agents_view(winners@)).0 =~= pair_up(
                    w_full,
                ).0);
            }
            while winners.len() >= 2
                invariant
                    this.remainder is None,
                    forall|i: int|
                        0 <= i < this.fights@.len() ==> (#[trigger] this.fights@[i]).ready(),
                    forall|i: int|
                        0 <= i < winners@.len() ==> (#[trigger] winners@[i]).wf()
                            && winners@[i].played_choices@.len() == 0,
                    pair_up(w_full).0 == fights_view(this.fights@) + pair_up(
                        agents_view(winners@),
                    ).0,
                    pair_up(w_full).1 == pair_up(agents_view(winners@)).1,
                decreases winners@.len(),
            {
                let ghost cur = agents_view(winners@);
                let current = winners.remove(0);
                let partner = winners.remove(0);
                proof {
                    assert(current.state() == cur[0]);
                    assert(partner.state() == cur[1]);
                    assert(agents_view(winners@) =~= cur.skip(2));
                }
                let ghost pre_fights = this.fights@;
                this.fights.push(GladiatorGame::new_from_bots(current, partner));
                proof {
                    assert(fights_view(this.fights@) =~= fights_view(pre_fights) + seq![
                        (cur[0], cur[1]),
                    ]);
                    assert(pair_up(cur).0 =~= seq![(cur[0], cur[1])] + pair_up(cur.skip(2)).0);
                    assert((fights_view(pre_fights) + seq![(cur[0], cur[1])]) + pair_up(
                        cur.skip(2),
                    ).0 =~= fights_view(pre_fights) + pair_up(cur).0);
                }
            }
            if winners.len() == 1 {
                let ghost cur = agents_view(winners@);
                let last = match winners.pop() {
                    Some(b) => b,
                    None => {
                        proof {
                            assert(false);
                        }
                        Bot::new(0, 0)
                    },
                };
                proof {
                    assert(last.state() == cur[0]);
                }
                this.remainder = Some(last);
            } else {
                proof {
                    assert(agents_view(winners@) =~= Seq::<AgentState>::empty());
                    assert(this.remainder is None);
                }
            }
            proof {
                assert(fights_view(this.fights@) + Seq::<(AgentState, AgentState)>::empty()
                    =~= fights_view(this.fights@));
                assert(fights_view(this.fights@) == pair_up(w_full).0);
                assert(rem_view(this.remainder) == pair_up(w_full).1);
                assert(tournament_fold(round_fights, round_rem, iterations as int)
                    == tournament_fold(
                    fights_view(this.fights@),
                    rem_view(this.remainder),
                    iterations as int,
                ));
                lemma_pair_up_len(w_full);
            }
        }
    }
}

/// One supervised game at the specification level: the learning agent's
/// plies come from its own state and are logged, the opposing plies come
/// from the five-ply search and are not.  The guard cases never arise in a
/// real game and bottom out in a tie.
pub open spec fn minmax_play_fold(bot: AgentState, bot_turn: Chip, board: Board, turn: Chip) -> (
    AgentState,
    Board,
    GameResult,
)
    decreases 42 - board.count_chips(),
    via minmax_play_fold_decreases
{
    if !board.wf() || board.filled_spec() || bot.expl < 0 {
        (bot, board, GameResult::Tie)
    } else {
        let step = if turn == bot_turn {
            let (col, mem2) = Bot::choose_result(bot.mem, bot.rand, bot.expl, board);
            let ply = Choice { board, column: col as usize };
            (
                AgentState {
                    mem: mem2,
                    log: bot.log.push(ply),
                    rand: next_rand(bot.rand),
                    expl: bot.expl,
                },
                col,
            )
        } else {
            (
                bot,
                match board.best_upto(bot_turn.spec_opposite(), turn, 5, 7) {
                    Some(p) => p.0,
                    None => 0,
                },
            )
        };
        let bot2 = step.0;
        let col = step.1;
        let row = board.col_height(col);
        let board2 = board.place_spec(col, turn);
        if board2.winner_spec(col, row) is Some {
            (
                bot2,
                board2,
                if turn == Chip::Red {
                    GameResult::RedWon
                } else {
                    GameResult::YellowWon
                },
            )
        } else if board2.filled_spec() {
            (bot2, board2, GameResult::Tie)
        } else {
            minmax_play_fold(bot2, bot_turn, board2, turn.spec_opposite())
        }
    }
}

#[via_fn]
proof fn minmax_play_fold_decreases(bot: AgentState, bot_turn: Chip, board: Board, turn: Chip) {
    lemma_count_chips_bounds(board);
    if !(!board.wf() || board.filled_spec() || bot.expl < 0) {
        lemma_unfilled_has_choice(board);
        let col: int = if turn == bot_turn {
            let (k, swapped) = Bot::canonical_key(bot.mem, board);
            let m1 = Bot::canonical_mem(bot.mem, board);
            let w = m1[k];
            let maxw = Bot::best_weight_upto(board, w, swapped, 7);
            let threshold = Bot::threshold_spec(maxw, bot.expl);
            crate::bot::lemma_best_weight_props(board, w, swapped, 7);
            lemma_admissible_nonempty(board, w, swapped, threshold);
            Bot::choose_result(bot.mem, bot.rand, bot.expl, board).0
        } else {
            crate::board::lemma_best_upto_props(board, bot_turn.spec_opposite(), turn, 5, 7);
            match board.best_upto(bot_turn.spec_opposite(), turn, 5, 7) {
                Some(p) => p.0,
                None => 0,
            }
        };
        assert(0 <= col < 7 && board.available_spec(col));
        lemma_available_height(board, col);
        lemma_col_height_props(board, col);
        lemma_place_count(board, col, turn);
        if board.count_chips() == 42 {
            lemma_count_full(board);
        }
    }
}

/// The action the learning agent receives when a supervised game ends:
/// reward 10 when its color won, punishment 10 when it lost, and a nudge
/// of 1 on a tie, down when the agent held red.
pub open spec fn minmax_outcome_action(bot_turn: Chip, result: GameResult) -> Action {
    match result {
        GameResult::RedWon => if bot_turn == Chip::Red {
            Action::Reward(10)
        } else {
            Action::Punish(10)
        },
        GameResult::YellowWon => if bot_turn == Chip::Yellow {
            Action::Reward(10)
        } else {
            Action::Punish(10)
        },
        GameResult::Tie => if bot_turn == Chip::Red {
            Action::Punish(1)
        } else {
            Action::Reward(1)
        },
    }
}

/// Trains one agent against the minimax search: the agent logs and learns
/// its own choices, the search side plays but never learns.
pub struct MinMaxBotTrainer {
    pub bot: Bot,
    pub bot_turn: Chip,
}

impl MinMaxBotTrainer {
    /// A trainer for `bot`, which starts as red.
    pub fn new(bot: Bot) -> (t: Self)
        requires
            bot.wf(),
            bot.played_choices@.len() == 0,
        ensures
            t.bot == bot,
            t.bot_turn == Chip::Red,
    {
        MinMaxBotTrainer { bot, bot_turn: Chip::Red }
    }

    /// One game between the agent and the five-ply search, from start to
    /// end: the agent remembers its plies and is rewarded or punished by
    /// the outcome (base 10; a tie nudges by 1, down for red), then its
    /// log is drained.  The whole game and the lesson are pinned by
    /// `minmax_play_fold`.
    fn start_match(&mut self, game: &mut Game) -> (result: GameResult)
        requires
            old(self).bot.wf(),
            old(self).bot.played_choices@.len() == 0,
            old(game).board.wf(),
            old(game).board.count_chips() == 0,
            old(game).turn == Chip::Red,
        ensures
            final(self).bot.wf(),
            final(self).bot.played_choices@.len() == 0,
            final(self).bot.exploration == old(self).bot.exploration,
            final(self).bot_turn == old(self).bot_turn,
            final(game).board.wf(),
            ({
                let end = minmax_play_fold(
                    old(self).bot.state(),
                    old(self).bot_turn,
                    old(game).board,
                    Chip::Red,
                );
                &&& result == end.2
                &&& final(game).board == end.1
                &&& final(self).bot.mem_view() == Bot::learn_fold(
                    end.0.mem,
                    end.0.log,
                    minmax_outcome_action(old(self).bot_turn, end.2),
                    end.0.log.len() as int,
                )
                &&& final(self).bot.rand.0 as int == end.0.rand
            }),
            match result {
                GameResult::Tie => final(game).board.filled_spec(),
                GameResult::RedWon => exists|c: int, r: int|
                    #[trigger] final(game).board.winner_spec(c, r) == Some(Chip::Red),
                GameResult::YellowWon => exists|c: int, r: int|
                    #[trigger] final(game).board.winner_spec(c, r) == Some(Chip::Yellow),
            },
    {
        loop
            invariant
                self.bot.wf(),
                self.bot.exploration == old(self).bot.exploration,
                self.bot_turn == old(self).bot_turn,
                game.board.wf(),
                game.board.count_chips() < 42,
                (game.turn == Chip::Red) == (game.board.count_chips() % 2 == 0),
                self.bot_turn == Chip::Red ==> 2 * self.bot.played_choices@.len()
                    == game.board.count_chips() + (if game.turn == Chip::Yellow {
                    1int
                } else {
                    0int
                }),
                self.bot_turn == Chip::Yellow ==> 2 * self.bot.played_choices@.len()
                    == game.board.count_chips() - (if game.turn == Chip::Yellow {
                    1int
                } else {
                    0int
                }),
                minmax_play_fold(
                    old(self).bot.state(),
                    old(self).bot_turn,
                    old(game).board,
                    Chip::Red,
                ) == minmax_play_fold(self.bot.state(), self.bot_turn, game.board, game.turn),
            decreases 42 - game.board.count_chips(),
        {
            let ghost pre_bot = self.bot.state();
            let ghost pre_board = game.board;
            let ghost pre_turn = game.turn;
            proof {
                lemma_count_chips_bounds(game.board);
                if game.board.filled_spec() {
                    lemma_filled_count(game.board);
                }
                lemma_unfilled_has_choice(game.board);
            }
            let placed_column = if game.turn == self.bot_turn {
                let choice = self.bot.choose_move(game.board);
                let column = choice.column;
                self.bot.remember_played_choice(choice);
                proof {
                    let cr = Bot::choose_result(pre_bot.mem, pre_bot.rand, pre_bot.expl,
                        pre_board);
                    assert(cr.0 == column as int);
                    assert(choice == (Choice { board: pre_board, column: (cr.0 as usize) }));
                    assert(self.bot.state() == AgentState {
                        mem: cr.1,
                        log: pre_bot.log.push(choice),
                        rand: next_rand(pre_bot.rand),
                        expl: pre_bot.expl,
                    });
                }
                column
            } else {
                match game.board.minmax(self.bot_turn.opposite(), game.turn) {
                    Minmaxxing::Result(_) => {
                        proof {
                            assert(false);
                        }
                        0
                    },
                    Minmaxxing::Position(position, _) => {
                        proof {
                            crate::board::lemma_best_upto_props(
                                game.board,
                                self.bot_turn.spec_opposite(),
                                game.turn,
                                5,
                                7,
                            );
                        }
                        position
                    },
                }
            };
            proof {
                lemma_col_height_props(game.board, placed_column as int);
                lemma_available_height(game.board, placed_column as int);
                lemma_place_count(game.board, placed_column as int, game.turn);
                crate::board::lemma_place_preserves_wf(game.board, placed_column as int,
                    game.turn);
            }
            let placed_row = match game.board.place_chip(placed_column, game.turn) {
                Ok(v) => v,
                Err(_) => {
                    proof {
                        assert(false);
                    }
                    0
                },
            };
            proof {
                assert(game.board == pre_board.place_spec(placed_column as int, pre_turn));
                assert(placed_row as int == pre_board.col_height(placed_column as int));
            }
            if let Some(winner) = game.board.winner(placed_column, placed_row) {
                proof {
                    assert(game.board.cell(placed_column as int, placed_row as int)
                        == pre_turn.code());
                    match pre_turn {
                        Chip::Red => assert(game.board.chip_at_spec(
                            placed_column as int,
                            placed_row as int,
                        ) == Some(Chip::Red)),
                        Chip::Yellow => assert(game.board.chip_at_spec(
                            placed_column as int,
                            placed_row as int,
                        ) == Some(Chip::Yellow)),
                    }
                    assert(game.board.winner_spec(placed_column as int, placed_row as int)
                        == Some(pre_turn));
                    assert(minmax_play_fold(pre_bot, self.bot_turn, pre_board, pre_turn) == (
                        self.bot.state(),
                        game.board,
                        if pre_turn == Chip::Red {
                            GameResult::RedWon
                        } else {
                            GameResult::YellowWon
                        },
                    ));
                }
                let action = if winner == self.bot_turn {
                    Action::Reward(10)
                } else {
                    Action::Punish(10)
                };
                self.bot.learn_from_played_choices(action);
                self.bot.clear_played_choices();
                return match winner {
                    Chip::Red => GameResult::RedWon,
                    Chip::Yellow => GameResult::YellowWon,
                };
            } else if game.board.filled() {
                proof {
                    assert(minmax_play_fold(pre_bot, self.bot_turn, pre_board, pre_turn) == (
                        self.bot.state(),
                        game.board,
                        GameResult::Tie,
                    ));
                }
                let action = if self.bot_turn == Chip::Red {
                    Action::Punish(1)
                } else {
                    Action::Reward(1)
                };
                self.bot.learn_from_played_choices(action);
                self.bot.clear_played_choices();
                return GameResult::Tie;
            }
            game.next_turn();
            proof {
                assert(minmax_play_fold(pre_bot, self.bot_turn, pre_board, pre_turn)
                    == minmax_play_fold(self.bot.state(), self.bot_turn, game.board, game.turn));
                lemma_count_chips_bounds(game.board);
                if game.board.count_chips() == 42 {
                    lemma_count_full(game.board);
                }
            }
        }
    }

    /// Plays `iterations` games, the agent switching colors after each;
    /// the final agent state is exactly the training fold's.
    pub fn start_with_iterations(&mut self, iterations: usize)
        requires
            old(self).bot.wf(),
            old(self).bot.played_choices@.len() == 0,
        ensures
            final(self).bot.wf(),
            final(self).bot.played_choices@.len() == 0,
            final(self).bot.exploration == old(self).bot.exploration,
            ({
                let end = minmax_training_fold(
                    old(self).bot.state(),
                    old(self).bot_turn,
                    iterations as int,
                );
                &&& final(self).bot.state() == end.0
                &&& final(self).bot_turn == end.1
            }),
    {
        let mut iteration: usize = 0;
        while iteration < iterations
            invariant
                iteration <= iterations,
                self.bot.wf(),
                self.bot.played_choices@.len() == 0,
                self.bot.exploration == old(self).bot.exploration,
                minmax_training_fold(
                    old(self).bot.state(),
                    old(self).bot_turn,
                    iterations as int,
                ) == minmax_training_fold(
                    self.bot.state(),
                    self.bot_turn,
                    iterations - iteration,
                ),
            decreases iterations - iteration,
        {
            let ghost pre_bot = self.bot.state();
            let ghost pre_turn = self.bot_turn;
            let mut game = Game::new();
            self.start_match(&mut game);
            proof {
                let m = minmax_match_states(pre_bot, pre_turn);
                assert(self.bot.played_choices@ =~= Seq::<Choice>::empty());
                assert(self.bot.state() == m.0);
            }
            self.bot_turn = self.bot_turn.opposite();
            iteration += 1;
        }
    }
}

/// Trains two agents against each other, both learning from the outcome
/// alone (the outcome-severity policy).
pub struct BotTrainerGameResult {
    pub red_bot: Bot,
    pub yellow_bot: Bot,
}

impl BotTrainerGameResult {
    pub fn new(red_bot: Bot, yellow_bot: Bot) -> (t: Self)
        requires
            red_bot.wf(),
            yellow_bot.wf(),
            red_bot.played_choices@.len() == 0,
            yellow_bot.played_choices@.len() == 0,
        ensures
            t.red_bot == red_bot,
            t.yellow_bot == yellow_bot,
    {
        BotTrainerGameResult { red_bot, yellow_bot }
    }

    /// One self-play game with both agents logging; the winner's plies are
    /// rewarded, the loser's punished, and a tie nudges red down and
    /// yellow up.  Both logs are drained afterwards.
    fn start_match(&mut self, game: &mut Game) -> (result: GameResult)
        requires
            old(self).red_bot.wf(),
            old(self).yellow_bot.wf(),
            old(self).red_bot.played_choices@.len() == 0,
            old(self).yellow_bot.played_choices@.len() == 0,
            old(game).board.wf(),
            old(game).board.count_chips() == 0,
            old(game).turn == Chip::Red,
        ensures
            final(self).red_bot.wf(),
            final(self).yellow_bot.wf(),
            final(self).red_bot.played_choices@.len() == 0,
            final(self).yellow_bot.played_choices@.len() == 0,
            final(self).red_bot.exploration == old(self).red_bot.exploration,
            final(self).yellow_bot.exploration == old(self).yellow_bot.exploration,
            final(game).board.wf(),
            ({
                let end = play_fold(
                    old(self).red_bot.state(),
                    old(self).yellow_bot.state(),
                    old(game).board,
                    Chip::Red,
                );
                let actions = reward_actions(end.3);
                &&& result == end.3
                &&& final(game).board == end.2
                &&& final(self).red_bot.mem_view() == Bot::learn_fold(
                    end.0.mem,
                    end.0.log,
                    actions.0,
                    end.0.log.len() as int,
                )
                &&& final(self).yellow_bot.mem_view() == Bot::learn_fold(
                    end.1.mem,
                    end.1.log,
                    actions.1,
                    end.1.log.len() as int,
                )
                &&& final(self).red_bot.rand.0 as int == end.0.rand
                &&& final(self).yellow_bot.rand.0 as int == end.1.rand
            }),
            match result {
                GameResult::Tie => final(game).board.filled_spec(),
                GameResult::RedWon => exists|c: int, r: int|
                    #[trigger] final(game).board.winner_spec(c, r) == Some(Chip::Red),
                GameResult::YellowWon => exists|c: int, r: int|
                    #[trigger] final(game).board.winner_spec(c, r) == Some(Chip::Yellow),
            },
    {
        play_rewarded_match(&mut self.red_bot, &mut self.yellow_bot, game)
    }

    /// Plays `iterations` games, the agents swapping colors after each;
    /// the final states are exactly the training fold's.
    pub fn start_with_iterations(&mut self, iterations: usize)
        requires
            old(self).red_bot.wf(),
            old(self).yellow_bot.wf(),
            old(self).red_bot.played_choices@.len() == 0,
            old(self).yellow_bot.played_choices@.len() == 0,
        ensures
            final(self).red_bot.wf(),
            final(self).yellow_bot.wf(),
            final(self).red_bot.played_choices@.len() == 0,
            final(self).yellow_bot.played_choices@.len() == 0,
            ({
                let end = rewarded_training_fold(
                    old(self).red_bot.state(),
                    old(self).yellow_bot.state(),
                    iterations as int,
                );
                &&& final(self).red_bot.state() == end.0
                &&& final(self).yellow_bot.state() == end.1
            }),
    {
        let mut iteration: usize = 0;
        while iteration < iterations
            invariant
                iteration <= iterations,
                self.red_bot.wf(),
                self.yellow_bot.wf(),
                self.red_bot.played_choices@.len() == 0,
                self.yellow_bot.played_choices@.len() == 0,
                rewarded_training_fold(
                    old(self).red_bot.state(),
                    old(self).yellow_bot.state(),
                    iterations as int,
                ) == rewarded_training_fold(
                    self.red_bot.state(),
                    self.yellow_bot.state(),
                    iterations - iteration,
                ),
            decreases iterations - iteration,
        {
            let ghost pre_red = self.red_bot.state();
            let ghost pre_yellow = self.yellow_bot.state();
            let mut game = Game::new();
            self.start_match(&mut game);
            proof {
                let m = rewarded_match_states(pre_red, pre_yellow);
                assert(self.red_bot.played_choices@ =~= Seq::<Choice>::empty());
                assert(self.yellow_bot.played_choices@ =~= Seq::<Choice>::empty());
                assert(self.red_bot.state() == m.0);
                assert(self.yellow_bot.state() == m.1);
            }
            core::mem::swap(&mut self.red_bot, &mut self.yellow_bot);
            iteration += 1;
        }
    }
}

/// The outcome-severity action one agent of a finished game receives for
/// its color, if any: reward 10 for the win, punishment 10 for the loss,
/// nothing on a tie.
pub open spec fn outcome_action(chip: Chip, result: GameResult) -> Option<Action> {
    match result {
        GameResult::RedWon => Some(
            if chip == Chip::Red {
                Action::Reward(10)
            } else {
                Action::Punish(10)
            },
        ),
        GameResult::YellowWon => Some(
            if chip == Chip::Red {
                Action::Punish(10)
            } else {
                Action::Reward(10)
            },
        ),
        GameResult::Tie => None,
    }
}

/// What the outcome-plus-heuristic trainer leaves in one agent's memory:
/// the outcome lesson (if the game was won or lost) followed by the
/// board-position lesson under the agent's own color.
pub open spec fn board_position_lesson(st: AgentState, chip: Chip, result: GameResult) -> Map<
    u128,
    Seq<i16>,
> {
    let mem1 = match outcome_action(chip, result) {
        Some(a) => Bot::learn_fold(st.mem, st.log, a, st.log.len() as int),
        None => st.mem,
    };
    Bot::learn_board_fold(mem1, st.log, chip, result, st.log.len() as int)
}

/// Trains two agents against each other, both learning from the outcome
/// and from the heuristic of each logged position.
pub struct BotTrainerBoardPosition {
    pub red_bot: Bot,
    pub yellow_bot: Bot,
}

impl BotTrainerBoardPosition {
    pub fn new(red_bot: Bot, yellow_bot: Bot) -> (t: Self)
        requires
            red_bot.wf(),
            yellow_bot.wf(),
            red_bot.played_choices@.len() == 0,
            yellow_bot.played_choices@.len() == 0,
        ensures
            t.red_bot == red_bot,
            t.yellow_bot == yellow_bot,
    {
        BotTrainerBoardPosition { red_bot, yellow_bot }
    }

    /// One self-play game with both agents logging.  On a win the winner's
    /// plies are rewarded and the loser's punished; both agents then learn
    /// from their logged board positions under their own color, and both
    /// logs are drained.
    fn start_match(&mut self, game: &mut Game) -> (result: GameResult)
        requires
            old(self).red_bot.wf(),
            old(self).yellow_bot.wf(),
            old(self).red_bot.played_choices@.len() == 0,
            old(self).yellow_bot.played_choices@.len() == 0,
            old(game).board.wf(),
            old(game).board.count_chips() == 0,
            old(game).turn == Chip::Red,
        ensures
            final(self).red_bot.wf(),
            final(self).yellow_bot.wf(),
            final(self).red_bot.played_choices@.len() == 0,
            final(self).yellow_bot.played_choices@.len() == 0,
            final(self).red_bot.exploration == old(self).red_bot.exploration,
            final(self).yellow_bot.exploration == old(self).yellow_bot.exploration,
            final(game).board.wf(),
            ({
                let end = play_fold(
                    old(self).red_bot.state(),
                    old(self).yellow_bot.state(),
                    old(game).board,
                    Chip::Red,
                );
                &&& result == end.3
                &&& final(game).board == end.2
                &&& final(self).red_bot.mem_view() == board_position_lesson(
                    end.0,
                    Chip::Red,
                    end.3,
                )
                &&& final(self).yellow_bot.mem_view() == board_position_lesson(
                    end.1,
                    Chip::Yellow,
                    end.3,
                )
                &&& final(self).red_bot.rand.0 as int == end.0.rand
                &&& final(self).yellow_bot.rand.0 as int == end.1.rand
            }),
            match result {
                GameResult::Tie => final(game).board.filled_spec(),
                GameResult::RedWon => exists|c: int, r: int|
                    #[trigger] final(game).board.winner_spec(c, r) == Some(Chip::Red),
                GameResult::YellowWon => exists|c: int, r: int|
                    #[trigger] final(game).board.winner_spec(c, r) == Some(Chip::Yellow),
            },
    {
        let result = play_logged_game(&mut self.red_bot, &mut self.yellow_bot, game);
        match result {
            GameResult::RedWon => {
                self.red_bot.learn_from_played_choices(Action::Reward(10));
                self.yellow_bot.learn_from_played_choices(Action::Punish(10));
            },
            GameResult::YellowWon => {
                self.yellow_bot.learn_from_played_choices(Action::Reward(10));
                self.red_bot.learn_from_played_choices(Action::Punish(10));
            },
            GameResult::Tie => {},
        }
        self.red_bot.learn_from_board(Chip::Red, &result);
        self.yellow_bot.learn_from_board(Chip::Yellow, &result);
        self.red_bot.clear_played_choices();
        self.yellow_bot.clear_played_choices();
        result
    }

    /// Plays `iterations` games, the agents swapping colors after each;
    /// the final states are exactly the training fold's.
    pub fn start_with_iterations(&mut self, iterations: usize)
        requires
            old(self).red_bot.wf(),
            old(self).yellow_bot.wf(),
            old(self).red_bot.played_choices@.len() == 0,
            old(self).yellow_bot.played_choices@.len() == 0,
        ensures
            final(self).red_bot.wf(),
            final(self).yellow_bot.wf(),
            final(self).red_bot.played_choices@.len() == 0,
            final(self).yellow_bot.played_choices@.len() == 0,
            ({
                let end = board_position_training_fold(
                    old(self).red_bot.state(),
                    old(self).yellow_bot.state(),
                    iterations as int,
                );
                &&& final(self).red_bot.state() == end.0
                &&& final(self).yellow_bot.state() == end.1
            }),
    {
        let mut iteration: usize = 0;
        while iteration < iterations
            invariant
                iteration <= iterations,
                self.red_bot.wf(),
                self.yellow_bot.wf(),
                self.red_bot.played_choices@.len() == 0,
                self.yellow_bot.played_choices@.len() == 0,
                board_position_training_fold(
                    old(self).red_bot.state(),
                    old(self).yellow_bot.state(),
                    iterations as int,
                ) == board_position_training_fold(
                    self.red_bot.state(),
                    self.yellow_bot.state(),
                    iterations - iteration,
                ),
            decreases iterations - iteration,
        {
            let ghost pre_red = self.red_bot.state();
            let ghost pre_yellow = self.yellow_bot.state();
            let mut game = Game::new();
            self.start_match(&mut game);
            proof {
                let m = board_position_match_states(pre_red, pre_yellow);
                assert(self.red_bot.played_choices@ =~= Seq::<Choice>::empty());
                assert(self.yellow_bot.played_choices@ =~= Seq::<Choice>::empty());
                assert(self.red_bot.state() == m.0);
                assert(self.yellow_bot.state() == m.1);
            }
            core::mem::swap(&mut self.red_bot, &mut self.yellow_bot);
            iteration += 1;
        }
    }
}

/// Pits two agents against each other for `games` games without any
/// learning or logging, swapping colors (and the tallies with them) after
/// each game.  Returns (ties, first agent's wins, second agent's wins),
/// counted under the color swapping just as the games were played.
pub fn test_bot_vs_bot(bot_1: &mut Bot, bot_2: &mut Bot, games: usize) -> (r: (i32, i32, i32))
    requires
        old(bot_1).wf(),
        old(bot_2).wf(),
        games <= 0x7fffffff,
    ensures
        final(bot_1).wf(),
        final(bot_2).wf(),
        r.0 + r.1 + r.2 == games,
        r.0 >= 0 && r.1 >= 0 && r.2 >= 0,
        ({
            let end = versus_fold(old(bot_1).state(), old(bot_2).state(), 0, 0, 0, games as int);
            &&& final(bot_1).state() == end.0
            &&& final(bot_2).state() == end.1
            &&& r.0 == end.2
            &&& r.1 == end.3
            &&& r.2 == end.4
        }),
{
    let mut ties: i32 = 0;
    let mut bot_1_wins: i32 = 0;
    let mut bot_2_wins: i32 = 0;
    let mut played: usize = 0;
    while played < games
        invariant
            bot_1.wf(),
            bot_2.wf(),
            games <= 0x7fffffff,
            played <= games,
            ties + bot_1_wins + bot_2_wins == played,
            ties >= 0 && bot_1_wins >= 0 && bot_2_wins >= 0,
            versus_fold(old(bot_1).state(), old(bot_2).state(), 0, 0, 0, games as int)
                == versus_fold(
                bot_1.state(),
                bot_2.state(),
                ties as int,
                bot_1_wins as int,
                bot_2_wins as int,
                games - played,
            ),
        decreases games - played,
    {
        let ghost pre_first = bot_1.state();
        let ghost pre_second = bot_2.state();
        let mut game = Game::new();
        let result = play_free_game(bot_1, bot_2, &mut game);
        proof {
            let end = free_play_fold(pre_first, pre_second, fresh_board(), Chip::Red);
            assert(bot_1.state() == end.0);
            assert(bot_2.state() == end.1);
            assert(result == end.3);
        }
        match result {
            GameResult::RedWon => {
                bot_1_wins += 1;
            },
            GameResult::YellowWon => {
                bot_2_wins += 1;
            },
            GameResult::Tie => {
                ties += 1;
            },
        }
        core::mem::swap(bot_1, bot_2);
        let swap_wins = bot_1_wins;
        bot_1_wins = bot_2_wins;
        bot_2_wins = swap_wins;
        played += 1;
    }
    (ties, bot_1_wins, bot_2_wins)
}

/// One unlogged game at the specification level: both agents draw columns
/// and advance their memories and streams, but neither logs a ply.  The
/// guard cases never arise in a real game and bottom out in a tie.
pub open spec fn free_play_fold(red: AgentState, yellow: AgentState, board: Board, turn: Chip) -> (
    AgentState,
    AgentState,
    Board,
    GameResult,
)
    decreases 42 - board.count_chips(),
    via free_play_fold_decreases
{
    if !board.wf() || board.filled_spec() || red.expl < 0 || yellow.expl < 0 {
        (red, yellow, board, GameResult::Tie)
    } else {
        let acting = if turn == Chip::Red {
            red
        } else {
            yellow
        };
        let (col, mem2) = Bot::choose_result(acting.mem, acting.rand, acting.expl, board);
        let acting2 = AgentState {
            mem: mem2,
            log: acting.log,
            rand: next_rand(acting.rand),
            expl: acting.expl,
        };
        let red2 = if turn == Chip::Red {
            acting2
        } else {
            red
        };
        let yellow2 = if turn == Chip::Red {
            yellow
        } else {
            acting2
        };
        let row = board.col_height(col);
        let board2 = board.place_spec(col, turn);
        if board2.winner_spec(col, row) is Some {
            (
                red2,
                yellow2,
                board2,
                if turn == Chip::Red {
                    GameResult::RedWon
                } else {
                    GameResult::YellowWon
                },
            )
        } else if board2.filled_spec() {
            (red2, yellow2, board2, GameResult::Tie)
        } else {
            free_play_fold(red2, yellow2, board2, turn.spec_opposite())
        }
    }
}

#[via_fn]
proof fn free_play_fold_decreases(red: AgentState, yellow: AgentState, board: Board, turn: Chip) {
    lemma_count_chips_bounds(board);
    if !(!board.wf() || board.filled_spec() || red.expl < 0 || yellow.expl < 0) {
        let acting = if turn == Chip::Red {
            red
        } else {
            yellow
        };
        let (k, swapped) = Bot::canonical_key(acting.mem, board);
        let m1 = Bot::canonical_mem(acting.mem, board);
        let w = m1[k];
        let maxw = Bot::best_weight_upto(board, w, swapped, 7);
        let threshold = Bot::threshold_spec(maxw, acting.expl);
        lemma_unfilled_has_choice(board);
        crate::bot::lemma_best_weight_props(board, w, swapped, 7);
        lemma_admissible_nonempty(board, w, swapped, threshold);
        let col = Bot::choose_result(acting.mem, acting.rand, acting.expl, board).0;
        assert(0 <= col < 7 && board.available_spec(col));
        lemma_available_height(board, col);
        lemma_col_height_props(board, col);
        lemma_place_count(board, col, turn);
        if board.count_chips() == 42 {
            lemma_count_full(board);
        }
    }
}

/// The two agents' states and the running tallies after `n` unlogged
/// games, agents and tallies swapping sides after each game.
pub open spec fn versus_fold(
    first: AgentState,
    second: AgentState,
    ties: int,
    first_wins: int,
    second_wins: int,
    n: int,
) -> (AgentState, AgentState, int, int, int)
    decreases n,
{
    if n <= 0 {
        (first, second, ties, first_wins, second_wins)
    } else {
        let end = free_play_fold(first, second, fresh_board(), Chip::Red);
        let t2 = if end.3 == GameResult::Tie {
            ties + 1
        } else {
            ties
        };
        let fw = if end.3 == GameResult::RedWon {
            first_wins + 1
        } else {
            first_wins
        };
        let sw = if end.3 == GameResult::YellowWon {
            second_wins + 1
        } else {
            second_wins
        };
        versus_fold(end.1, end.0, t2, sw, fw, n - 1)
    }
}

/// Plays `game` to its end with no logging and no learning: red's moves
/// come from the first agent, yellow's from the second.  The whole game is
/// pinned by `free_play_fold`.
fn play_free_game(bot_1: &mut Bot, bot_2: &mut Bot, game: &mut Game) -> (result: GameResult)
    requires
        old(bot_1).wf(),
        old(bot_2).wf(),
        old(game).board.wf(),
        old(game).board.count_chips() == 0,
        old(game).turn == Chip::Red,
    ensures
        final(bot_1).wf(),
        final(bot_2).wf(),
        final(game).board.wf(),
        ({
            let end = free_play_fold(
                old(bot_1).state(),
                old(bot_2).state(),
                old(game).board,
                Chip::Red,
            );
            &&& final(bot_1).state() == end.0
            &&& final(bot_2).state() == end.1
            &&& final(game).board == end.2
            &&& result == end.3
        }),
        match result {
            GameResult::Tie => final(game).board.filled_spec(),
            GameResult::RedWon => exists|c: int, r: int|
                #[trigger] final(game).board.winner_spec(c, r) == Some(Chip::Red),
            GameResult::YellowWon => exists|c: int, r: int|
                #[trigger] final(game).board.winner_spec(c, r) == Some(Chip::Yellow),
        },
{
    loop
        invariant
            bot_1.wf(),
            bot_2.wf(),
            game.board.wf(),
            game.board.count_chips() < 42,
            free_play_fold(old(bot_1).state(), old(bot_2).state(), old(game).board, Chip::Red)
                == free_play_fold(bot_1.state(), bot_2.state(), game.board, game.turn),
        decreases 42 - game.board.count_chips(),
    {
        let ghost pre_first = bot_1.state();
        let ghost pre_second = bot_2.state();
        let ghost pre_board = game.board;
        let ghost pre_turn = game.turn;
        proof {
            lemma_count_chips_bounds(game.board);
            if game.board.filled_spec() {
                lemma_filled_count(game.board);
            }
            lemma_unfilled_has_choice(game.board);
        }
        let choice = match game.turn {
            Chip::Red => bot_1.choose_move(game.board),
            Chip::Yellow => bot_2.choose_move(game.board),
        };
        let column = choice.column;
        proof {
            lemma_col_height_props(game.board, column as int);
            lemma_available_height(game.board, column as int);
            lemma_place_count(game.board, column as int, game.turn);
            crate::board::lemma_place_preserves_wf(game.board, column as int, game.turn);
        }
        let placed_row = match game.board.place_chip(column, game.turn) {
            Ok(v) => v,
            Err(_) => {
                proof {
                    assert(false);
                }
                0
            },
        };
        proof {
            let acting = if pre_turn == Chip::Red {
                pre_first
            } else {
                pre_second
            };
            let cr = Bot::choose_result(acting.mem, acting.rand, acting.expl, pre_board);
            assert(cr.0 == column as int);
            let acting2 = AgentState {
                mem: cr.1,
                log: acting.log,
                rand: next_rand(acting.rand),
                expl: acting.expl,
            };
            if pre_turn == Chip::Red {
                assert(bot_1.state() == acting2);
                assert(bot_2.state() == pre_second);
            } else {
                assert(bot_2.state() == acting2);
                assert(bot_1.state() == pre_first);
            }
            assert(game.board == pre_board.place_spec(cr.0, pre_turn));
            assert(placed_row as int == pre_board.col_height(cr.0));
        }
        if game.board.winner(column, placed_row).is_some() {
            proof {
                assert(game.board.cell(column as int, placed_row as int) == pre_turn.code());
                match pre_turn {
                    Chip::Red => assert(game.board.chip_at_spec(
                        column as int,
                        placed_row as int,
                    ) == Some(Chip::Red)),
                    Chip::Yellow => assert(game.board.chip_at_spec(
                        column as int,
                        placed_row as int,
                    ) == Some(Chip::Yellow)),
                }
                assert(game.board.winner_spec(column as int, placed_row as int) == Some(
                    pre_turn,
                ));
                assert(free_play_fold(pre_first, pre_second, pre_board, pre_turn) == (
                    bot_1.state(),
                    bot_2.state(),
                    game.board,
                    if pre_turn == Chip::Red {
                        GameResult::RedWon
                    } else {
                        GameResult::YellowWon
                    },
                ));
            }
            return match game.turn {
                Chip::Red => GameResult::RedWon,
                Chip::Yellow => GameResult::YellowWon,
            };
        } else if game.board.filled() {
            proof {
                assert(free_play_fold(pre_first, pre_second, pre_board, pre_turn) == (
                    bot_1.state(),
                    bot_2.state(),
                    game.board,
                    GameResult::Tie,
                ));
            }
            return GameResult::Tie;
        }
        game.next_turn();
        proof {
            assert(free_play_fold(pre_first, pre_second, pre_board, pre_turn) == free_play_fold(
                bot_1.state(),
                bot_2.state(),
                game.board,
                game.turn,
            ));
            lemma_count_chips_bounds(game.board);
            if game.board.count_chips() == 42 {
                lemma_count_full(game.board);
            }
        }
    }
}

} // verus!