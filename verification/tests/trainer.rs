use connect_four::board::Chip;
use connect_four::bot::Bot;
use connect_four::trainer::{
    test_bot_vs_bot, BotTrainerBoardPosition, BotTrainerGameResult, Game, GladiatorBotTrainer,
    MinMaxBotTrainer,
};

#[test]
fn game_starts_with_red() {
    let game = Game::new();
    assert_eq!(game.turn, Chip::Red);
    assert!(!game.board.filled());
    let mut game = game;
    game.next_turn();
    assert_eq!(game.turn, Chip::Yellow);
}

#[test]
fn bot_games_always_end() {
    let mut bot_1 = Bot::new(50, 0x80085);
    let mut bot_2 = Bot::new(50, 0x58008);
    let (ties, wins_1, wins_2) = test_bot_vs_bot(&mut bot_1, &mut bot_2, 25);
    assert_eq!(ties + wins_1 + wins_2, 25);
    assert!(ties >= 0 && wins_1 >= 0 && wins_2 >= 0);
}

#[test]
fn game_result_training_round_trip() {
    let red = Bot::new(50, 0x80085);
    let yellow = Bot::new(50, 0x58008);
    let mut trainer = BotTrainerGameResult::new(red, yellow);
    trainer.start_with_iterations(5);
    assert!(trainer.red_bot.played_choices.is_empty());
    assert!(trainer.yellow_bot.played_choices.is_empty());
    assert!(trainer.red_bot.memory.len() > 0);
    assert!(trainer.yellow_bot.memory.len() > 0);
}

#[test]
fn board_position_training_round_trip() {
    let red = Bot::new(50, 0x80085);
    let yellow = Bot::new(50, 0x58008);
    let mut trainer = BotTrainerBoardPosition::new(red, yellow);
    trainer.start_with_iterations(5);
    assert!(trainer.red_bot.played_choices.is_empty());
    assert!(trainer.yellow_bot.played_choices.is_empty());
    assert!(trainer.red_bot.memory.len() > 0);
    assert!(trainer.yellow_bot.memory.len() > 0);
}

#[test]
fn minmax_trainer_keeps_its_bot_rested() {
    let bot = Bot::new(5, 0x1234);
    let trainer = MinMaxBotTrainer::new(bot);
    assert_eq!(trainer.bot_turn, Chip::Red);
    assert!(trainer.bot.played_choices.is_empty());
}

#[test]
fn gladiator_arena_of_one_returns_one_agent() {
    let trainer = GladiatorBotTrainer::new(1);
    assert_eq!(trainer.fights.len(), 1);
    assert!(trainer.remainder.is_none());
    let champion = trainer.the_one_bot_to_rule_them_all(1);
    assert!(champion.played_choices.is_empty());
}

#[test]
fn gladiator_arena_of_three_still_converges() {
    let trainer = GladiatorBotTrainer::new(3);
    let champion = trainer.the_one_bot_to_rule_them_all(1);
    assert!(champion.played_choices.is_empty());
}

#[test]
fn training_is_reproducible() {
    let mut first = BotTrainerGameResult::new(Bot::new(50, 0x80085), Bot::new(50, 0x58008));
    first.start_with_iterations(3);
    let mut second = BotTrainerGameResult::new(Bot::new(50, 0x80085), Bot::new(50, 0x58008));
    second.start_with_iterations(3);
    assert_eq!(first.red_bot.memory, second.red_bot.memory);
    assert_eq!(first.yellow_bot.memory, second.yellow_bot.memory);
    assert_eq!(first.red_bot.rand, second.red_bot.rand);
}

#[test]
fn tournaments_are_reproducible() {
    let first = GladiatorBotTrainer::new(2).the_one_bot_to_rule_them_all(2);
    let second = GladiatorBotTrainer::new(2).the_one_bot_to_rule_them_all(2);
    assert_eq!(first.memory, second.memory);
    assert_eq!(first.rand, second.rand);
    assert_eq!(first.exploration, second.exploration);
}
