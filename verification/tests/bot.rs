use connect_four::board::{Board, Chip};
use connect_four::bot::{Action, Bot, GameResult, Rand, Weight};

fn key_of(board: &Board) -> u128 {
    let (upper, lower) = board.as_pair();
    ((upper as u128) << 32) | (lower as u128)
}

#[test]
fn lcg_stream() {
    let mut rand = Rand::new(1);
    assert_eq!(rand.next(), (1103515245 + 12345) % 0x8000_0000);
    let s1 = (1103515245u64 + 12345) % 0x8000_0000;
    let s2 = ((1103515245u64 * s1 + 12345) % 0x8000_0000) as usize;
    assert_eq!(rand.next(), s2);
    let mut reseeded = Rand::new(1 + (1 << 31));
    let mut plain = Rand::new(1);
    assert_eq!(reseeded.next(), plain.next());
}

#[test]
fn choose_on_blank_memory_is_uniform_draw() {
    let mut bot = Bot::new(5, 0);
    let board = Board::new();
    let choice = bot.choose_move(board);
    assert_eq!(choice.board, board);
    assert_eq!(choice.column, 12345 % 7);
    assert_eq!(bot.memory.len(), 1);
    assert_eq!(
        bot.memory.get(&key_of(&board)),
        Some(&Weight::from_weights([0; 7]))
    );
}

#[test]
fn mirrored_board_shares_its_memory_row() {
    let mut bot = Bot::new(5, 7);
    let mut board = Board::new();
    board.place_chip(1, Chip::Red).unwrap();
    let _ = bot.choose_move(board);
    assert_eq!(bot.memory.len(), 1);
    let mirrored = board.swap();
    let _ = bot.choose_move(mirrored);
    assert_eq!(bot.memory.len(), 1);
    assert!(bot.memory.contains_key(&key_of(&board)));
    assert!(!bot.memory.contains_key(&key_of(&mirrored)));
}

#[test]
fn reward_saturates_last_ply_and_bumps_earlier_ones() {
    let mut bot = Bot::new(5, 0);
    let first = Board::new();
    let mut second = Board::new();
    second.place_chip(3, Chip::Red).unwrap();
    second.place_chip(3, Chip::Yellow).unwrap();
    let c1 = bot.choose_move(first);
    bot.remember_played_choice(c1);
    let c2 = bot.choose_move(second);
    bot.remember_played_choice(c2);
    let (col1, col2) = (c1.column, c2.column);
    bot.learn_from_played_choices(Action::Reward(10));
    bot.clear_played_choices();
    assert!(bot.played_choices.is_empty());
    let w1 = bot.memory.get(&key_of(&first)).unwrap();
    // ply 0: severity 0 * 0 / 50 = 0, so the weight moves by the base alone
    assert_eq!(w1.0[col1], 10);
    let w2 = bot.memory.get(&key_of(&second)).unwrap();
    // the last ply is pinned to the extreme
    assert_eq!(w2.0[col2], i16::MAX);
}

#[test]
fn punish_saturates_at_the_bottom() {
    let mut bot = Bot::new(5, 99);
    let board = Board::new();
    let c = bot.choose_move(board);
    bot.remember_played_choice(c);
    bot.learn_from_played_choices(Action::Punish(3));
    bot.clear_played_choices();
    let w = bot.memory.get(&key_of(&board)).unwrap();
    // a single logged ply is the last ply: pinned to the minimum
    assert_eq!(w.0[c.column], i16::MIN);
}

#[test]
fn board_lesson_pins_outcome_and_adds_heuristic() {
    let mut bot = Bot::new(5, 4);
    let first = Board::new();
    let mut second = Board::new();
    second.place_chip(0, Chip::Red).unwrap();
    let c1 = bot.choose_move(first);
    bot.remember_played_choice(c1);
    let c2 = bot.choose_move(second);
    bot.remember_played_choice(c2);
    let (col1, col2) = (c1.column, c2.column);
    bot.learn_from_board(Chip::Red, &GameResult::RedWon);
    bot.clear_played_choices();
    // ply 0 moves by the heuristic of its (empty) board: zero
    let w1 = bot.memory.get(&key_of(&first)).unwrap();
    assert_eq!(w1.0[col1], 0);
    // the last ply is pinned to the winning extreme
    let w2 = bot.memory.get(&key_of(&second)).unwrap();
    assert_eq!(w2.0[col2], i16::MAX);
}

#[test]
fn tie_leaves_last_ply_weight_alone() {
    let mut bot = Bot::new(5, 4);
    let board = Board::new();
    let c = bot.choose_move(board);
    bot.remember_played_choice(c);
    bot.learn_from_board(Chip::Yellow, &GameResult::Tie);
    bot.clear_played_choices();
    let w = bot.memory.get(&key_of(&board)).unwrap();
    assert_eq!(w.0[c.column], 0);
}

#[test]
fn exploration_margin_narrows_the_draw() {
    // with margin 0 only the best column qualifies
    let mut bot = Bot::new(0, 0);
    let board = Board::new();
    let c = bot.choose_move(board);
    bot.remember_played_choice(c);
    bot.learn_from_played_choices(Action::Reward(10));
    bot.clear_played_choices();
    // that column is now strictly best, so margin 0 must pick it again
    let again = bot.choose_move(board);
    assert_eq!(again.column, c.column);
}
