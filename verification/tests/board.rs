use connect_four::board::{mask, padded_mask, Board, Chip, Minmaxxing, PlaceChipError};

#[test]
fn test_mask() {
    assert_eq!(mask(0), 0b0);
    assert_eq!(mask(1), 0b1);
    assert_eq!(mask(5), 0b11111);
    assert_eq!(mask(12), 0b11_11_11_11_11_11);

    assert_eq!(padded_mask(0, 0), 0b0);
    assert_eq!(padded_mask(1, 0), 0b1);
    assert_eq!(padded_mask(5, 5), 0b11111_00000);
    assert_eq!(padded_mask(12, 3), 0b11_11_11_11_11_11_000);
}

#[test]
fn set_get() {
    let mut board = Board::new();
    board.set_chip_at(2, 2, Chip::Red);
    board.set_chip_at(3, 4, Chip::Yellow);
    assert_eq!(board.chip_at(2, 2), Some(Chip::Red));
    assert_eq!(board.chip_at(3, 4), Some(Chip::Yellow));
    assert_eq!(board.chip_at(4, 3), None);
}

#[test]
fn from_pair_to_pair_ok() {
    let mut board = Board::new();
    board.set_chip_at(4, 3, Chip::Red);
    board.set_chip_at(6, 0, Chip::Red);
    assert_eq!(Board::from_pair(board.as_pair()), board)
}

#[test]
fn set_get_last_column() {
    let mut board = Board::new();
    board.set_chip_at(0, 0, Chip::Red);
    board.set_chip_at(6, 0, Chip::Red);
    board.set_chip_at(6, 1, Chip::Red);
    assert_eq!(board.chip_at(6, 0), Some(Chip::Red));
}

#[test]
fn swap() {
    let mut board = Board::new();
    board.set_chip_at(2, 2, Chip::Red);
    board.set_chip_at(3, 4, Chip::Yellow);
    let board = board.swap();
    let column_end_position = Board::COLUMN_LEN - 1;
    assert_eq!(board.chip_at(column_end_position - 2, 2), Some(Chip::Red));
    assert_eq!(
        board.chip_at(column_end_position - 3, 4),
        Some(Chip::Yellow)
    );
}

#[test]
fn place() {
    let mut board = Board::new();
    let _ = board.place_chip(2, Chip::Red);
    let _ = board.place_chip(3, Chip::Yellow);
    let _ = board.place_chip(3, Chip::Red);
    assert_eq!(board.chip_at(2, 0), Some(Chip::Red));
    assert_eq!(board.chip_at(3, 0), Some(Chip::Yellow));
    assert_eq!(board.chip_at(3, 1), Some(Chip::Red));
}

#[test]
fn winner() {
    let mut board = Board::new();
    let _ = board.place_chip(0, Chip::Red);
    let _ = board.place_chip(1, Chip::Red);
    let _ = board.place_chip(2, Chip::Red);
    let _ = board.place_chip(3, Chip::Red);
    assert_eq!(board.winner(3, 0), Some(Chip::Red));
    assert_eq!(board.winner(0, 0), Some(Chip::Red));
    assert_eq!(board.winner(2, 0), Some(Chip::Red));
    assert_eq!(board.winner(2, 1), None);
    assert_eq!(board.winner(4, 0), None);
}

#[test]
fn swap_boawd() {
    let mut board = Board::new();
    let _ = board.place_chip(0, Chip::Red).unwrap();
    let _ = board.place_chip(0, Chip::Red).unwrap();
    let _ = board.place_chip(1, Chip::Red).unwrap();
    let _ = board.place_chip(2, Chip::Red).unwrap();
    let _ = board.place_chip(3, Chip::Red).unwrap();
    assert!(board.available_column_choices().into_iter().all(|v| v));
    let _ = board.place_chip(0, Chip::Red).unwrap();
    let _ = board.place_chip(0, Chip::Red).unwrap();
    let _ = board.place_chip(0, Chip::Red).unwrap();
    let _ = board.place_chip(0, Chip::Red).unwrap();
    let _ = board.place_chip(0, Chip::Red).unwrap_err();
    let _ = board.place_chip(0, Chip::Red).unwrap_err();
    assert_eq!(
        board
            .available_column_choices()
            .into_iter()
            .filter(|&v| v)
            .count(),
        6
    );
}

#[test]
fn can_win_diagonally_ltr() {
    let mut board = Board::new();

    let _ = board.place_chip(0, Chip::Yellow).unwrap();

    let _ = board.place_chip(1, Chip::Red).unwrap();
    let _ = board.place_chip(1, Chip::Yellow).unwrap();

    let _ = board.place_chip(2, Chip::Red).unwrap();
    let _ = board.place_chip(2, Chip::Red).unwrap();
    let _ = board.place_chip(2, Chip::Yellow).unwrap();

    let _ = board.place_chip(3, Chip::Red).unwrap();
    let _ = board.place_chip(3, Chip::Red).unwrap();
    let _ = board.place_chip(3, Chip::Red).unwrap();
    let _ = board.place_chip(3, Chip::Yellow).unwrap();

    assert_eq!(board.winner(0, 0), Some(Chip::Yellow));
    assert_eq!(board.winner(1, 1), Some(Chip::Yellow));
    assert_eq!(board.winner(2, 2), Some(Chip::Yellow));
    assert_eq!(board.winner(3, 3), Some(Chip::Yellow));
}

#[test]
fn can_win_diagonally_rtl() {
    let mut board = Board::new();

    let _ = board.place_chip(3, Chip::Yellow).unwrap();

    let _ = board.place_chip(2, Chip::Red).unwrap();
    let _ = board.place_chip(2, Chip::Yellow).unwrap();

    let _ = board.place_chip(1, Chip::Red).unwrap();
    let _ = board.place_chip(1, Chip::Red).unwrap();
    let _ = board.place_chip(1, Chip::Yellow).unwrap();

    let _ = board.place_chip(0, Chip::Red).unwrap();
    let _ = board.place_chip(0, Chip::Red).unwrap();
    let _ = board.place_chip(0, Chip::Red).unwrap();
    let _ = board.place_chip(0, Chip::Yellow).unwrap();

    assert_eq!(board.winner(3, 0), Some(Chip::Yellow));
    assert_eq!(board.winner(2, 1), Some(Chip::Yellow));
    assert_eq!(board.winner(1, 2), Some(Chip::Yellow));
    assert_eq!(board.winner(0, 3), Some(Chip::Yellow));
}

#[test]
fn available_choices() {
    let mut board = Board::new();
    let _ = board.place_chip(0, Chip::Red).unwrap();
    let _ = board.place_chip(0, Chip::Red).unwrap();
    let _ = board.place_chip(1, Chip::Red).unwrap();
    let _ = board.place_chip(2, Chip::Red).unwrap();
    let _ = board.place_chip(3, Chip::Red).unwrap();
    assert!(board.available_column_choices().into_iter().all(|v| v));
    let _ = board.place_chip(0, Chip::Red).unwrap();
    let _ = board.place_chip(0, Chip::Red).unwrap();
    let _ = board.place_chip(0, Chip::Red).unwrap();
    let _ = board.place_chip(0, Chip::Red).unwrap();
    let _ = board.place_chip(0, Chip::Red).unwrap_err();
    let _ = board.place_chip(0, Chip::Red).unwrap_err();
    assert_eq!(
        board
            .available_column_choices()
            .into_iter()
            .filter(|&v| v)
            .count(),
        6
    );
}

#[test]
fn win_possibilities_at_position() {
    let mut board = Board::new();

    let _ = board.place_chip(0, Chip::Yellow).unwrap();
    let _ = board.place_chip(1, Chip::Yellow).unwrap();
    let _ = board.place_chip(2, Chip::Yellow).unwrap();
    assert_eq!(
        board.win_possibilities_at_position(2, 0),
        Some((Chip::Yellow, 5))
    )
}

#[test]
fn win_possibilities_at_position_for_document() {
    let mut board = Board::new();

    let _ = board.place_chip(0, Chip::Red).unwrap();
    let _ = board.place_chip(0, Chip::Red).unwrap();

    let _ = board.place_chip(2, Chip::Yellow).unwrap();

    let _ = board.place_chip(3, Chip::Red).unwrap();
    let _ = board.place_chip(3, Chip::Yellow).unwrap();

    let _ = board.place_chip(5, Chip::Yellow).unwrap();
    let _ = board.place_chip(5, Chip::Yellow).unwrap();

    let _ = board.place_chip(6, Chip::Red).unwrap();
    let _ = board.place_chip(6, Chip::Yellow).unwrap();

    assert_eq!(
        board.win_possibilities_at_position(3, 1),
        Some((Chip::Yellow, 8))
    )
}

#[test]
fn place_rejects_bad_columns() {
    let mut board = Board::new();
    match board.place_chip(7, Chip::Red) {
        Err(PlaceChipError::InvalidColumn) => (),
        other => panic!("expected InvalidColumn, got {:?}", other),
    }
    for _ in 0..6 {
        board.place_chip(4, Chip::Yellow).unwrap();
    }
    match board.place_chip(4, Chip::Red) {
        Err(PlaceChipError::ColumnOccupied) => (),
        other => panic!("expected ColumnOccupied, got {:?}", other),
    }
}

#[test]
fn mirror_twice_is_identity() {
    let mut board = Board::new();
    let _ = board.place_chip(0, Chip::Red).unwrap();
    let _ = board.place_chip(2, Chip::Yellow).unwrap();
    let _ = board.place_chip(2, Chip::Red).unwrap();
    let _ = board.place_chip(6, Chip::Yellow).unwrap();
    assert_eq!(board.swap().swap(), board);
    assert_eq!(Board::new().swap(), Board::new());
}

#[test]
fn filled_board_has_no_choices() {
    let mut board = Board::new();
    assert!(!board.filled());
    for column in 0..7 {
        for row in 0..6 {
            let chip = if (column + row) % 2 == 0 {
                Chip::Red
            } else {
                Chip::Yellow
            };
            let placed = board.place_chip(column, chip).unwrap();
            assert_eq!(placed, row);
        }
    }
    assert!(board.filled());
    assert!(board.available_column_choices().into_iter().all(|v| !v));
}

#[test]
fn corner_chip_fits_three_lines() {
    let mut board = Board::new();
    let _ = board.place_chip(0, Chip::Red).unwrap();
    assert_eq!(
        board.win_possibilities_at_position(0, 0),
        Some((Chip::Red, 3))
    );
    assert_eq!(board.value_of_board(Chip::Red), 3);
    assert_eq!(board.value_of_board(Chip::Yellow), -3);
}

#[test]
fn minmax_takes_the_winning_column() {
    let mut board = Board::new();
    for column in 4..7 {
        for row in 0..6 {
            let chip = if (column + row) % 2 == 0 {
                Chip::Red
            } else {
                Chip::Yellow
            };
            board.place_chip(column, chip).unwrap();
        }
    }
    let _ = board.place_chip(0, Chip::Red).unwrap();
    let _ = board.place_chip(1, Chip::Red).unwrap();
    let _ = board.place_chip(2, Chip::Red).unwrap();
    let _ = board.place_chip(0, Chip::Yellow).unwrap();
    let _ = board.place_chip(1, Chip::Yellow).unwrap();
    let _ = board.place_chip(2, Chip::Yellow).unwrap();
    match board.minmax(Chip::Red, Chip::Red) {
        Minmaxxing::Position(column, score) => {
            assert_eq!(column, 3);
            assert_eq!(score, 1000);
        }
        Minmaxxing::Result(_) => panic!("search on an open board must pick a column"),
    }
}
