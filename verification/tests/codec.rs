use connect_four::board::{Board, Chip};
use connect_four::bot::Weight;
use connect_four::codec::{deserialize_records, deserialize_weights, serialize_weights, DecodeError};

#[test]
fn serde() {
    let board = Board::from_pair((0x5823847547321748, 0x42348245));
    let weights = Weight::from_weights([0x2813, 0x2891, 0x3931, 0x3931, 0x5219, 0x4294, 0x2148]);

    let result = deserialize_weights(&serialize_weights(&board, &weights)).unwrap();

    assert_eq!((board, weights), result);
}

#[test]
fn records_are_26_bytes_little_endian() {
    let board = Board::from_pair((0x0102030405060708, 0x090a0b0c));
    let weights = Weight::from_weights([1, -1, 0x1234, i16::MIN, i16::MAX, 0, -2]);
    let bytes = serialize_weights(&board, &weights);
    assert_eq!(bytes.len(), 26);
    assert_eq!(&bytes[0..8], &[0x08, 0x07, 0x06, 0x05, 0x04, 0x03, 0x02, 0x01]);
    assert_eq!(&bytes[8..12], &[0x0c, 0x0b, 0x0a, 0x09]);
    assert_eq!(&bytes[12..14], &[0x01, 0x00]);
    assert_eq!(&bytes[14..16], &[0xff, 0xff]);
    assert_eq!(&bytes[16..18], &[0x34, 0x12]);
    assert_eq!(&bytes[18..20], &[0x00, 0x80]);
    assert_eq!(&bytes[20..22], &[0xff, 0x7f]);
    assert_eq!(&bytes[22..24], &[0x00, 0x00]);
    assert_eq!(&bytes[24..26], &[0xfe, 0xff]);
}

#[test]
fn truncated_records_are_rejected() {
    assert_eq!(deserialize_weights(&[]), Err(DecodeError::Truncated));
    assert_eq!(deserialize_weights(&[0u8; 25]), Err(DecodeError::Truncated));
    assert_eq!(deserialize_weights(&[0u8; 27]), Err(DecodeError::Truncated));
    assert!(deserialize_weights(&[0u8; 26]).is_ok());
}

#[test]
fn round_trip_of_a_played_board() {
    let mut board = Board::new();
    board.place_chip(3, Chip::Red).unwrap();
    board.place_chip(3, Chip::Yellow).unwrap();
    board.place_chip(6, Chip::Red).unwrap();
    let weights = Weight::from_weights([-5, 0, 5, 100, -100, i16::MAX, i16::MIN]);
    let (back_board, back_weights) =
        deserialize_weights(&serialize_weights(&board, &weights)).unwrap();
    assert_eq!(back_board, board);
    assert_eq!(back_weights, weights);
}

#[test]
fn streams_decode_record_by_record() {
    let board_a = Board::from_pair((1, 2));
    let weights_a = Weight::from_weights([1, 2, 3, 4, 5, 6, 7]);
    let board_b = Board::from_pair((0xffff_ffff_ffff_ffff, 0xffff_ffff));
    let weights_b = Weight::from_weights([-1, -2, -3, -4, -5, -6, -7]);
    let mut stream = serialize_weights(&board_a, &weights_a);
    stream.extend_from_slice(&serialize_weights(&board_b, &weights_b));
    let records = deserialize_records(&stream).unwrap();
    assert_eq!(records, vec![(board_a, weights_a), (board_b, weights_b)]);

    assert_eq!(deserialize_records(&[]).unwrap(), vec![]);

    stream.push(0);
    assert_eq!(deserialize_records(&stream), Err(DecodeError::Truncated));
}
