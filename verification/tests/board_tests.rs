use gomoku_lib::board::Board;
use gomoku_lib::TilePointer;
use std::str::FromStr;

const BOARD_DATA: &str = "---------
---------
---x-----
---xoo---
----xo---
---xxxo--
------oo-
--------x
---------";
const BOARD_SIZE: u8 = 9;

#[test]
fn test_from_string() {
    let board = Board::from_str(BOARD_DATA).unwrap();

    assert_eq!(board.size(), BOARD_SIZE);
}

#[test]
fn test_initialize_sequences() {
    let board_size = BOARD_SIZE;

    let board = Board::new_empty(board_size);

    assert!(!board.sequences().is_empty());

    let mut visits = vec![0; board_size.pow(2) as usize];

    for sequence in board.sequences().iter() {
        for index in sequence.iter() {
            visits[*index] += 1;
        }
    }

    for visit in &visits {
        assert_eq!(*visit, 4);
    }
}

#[test]
fn test_get_index() {
    let x = 2;
    let y = 3;
    let tile = TilePointer { x, y };
    let target = (x + y * BOARD_SIZE) as usize;

    assert_eq!(Board::get_index_raw(BOARD_SIZE, x, y), target);
    assert_eq!(Board::get_index(BOARD_SIZE, tile), target);
}

#[test]
fn test_get_relevant_sequences() {
    let board = Board::from_str(BOARD_DATA).unwrap();

    for x in 0..BOARD_SIZE {
        for y in 0..BOARD_SIZE {
            let tile = TilePointer { x, y };
            let target = Board::get_index(BOARD_SIZE, tile);

            let sequences = board.relevant_sequences(tile);

            sequences
                .iter()
                .for_each(|sequence| assert!(sequence.iter().any(|index| *index == target)));
        }
    }
}
