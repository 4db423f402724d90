use gomoku_lib::board::{Board, Error};
use gomoku_lib::evaluation::shape_score;
use gomoku_lib::notation::PointerError;
use gomoku_lib::sequences::generate;
use gomoku_lib::{Player, State, TilePointer};
use std::str::FromStr;

const POSITION: &str = "---------
---------
---x-----
---xoo---
----xo---
---xxxo--
------oo-
--------x
---------";

fn swapped(text: &str) -> String {
    text.chars()
        .map(|c| match c {
            'x' => 'o',
            'o' => 'x',
            other => other,
        })
        .collect()
}

#[test]
fn every_cell_lies_on_four_lines() {
    for size in [9u8, 10, 15, 26] {
        let lines = generate(size);
        assert_eq!(lines.len(), 6 * size as usize - 2);
        let cells = size as usize * size as usize;
        let mut visits = vec![0; cells];
        for line in lines.iter() {
            for index in line.iter() {
                visits[*index] += 1;
            }
        }
        assert!(visits.iter().all(|count| *count == 4));
    }
}

#[test]
fn lines_are_found_by_their_closed_forms() {
    for size in [9usize, 15] {
        let lines = generate(size as u8);
        for x in 0..size {
            for y in 0..size {
                let cell = y * size + x;
                assert!(lines[y].contains(&cell));
                assert!(lines[size + x].contains(&cell));
                assert!(lines[2 * size + x + y].contains(&cell));
                assert!(lines[5 * size - 2 + y - x].contains(&cell));
            }
        }
    }
}

#[test]
fn generate_of_an_empty_board_has_no_lines() {
    assert!(generate(0).is_empty());
    assert_eq!(generate(1), vec![vec![0], vec![0], vec![0], vec![0]]);
}

#[test]
fn shape_table_without_hole() {
    assert_eq!(shape_score(5, 0, false), (100_000_000, true));
    assert_eq!(shape_score(5, 1, false), (100_000_000, true));
    assert_eq!(shape_score(7, 2, false), (100_000_000, true));
    assert_eq!(shape_score(4, 0, false), (0, false));
    assert_eq!(shape_score(4, 1, false), (100_000, false));
    assert_eq!(shape_score(4, 2, false), (10_000_000, false));
    assert_eq!(shape_score(3, 0, false), (0, false));
    assert_eq!(shape_score(3, 1, false), (10_000, false));
    assert_eq!(shape_score(3, 2, false), (5_000_000, false));
    assert_eq!(shape_score(2, 0, false), (0, false));
    assert_eq!(shape_score(2, 1, false), (0, false));
    assert_eq!(shape_score(2, 2, false), (2_000, false));
    assert_eq!(shape_score(1, 2, false), (0, false));
    assert_eq!(shape_score(0, 2, false), (0, false));
}

#[test]
fn shape_table_with_hole() {
    assert_eq!(shape_score(5, 0, true), (40_000, false));
    assert_eq!(shape_score(5, 1, true), (40_000, false));
    assert_eq!(shape_score(6, 2, true), (40_000, false));
    assert_eq!(shape_score(4, 0, true), (0, false));
    assert_eq!(shape_score(4, 1, true), (500, false));
    assert_eq!(shape_score(4, 2, true), (20_000, false));
    assert_eq!(shape_score(3, 2, true), (0, false));
    assert_eq!(shape_score(2, 2, true), (0, false));
}

#[test]
fn swapping_the_players_negates_the_score() {
    let board = Board::from_str(POSITION).unwrap();
    let mirror = Board::from_str(&swapped(POSITION)).unwrap();
    for player in [Player::X, Player::O] {
        let (score, _) = board.evaluate_for(player);
        let (mirrored, _) = mirror.evaluate_for(player);
        assert_eq!(mirrored, -score);
        assert_eq!(mirror.evaluate_for(player), board.evaluate_for(!player));
    }
    let eval = board.evaluate();
    let swapped_eval = mirror.evaluate();
    assert_eq!(eval.score.0, swapped_eval.score.1);
    assert_eq!(eval.score.1, swapped_eval.score.0);
    assert_eq!(eval.win.0, swapped_eval.win.1);
    assert_eq!(eval.win.1, swapped_eval.win.0);
}

#[test]
fn set_and_undo_restores_the_board() {
    let untouched = Board::from_str(POSITION).unwrap();
    let mut board = untouched.clone();
    let tile = TilePointer { x: 0, y: 0 };
    board.set_tile(tile, Some(Player::O));
    assert!(board != untouched);
    assert_eq!(*board.get_tile(tile), Some(Player::O));
    board.set_tile(tile, None);
    assert!(board == untouched);
    assert_eq!(board.tiles(), untouched.tiles());
}

#[test]
fn a_written_board_is_read_back() {
    let board = Board::from_str(POSITION).unwrap();
    let text = board.to_string();
    assert_eq!(
        text,
        " abcdefghi\n1---------\n2---------\n3---x-----\n4---xoo---\n5----xo---\n6---xxxo--\n7------oo-\n8--------x\n9---------\n"
    );
    assert!(Board::from_str(&text) == Ok(board));

    let mut wide = Board::new_empty(15);
    wide.set_tile(TilePointer { x: 14, y: 0 }, Some(Player::O));
    wide.set_tile(TilePointer { x: 0, y: 14 }, Some(Player::X));
    let text = wide.to_string();
    assert!(text.starts_with("  abcdefghijklmno\n 1--------------o\n 2-"));
    assert!(text.ends_with("\n15x--------------\n"));
    assert!(Board::from_str(&text) == Ok(wide));
}

#[test]
fn a_board_is_read_with_carriage_returns() {
    let plain = Board::from_str(POSITION).unwrap();
    let windows = POSITION.replace('\n', "\r\n") + "\r\n";
    assert!(Board::from_str(&windows) == Ok(plain));
}

#[test]
fn a_written_pointer_is_read_back() {
    for x in 0..=25u8 {
        for y in [0u8, 7, 8, 9, 98, 99, 254] {
            let tile = TilePointer { x, y };
            assert_eq!(TilePointer::try_from(tile.to_text().as_str()), Ok(tile));
        }
    }
    assert_eq!(TilePointer { x: 7, y: 7 }.to_text(), "h8");
    assert_eq!(TilePointer::from_text("h8"), Ok(TilePointer { x: 7, y: 7 }));
    assert_eq!(TilePointer::from_text("a1"), Ok(TilePointer { x: 0, y: 0 }));
    assert_eq!(TilePointer::from_text("o015"), Ok(TilePointer { x: 14, y: 14 }));
}

#[test]
fn texts_that_are_no_pointers() {
    assert_eq!(TilePointer::from_text(""), Err(PointerError::NoInput));
    assert_eq!(TilePointer::from_text("A1"), Err(PointerError::BadColumn));
    assert_eq!(TilePointer::from_text("81"), Err(PointerError::BadColumn));
    assert_eq!(TilePointer::from_text("h"), Err(PointerError::BadRow));
    assert_eq!(TilePointer::from_text("h0"), Err(PointerError::BadRow));
    assert_eq!(TilePointer::from_text("h256"), Err(PointerError::BadRow));
    assert_eq!(TilePointer::from_text("h8x"), Err(PointerError::BadRow));
    assert_eq!(TilePointer::from_text("h99999999999999999999"), Err(PointerError::BadRow));
}

#[test]
fn grids_that_are_no_boards() {
    let small = vec![vec![None; 8]; 8];
    assert!(Board::new(small) == Err(Error::TooSmall { size: 8 }));

    let mut uneven = vec![vec![None; 9]; 9];
    uneven[4] = vec![None; 7];
    uneven[6] = vec![None; 12];
    assert!(
        Board::new(uneven)
            == Err(Error::NotSquare {
                height: 9,
                line: 5,
                width: 7
            })
    );

    let large = vec![vec![None; 256]; 256];
    assert!(Board::new(large) == Err(Error::TooLarge { size: 256 }));

    assert!(Board::from_str("xo\nox") == Err(Error::TooSmall { size: 2 }));
}

#[test]
fn a_grid_becomes_a_board_row_by_row() {
    let mut grid = vec![vec![None; 9]; 9];
    grid[2][3] = Some(Player::X);
    grid[8][0] = Some(Player::O);
    let board = Board::new(grid).unwrap();
    assert_eq!(board.size(), 9);
    assert_eq!(*board.get_tile(TilePointer { x: 3, y: 2 }), Some(Player::X));
    assert_eq!(*board.get_tile(TilePointer { x: 0, y: 8 }), Some(Player::O));
    assert_eq!(*board.get_tile_raw(2 * 9 + 3), Some(Player::X));
    assert_eq!(board.tiles().iter().filter(|tile| tile.is_some()).count(), 2);
    assert_eq!(board.pointers_to_empty_tiles().len(), 79);
    assert_eq!(board.get_ptr_from_index(21), TilePointer { x: 3, y: 2 });
}

#[test]
fn state_helpers() {
    assert!(!State::NotEnd.is_end());
    assert!(State::Win.is_end() && State::Lose.is_end() && State::Draw.is_end());
    assert!(State::Win.is_win() && !State::Lose.is_win());
    assert!(State::Lose.is_lose() && !State::Win.is_lose());
    assert_eq!(State::Win.inversed(), State::Lose);
    assert_eq!(State::Lose.inversed(), State::Win);
    assert_eq!(State::Draw.inversed(), State::Draw);
    assert_eq!(State::NotEnd.inversed(), State::NotEnd);
    assert_eq!(State::from_win(true), State::Win);
    assert_eq!(State::from_win(false), State::NotEnd);
    assert_eq!(State::from(true), State::Win);
    assert_eq!(State::from(false), State::NotEnd);
    assert_eq!(State::NotEnd.to_text(), "Not an end");
}

#[test]
fn player_helpers() {
    assert_eq!(Player::X.char(), 'x');
    assert_eq!(Player::O.char(), 'o');
    assert_eq!(!Player::X, Player::O);
    assert_eq!(!Player::O, Player::X);
    assert_eq!(Player::X.next(), Player::O);
    assert_eq!(Player::X.index(), 0);
    assert_eq!(Player::O.index(), 1);
    assert_eq!(Player::O.value(), 2);
    assert_eq!(Player::from_char('x').unwrap(), Player::X);
    assert_eq!(Player::from_char('o').unwrap(), Player::O);
    assert!(Player::from_char('X').is_err());
    assert_eq!(Player::from_string("o").unwrap(), Player::O);
    assert!(Player::from_string("xo").is_err());
    assert!(Player::from_string("").is_err());
    assert_eq!(Player::from_str("x").unwrap(), Player::X);
    assert_eq!(Player::from_string("?").unwrap_err().0, "Unexpected character!");
}
