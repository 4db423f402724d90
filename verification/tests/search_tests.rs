use gomoku_lib::board::Board;
use gomoku_lib::error::GomokuError;
use gomoku_lib::functions::{eval_relevant_sequences, evaluate_board, integer_sqrt};
use gomoku_lib::node::{child_budget, half_score, keep_not_lost, keep_open, Node};
use gomoku_lib::pool::{set_thread_count, thread_count_outcome};
use gomoku_lib::search::{
    all_valid, best_root, clone_nodes, make_roots, minimax, root_budget, run_pass, settle_roots,
    Verdict,
};
use gomoku_lib::stats::Stats;
use gomoku_lib::utils::{budget_micros, do_run, is_game_end, Deadline};
use gomoku_lib::{decide, Player, State, TilePointer};
use std::str::FromStr;

fn board_with_row(row_index: usize, row: &str, size: usize) -> Board {
    let empty = "-".repeat(size);
    let mut rows: Vec<String> = Vec::new();
    for y in 0..size {
        if y == row_index {
            rows.push(row.to_string());
        } else {
            rows.push(empty.clone());
        }
    }
    Board::from_str(&rows.join("\n")).unwrap()
}

fn full_board() -> Board {
    let rows = [
        "xxooxxoox",
        "ooxxooxxo",
        "xxooxxoox",
        "ooxxooxxo",
        "xxooxxoox",
        "ooxxooxxo",
        "xxooxxoox",
        "ooxxooxxo",
        "xxooxxoox",
    ];
    Board::from_str(&rows.join("\n")).unwrap()
}

#[test]
fn immediate_win() {
    let mut board = board_with_row(4, "xxxx-----", 9);
    let (found, stats) = decide(&mut board, Player::X, 100).unwrap();
    assert_eq!(found.tile, TilePointer { x: 4, y: 4 });
    assert_eq!(found.tile.to_text(), "e5");
    assert_eq!(found.score, 100_000_000 - 0);
    assert!(stats.nodes_evaluated >= 1);
    assert_eq!(*board.get_tile(found.tile), Some(Player::X));
    assert!(board.evaluate_sequences_relevant_to(found.tile).win.0);
    assert_eq!(board.evaluate_for(Player::X).1, State::Win);
    assert!(is_game_end(&board, Player::X));
}

#[test]
fn a_search_without_deadline_takes_the_win() {
    let board = board_with_row(4, "-xxxx----", 9);
    let (found, stats) = minimax(&board, Player::X, &Deadline::never()).unwrap();
    let text = found.tile.to_text();
    assert!(text == "a5" || text == "f5", "{text}");
    assert_eq!(text, "f5");
    assert_eq!(stats.nodes_evaluated, 77);
    assert!(board == board_with_row(4, "-xxxx----", 9));

    let board = board_with_row(4, "xxxx-----", 9);
    let (found, _) = minimax(&board, Player::X, &Deadline::never()).unwrap();
    assert_eq!(found.tile.to_text(), "e5");
}

#[test]
fn forced_block() {
    let mut board = board_with_row(2, "oooo-----", 9);
    let (found, _) = decide(&mut board, Player::X, 100).unwrap();
    assert_eq!(found.tile.to_text(), "e3");
    assert!(found.score < 100_000_000);
    assert!(!is_game_end(&board, Player::O));
    assert!(!is_game_end(&board, Player::X));
}

#[test]
fn open_four_is_blocked_at_an_end() {
    let mut board = board_with_row(2, "-oooo----", 9);
    let (found, _) = decide(&mut board, Player::X, 100).unwrap();
    let text = found.tile.to_text();
    assert!(text == "a3" || text == "f3", "{text} {}", found.score);
    assert!(found.score < 100_000_000);
}

#[test]
fn center_opening() {
    let mut board = Board::new_empty(15);
    let (found, _) = decide(&mut board, Player::X, 1000).unwrap();
    assert_eq!(found.tile.to_text(), "h8");
    assert_eq!(*board.get_tile(TilePointer { x: 7, y: 7 }), Some(Player::X));
    assert_eq!(board.pointers_to_empty_tiles().len(), 224);
}

#[test]
fn full_board_has_no_move() {
    let mut board = full_board();
    let before = board.clone();
    assert_eq!(decide(&mut board, Player::X, 50), Err(GomokuError::NoEmptyTiles));
    assert!(board == before);
    assert_eq!(
        board.get_empty_tiles(),
        Err(GomokuError::NoEmptyTiles)
    );
}

#[test]
fn already_won_board_has_no_move() {
    let mut board = board_with_row(3, "--ooooo--", 9);
    let before = board.clone();
    assert_eq!(decide(&mut board, Player::X, 50), Err(GomokuError::GameEnd));
    assert!(board == before);
    assert!(is_game_end(&board, Player::O));
    assert_eq!(GomokuError::GameEnd.to_text(), "game already ended");
    assert_eq!(GomokuError::NoEmptyTiles.to_text(), "no empty tiles left");
}

#[test]
fn hole_pattern() {
    let mut board = board_with_row(0, "-x-xxx---", 9);
    let (found, stats) = decide(&mut board, Player::O, 300).unwrap();
    let text = found.tile.to_text();
    assert!(text == "c1" || text == "g1", "{text}");
    assert!(stats.nodes_evaluated >= 1);
    assert!(found.score < 0);
}

#[test]
fn single_thread_gives_a_stable_move() {
    assert!(set_thread_count(1).is_ok());
    let failure = set_thread_count(2).unwrap_err();
    assert_eq!(failure.0, "Thread count already set");
    let mut first = board_with_row(2, "oooo-----", 9);
    let mut second = first.clone();
    let a = decide(&mut first, Player::X, 2000).unwrap();
    let b = decide(&mut second, Player::X, 2000).unwrap();
    assert_eq!(a.0, b.0);
    assert_eq!(a.1, b.1);
    assert!(first == second);
}

#[test]
fn budget_is_99_hundredths_of_the_limit() {
    assert_eq!(budget_micros(0), 0);
    assert_eq!(budget_micros(1), 990);
    assert_eq!(budget_micros(1000), 990_000);
    assert_eq!(budget_micros(u64::MAX / 990), u64::MAX / 990 * 990);
    assert_eq!(budget_micros(u64::MAX / 990 + 1), u64::MAX);
    assert_eq!(budget_micros(u64::MAX), u64::MAX);
    let short = Deadline::after_millis(1);
    assert!(short.allows(0));
    assert!(short.allows(989));
    assert!(!short.allows(990));
    assert!(!short.allows(u128::MAX));
    assert!(!Deadline::after_millis(0).allows(0));
    assert!(Deadline::never().allows(0));
    assert!(Deadline::never().allows(u128::MAX));
    assert!(thread_count_outcome(Ok(())).is_ok());
}

#[test]
fn deadline_without_budget_has_passed() {
    assert!(do_run(&Deadline::never()));
    assert!(do_run(&Deadline::after_millis(3_600_000)));
    assert!(do_run(&Deadline::after_millis(u64::MAX)));
    assert!(!do_run(&Deadline::after_millis(0)));
}

#[test]
fn passed_deadline_leaves_the_first_candidate_list() {
    let mut board = Board::new_empty(9);
    board.set_tile(TilePointer { x: 4, y: 4 }, Some(Player::X));
    let (found, stats) = minimax(&board, Player::O, &Deadline::after_millis(0)).unwrap();
    assert_eq!(stats.nodes_evaluated, 0);
    assert_eq!(found.score, 0);
    assert_eq!(found.tile, TilePointer { x: 8, y: 8 });
}

#[test]
fn first_pass_gives_the_first_look() {
    let mut board = Board::new_empty(9);
    let never = Deadline::never();

    let mut corner = Node::new(TilePointer { x: 0, y: 0 }, Player::X, State::NotEnd);
    let stats = corner.compute_next(&mut board, 0, &never);
    assert_eq!(stats.nodes_evaluated, 1);
    assert!(corner.is_valid());
    assert_eq!(corner.depth(), 1);
    assert_eq!(corner.score(), -640);
    assert_eq!(corner.state(), State::NotEnd);
    assert_eq!(corner.child_count(), 0);
    assert_eq!(corner.node_count(), 1);
    assert!(board == Board::new_empty(9));

    let mut centre = Node::new(TilePointer { x: 4, y: 4 }, Player::X, State::NotEnd);
    centre.compute_next(&mut board, 100, &never);
    assert_eq!(centre.score(), -100);
    assert_eq!(centre.to_move().score, -100);
    assert_eq!(centre.to_move().tile, TilePointer { x: 4, y: 4 });

    let mut row = board_with_row(4, "-xxx-----", 9);
    let mut open_four = Node::new(TilePointer { x: 4, y: 4 }, Player::X, State::NotEnd);
    open_four.compute_next(&mut row, 0, &never);
    assert_eq!(open_four.score(), 10_000_000 - 5_000_000);
    assert_eq!(open_four.state(), State::NotEnd);

    let mut won = board_with_row(4, "xxxx-----", 9);
    let mut five = Node::new(TilePointer { x: 4, y: 4 }, Player::X, State::NotEnd);
    five.compute_next(&mut won, 0, &never);
    assert_eq!(five.state(), State::Win);
    assert_eq!(five.score(), 100_000_000 - 100_000);
}

#[test]
fn first_look_sees_the_opponents_five() {
    let mut board = board_with_row(4, "o-ooooo--", 9);
    let mut node = Node::new(TilePointer { x: 1, y: 4 }, Player::X, State::NotEnd);
    node.compute_next(&mut board, 0, &Deadline::never());
    assert_eq!(node.state(), State::Lose);
}

#[test]
fn second_pass_ranks_and_keeps_the_replies() {
    let mut board = Board::new_empty(9);
    let never = Deadline::never();
    let mut node = Node::new(TilePointer { x: 4, y: 4 }, Player::X, State::NotEnd);
    node.compute_next(&mut board.clone(), 0, &never);
    let stats = node.compute_next(&mut board.clone(), 0, &never);
    assert_eq!(stats.nodes_evaluated, 80);
    assert!(node.is_valid());
    assert_eq!(node.depth(), 2);
    assert_eq!(node.state(), State::NotEnd);
    assert_eq!(node.child_count(), 40);
    assert_eq!(node.node_count(), 41);
    let children = node.children();
    for pair in children.windows(2) {
        assert!(!pair[1].outranks(&pair[0]));
        assert!(pair[0].score() >= pair[1].score());
    }
    assert!(children.iter().all(|child| child.depth() == 1));
    assert!(children.iter().all(|child| child.player() == Player::O));
    assert!(children.iter().all(|child| child.state() == State::NotEnd));
    let best = &children[0];
    assert_eq!(node.score(), 0 - half_score(best.score()));
    assert!(children.iter().any(|child| child.score() < best.score()));

    node.compute_next(&mut board, 0, &never);
    assert_eq!(node.depth(), 3);
    assert!(node.child_count() <= 16);
    assert!(node.children().iter().all(|child| child.depth() == 2));
    assert_eq!(*board.get_tile(TilePointer { x: 4, y: 4 }), Some(Player::X));
}

#[test]
fn passed_deadline_makes_a_node_invalid() {
    let mut board = Board::new_empty(9);
    let mut node = Node::new(TilePointer { x: 4, y: 4 }, Player::X, State::NotEnd);
    let stats = node.compute_next(&mut board, 0, &Deadline::after_millis(0));
    assert!(!node.is_valid());
    assert_eq!(node.depth(), 0);
    assert_eq!(stats, Stats::new());
    let copy = node.clone();
    assert!(!copy.is_valid());
    assert!(!all_valid(&vec![copy]));
}

#[test]
fn a_pass_that_may_not_begin_changes_nothing_else() {
    let board = Board::new_empty(9);
    let never = Deadline::never();
    let mut node = Node::new(TilePointer { x: 4, y: 4 }, Player::X, State::NotEnd);
    node.compute_next(&mut board.clone(), 0, &never);
    node.compute_next(&mut board.clone(), 0, &never);
    let before = node.to_text();
    let path = node.path_text();
    let mut copy = board.clone();
    let stats = node.compute_next_polled(&mut copy, 0, &never, false);
    assert_eq!(stats, Stats::new());
    assert!(copy == board);
    assert!(!node.is_valid());
    assert_eq!(node.depth(), 2);
    assert_eq!(node.child_count(), 40);
    assert_eq!(node.score(), 0 - half_score(node.children()[0].score()));
    assert_eq!(node.state(), State::NotEnd);
    assert_eq!(node.path_text(), path);
    assert_eq!(node.to_text(), before.replace(", valid)", ", invalid)"));

    let mut fresh = Node::new(TilePointer { x: 0, y: 0 }, Player::O, State::NotEnd);
    let stats = fresh.compute_next_polled(&mut copy, 7, &Deadline::after_millis(0), true);
    assert_eq!(stats.nodes_evaluated, 1);
    assert!(fresh.is_valid());
    assert_eq!(fresh.depth(), 1);
    assert_eq!(fresh.score(), -7 - 640);
    assert!(copy == board);
}

#[test]
fn a_move_that_shows_five_for_both_makes_the_node_invalid() {
    let rows = [
        "-x-------",
        "-x-------",
        "-x-------",
        "-x-------",
        "o-ooooo--",
        "---------",
        "---------",
        "---------",
        "---------",
    ];
    let mut board = Board::from_str(&rows.join("\n")).unwrap();
    let untouched = board.clone();
    let tile = TilePointer { x: 1, y: 4 };
    assert!(Node::clashes(&mut board, tile, Player::X));
    assert!(!Node::clashes(&mut board, tile, Player::O));
    assert!(!Node::clashes(&mut board, TilePointer { x: 8, y: 8 }, Player::X));
    assert!(board == untouched);
    let mut node = Node::new(tile, Player::X, State::NotEnd);
    let stats = node.compute_next(&mut board, 0, &Deadline::never());
    assert!(!node.is_valid());
    assert_eq!(node.depth(), 0);
    assert_eq!(node.score(), 0);
    assert_eq!(stats, Stats::new());
    assert!(board == untouched);
}

#[test]
fn a_pass_that_is_cut_short_is_taken_back() {
    let board = board_with_row(2, "oooo-----", 9);
    let never = Deadline::never();
    let (base, _) = evaluate_board(&board, Player::O);
    let mut roots = make_roots(&board, Player::X);
    let (stats, verdict) = run_pass(&mut roots, &board, base, &never);
    assert_eq!(stats.nodes_evaluated, 77);
    assert_eq!(verdict, Some(Verdict::GoOn));
    assert_eq!(roots.len(), 17);
    let texts: Vec<String> = roots.iter().map(|node| node.path_text()).collect();
    let (_, verdict) = run_pass(&mut roots, &board, base, &Deadline::after_millis(0));
    assert_eq!(verdict, None);
    assert_eq!(roots.len(), 17);
    assert!(all_valid(&roots));
    assert!(roots.iter().all(|node| node.depth() == 1));
    let again: Vec<String> = roots.iter().map(|node| node.path_text()).collect();
    assert_eq!(texts, again);
    let (_, verdict) = run_pass(&mut roots, &board, base, &never);
    assert_eq!(verdict, Some(Verdict::OneLeft));
    assert_eq!(roots.len(), 1);
}

#[test]
fn lost_candidates_are_dropped() {
    let board = board_with_row(4, "xxxx-----", 9);
    let never = Deadline::never();
    let mut nodes = vec![
        Node::new(TilePointer { x: 4, y: 4 }, Player::O, State::NotEnd),
        Node::new(TilePointer { x: 8, y: 8 }, Player::O, State::NotEnd),
    ];
    for node in nodes.iter_mut() {
        node.compute_next_on_copy(&board, 0, &never);
        node.compute_next_on_copy(&board, 0, &never);
    }
    assert_eq!(nodes[0].state(), State::NotEnd);
    assert_eq!(nodes[1].state(), State::Lose);
    let kept = keep_not_lost(nodes);
    assert_eq!(kept.len(), 1);
    assert_eq!(kept[0].tile(), TilePointer { x: 4, y: 4 });
}

#[test]
fn a_move_that_fills_the_board_is_a_draw() {
    let mut board = full_board();
    board.set_tile(TilePointer { x: 8, y: 8 }, None);
    let never = Deadline::never();
    let mut node = Node::new(TilePointer { x: 8, y: 8 }, Player::O, State::NotEnd);
    node.compute_next(&mut board.clone(), 0, &never);
    if node.state() == State::NotEnd {
        node.compute_next(&mut board.clone(), 0, &never);
        assert_eq!(node.state(), State::Draw);
        assert_eq!(node.score(), 0);
        assert_eq!(node.child_count(), 0);
    }
}

#[test]
fn nodes_and_moves_as_text() {
    let board = Board::new_empty(9);
    let never = Deadline::never();
    let mut node = Node::new(TilePointer { x: 0, y: 0 }, Player::X, State::NotEnd);
    assert_eq!(node.to_text(), "(a1, 0, 0, x, Not an end, valid)");
    assert_eq!(node.path_text(), "(a1, 0, 0, x)");
    node.compute_next(&mut board.clone(), 0, &never);
    assert_eq!(node.to_text(), "(a1, -640, 1, x, Not an end, valid)");
    assert_eq!(node.to_move().to_text(), "(a1, -640)");
    node.compute_next(&mut board.clone(), 0, &never);
    let best = &node.children()[0];
    assert_eq!(
        node.path_text(),
        format!(
            "(a1, {}, 2, x) -> ({}, {}, 1, o)",
            node.score(),
            best.tile().to_text(),
            best.score()
        )
    );
    assert!(node.path_text().starts_with("(a1, -"));

    let mut won = board_with_row(4, "xxxx-----", 9);
    let mut five = Node::new(TilePointer { x: 4, y: 4 }, Player::X, State::NotEnd);
    five.compute_next(&mut won, 0, &never);
    assert_eq!(five.path_text(), "(e5, 99900000, 1, x, Win)");
    assert_eq!(five.to_text(), "(e5, 99900000, 1, x, Win, valid)");

    let mut large = Board::new_empty(26);
    let mut late = Node::new(TilePointer { x: 25, y: 14 }, Player::O, State::NotEnd);
    late.compute_next(&mut large, 0, &Deadline::after_millis(0));
    assert_eq!(late.to_text(), "(z15, 0, 0, o, Not an end, invalid)");
}

#[test]
fn budgets() {
    assert_eq!(child_budget(2, 10), 24);
    assert_eq!(child_budget(2, 48), 24);
    assert_eq!(child_budget(2, 50), 25);
    assert_eq!(child_budget(2, 224), 112);
    assert_eq!(child_budget(3, 224), 16);
    assert_eq!(child_budget(4, 224), 8);
    assert_eq!(child_budget(7, 224), 8);
    assert_eq!(child_budget(8, 224), 4);
    assert_eq!(child_budget(9, 224), 2);
    assert_eq!(child_budget(200, 224), 2);
    assert_eq!(root_budget(0), 3);
    assert_eq!(root_budget(2), 3);
    assert_eq!(root_budget(3), 3);
    assert_eq!(root_budget(4), 4);
    assert_eq!(root_budget(5), 4);
    assert_eq!(root_budget(81), 18);
    assert_eq!(root_budget(225), 30);
    assert_eq!(root_budget(224), 29);
    assert_eq!(half_score(7), 3);
    assert_eq!(half_score(-7), -3);
    assert_eq!(half_score(-8), -4);
    assert_eq!(integer_sqrt(0), 0);
    assert_eq!(integer_sqrt(99), 9);
    assert_eq!(integer_sqrt(100), 10);
    assert_eq!(integer_sqrt(1 << 66), 1 << 33);
}

#[test]
fn roots_are_ranked_and_pruned() {
    let board = board_with_row(2, "oooo-----", 9);
    let never = Deadline::never();
    let (base, _) = evaluate_board(&board, Player::O);
    assert_eq!(base, 100_000);
    let mut roots = make_roots(&board, Player::X);
    assert_eq!(roots.len(), 77);
    assert_eq!(roots[0].tile(), TilePointer { x: 0, y: 0 });
    assert_eq!(roots[76].tile(), TilePointer { x: 8, y: 8 });
    for node in roots.iter_mut() {
        node.compute_next_on_copy(&board, base, &never);
    }
    assert!(all_valid(&roots));
    let snapshot = clone_nodes(&roots);
    assert_eq!(snapshot.len(), 77);
    assert_eq!(settle_roots(&mut roots), Verdict::GoOn);
    assert_eq!(roots.len(), 17);
    for pair in roots.windows(2) {
        assert!(pair[0].score() >= pair[1].score());
    }
    assert_eq!(roots[0].tile().to_text(), "e3");
    let best = best_root(&roots);
    assert_eq!(roots[best].score(), roots[0].score());

    for node in roots.iter_mut() {
        node.compute_next_on_copy(&board, base, &never);
    }
    assert_eq!(settle_roots(&mut roots), Verdict::OneLeft);
    assert_eq!(roots.len(), 1);
    assert_eq!(roots[0].tile().to_text(), "e3");
    assert_eq!(keep_open(snapshot).len(), 77);
}

#[test]
fn a_winning_candidate_ends_the_search() {
    let board = board_with_row(4, "xxxx-----", 9);
    let never = Deadline::never();
    let (base, state) = evaluate_board(&board, Player::O);
    assert_eq!(state, State::NotEnd);
    let mut roots = make_roots(&board, Player::X);
    for node in roots.iter_mut() {
        node.compute_next_on_copy(&board, base, &never);
    }
    assert_eq!(settle_roots(&mut roots), Verdict::WinFound);
    assert_eq!(roots.len(), 77);
    assert_eq!(roots[0].state(), State::Win);
    assert_eq!(roots[best_root(&roots)].tile().to_text(), "e5");
}

#[test]
fn lines_through_a_tile() {
    let board = board_with_row(4, "-xxx-o---", 9);
    let eval = eval_relevant_sequences(&board, TilePointer { x: 2, y: 4 });
    assert_eq!(eval.score.0, 5_000_000);
    assert_eq!(eval.score.1, 0);
    assert!(!eval.win.0 && !eval.win.1);
    let whole = board.evaluate();
    assert_eq!(whole.score.0, 5_000_000);
    assert_eq!(board.evaluate_for(Player::O), (-5_000_000, State::NotEnd));
    assert_eq!(board.squared_distance_from_center(TilePointer { x: 0, y: 0 }), 32);
    assert_eq!(board.squared_distance_from_center(TilePointer { x: 4, y: 4 }), 0);
    let even = Board::new_empty(10);
    assert_eq!(even.squared_distance_from_center(TilePointer { x: 4, y: 4 }), 1);
    assert_eq!(even.squared_distance_from_center(TilePointer { x: 0, y: 0 }), 41);
}

#[test]
fn a_line_is_scored_run_by_run() {
    let board = board_with_row(0, "-x-xxx---", 9);
    let row: Vec<usize> = (0..9).collect();
    let eval = board.evaluate_sequence(&row);
    assert_eq!(eval.score.0, 40_000);
    assert!(!eval.win.0);

    let board = board_with_row(0, "xxxxxo-oo", 9);
    let eval = board.evaluate_sequence(&row);
    assert_eq!(eval.score.0, 100_000_000);
    assert!(eval.win.0);
    assert_eq!(eval.score.1, 0);

    let board = board_with_row(0, "-ooo-xxx-", 9);
    let eval = board.evaluate_sequence(&row);
    assert_eq!((eval.score.0, eval.score.1), (5_000_000, 5_000_000));

    let board = board_with_row(0, "ooo--ooo-", 9);
    let eval = board.evaluate_sequence(&row);
    assert_eq!(eval.score.1, 10_000 + 5_000_000);
    assert_eq!(board.evaluate_sequence(&[]).score.0, 0);
}

#[test]
fn stats_add_up() {
    let mut stats = Stats::new();
    stats.evaluate_node();
    stats.evaluate_node();
    stats.prune_nodes(5);
    let mut other = Stats::default();
    other.create_node();
    let sum = stats + other;
    assert_eq!(sum.nodes_evaluated, 3);
    assert_eq!(sum.nodes_pruned, 5);
    let top = Stats {
        nodes_evaluated: u32::MAX,
        nodes_pruned: 0,
    };
    assert_eq!((top + sum).nodes_evaluated, u32::MAX);
}
