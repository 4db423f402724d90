//! The search driver: passes over the candidate moves, one level deeper each time, until the
//! deadline passes or the outcome is clear.

use vstd::prelude::*;
use crate::board::{empty_cells, lemma_empty_cells, Board, Tile, TilePointer};
use crate::error::GomokuError;
use crate::evaluation::board_tally;
use crate::functions::{floor_sqrt, integer_sqrt};
use crate::moves::Move;
use crate::node::{
    advanced, allowance, calm, clash, expand_all, first_look, first_n, first_state, forest_work,
    keep_not_lost,
    keep_open, lemma_allowance, lemma_not_lost_all, not_lost_only,
    lemma_fresh_work,
    lemma_open_only_all, lemma_reordered_all, open_only, played, ready, sound, views, Node, Tree,
    SCORE_LIMIT,
};
use crate::player::Player;
use crate::sequences::lemma_coords_unique;
use crate::ranking::{descending, outranks, sort_descending, tops};
use crate::state::State;
use crate::stats::{capped, Stats};
use crate::utils::{do_run, Deadline};
use crate::Score;

verus! {

/// Largest number of passes that a search makes.
pub const MAX_PASSES: u8 = 254;

/// What the driver does after a pass.
#[derive(Clone, Copy, PartialEq, Eq, Structural, Debug)]
pub enum Verdict {
    /// another pass follows
    GoOn,
    /// a candidate wins
    WinFound,
    /// every candidate loses
    AllLose,
    /// every candidate draws
    AllDraw,
    /// at most one candidate is still open
    OneLeft,
}

/// Number of candidates that go into the next pass, of `remaining` open ones: the integer
/// part of twice the square root, and at least 3.
pub open spec fn root_limit(remaining: int) -> int {
    if floor_sqrt(4 * remaining) > 3 {
        floor_sqrt(4 * remaining)
    } else {
        3
    }
}

/// Number of candidates that go into the next pass, of `remaining` open ones.
pub fn root_budget(remaining: usize) -> (limit: usize)
    ensures
        limit == root_limit(remaining as int),
        limit >= 3,
{
    let wide: u128 = 4 * (remaining as u128);
    let root = integer_sqrt(wide);
    assert(root <= usize::MAX) by {
        if root > remaining {
            assert(root * root > 4 * remaining || root <= 4) by (nonlinear_arith)
                requires
                    root > remaining,
                    remaining >= 0,
            {
                if root >= 5 {
                    assert(root * root >= 5 * root);
                }
            }
        }
    }
    let limit: usize = root as usize;
    if limit > 3 {
        limit
    } else {
        3
    }
}

/// Some tree of the list is a win.
pub open spec fn any_win(trees: Seq<Tree>) -> bool {
    exists|i: int| 0 <= i < trees.len() && (#[trigger] trees[i]).state == State::Win
}

/// Every tree of the list has the outcome `state`.
pub open spec fn all_are(trees: Seq<Tree>, state: State) -> bool {
    forall|i: int| 0 <= i < trees.len() ==> (#[trigger] trees[i]).state == state
}

/// The verdict on ranked candidates: a win ends the search, and so do candidates that all
/// lose or all draw; else the search ends when at most one candidate is open.
pub open spec fn verdict_on(sorted: Seq<Tree>) -> Verdict {
    if any_win(sorted) {
        Verdict::WinFound
    } else if all_are(sorted, State::Lose) {
        Verdict::AllLose
    } else if all_are(sorted, State::Draw) {
        Verdict::AllDraw
    } else if open_only(sorted, sorted.len() as int).len() <= 1 {
        Verdict::OneLeft
    } else {
        Verdict::GoOn
    }
}

/// The candidates that are kept after a pass: all of them where the outcome is clear; else
/// the open ones, and where the search goes on, the first of them that the budget allows.
/// Where no candidate is open, those that are not lost are kept.
pub open spec fn roots_kept(sorted: Seq<Tree>) -> Seq<Tree> {
    let open = open_only(sorted, sorted.len() as int);
    match verdict_on(sorted) {
        Verdict::WinFound | Verdict::AllLose | Verdict::AllDraw => sorted,
        Verdict::OneLeft => if open.len() == 0 {
            not_lost_only(sorted, sorted.len() as int)
        } else {
            open
        },
        Verdict::GoOn => first_n(open, root_limit(open.len() as int)),
    }
}

/// Ranks the candidates after a completed pass, and drops those that the search follows no
/// further.
pub fn settle_roots(nodes: &mut Vec<Node>) -> (verdict: Verdict)
    ensures
        exists|sorted: Seq<Tree>|
            {
                &&& #[trigger] sorted.to_multiset() == views(old(nodes)@).to_multiset()
                &&& descending(sorted)
                &&& verdict == verdict_on(sorted)
                &&& views(final(nodes)@) == roots_kept(sorted)
            },
{
    sort_descending(nodes);
    let ghost sorted = views(nodes@);
    let mut any_win = false;
    let mut all_lose = true;
    let mut all_draw = true;
    let mut none_open = true;
    let mut i: usize = 0;
    while i < nodes.len()
        invariant
            i <= nodes@.len(),
            sorted == views(nodes@),
            none_open <==> open_only(sorted, i as int).len() == 0,
            any_win <==> (exists|k: int| 0 <= k < i && (#[trigger] sorted[k]).state == State::Win),
            all_lose <==> (forall|k: int| 0 <= k < i ==> (#[trigger] sorted[k]).state == State::Lose),
            all_draw <==> (forall|k: int| 0 <= k < i ==> (#[trigger] sorted[k]).state == State::Draw),
        decreases nodes@.len() - i,
    {
        let state = nodes[i].state();
        assert(sorted[i as int] == nodes@[i as int]@);
        if state.is_win() {
            any_win = true;
        }
        if !state.is_lose() {
            all_lose = false;
        }
        if state != State::Draw {
            all_draw = false;
        }
        if !state.is_end() {
            none_open = false;
        }
        i += 1;
    }
    if any_win {
        return Verdict::WinFound;
    }
    if all_lose {
        return Verdict::AllLose;
    }
    if all_draw {
        return Verdict::AllDraw;
    }
    let mut all: Vec<Node> = Vec::new();
    std::mem::swap(&mut all, nodes);
    if none_open {
        let mut kept = keep_not_lost(all);
        std::mem::swap(&mut kept, nodes);
        return Verdict::OneLeft;
    }
    let mut open = keep_open(all);
    let ghost open_trees = views(open@);
    if open.len() <= 1 {
        std::mem::swap(&mut open, nodes);
        return Verdict::OneLeft;
    }
    let limit = root_budget(open.len());
    open.truncate(limit);
    assert(views(open@) =~= first_n(open_trees, limit as int));
    std::mem::swap(&mut open, nodes);
    Verdict::GoOn
}

/// A copy of a list of nodes, each with its whole tree.
pub fn clone_nodes(nodes: &Vec<Node>) -> (copy: Vec<Node>)
    ensures
        views(copy@) == views(nodes@),
{
    let mut copy: Vec<Node> = Vec::with_capacity(nodes.len());
    let mut i: usize = 0;
    while i < nodes.len()
        invariant
            i <= nodes@.len(),
            copy@.len() == i,
            forall|k: int| 0 <= k < i ==> (#[trigger] copy@[k])@ == nodes@[k]@,
        decreases nodes@.len() - i,
    {
        copy.push(nodes[i].duplicate());
        i += 1;
    }
    assert(views(copy@) =~= views(nodes@));
    copy
}

/// The position of the best candidate: none ranks above it, and of those of equal rank it
/// is the last.
pub fn best_root(nodes: &Vec<Node>) -> (best: usize)
    requires
        nodes@.len() >= 1,
    ensures
        best < nodes@.len(),
        tops(nodes@[best as int]@, views(nodes@)),
        forall|i: int| best < i < nodes@.len() ==> outranks(nodes@[best as int]@, nodes@[i]@),
{
    let mut best: usize = 0;
    let mut i: usize = 1;
    while i < nodes.len()
        invariant
            1 <= i <= nodes@.len(),
            best < i,
            forall|k: int| 0 <= k < i ==> !outranks(#[trigger] nodes@[k]@, nodes@[best as int]@),
            forall|k: int| best < k < i ==> outranks(nodes@[best as int]@, #[trigger] nodes@[k]@),
        decreases nodes@.len() - i,
    {
        if !nodes[best].outranks(&nodes[i]) {
            best = i;
        }
        i += 1;
    }
    assert forall|k: int| 0 <= k < views(nodes@).len() implies !outranks(
        #[trigger] views(nodes@)[k],
        nodes@[best as int]@,
    ) by {
        assert(views(nodes@)[k] == nodes@[k]@);
    }
    best
}


/// The tile lies on the board and is empty.
pub open spec fn vacant(cells: Seq<Tile>, n: int, tile: TilePointer) -> bool {
    tile.on_board(n) && cells[tile.index(n)] is None
}

/// Some tree of the list stands for a move on the tile.
pub open spec fn has_tile(trees: Seq<Tree>, tile: TilePointer) -> bool {
    exists|i: int| 0 <= i < trees.len() && (#[trigger] trees[i]).tile == tile
}

/// Every empty tile of the board has a tree in the list.
pub open spec fn covers(trees: Seq<Tree>, cells: Seq<Tile>, n: int) -> bool {
    forall|tile: TilePointer| #[trigger] vacant(cells, n, tile) ==> has_tile(trees, tile)
}

/// The player wins at once with a stone on the tile: the tile is empty, and with the stone
/// the lines through it show five in a row for the player.
pub open spec fn wins_at_once(cells: Seq<Tile>, n: int, player: Player, tile: TilePointer) -> bool {
    vacant(cells, n, tile) && first_state(cells, n, tile, player) == State::Win
}

/// The player has no move that wins at once.
pub open spec fn no_win_at_once(cells: Seq<Tile>, n: int, player: Player) -> bool {
    forall|tile: TilePointer| !#[trigger] wins_at_once(cells, n, player, tile)
}

/// The candidates of a position: one node for every empty tile, for the player to move.
pub fn make_roots(board: &Board, player: Player) -> (nodes: Vec<Node>)
    requires
        board.wf(),
    ensures
        nodes@.len() == empty_cells(board@, board@.len() as int).len(),
        nodes@.len() == 0 <==> board.full(),
        forall|i: int|
            0 <= i < nodes@.len() ==> {
                &&& (#[trigger] nodes@[i])@.tile.index(board.side()) == empty_cells(
                    board@,
                    board@.len() as int,
                )[i]
                &&& nodes@[i]@.player == player
                &&& nodes@[i]@.depth == 0
                &&& nodes@[i]@.state == State::NotEnd
                &&& nodes@[i]@.valid
                &&& nodes@[i]@.score == 0
                &&& nodes@[i]@.children.len() == 0
                &&& board.holds(nodes@[i]@.tile)
                &&& board.at(nodes@[i]@.tile) is None
            },
        covers(views(nodes@), board@, board.side()),
{
    let empty = board.pointers_to_empty_tiles();
    let mut nodes: Vec<Node> = Vec::new();
    let mut k: usize = 0;
    while k < empty.len()
        invariant
            k <= empty@.len(),
            nodes@.len() == k,
            forall|j: int|
                0 <= j < k ==> (#[trigger] nodes@[j])@ == (Tree {
                    tile: empty@[j],
                    player,
                    state: State::NotEnd,
                    valid: true,
                    score: 0,
                    first_score: 0,
                    first_score_sqrt: 0,
                    depth: 0,
                    children: Seq::empty(),
                }),
        decreases empty@.len() - k,
    {
        nodes.push(Node::new(empty[k], player, State::NotEnd));
        k += 1;
    }
    proof {
        let n = board.side();
        let all = empty_cells(board@, board@.len() as int);
        lemma_empty_cells(board@, board@.len() as int);
        assert forall|tile: TilePointer| #[trigger] vacant(board@, n, tile) implies has_tile(
            views(nodes@),
            tile,
        ) by {
            let index = tile.index(n);
            assert(0 <= index < n * n) by (nonlinear_arith)
                requires
                    index == tile.y * n + tile.x,
                    0 <= tile.x < n,
                    0 <= tile.y < n,
            {
                assert(tile.y * n <= (n - 1) * n);
            }
            assert(all.contains(index));
            let k = choose|k: int| 0 <= k < all.len() && all[k] == index;
            let other = nodes@[k]@.tile;
            lemma_coords_unique(n, tile.x as int, tile.y as int, other.x as int, other.y as int);
            assert(views(nodes@)[k].tile == tile);
        }
    }
    nodes
}

/// What one pass over the candidates comes to, where `expanded` is what the pass made of
/// the candidates. If the pass was cut short for a candidate, the candidates are again what
/// they were before the pass, and there is no verdict. Else the counters count what the pass
/// looked at, and the candidates are ranked and those kept that the verdict leaves.
pub open spec fn stepped(
    before: Seq<Tree>,
    after: Seq<Tree>,
    expanded: Seq<Tree>,
    stats: Stats,
    verdict: Option<Verdict>,
    cells: Seq<Tile>,
    n: int,
    base: int,
    unlimited: bool,
) -> bool {
    &&& expanded.len() == before.len()
    &&& forall|i: int|
        0 <= i < expanded.len() ==> advanced(
            before[i],
            #[trigger] expanded[i],
            cells,
            n,
            base,
            unlimited,
        )
    &&& (exists|i: int| 0 <= i < expanded.len() && !(#[trigger] expanded[i]).valid) ==> after
        == before && verdict is None
    &&& (forall|i: int| 0 <= i < expanded.len() ==> (#[trigger] expanded[i]).valid) ==> {
        &&& stats.nodes_evaluated == capped(forest_work(before, cells, n, before.len() as int) as int)
        &&& stats.nodes_pruned == 0
        &&& exists|sorted: Seq<Tree>|
            {
                &&& #[trigger] sorted.to_multiset() == expanded.to_multiset()
                &&& descending(sorted)
                &&& verdict == Some(verdict_on(sorted))
                &&& after == roots_kept(sorted)
            }
    }
}

/// One pass of the search over all candidates: keeps a copy of the candidates, passes over
/// each, and either takes the copy back, where the deadline cut the pass short for one of
/// them, or ranks the candidates and drops those that the search follows no further.
pub fn run_pass(
    nodes: &mut Vec<Node>,
    board: &Board,
    initial_score: Score,
    deadline: &Deadline,
) -> (r: (Stats, Option<Verdict>))
    requires
        board.wf(),
        -allowance(board@) <= initial_score <= allowance(board@),
        forall|i: int|
            0 <= i < old(nodes)@.len() ==> ready(
                (#[trigger] old(nodes)@[i])@,
                board@,
                board.side(),
                initial_score as int,
            ),
    ensures
        exists|expanded: Seq<Tree>| #[trigger]
            stepped(
                views(old(nodes)@),
                views(final(nodes)@),
                expanded,
                r.0,
                r.1,
                board@,
                board.side(),
                initial_score as int,
                deadline.unlimited(),
            ),
{
    let mut snapshot = clone_nodes(nodes);
    let ghost before = nodes@;
    let stats = expand_all(nodes, board, initial_score, deadline);
    let ghost expanded = views(nodes@);
    proof {
        assert forall|i: int| 0 <= i < expanded.len() implies advanced(
            views(before)[i],
            #[trigger] expanded[i],
            board@,
            board.side(),
            initial_score as int,
            deadline.unlimited(),
        ) by {
            assert(expanded[i] == nodes@[i]@);
            assert(views(before)[i] == before[i]@);
        }
        assert(views(before) =~= views(old(nodes)@));
    }
    if !all_valid(nodes) {
        proof {
            let j = choose|j: int| 0 <= j < nodes@.len() && !(#[trigger] nodes@[j])@.valid;
            assert(!expanded[j].valid);
        }
        std::mem::swap(&mut snapshot, nodes);
        let r: (Stats, Option<Verdict>) = (stats, None);
        assert(stepped(
            views(old(nodes)@),
            views(nodes@),
            expanded,
            r.0,
            r.1,
            board@,
            board.side(),
            initial_score as int,
            deadline.unlimited(),
        ));
        return r;
    }
    proof {
        assert forall|i: int| 0 <= i < expanded.len() implies (#[trigger] expanded[i]).valid by {
            assert(expanded[i] == nodes@[i]@);
        }
    }
    let verdict = settle_roots(nodes);
    let r: (Stats, Option<Verdict>) = (stats, Some(verdict));
    assert(stepped(
        views(old(nodes)@),
        views(nodes@),
        expanded,
        r.0,
        r.1,
        board@,
        board.side(),
        initial_score as int,
        deadline.unlimited(),
    ));
    r
}

/// No move of the player shows five in a row for both players.
pub open spec fn root_calm(cells: Seq<Tile>, n: int, player: Player) -> bool {
    forall|tile: TilePointer| #[trigger] vacant(cells, n, tile) ==> !clash(cells, n, tile, player)
}

/// The move is the best of some candidates: sound search trees for moves of the player on
/// the board, of which none ranks above the one that the move is taken from.
pub open spec fn best_of_candidates(
    cells: Seq<Tile>,
    n: int,
    player: Player,
    base: int,
    found: Move,
) -> bool {
    exists|roots: Seq<Tree>, best: int|
        {
            &&& 0 <= best < roots.len()
            &&& forall|i: int|
                0 <= i < roots.len() ==> sound(#[trigger] roots[i], cells, n, base) && roots[i].player
                    == player
            &&& #[trigger] tops(roots[best], roots)
            &&& found.tile == roots[best].tile
            &&& found.score == roots[best].score
        }
}

/// The move wins at once, with the score of its first look, and no move that wins at once
/// has a higher one.
pub open spec fn takes_best_win(
    cells: Seq<Tile>,
    n: int,
    player: Player,
    base: int,
    found: Move,
) -> bool {
    &&& wins_at_once(cells, n, player, found.tile)
    &&& found.score == first_look(cells, n, found.tile, player, base)
    &&& forall|tile: TilePointer| #[trigger]
        wins_at_once(cells, n, player, tile) ==> first_look(cells, n, tile, player, base)
            <= found.score
}

/// Searches for the move of `current_player` on the board until the deadline passes or the
/// outcome is clear, and gives the best candidate of the last pass that was completed, with
/// the counters of the search. At most 254 passes are made.
///
/// There is no move on a full board, and none where the opponent has five in a row. The
/// move that is given is the best of the candidates that the search ends with. Where the
/// deadline never passes and no move shows five in a row for both players, the search has
/// looked at each empty tile at least; if the player can then win at once, the move that is
/// given wins at once, and each empty tile was looked at once.
pub fn minimax(board: &Board, current_player: Player, deadline: &Deadline) -> (r: Result<
    (Move, Stats),
    GomokuError,
>)
    requires
        board.wf(),
    ensures
        r matches Err(e) ==> e == GomokuError::NoEmptyTiles || e == GomokuError::GameEnd,
        r == Err::<(Move, Stats), GomokuError>(GomokuError::NoEmptyTiles) <==> board.full(),
        r == Err::<(Move, Stats), GomokuError>(GomokuError::GameEnd) <==> !board.full()
            && board_tally(board@, board.side()).win_of(current_player.other()),
        r matches Ok(found) ==> {
            &&& board.holds(found.0.tile)
            &&& board.at(found.0.tile) is None
            &&& -SCORE_LIMIT <= found.0.score <= SCORE_LIMIT
        },
        r matches Ok(found) ==> best_of_candidates(
            board@,
            board.side(),
            current_player,
            board_tally(board@, board.side()).balance(current_player.other()),
            found.0,
        ),
        r matches Ok(found) ==> (deadline.unlimited() && root_calm(
            board@,
            board.side(),
            current_player,
        ) ==> found.1.nodes_evaluated >= capped(
            empty_cells(board@, board@.len() as int).len() as int,
        )),
        r matches Ok(found) ==> (deadline.unlimited() && root_calm(
            board@,
            board.side(),
            current_player,
        ) && !no_win_at_once(board@, board.side(), current_player) ==> takes_best_win(
            board@,
            board.side(),
            current_player,
            board_tally(board@, board.side()).balance(current_player.other()),
            found.0,
        ) && found.1.nodes_evaluated == capped(
            empty_cells(board@, board@.len() as int).len() as int,
        ) && found.1.nodes_pruned == 0),
{
    let mut nodes = make_roots(board, current_player);

    if nodes.len() == 0 {
        return Err(GomokuError::NoEmptyTiles);
    }
    let mut total_depth: u8 = 0;
    let mut stats = Stats::new();

    let (initial_score, initial_state) = board.evaluate_for(current_player.next());
    if initial_state.is_end() {
        return Err(GomokuError::GameEnd);
    }
    let ghost n = board.side();
    let ghost base = initial_score as int;
    proof {
        assert forall|i: int| 0 <= i < nodes@.len() implies ready(
            (#[trigger] nodes@[i])@,
            board@,
            n,
            base,
        ) by {
            assert(nodes@[i]@.children =~= Seq::empty());
        }
        lemma_allowance(board@, n, nodes@[0]@.tile, current_player);
    }

    while total_depth < MAX_PASSES && do_run(deadline)
        invariant_except_break
            forall|i: int|
                0 <= i < nodes@.len() ==> ready((#[trigger] nodes@[i])@, board@, n, base)
                    && nodes@[i]@.depth == total_depth,
            total_depth == 0 ==> covers(views(nodes@), board@, n),
            total_depth == 0 ==> nodes@.len() == empty_cells(board@, board@.len() as int).len(),
            total_depth == 0 ==> stats.nodes_evaluated == 0 && stats.nodes_pruned == 0,
            total_depth >= 1 ==> no_win_at_once(board@, n, current_player),
            total_depth >= 1 ==> stats.nodes_evaluated >= capped(
                empty_cells(board@, board@.len() as int).len() as int,
            ),
        invariant
            board.wf(),
            n == board.side(),
            base == initial_score,
            -allowance(board@) <= initial_score <= allowance(board@),
            nodes@.len() >= 1,
            total_depth <= MAX_PASSES,
            forall|i: int| 0 <= i < nodes@.len() ==> (#[trigger] nodes@[i])@.player == current_player,
        ensures
            nodes@.len() >= 1,
            forall|i: int| 0 <= i < nodes@.len() ==> sound((#[trigger] nodes@[i])@, board@, n, base),
            !deadline.unlimited() || !root_calm(board@, n, current_player)
                || stats.nodes_evaluated >= capped(
                empty_cells(board@, board@.len() as int).len() as int,
            ),
            !deadline.unlimited() || !root_calm(board@, n, current_player) || no_win_at_once(
                board@,
                n,
                current_player,
            ) || (covers(
                views(nodes@),
                board@,
                n,
            ) && (forall|i: int| 0 <= i < nodes@.len() ==> (#[trigger] nodes@[i])@.depth == 1)
                && stats.nodes_evaluated == capped(
                empty_cells(board@, board@.len() as int).len() as int,
            ) && stats.nodes_pruned == 0),
        decreases MAX_PASSES - total_depth,
    {
        total_depth += 1;

        let ghost before = views(nodes@);
        let ghost counted = stats;
        proof {
            assert forall|i: int| 0 <= i < before.len() implies ready(
                #[trigger] before[i],
                board@,
                n,
                base,
            ) && before[i].depth == total_depth - 1 && before[i].player == current_player by {
                assert(before[i] == nodes@[i]@);
            }
            if total_depth == 1 {
                lemma_fresh_work(before, board@, n, before.len() as int);
            }
        }
        let (pass_stats, outcome) = run_pass(&mut nodes, board, initial_score, deadline);
        stats = stats + pass_stats;
        assert(stats.nodes_evaluated >= counted.nodes_evaluated);
        proof {
            let kept = views(nodes@);
            let expanded = choose|expanded: Seq<Tree>|
                stepped(
                    before,
                    kept,
                    expanded,
                    pass_stats,
                    outcome,
                    board@,
                    n,
                    base,
                    deadline.unlimited(),
                );
            if exists|i: int| 0 <= i < expanded.len() && !(#[trigger] expanded[i]).valid {
                let j = choose|j: int| 0 <= j < expanded.len() && !(#[trigger] expanded[j]).valid;
                assert(advanced(before[j], expanded[j], board@, n, base, deadline.unlimited()));
                if total_depth == 1 {
                    assert(ready(before[j], board@, n, base));
                    assert(vacant(board@, n, before[j].tile));
                    assert(!deadline.unlimited() || !root_calm(board@, n, current_player));
                }
                assert(kept == before);
                assert(nodes@.len() == before.len());
                assert forall|i: int| 0 <= i < nodes@.len() implies sound(
                    (#[trigger] nodes@[i])@,
                    board@,
                    n,
                    base,
                ) && nodes@[i]@.player == current_player by {
                    assert(kept[i] == nodes@[i]@);
                    assert(ready(before[i], board@, n, base));
                }
            } else {
                let verdict = outcome->0;
                let holds = |t: Tree|
                    sound(t, board@, n, base) && t.depth == total_depth && t.player
                        == current_player;
                assert forall|j: int| 0 <= j < expanded.len() implies holds(
                    #[trigger] expanded[j],
                ) by {
                    assert(advanced(before[j], expanded[j], board@, n, base, deadline.unlimited()));
                }
                if total_depth == 1 {
                    assert forall|tile: TilePointer| #[trigger]
                        vacant(board@, n, tile) implies has_tile(expanded, tile) by {
                        assert(has_tile(before, tile));
                        let j = choose|j: int|
                            0 <= j < before.len() && (#[trigger] before[j]).tile == tile;
                        assert(advanced(
                            before[j],
                            expanded[j],
                            board@,
                            n,
                            base,
                            deadline.unlimited(),
                        ));
                        assert(expanded[j].tile == tile);
                    }
                }
                let sorted = choose|sorted: Seq<Tree>|
                    {
                        &&& #[trigger] sorted.to_multiset() == expanded.to_multiset()
                        &&& descending(sorted)
                        &&& outcome == Some(verdict_on(sorted))
                        &&& kept == roots_kept(sorted)
                    };
                lemma_reordered_all(sorted, expanded, holds);
                lemma_open_only_all(sorted, sorted.len() as int, holds);
                lemma_not_lost_all(sorted, sorted.len() as int, holds);
                if verdict == Verdict::OneLeft {
                    assert(!crate::search::all_are(sorted, State::Lose));
                }
                let open = open_only(sorted, sorted.len() as int);
                assert forall|i: int| 0 <= i < kept.len() implies holds(#[trigger] kept[i]) && (
                verdict == Verdict::GoOn ==> kept[i].state == State::NotEnd) by {
                    if verdict == Verdict::GoOn {
                        assert(kept[i] == open[i]);
                    } else if verdict == Verdict::OneLeft && open.len() > 0 {
                        assert(kept[i] == open[i]);
                    } else if verdict == Verdict::OneLeft {
                        assert(kept[i] == not_lost_only(sorted, sorted.len() as int)[i]);
                    } else {
                        assert(kept[i] == sorted[i]);
                    }
                }
                assert forall|i: int| 0 <= i < nodes@.len() implies sound(
                    (#[trigger] nodes@[i])@,
                    board@,
                    n,
                    base,
                ) && nodes@[i]@.depth == total_depth && nodes@[i]@.player == current_player && (
                verdict == Verdict::GoOn ==> nodes@[i]@.state == State::NotEnd) by {
                    assert(kept[i] == nodes@[i]@);
                    assert(holds(kept[i]));
                }
                assert(kept.len() >= 1);
                if total_depth == 1 {
                    let among = |t: Tree| sorted.contains(t);
                    assert forall|i: int| 0 <= i < sorted.len() implies among(
                        #[trigger] sorted[i],
                    ) by {}
                    lemma_reordered_all(expanded, sorted, among);
                    if verdict == Verdict::WinFound {
                        assert forall|tile: TilePointer| #[trigger]
                            vacant(board@, n, tile) implies has_tile(kept, tile) by {
                            assert(has_tile(expanded, tile));
                            let j = choose|j: int|
                                0 <= j < expanded.len() && (#[trigger] expanded[j]).tile == tile;
                            assert(among(expanded[j]));
                            let i = choose|i: int|
                                0 <= i < sorted.len() && sorted[i] == expanded[j];
                            assert(kept[i].tile == tile);
                        }
                    } else {
                        assert forall|tile: TilePointer| !#[trigger] wins_at_once(
                            board@,
                            n,
                            current_player,
                            tile,
                        ) by {
                            if vacant(board@, n, tile) {
                                assert(has_tile(expanded, tile));
                                let j = choose|j: int|
                                    0 <= j < expanded.len() && (#[trigger] expanded[j]).tile
                                        == tile;
                                assert(holds(expanded[j]));
                                assert(among(expanded[j]));
                                let i = choose|i: int|
                                    0 <= i < sorted.len() && sorted[i] == expanded[j];
                                assert(sorted[i].state != State::Win);
                            }
                        }
                    }
                }
            }
        }
        match outcome {
            None => {
                break ;
            },
            Some(verdict) => {
                if verdict != Verdict::GoOn {
                    break ;
                }
            },
        }
    }

    let best = best_root(&nodes);
    let found = nodes[best].to_move();
    proof {
        let top = nodes@[best as int]@;
        assert(sound(top, board@, n, base));
        let trees = views(nodes@);
        assert forall|i: int| 0 <= i < trees.len() implies sound(
            #[trigger] trees[i],
            board@,
            n,
            base,
        ) && trees[i].player == current_player by {
            assert(trees[i] == nodes@[i]@);
        }
        assert(trees[best as int] == top);
        assert(best_of_candidates(board@, n, current_player, base, found));
        if deadline.unlimited() && root_calm(board@, n, current_player) && !no_win_at_once(
            board@,
            n,
            current_player,
        ) {
            let winning = choose|tile: TilePointer| wins_at_once(board@, n, current_player, tile);
            assert forall|tile: TilePointer| #[trigger]
                wins_at_once(board@, n, current_player, tile) implies top.state == State::Win
                && first_look(board@, n, tile, current_player, base) <= top.score by {
                assert(vacant(board@, n, tile));
                assert(has_tile(trees, tile));
                let i = choose|i: int| 0 <= i < trees.len() && (#[trigger] trees[i]).tile == tile;
                assert(trees[i] == nodes@[i]@);
                assert(sound(nodes@[i]@, board@, n, base));
                assert(!outranks(trees[i], top));
            }
            assert(wins_at_once(board@, n, current_player, winning));
        }
    }
    Ok((found, stats))
}

/// Whether every node of the list is valid.
pub fn all_valid(nodes: &Vec<Node>) -> (valid: bool)
    ensures
        valid <==> (forall|i: int| 0 <= i < nodes@.len() ==> (#[trigger] nodes@[i])@.valid),
{
    let mut valid = true;
    let mut i: usize = 0;
    while i < nodes.len()
        invariant
            i <= nodes@.len(),
            valid <==> (forall|k: int| 0 <= k < i ==> (#[trigger] nodes@[k])@.valid),
        decreases nodes@.len() - i,
    {
        if !nodes[i].is_valid() {
            valid = false;
        }
        i += 1;
    }
    valid
}

/// Returns the best move and stats for the given board, and places the move on the board.
///
/// `time_limit` is the budget of the search in milliseconds. There is no move on a full
/// board, and none where the opponent of `player` has five in a row; the board is then left
/// as it is. The move is the best of the candidates of the last pass that the deadline let
/// the search complete.
pub fn decide(board: &mut Board, player: Player, time_limit: u64) -> (r: Result<
    (Move, Stats),
    GomokuError,
>)
    requires
        old(board).wf(),
    ensures
        final(board).wf(),
        final(board).side() == old(board).side(),
        r matches Err(e) ==> e == GomokuError::NoEmptyTiles || e == GomokuError::GameEnd,
        r is Err ==> final(board)@ == old(board)@,
        r == Err::<(Move, Stats), GomokuError>(GomokuError::NoEmptyTiles) <==> old(board).full(),
        r == Err::<(Move, Stats), GomokuError>(GomokuError::GameEnd) <==> !old(board).full()
            && board_tally(old(board)@, old(board).side()).win_of(player.other()),
        r matches Ok(found) ==> {
            &&& old(board).holds(found.0.tile)
            &&& old(board).at(found.0.tile) is None
            &&& final(board)@ == played(old(board)@, old(board).side(), found.0.tile, player)
            &&& -SCORE_LIMIT <= found.0.score <= SCORE_LIMIT
            &&& best_of_candidates(
                old(board)@,
                old(board).side(),
                player,
                board_tally(old(board)@, old(board).side()).balance(player.other()),
                found.0,
            )
        },
{
    let deadline = Deadline::after_millis(time_limit);
    match minimax(board, player, &deadline) {
        Ok((found, stats)) => {
            proof {
                lemma_allowance(board@, board.side(), found.tile, player);
            }
            board.set_tile(found.tile, Some(player));
            Ok((found, stats))
        },
        Err(e) => Err(e),
    }
}

/// The best of the candidates that win, with the counters, if there is one.
pub fn check_winning(presorted_nodes: &Vec<Node>, stats: Stats) -> (r: Option<(Move, Stats)>)
    ensures
        r is Some <==> any_win(views(presorted_nodes@)),
        r matches Some(found) ==> found.1 == stats && exists|i: int|
            {
                &&& 0 <= i < presorted_nodes@.len()
                &&& (#[trigger] presorted_nodes@[i])@.state == State::Win
                &&& found.0.tile == presorted_nodes@[i]@.tile
                &&& found.0.score == presorted_nodes@[i]@.score
                &&& forall|j: int|
                    0 <= j < presorted_nodes@.len() && (#[trigger] presorted_nodes@[j])@.state
                        == State::Win ==> presorted_nodes@[j]@.score <= found.0.score
            },
{
    let mut best: Option<usize> = None;
    let mut i: usize = 0;
    while i < presorted_nodes.len()
        invariant
            i <= presorted_nodes@.len(),
            best is None ==> forall|j: int|
                0 <= j < i ==> (#[trigger] presorted_nodes@[j])@.state != State::Win,
            best matches Some(b) ==> {
                &&& b < i
                &&& presorted_nodes@[b as int]@.state == State::Win
                &&& forall|j: int|
                    0 <= j < i && (#[trigger] presorted_nodes@[j])@.state == State::Win
                        ==> presorted_nodes@[j]@.score <= presorted_nodes@[b as int]@.score
            },
        decreases presorted_nodes@.len() - i,
    {
        if presorted_nodes[i].state().is_win() {
            match best {
                None => {
                    best = Some(i);
                },
                Some(b) => {
                    if presorted_nodes[i].score() >= presorted_nodes[b].score() {
                        best = Some(i);
                    }
                },
            }
        }
        i += 1;
    }
    proof {
        let trees = views(presorted_nodes@);
        if any_win(trees) {
            let w = choose|w: int| 0 <= w < trees.len() && (#[trigger] trees[w]).state == State::Win;
            assert(trees[w] == presorted_nodes@[w]@);
        }
        if best is Some {
            assert(trees[best->0 as int] == presorted_nodes@[best->0 as int]@);
        }
    }
    match best {
        None => None,
        Some(b) => Some((presorted_nodes[b].to_move(), stats)),
    }
}

} // verus!
