//! One node of the search forest: a candidate move with the replies that were looked at.

use vstd::prelude::*;
use rayon::prelude::{IntoParallelRefMutIterator, ParallelIterator};
use crate::board::{centre_distance, empty_cells, Board, Tile, TilePointer};
use crate::evaluation::{lemma_tile_tally_bound, tile_tally, BOARD_LIMIT};
use crate::functions::{eval_relevant_sequences, score_sqrt, signed_sqrt};
use crate::moves::Move;
use crate::notation::{pointer_text, push_pointer, push_text, state_name};
use crate::player::Player;
use crate::ranking::{descending, outranks, sort_descending};
use crate::state::State;
use crate::stats::{capped, Stats};
use crate::text::{decimal, push_decimal, push_signed, signed_decimal};
use crate::utils::{do_run, Deadline};
use crate::Score;

verus! {

/// A node of the search forest as a mathematical value.
pub struct Tree {
    pub tile: TilePointer,
    pub player: Player,
    pub state: State,
    pub valid: bool,
    pub score: int,
    pub first_score: int,
    pub first_score_sqrt: int,
    pub depth: int,
    pub children: Seq<Tree>,
}

/// One candidate move: the tile, who plays it, what it is worth, and the replies kept.
#[derive(Debug)]
pub struct Node {
    tile: TilePointer,
    player: Player,
    pub state: State,
    pub valid: bool,
    child_nodes: Vec<Node>,
    score: Score,
    first_score: Score,
    first_score_sqrt: Score,
    depth: u8,
}

impl View for Node {
    type V = Tree;

    /// The node with its replies, as a tree of plain values.
    closed spec fn view(&self) -> Tree {
        tree_of(*self)
    }
}

/// The tree that a node stands for.
pub closed spec fn tree_of(node: Node) -> Tree
    decreases node, 0int,
{
    Tree {
        tile: node.tile,
        player: node.player,
        state: node.state,
        valid: node.valid,
        score: node.score as int,
        first_score: node.first_score as int,
        first_score_sqrt: node.first_score_sqrt as int,
        depth: node.depth as int,
        children: trees_of(node.child_nodes@, node.child_nodes@.len() as int),
    }
}

/// The trees that the first `upto` nodes of a list stand for.
pub closed spec fn trees_of(nodes: Seq<Node>, upto: int) -> Seq<Tree>
    decreases nodes, upto,
{
    if upto <= 0 || upto > nodes.len() {
        Seq::empty()
    } else {
        trees_of(nodes, upto - 1).push(tree_of(nodes[upto - 1]))
    }
}

/// The trees of a list of nodes, one for each node and in the same order.
pub proof fn lemma_trees_of(nodes: Seq<Node>, upto: int)
    requires
        0 <= upto <= nodes.len(),
    ensures
        trees_of(nodes, upto).len() == upto,
        forall|k: int| 0 <= k < upto ==> #[trigger] trees_of(nodes, upto)[k] == nodes[k]@,
    decreases upto,
{
    if upto > 0 {
        lemma_trees_of(nodes, upto - 1);
    }
}

/// The views of a list of nodes.
pub open spec fn views(nodes: Seq<Node>) -> Seq<Tree> {
    Seq::new(nodes.len(), |k: int| nodes[k]@)
}

/// Number of nodes of a tree.
pub open spec fn tree_size(t: Tree) -> nat
    decreases t,
{
    1 + forest_size(t.children, t.children.len() as int)
}

/// Number of nodes of the first `upto` trees of a list.
pub open spec fn forest_size(trees: Seq<Tree>, upto: int) -> nat
    decreases trees, upto,
{
    if upto <= 0 || upto > trees.len() {
        0
    } else {
        forest_size(trees, upto - 1) + tree_size(trees[upto - 1])
    }
}

/// Most that one more stone on the board can add to the size of a first score.
pub const STEP_LIMIT: Score = 205_000_000_000;

/// Most that the size of a first score can be.
pub const FIRST_LIMIT: Score = 13_369_446_800_000_000;

/// Most that the size of a score can be.
pub const SCORE_LIMIT: Score = 26_738_893_600_000_000;

/// Number of stones among the first `upto` cells.
pub open spec fn stones(cells: Seq<Tile>, upto: int) -> int
    decreases upto,
{
    if upto <= 0 {
        0
    } else {
        stones(cells, upto - 1) + if cells[upto - 1] is Some {
            1int
        } else {
            0int
        }
    }
}

/// Most that the size of the score handed to a node on this board can be: it grows with
/// each stone on the board.
#[verifier::opaque]
pub open spec fn allowance(cells: Seq<Tile>) -> int {
    BOARD_LIMIT + stones(cells, cells.len() as int) * STEP_LIMIT
}

/// The cells after `player` has put a stone on `tile`.
pub open spec fn played(cells: Seq<Tile>, n: int, tile: TilePointer, player: Player) -> Seq<Tile> {
    cells.update(tile.index(n), Some(player))
}

/// Half of a score, rounded towards zero.
pub open spec fn half(score: int) -> int {
    if score >= 0 {
        score / 2
    } else {
        -((-score) / 2)
    }
}

/// The score of a move when it is first looked at, for the player who makes it: what the
/// four lines through the tile gain for the mover, less what the position was worth to the
/// parent, `base`, and less the centering term, 20 times the squared distance from the
/// centre.
#[verifier::opaque]
pub open spec fn first_look(
    cells: Seq<Tile>,
    n: int,
    tile: TilePointer,
    player: Player,
    base: int,
) -> int {
    let before = tile_tally(cells, n, tile.x as int, tile.y as int);
    let after = tile_tally(played(cells, n, tile, player), n, tile.x as int, tile.y as int);
    -(base + 20 * centre_distance(n, tile.x as int, tile.y as int) + before.balance(player))
        + after.balance(player)
}

/// The outcome of a move when it is first looked at: a win if the four lines through the
/// tile show five in a row for the mover, else a loss if they show five in a row for the
/// opponent.
#[verifier::opaque]
pub open spec fn first_state(cells: Seq<Tile>, n: int, tile: TilePointer, player: Player) -> State {
    let after = tile_tally(played(cells, n, tile, player), n, tile.x as int, tile.y as int);
    if after.win_of(player) {
        State::Win
    } else if after.win_of(player.other()) {
        State::Lose
    } else {
        State::NotEnd
    }
}

/// A node after its first pass.
pub open spec fn initialized(t: Tree, cells: Seq<Tile>, n: int, base: int) -> Tree {
    Tree {
        score: first_look(cells, n, t.tile, t.player, base),
        first_score: first_look(cells, n, t.tile, t.player, base),
        first_score_sqrt: signed_sqrt(first_look(cells, n, t.tile, t.player, base)),
        state: first_state(cells, n, t.tile, t.player),
        ..t
    }
}

/// Number of replies that a node of the given depth keeps, of `count` that it has.
pub open spec fn child_limit(depth: int, count: int) -> int {
    if depth == 2 {
        if count / 2 > 24 {
            count / 2
        } else {
            24
        }
    } else if depth == 3 {
        16
    } else if depth <= 7 {
        8
    } else if depth == 8 {
        4
    } else {
        2
    }
}

/// The first `limit` trees of a list, or all of them if there are no more.
pub open spec fn first_n(trees: Seq<Tree>, limit: int) -> Seq<Tree> {
    if 0 <= limit < trees.len() {
        trees.take(limit)
    } else {
        trees
    }
}

/// Those of the first `upto` trees of a list whose outcome is open, in their order.
pub open spec fn open_only(trees: Seq<Tree>, upto: int) -> Seq<Tree>
    decreases upto,
{
    if upto <= 0 {
        Seq::empty()
    } else if trees[upto - 1].state == State::NotEnd {
        open_only(trees, upto - 1).push(trees[upto - 1])
    } else {
        open_only(trees, upto - 1)
    }
}

/// Those of the first `upto` trees of a list that are not lost, in their order.
pub open spec fn not_lost_only(trees: Seq<Tree>, upto: int) -> Seq<Tree>
    decreases upto,
{
    if upto <= 0 {
        Seq::empty()
    } else if trees[upto - 1].state != State::Lose {
        not_lost_only(trees, upto - 1).push(trees[upto - 1])
    } else {
        not_lost_only(trees, upto - 1)
    }
}

/// What holds of every tree of a list holds of every tree among its first ones that is not
/// lost, and if one of them is not lost, some tree is left.
pub proof fn lemma_not_lost_all(trees: Seq<Tree>, upto: int, holds: spec_fn(Tree) -> bool)
    requires
        0 <= upto <= trees.len(),
        forall|j: int| 0 <= j < upto ==> holds(#[trigger] trees[j]),
    ensures
        forall|k: int|
            0 <= k < not_lost_only(trees, upto).len() ==> holds(
                #[trigger] not_lost_only(trees, upto)[k],
            ) && not_lost_only(trees, upto)[k].state != State::Lose,
        (exists|j: int| 0 <= j < upto && (#[trigger] trees[j]).state != State::Lose)
            ==> not_lost_only(trees, upto).len() >= 1,
    decreases upto,
{
    if upto > 0 {
        lemma_not_lost_all(trees, upto - 1, holds);
        if exists|j: int| 0 <= j < upto && (#[trigger] trees[j]).state != State::Lose {
            let j = choose|j: int| 0 <= j < upto && (#[trigger] trees[j]).state != State::Lose;
            if j < upto - 1 {
                assert(trees[j].state != State::Lose);
            }
        }
    }
}

/// A node after its replies, ranked in `sorted`, were taken in: the best reply gives the
/// outcome and the score; a decided node keeps no replies, an open one keeps the open ones
/// among the first that its depth allows.
pub open spec fn settled(t: Tree, sorted: Seq<Tree>) -> Tree {
    let best = sorted[0];
    let state = best.state.flipped();
    let kept = first_n(sorted, child_limit(t.depth, sorted.len() as int));
    Tree {
        score: t.first_score_sqrt - half(best.score),
        state,
        children: if state != State::NotEnd {
            Seq::empty()
        } else {
            open_only(kept, kept.len() as int)
        },
        ..t
    }
}

/// The tile of the tree can be written: there is a character for its column, and its row
/// number fits.
pub open spec fn printable(t: Tree) -> bool {
    t.tile.x <= 158 && t.tile.y <= 254
}

/// The tiles of the tree and of its best replies, one after the other, can be written.
pub open spec fn path_printable(t: Tree) -> bool
    decreases t,
{
    &&& printable(t)
    &&& t.state == State::NotEnd && t.children.len() > 0 ==> path_printable(t.children[0])
}

/// The beginning of the text of a node: the tile, the score, the depth and the player.
pub open spec fn node_head(t: Tree) -> Seq<char> {
    "("@ + pointer_text(t.tile) + ", "@ + signed_decimal(t.score) + ", "@ + decimal(t.depth)
        + ", "@ + seq![t.player.glyph()]
}

/// The text of a node: the tile, the score, the depth, the player, the outcome and whether
/// the node is valid, in brackets.
pub open spec fn node_text(t: Tree) -> Seq<char> {
    node_head(t) + ", "@ + state_name(t.state) + ", "@ + (if t.valid {
        "valid"@
    } else {
        "invalid"@
    }) + ")"@
}

/// The text of a node and of its best replies. A decided node is written with its outcome;
/// an open one is followed by an arrow and its best reply, if it has one.
pub open spec fn node_path(t: Tree) -> Seq<char>
    decreases t,
{
    if t.state != State::NotEnd {
        node_head(t) + ", "@ + state_name(t.state) + ")"@
    } else if t.children.len() > 0 {
        node_head(t) + ")"@ + " -> "@ + node_path(t.children[0])
    } else {
        node_head(t) + ")"@
    }
}

/// Number of nodes that one more pass over the tree looks at for the first time: the node
/// itself on the first pass, a reply for every empty tile on the second, and later what the
/// passes over the replies look at.
pub open spec fn work(t: Tree, cells: Seq<Tile>, n: int) -> nat
    decreases t,
{
    if t.depth <= 0 {
        1
    } else if t.depth == 1 {
        empty_cells(played(cells, n, t.tile, t.player), n * n).len()
    } else {
        forest_work(
            t.children,
            played(cells, n, t.tile, t.player),
            n,
            t.children.len() as int,
        )
    }
}

/// Number of nodes that one more pass over the first `upto` trees of a list looks at for
/// the first time.
pub open spec fn forest_work(trees: Seq<Tree>, cells: Seq<Tile>, n: int, upto: int) -> nat
    decreases trees, upto,
{
    if upto <= 0 || upto > trees.len() {
        0
    } else {
        forest_work(trees, cells, n, upto - 1) + work(trees[upto - 1], cells, n)
    }
}

/// A pass over trees that were never passed over looks at each of them.
pub proof fn lemma_fresh_work(trees: Seq<Tree>, cells: Seq<Tile>, n: int, upto: int)
    requires
        0 <= upto <= trees.len(),
        forall|i: int| 0 <= i < trees.len() ==> (#[trigger] trees[i]).depth == 0,
    ensures
        forest_work(trees, cells, n, upto) == upto,
    decreases upto,
{
    if upto > 0 {
        lemma_fresh_work(trees, cells, n, upto - 1);
        assert(trees[upto - 1].depth == 0);
        assert(work(trees[upto - 1], cells, n) == 1);
    }
}

/// The tree is a sound search tree for a move on the board `cells` of size `n`, where the
/// position was worth `base` to the parent: the tile is empty, the scores follow from the
/// board and from the best reply, and the replies are sound trees on the board after the
/// move, open, ranked and one pass behind.
pub open spec fn sound(t: Tree, cells: Seq<Tile>, n: int, base: int) -> bool
    decreases t,
{
    &&& t.valid
    &&& t.tile.on_board(n)
    &&& cells[t.tile.index(n)] is None
    &&& 0 <= t.depth <= 255
    &&& -SCORE_LIMIT <= t.score <= SCORE_LIMIT
    &&& t.depth == 0 ==> t.children.len() == 0
    &&& t.depth >= 1 ==> {
        &&& t.first_score == first_look(cells, n, t.tile, t.player, base)
        &&& t.first_score_sqrt == signed_sqrt(t.first_score)
    }
    &&& t.depth == 1 ==> {
        &&& t.children.len() == 0
        &&& t.score == t.first_score
        &&& t.state == first_state(cells, n, t.tile, t.player)
    }
    &&& t.depth >= 2 && t.state == State::NotEnd ==> {
        &&& t.children.len() >= 1
        &&& t.score == t.first_score_sqrt - half(t.children[0].score)
    }
    &&& t.state != State::NotEnd ==> t.children.len() == 0
    &&& descending(t.children)
    &&& forall|i: int|
        0 <= i < t.children.len() ==> {
            &&& sound(#[trigger] t.children[i], played(cells, n, t.tile, t.player), n, t.first_score)
            &&& t.children[i].player == t.player.other()
            &&& t.children[i].state == State::NotEnd
            &&& t.children[i].depth + 1 == t.depth
        }
}

/// The score of the tree is within the limit of a score.
pub open spec fn in_range_score(t: Tree) -> bool {
    -SCORE_LIMIT <= t.score <= SCORE_LIMIT
}

/// The tree is sound and can take one more pass: its outcome is open.
pub open spec fn ready(t: Tree, cells: Seq<Tile>, n: int, base: int) -> bool {
    &&& sound(t, cells, n, base)
    &&& t.state == State::NotEnd
    &&& t.depth < 255
}

/// With a stone of `player` on `tile`, the lines through the tile show five in a row for
/// both players. No move of a game can bring this about.
pub open spec fn clash(cells: Seq<Tile>, n: int, tile: TilePointer, player: Player) -> bool {
    let after = tile_tally(played(cells, n, tile, player), n, tile.x as int, tile.y as int);
    after.win_x && after.win_o
}

/// The tile of the cell with the given index on a board of size `n`.
pub open spec fn tile_at(n: int, index: int) -> TilePointer {
    TilePointer { x: (index % n) as u8, y: (index / n) as u8 }
}

/// A tree that no pass has reached: valid, open, without score and without replies.
pub open spec fn fresh_tree(tile: TilePointer, player: Player) -> Tree {
    Tree {
        tile,
        player,
        state: State::NotEnd,
        valid: true,
        score: 0,
        first_score: 0,
        first_score_sqrt: 0,
        depth: 0,
        children: Seq::empty(),
    }
}

/// A fresh tree of `player` for every empty cell of the board, in the order of the cells.
pub open spec fn fresh_replies(cells: Seq<Tile>, n: int, player: Player) -> Seq<Tree> {
    Seq::new(
        empty_cells(cells, n * n).len(),
        |i: int| fresh_tree(tile_at(n, empty_cells(cells, n * n)[i]), player),
    )
}

/// The replies that a pass over the tree passes over, on the board after the tree's move:
/// the second pass makes a fresh reply of every empty cell, later passes take the replies
/// that were kept.
pub open spec fn replies_before(before: Tree, moved: Seq<Tile>, n: int) -> Seq<Tree> {
    if before.depth == 1 {
        fresh_replies(moved, n, before.player.other())
    } else {
        before.children
    }
}

/// No pass over the tree comes upon a move that shows five in a row for both players: not
/// the tree's own move on its first pass, and no reply that the pass looks at for the first
/// time.
pub open spec fn calm(t: Tree, cells: Seq<Tile>, n: int) -> bool
    decreases t,
{
    let moved = played(cells, n, t.tile, t.player);
    if t.depth <= 0 {
        !clash(cells, n, t.tile, t.player)
    } else if t.depth == 1 {
        forall|i: int|
            0 <= i < empty_cells(moved, n * n).len() ==> !clash(
                moved,
                n,
                tile_at(n, #[trigger] empty_cells(moved, n * n)[i]),
                t.player.other(),
            )
    } else {
        forall|i: int| 0 <= i < t.children.len() ==> calm(#[trigger] t.children[i], moved, n)
    }
}

/// What a pass over the replies makes of a node, where `expanded` is what the pass made of
/// the replies. If a reply is invalid, so is the node, and nothing else changes. Else the
/// counters count what the pass looked at, and the node takes the replies in, ranked.
pub open spec fn unfolded(
    before: Tree,
    after: Tree,
    expanded: Seq<Tree>,
    moved: Seq<Tile>,
    stats: Stats,
    n: int,
    unlimited: bool,
) -> bool {
    let replies = replies_before(before, moved, n);
    let mid = Tree { depth: before.depth + 1, children: expanded, ..before };
    &&& expanded.len() == replies.len()
    &&& forall|i: int|
        0 <= i < expanded.len() ==> advanced(
            replies[i],
            #[trigger] expanded[i],
            moved,
            n,
            before.first_score,
            unlimited,
        )
    &&& (exists|i: int| 0 <= i < expanded.len() && !(#[trigger] expanded[i]).valid) ==> after == (
    Tree { valid: false, ..mid })
    &&& (forall|i: int| 0 <= i < expanded.len() ==> (#[trigger] expanded[i]).valid) ==> {
        &&& stats.nodes_evaluated == capped(
            forest_work(replies, moved, n, replies.len() as int) as int,
        )
        &&& stats.nodes_pruned == 0
        &&& exists|sorted: Seq<Tree>|
            {
                &&& #[trigger] sorted.to_multiset() == expanded.to_multiset()
                &&& descending(sorted)
                &&& after == settled(mid, sorted)
            }
    }
}

/// What one pass makes of a node, of the board and of the counters, where `go_on` says
/// whether the deadline let the pass begin.
///
/// A pass that may not begin leaves the node invalid, and the board and all else as they
/// were, with nothing counted. So does a first pass over a move that shows five in a row for
/// both players. Else the first pass gives the first look at the move, on a board that it
/// leaves as it was, and counts one node. A later pass places the move. If that fills the
/// board, the node is a draw with score 0. Else the pass goes over the replies.
pub open spec fn pass_outcome(
    before: Tree,
    after: Tree,
    cells: Seq<Tile>,
    cells_after: Seq<Tile>,
    stats: Stats,
    n: int,
    base: int,
    unlimited: bool,
    go_on: bool,
) -> bool {
    let moved = played(cells, n, before.tile, before.player);
    if !go_on || (before.depth == 0 && clash(cells, n, before.tile, before.player)) {
        &&& after == (Tree { valid: false, ..before })
        &&& cells_after == cells
        &&& stats.nodes_evaluated == 0
        &&& stats.nodes_pruned == 0
    } else if before.depth == 0 {
        &&& after == (Tree { depth: 1, ..initialized(before, cells, n, base) })
        &&& cells_after == cells
        &&& stats.nodes_evaluated == 1
        &&& stats.nodes_pruned == 0
    } else if replies_before(before, moved, n).len() == 0 {
        &&& after == (Tree {
            depth: before.depth + 1,
            state: State::Draw,
            score: 0,
            children: Seq::empty(),
            ..before
        })
        &&& cells_after == moved
        &&& stats.nodes_evaluated == 0
        &&& stats.nodes_pruned == 0
    } else {
        &&& cells_after == moved
        &&& exists|expanded: Seq<Tree>| #[trigger]
            unfolded(before, after, expanded, moved, stats, n, unlimited)
    }
}

/// What one pass makes of a node. The move stays the same. A pass that the deadline cut
/// short leaves the node invalid; a deadline that never passes cuts none short, and then
/// only a move that shows five in a row for both players makes a node invalid. A pass that
/// was completed leaves a sound tree one pass deeper, and the first pass gives exactly the
/// first look at the move.
pub open spec fn advanced(
    before: Tree,
    after: Tree,
    cells: Seq<Tile>,
    n: int,
    base: int,
    unlimited: bool,
) -> bool {
    &&& after.tile == before.tile
    &&& after.player == before.player
    &&& unlimited && calm(before, cells, n) ==> after.valid
    &&& after.valid ==> sound(after, cells, n, base) && after.depth == before.depth + 1
    &&& after.valid && before.depth == 0 ==> after == (Tree {
        depth: 1,
        ..initialized(before, cells, n, base)
    })
}

/// A tile on the board is the tile of its cell's index.
pub proof fn lemma_tile_at(n: int, tile: TilePointer)
    requires
        1 <= n <= 255,
        tile.on_board(n),
    ensures
        tile_at(n, tile.index(n)) == tile,
{
    let index = tile.index(n);
    vstd::arithmetic::div_mod::lemma_fundamental_div_mod_converse(
        index,
        n,
        tile.y as int,
        tile.x as int,
    );
}

/// There are no more stones among the first cells than cells.
pub proof fn lemma_stones_bound(cells: Seq<Tile>, upto: int)
    requires
        0 <= upto,
    ensures
        0 <= stones(cells, upto) <= upto,
    decreases upto,
{
    if upto > 0 {
        lemma_stones_bound(cells, upto - 1);
    }
}

/// A stone on an empty cell is one stone more.
pub proof fn lemma_stones_played(cells: Seq<Tile>, index: int, player: Player, upto: int)
    requires
        0 <= index < cells.len(),
        cells[index] is None,
        0 <= upto <= cells.len(),
    ensures
        stones(cells.update(index, Some(player)), upto) == stones(cells, upto) + if index < upto {
            1int
        } else {
            0int
        },
    decreases upto,
{
    if upto > 0 {
        lemma_stones_played(cells, index, player, upto - 1);
    }
}

/// The score handed down grows by no more than one step with each stone, and never passes
/// the limit of a first score.
pub proof fn lemma_allowance(cells: Seq<Tile>, n: int, tile: TilePointer, player: Player)
    requires
        1 <= n <= 255,
        cells.len() == n * n,
        tile.on_board(n),
        cells[tile.index(n)] is None,
    ensures
        0 <= tile.index(n) < cells.len(),
        allowance(played(cells, n, tile, player)) == allowance(cells) + STEP_LIMIT,
        BOARD_LIMIT <= allowance(cells),
        allowance(played(cells, n, tile, player)) <= FIRST_LIMIT,
{
    reveal(allowance);
    let index = tile.index(n);
    assert(0 <= index < n * n) by (nonlinear_arith)
        requires
            index == tile.y * n + tile.x,
            0 <= tile.x < n,
            0 <= tile.y < n,
    {
        assert(tile.y * n <= (n - 1) * n);
    }
    lemma_stones_played(cells, index, player, cells.len() as int);
    lemma_stones_bound(cells, cells.len() as int);
    lemma_stones_bound(played(cells, n, tile, player), cells.len() as int);
    let s = stones(cells, cells.len() as int);
    assert(n * n <= 65025) by (nonlinear_arith)
        requires
            1 <= n <= 255,
    ;
    assert((s + 1) * STEP_LIMIT == s * STEP_LIMIT + STEP_LIMIT) by (nonlinear_arith);
    assert(0 <= s * STEP_LIMIT && (s + 1) * STEP_LIMIT <= 65025 * STEP_LIMIT)
        by (nonlinear_arith)
        requires
            0 <= s,
            s + 1 <= 65025,
    ;
}

/// The first look at a move stays within the allowance of the board after the move.
pub proof fn lemma_first_look_bound(
    cells: Seq<Tile>,
    n: int,
    tile: TilePointer,
    player: Player,
    base: int,
)
    requires
        1 <= n <= 255,
        cells.len() == n * n,
        tile.on_board(n),
        cells[tile.index(n)] is None,
        -allowance(cells) <= base <= allowance(cells),
    ensures
        -allowance(played(cells, n, tile, player)) <= first_look(cells, n, tile, player, base)
            <= allowance(played(cells, n, tile, player)),
        -FIRST_LIMIT <= first_look(cells, n, tile, player, base) <= FIRST_LIMIT,
        0 <= centre_distance(n, tile.x as int, tile.y as int) <= 130561,
{
    reveal(first_look);
    lemma_allowance(cells, n, tile, player);
    lemma_tile_tally_bound(cells, n, tile.x as int, tile.y as int);
    lemma_tile_tally_bound(played(cells, n, tile, player), n, tile.x as int, tile.y as int);
    let a = 2 * tile.x - (n - 1);
    let b = 2 * tile.y - (n - 1);
    assert(0 <= a * a <= 261121 && 0 <= b * b <= 261121) by (nonlinear_arith)
        requires
            -511 <= a <= 511,
            -511 <= b <= 511,
    ;
}

/// The signed square root is no larger in size than the number.
pub proof fn lemma_signed_sqrt_bound(n: int)
    ensures
        n >= 0 ==> 0 <= signed_sqrt(n) <= n,
        n < 0 ==> n <= signed_sqrt(n) <= 0,
{
    let m = if n >= 0 {
        n
    } else {
        -n
    };
    lemma_floor_sqrt_exists(m);
    crate::functions::lemma_floor_sqrt_is(crate::functions::floor_sqrt(m), m);
}

/// Every number that is not negative has an integer square root.
pub proof fn lemma_floor_sqrt_exists(m: int)
    requires
        m >= 0,
    ensures
        crate::functions::is_floor_sqrt(crate::functions::floor_sqrt(m), m),
    decreases m,
{
    if m == 0 {
        assert(crate::functions::is_floor_sqrt(0, 0));
    } else {
        lemma_floor_sqrt_exists(m - 1);
        let r = crate::functions::floor_sqrt(m - 1);
        if (r + 1) * (r + 1) <= m {
            assert((r + 2) * (r + 2) > m) by (nonlinear_arith)
                requires
                    r >= 0,
                    m - 1 < (r + 1) * (r + 1),
            ;
            assert(crate::functions::is_floor_sqrt(r + 1, m));
        } else {
            assert(crate::functions::is_floor_sqrt(r, m));
        }
    }
}

/// What holds of every tree of a list holds of every open tree among its first ones.
pub proof fn lemma_open_only_all(trees: Seq<Tree>, upto: int, holds: spec_fn(Tree) -> bool)
    requires
        0 <= upto <= trees.len(),
        forall|j: int| 0 <= j < upto ==> holds(#[trigger] trees[j]),
    ensures
        open_only(trees, upto).len() <= upto,
        forall|k: int|
            0 <= k < open_only(trees, upto).len() ==> holds(#[trigger] open_only(trees, upto)[k])
                && open_only(trees, upto)[k].state == State::NotEnd,
    decreases upto,
{
    if upto > 0 {
        lemma_open_only_all(trees, upto - 1, holds);
    }
}

/// The open trees of a ranked list are ranked, and an open first tree stays first.
pub proof fn lemma_open_only_ranked(trees: Seq<Tree>, upto: int)
    requires
        0 <= upto <= trees.len(),
        descending(trees),
    ensures
        descending(open_only(trees, upto)),
        upto >= 1 && trees[0].state == State::NotEnd ==> open_only(trees, upto).len() >= 1
            && open_only(trees, upto)[0] == trees[0],
    decreases upto,
{
    if upto > 0 {
        lemma_open_only_ranked(trees, upto - 1);
        let last = trees[upto - 1];
        let holds = |t: Tree| !outranks(last, t);
        lemma_open_only_all(trees, upto - 1, holds);
    }
}

/// What holds of every tree of a list holds of every tree of the same list in another order.
pub proof fn lemma_reordered_all(
    sorted: Seq<Tree>,
    trees: Seq<Tree>,
    holds: spec_fn(Tree) -> bool,
)
    requires
        sorted.to_multiset() == trees.to_multiset(),
        forall|j: int| 0 <= j < trees.len() ==> holds(#[trigger] trees[j]),
    ensures
        sorted.len() == trees.len(),
        forall|i: int| 0 <= i < sorted.len() ==> holds(#[trigger] sorted[i]),
{
    sorted.to_multiset_ensures();
    trees.to_multiset_ensures();
    assert forall|i: int| 0 <= i < sorted.len() implies holds(#[trigger] sorted[i]) by {
        assert(sorted.contains(sorted[i]));
        assert(trees.to_multiset().count(sorted[i]) > 0);
        assert(trees.contains(sorted[i]));
        let j = choose|j: int| 0 <= j < trees.len() && trees[j] == sorted[i];
        assert(holds(trees[j]));
    }
}

/// A node that takes in sound replies is sound.
pub proof fn lemma_settled_sound(t: Tree, sorted: Seq<Tree>, cells: Seq<Tile>, n: int, base: int)
    requires
        1 <= n <= 255,
        cells.len() == n * n,
        t.valid,
        t.tile.on_board(n),
        cells[t.tile.index(n)] is None,
        2 <= t.depth <= 255,
        -allowance(cells) <= base <= allowance(cells),
        t.first_score == first_look(cells, n, t.tile, t.player, base),
        t.first_score_sqrt == signed_sqrt(t.first_score),
        sorted.len() >= 1,
        descending(sorted),
        forall|i: int|
            0 <= i < sorted.len() ==> {
                &&& sound(#[trigger] sorted[i], played(cells, n, t.tile, t.player), n, t.first_score)
                &&& sorted[i].player == t.player.other()
                &&& sorted[i].depth + 1 == t.depth
            },
    ensures
        sound(settled(t, sorted), cells, n, base),
{
    let r = settled(t, sorted);
    let after = played(cells, n, t.tile, t.player);
    lemma_first_look_bound(cells, n, t.tile, t.player, base);
    lemma_signed_sqrt_bound(t.first_score);
    assert(sound(sorted[0], after, n, t.first_score));
    let kept = first_n(sorted, child_limit(t.depth, sorted.len() as int));
    let holds = |c: Tree|
        sound(c, after, n, t.first_score) && c.player == t.player.other() && c.depth + 1
            == t.depth;
    assert forall|j: int| 0 <= j < kept.len() implies holds(#[trigger] kept[j]) by {
        assert(kept[j] == sorted[j]);
    }
    assert(descending(kept)) by {
        assert forall|i: int, j: int| 0 <= i < j < kept.len() implies !outranks(
            kept[j],
            kept[i],
        ) by {
            assert(kept[i] == sorted[i] && kept[j] == sorted[j]);
        }
    }
    lemma_open_only_all(kept, kept.len() as int, holds);
    lemma_open_only_ranked(kept, kept.len() as int);
    assert(kept.len() >= 1 && kept[0] == sorted[0]);
    if r.state == State::NotEnd {
        assert(sorted[0].state == State::NotEnd);
        assert(r.children[0] == sorted[0]);
        assert forall|i: int| 0 <= i < r.children.len() implies {
            &&& sound(#[trigger] r.children[i], after, n, r.first_score)
            &&& r.children[i].player == r.player.other()
            &&& r.children[i].state == State::NotEnd
            &&& r.children[i].depth + 1 == r.depth
        } by {
            assert(holds(r.children[i]));
        }
    }
}

/// Number of replies that a node of the given depth keeps, of `child_count` that it has:
/// at depth 2 half of them and at least 24, then 16, 8 from depth 4 to 7, 4 at depth 8 and
/// 2 beyond.
pub fn child_budget(depth: u8, child_count: usize) -> (limit: usize)
    requires
        depth >= 2,
    ensures
        limit == child_limit(depth as int, child_count as int),
        limit >= 2,
{
    if depth == 2 {
        if child_count / 2 > 24 {
            child_count / 2
        } else {
            24
        }
    } else if depth == 3 {
        16
    } else if depth <= 7 {
        8
    } else if depth == 8 {
        4
    } else {
        2
    }
}

/// Half of a score, rounded towards zero.
pub fn half_score(score: Score) -> (h: Score)
    requires
        score > i64::MIN,
    ensures
        h == half(score as int),
{
    if score >= 0 {
        score / 2
    } else {
        -((-score) / 2)
    }
}

/// Keeps the nodes whose outcome is open, in their order.
pub fn keep_open(nodes: Vec<Node>) -> (kept: Vec<Node>)
    ensures
        views(kept@) == open_only(views(nodes@), nodes@.len() as int),
{
    let ghost all = views(nodes@);
    let mut kept: Vec<Node> = Vec::new();
    for node in it: nodes
        invariant
            all == views(nodes@),
            views(kept@) == open_only(all, it.index() as int),
    {
        assert(all[it.index() as int] == node@);
        if !node.state.is_end() {
            proof {
                node.lemma_view();
            }
            let ghost before = views(kept@);
            kept.push(node);
            assert(views(kept@) =~= before.push(node@));
        } else {
            proof {
                node.lemma_view();
            }
        }
    }
    kept
}

/// One pass over each node of a list, every node on a copy of the board of its own, handed
/// out to the workers of rayon's thread pool: `par_iter_mut`, `map` and `reduce`. Rayon
/// calls the closure once for each node, so each node is left as one pass leaves it, and
/// adds up the counters of the passes; where all passes were completed, the sum counts what
/// the passes looked at.
#[verifier::external_body]
pub(crate) fn expand_all(
    nodes: &mut Vec<Node>,
    board: &Board,
    parent_score: Score,
    deadline: &Deadline,
) -> (stats: Stats)
    requires
        board.wf(),
        -allowance(board@) <= parent_score <= allowance(board@),
        forall|i: int|
            0 <= i < old(nodes)@.len() ==> ready(
                (#[trigger] old(nodes)@[i])@,
                board@,
                board.side(),
                parent_score as int,
            ),
    ensures
        final(nodes)@.len() == old(nodes)@.len(),
        forall|i: int|
            0 <= i < old(nodes)@.len() ==> advanced(
                old(nodes)@[i]@,
                (#[trigger] final(nodes)@[i])@,
                board@,
                board.side(),
                parent_score as int,
                deadline.unlimited(),
            ),
        (forall|i: int| 0 <= i < final(nodes)@.len() ==> (#[trigger] final(nodes)@[i])@.valid)
            ==> stats.nodes_evaluated == capped(
            forest_work(views(old(nodes)@), board@, board.side(), old(nodes)@.len() as int) as int,
        ) && stats.nodes_pruned == 0,
{
    nodes.par_iter_mut().map(
        |node| node.compute_next_on_copy(board, parent_score, deadline),
    ).reduce(Stats::new, |a, b| a + b)
}

/// Keeps the nodes that are not lost, in their order.
pub fn keep_not_lost(nodes: Vec<Node>) -> (kept: Vec<Node>)
    ensures
        views(kept@) == not_lost_only(views(nodes@), nodes@.len() as int),
{
    let ghost all = views(nodes@);
    let mut kept: Vec<Node> = Vec::new();
    for node in it: nodes
        invariant
            all == views(nodes@),
            views(kept@) == not_lost_only(all, it.index() as int),
    {
        assert(all[it.index() as int] == node@);
        proof {
            node.lemma_view();
        }
        if !node.state.is_lose() {
            let ghost before = views(kept@);
            kept.push(node);
            assert(views(kept@) =~= before.push(node@));
        }
    }
    kept
}

impl Clone for Node {
    /// A copy of the node with its whole tree.
    fn clone(&self) -> (copy: Node)
        ensures
            copy@ == self@,
    {
        self.duplicate()
    }
}

impl Node {
    /// The view of a node holds the node's own values, and the views of its children.
    proof fn lemma_view(&self)
        ensures
            self@.tile == self.tile,
            self@.player == self.player,
            self@.state == self.state,
            self@.valid == self.valid,
            self@.score == self.score,
            self@.first_score == self.first_score,
            self@.first_score_sqrt == self.first_score_sqrt,
            self@.depth == self.depth,
            self@.children.len() == self.child_nodes@.len(),
            forall|k: int|
                0 <= k < self.child_nodes@.len() ==> #[trigger] self@.children[k]
                    == self.child_nodes@[k]@,
            self@.children == views(self.child_nodes@),
    {
        lemma_trees_of(self.child_nodes@, self.child_nodes@.len() as int);
        assert(self@.children =~= views(self.child_nodes@));
    }

    /// A fresh node for a move of `player` on `tile`: valid, without score, without replies,
    /// and not yet passed over.
    pub fn new(tile: TilePointer, player: Player, state: State) -> (node: Node)
        ensures
            node@ == (Tree {
                tile,
                player,
                state,
                valid: true,
                score: 0,
                first_score: 0,
                first_score_sqrt: 0,
                depth: 0,
                children: Seq::empty(),
            }),
    {
        let node = Node {
            tile,
            state,
            valid: true,
            score: 0,
            first_score: 0,
            first_score_sqrt: 0,
            player,
            child_nodes: Vec::new(),
            depth: 0,
        };
        proof {
            node.lemma_view();
            assert(node@.children =~= Seq::empty());
        }
        node
    }

    /// Whether a stone of `player` on `tile` makes the lines through the tile show five in a
    /// row for both players. The board is left as it was.
    pub fn clashes(board: &mut Board, tile: TilePointer, player: Player) -> (both: bool)
        requires
            old(board).wf(),
            old(board).holds(tile),
            old(board).at(tile) is None,
        ensures
            final(board)@ == old(board)@,
            final(board).side() == old(board).side(),
            final(board).table() == old(board).table(),
            final(board).wf(),
            both == clash(old(board)@, old(board).side(), tile, player),
    {
        let ghost cells = board@;
        proof {
            lemma_allowance(cells, board.side(), tile, player);
        }
        board.set_tile(tile, Some(player));
        let after = eval_relevant_sequences(board, tile);
        board.set_tile(tile, None);
        assert(board@ =~= cells);
        after.win.0 && after.win.1
    }

    /// The first pass over a node: looks at the move on the board, where its tile is empty,
    /// and sets the score and the outcome. The board is left as it was. The move must not
    /// show five in a row for both players.
    pub fn initialize(&mut self, board: &mut Board, parent_score: Score, stats: &mut Stats)
        requires
            old(board).wf(),
            old(board).holds(old(self)@.tile),
            old(board).at(old(self)@.tile) is None,
            -allowance(old(board)@) <= parent_score <= allowance(old(board)@),
            !clash(old(board)@, old(board).side(), old(self)@.tile, old(self)@.player),
        ensures
            final(board)@ == old(board)@,
            final(board).side() == old(board).side(),
            final(board).table() == old(board).table(),
            final(board).wf(),
            final(self)@ == initialized(
                old(self)@,
                old(board)@,
                old(board).side(),
                parent_score as int,
            ),
            final(stats).nodes_evaluated == capped(old(stats).nodes_evaluated + 1),
            final(stats).nodes_pruned == old(stats).nodes_pruned,
    {
        let ghost cells = board@;
        let ghost n = board.side();
        let ghost before = self@;
        proof {
            self.lemma_view();
            reveal(first_look);
            reveal(first_state);
            lemma_first_look_bound(cells, n, self.tile, self.player, parent_score as int);
            lemma_allowance(cells, n, self.tile, self.player);
            lemma_tile_tally_bound(cells, n, self.tile.x as int, self.tile.y as int);
            lemma_tile_tally_bound(
                played(cells, n, self.tile, self.player),
                n,
                self.tile.x as int,
                self.tile.y as int,
            );
        }
        stats.evaluate_node();

        let opponent = self.player.next();
        let tile = self.tile;
        let mut score: Score = parent_score;

        score = score + 20 * board.squared_distance_from_center(tile);

        let prev = eval_relevant_sequences(board, tile);

        score = score + prev.score.get(self.player);
        score = score - prev.score.get(opponent);

        board.set_tile(tile, Some(self.player));

        let new = eval_relevant_sequences(board, tile);

        score = -score;
        score = score + new.score.get(self.player);
        score = score - new.score.get(opponent);

        board.set_tile(tile, None);
        assert(board@ =~= cells);

        self.score = score;
        self.first_score = score;
        self.first_score_sqrt = score_sqrt(score);

        self.state = if new.win.get(self.player) {
            State::Win
        } else if new.win.get(opponent) {
            State::Lose
        } else {
            State::NotEnd
        };
        proof {
            self.lemma_view();
            assert(self@.children == before.children);
        }
    }

    /// Takes the replies in, after a pass over them. If a reply is invalid, the node becomes
    /// invalid and nothing else changes. Otherwise the replies are ranked; the best gives the
    /// node its outcome, inverted, and its score, the square root of the first score less half
    /// the best reply's score. A decided node drops its replies; an open one keeps the open
    /// ones among the first that its depth allows.
    pub fn evaluate_children(&mut self)
        requires
            old(self)@.children.len() >= 1,
            (forall|i: int|
                0 <= i < old(self)@.children.len() ==> (#[trigger] old(self)@.children[i]).valid)
                ==> old(self)@.depth >= 2,
            -FIRST_LIMIT <= old(self)@.first_score_sqrt <= FIRST_LIMIT,
            forall|i: int|
                0 <= i < old(self)@.children.len() && (#[trigger] old(self)@.children[i]).valid
                    ==> in_range_score(old(self)@.children[i]),
        ensures
            (exists|i: int| 0 <= i < old(self)@.children.len() && !old(self)@.children[i].valid)
                ==> final(self)@ == (Tree { valid: false, ..old(self)@ }),
            (forall|i: int| 0 <= i < old(self)@.children.len() ==> old(self)@.children[i].valid)
                ==> exists|sorted: Seq<Tree>|
                {
                    &&& #[trigger] sorted.to_multiset() == old(self)@.children.to_multiset()
                    &&& descending(sorted)
                    &&& final(self)@ == settled(old(self)@, sorted)
                },
    {
        let ghost before = self@;
        proof {
            self.lemma_view();
        }
        let mut all_valid = true;
        let mut i: usize = 0;
        while i < self.child_nodes.len()
            invariant
                i <= self.child_nodes@.len(),
                before.children == views(self.child_nodes@),
                all_valid <==> (forall|k: int|
                    0 <= k < i ==> (#[trigger] before.children[k]).valid),
            decreases self.child_nodes@.len() - i,
        {
            proof {
                self.child_nodes@[i as int].lemma_view();
                assert(before.children[i as int] == self.child_nodes@[i as int]@);
            }
            if !self.child_nodes[i].valid {
                all_valid = false;
            }
            i += 1;
        }
        if !all_valid {
            self.valid = false;
            proof {
                self.lemma_view();
            }
            return ;
        }

        sort_descending(&mut self.child_nodes);
        let ghost sorted = views(self.child_nodes@);
        proof {
            let in_range = |c: Tree| in_range_score(c);
            lemma_reordered_all(sorted, before.children, in_range);
        }

        let limit = child_budget(self.depth, self.child_nodes.len());
        self.child_nodes.truncate(limit);
        let ghost kept = views(self.child_nodes@);
        assert(kept =~= first_n(sorted, limit as int));

        let best_score = self.child_nodes[0].score;
        let best_state = self.child_nodes[0].state;
        proof {
            self.child_nodes@[0].lemma_view();
            assert(kept[0] == sorted[0]);
            assert(in_range_score(sorted[0]));
        }

        self.score = self.first_score_sqrt - half_score(best_score);
        self.state = best_state.inversed();

        if self.state.is_end() {
            self.child_nodes = Vec::new();
            proof {
                self.lemma_view();
                assert(self@.children =~= Seq::empty());
                assert(self@ == settled(before, sorted));
            }
            return ;
        }
        let mut children: Vec<Node> = Vec::new();
        std::mem::swap(&mut children, &mut self.child_nodes);
        self.child_nodes = keep_open(children);
        proof {
            self.lemma_view();
            assert(self@ == settled(before, sorted));
        }
    }

    /// One pass over the node and its replies, on a board on which the node's tile is empty
    /// and which was worth `parent_score` to the parent.
    ///
    /// If the deadline has passed, the node becomes invalid and nothing else changes. Else
    /// the pass goes one level deeper than the last: the first pass looks at the move
    /// itself; the second places the move, makes a reply of every empty tile and passes over
    /// each once; later passes pass over the replies that were kept. After the replies, the
    /// node takes them in. A node whose move fills the board is a draw with score 0.
    pub fn compute_next(
        &mut self,
        board: &mut Board,
        parent_score: Score,
        deadline: &Deadline,
    ) -> (stats: Stats)
        requires
            old(board).wf(),
            ready(old(self)@, old(board)@, old(board).side(), parent_score as int),
            -allowance(old(board)@) <= parent_score <= allowance(old(board)@),
        ensures
            exists|go_on: bool|
                (deadline.unlimited() ==> go_on) && #[trigger] pass_outcome(
                    old(self)@,
                    final(self)@,
                    old(board)@,
                    final(board)@,
                    stats,
                    old(board).side(),
                    parent_score as int,
                    deadline.unlimited(),
                    go_on,
                ),
            advanced(
                old(self)@,
                final(self)@,
                old(board)@,
                old(board).side(),
                parent_score as int,
                deadline.unlimited(),
            ),
            final(board).wf(),
            final(board).side() == old(board).side(),
            final(board).table() == old(board).table(),
            final(board)@ == old(board)@ || final(board)@ == played(
                old(board)@,
                old(board).side(),
                old(self)@.tile,
                old(self)@.player,
            ),
            old(self)@.depth == 0 ==> final(board)@ == old(board)@,
            old(self)@.depth >= 1 && final(self)@.valid ==> final(board)@ == played(
                old(board)@,
                old(board).side(),
                old(self)@.tile,
                old(self)@.player,
            ),
            final(self)@.valid ==> stats.nodes_evaluated == capped(
                work(old(self)@, old(board)@, old(board).side()) as int,
            ) && stats.nodes_pruned == 0,
    {
        let go_on = do_run(deadline);
        self.compute_next_polled(board, parent_score, deadline, go_on)
    }

    /// One pass over the node and its replies, where `go_on` says whether the deadline lets
    /// the pass begin. The replies ask the deadline themselves.
    pub fn compute_next_polled(
        &mut self,
        board: &mut Board,
        parent_score: Score,
        deadline: &Deadline,
        go_on: bool,
    ) -> (stats: Stats)
        requires
            old(board).wf(),
            ready(old(self)@, old(board)@, old(board).side(), parent_score as int),
            -allowance(old(board)@) <= parent_score <= allowance(old(board)@),
        ensures
            pass_outcome(
                old(self)@,
                final(self)@,
                old(board)@,
                final(board)@,
                stats,
                old(board).side(),
                parent_score as int,
                deadline.unlimited(),
                go_on,
            ),
            go_on || !deadline.unlimited() ==> advanced(
                old(self)@,
                final(self)@,
                old(board)@,
                old(board).side(),
                parent_score as int,
                deadline.unlimited(),
            ),
            final(board).wf(),
            final(board).side() == old(board).side(),
            final(board).table() == old(board).table(),
            final(board)@ == old(board)@ || final(board)@ == played(
                old(board)@,
                old(board).side(),
                old(self)@.tile,
                old(self)@.player,
            ),
            old(self)@.depth == 0 ==> final(board)@ == old(board)@,
            old(self)@.depth >= 1 && final(self)@.valid ==> final(board)@ == played(
                old(board)@,
                old(board).side(),
                old(self)@.tile,
                old(self)@.player,
            ),
            final(self)@.valid ==> stats.nodes_evaluated == capped(
                work(old(self)@, old(board)@, old(board).side()) as int,
            ) && stats.nodes_pruned == 0,
    {
        let ghost before = self@;
        let ghost cells = board@;
        let ghost n = board.side();
        let ghost base = parent_score as int;
        let ghost unlimited = deadline.unlimited();
        proof {
            self.lemma_view();
            lemma_first_look_bound(cells, n, self.tile, self.player, base);
            lemma_allowance(cells, n, self.tile, self.player);
        }
        let mut stats = Stats::new();

        if !go_on {
            self.valid = false;
            proof {
                self.lemma_view();
            }
            return stats;
        }
        if self.depth == 0 {
            if Node::clashes(board, self.tile, self.player) {
                self.valid = false;
                proof {
                    self.lemma_view();
                }
                return stats;
            }
            self.depth = 1;
            self.initialize(board, parent_score, &mut stats);
            proof {
                self.lemma_view();
                assert(self@.children =~= Seq::empty());
            }
            return stats;
        }
        self.depth += 1;
        board.set_tile(self.tile, Some(self.player));
        let ghost after = played(cells, n, self.tile, self.player);
        assert(board@ == after);
        assert(n * n == after.len());

        if self.depth == 2 {
            let empty = board.pointers_to_empty_tiles();
            let reply_player = self.player.next();
            let mut children: Vec<Node> = Vec::new();
            let mut k: usize = 0;
            while k < empty.len()
                invariant
                    k <= empty@.len(),
                    children@.len() == k,
                    forall|j: int|
                        0 <= j < k ==> (#[trigger] children@[j])@ == fresh_tree(
                            empty@[j],
                            reply_player,
                        ),
                decreases empty@.len() - k,
            {
                children.push(Node::new(empty[k], reply_player, State::NotEnd));
                k += 1;
            }
            self.child_nodes = children;
            proof {
                self.lemma_view();
                let wanted = fresh_replies(after, n, reply_player);
                assert(self@.children =~= wanted) by {
                    assert forall|i: int| 0 <= i < wanted.len() implies self@.children[i]
                        == wanted[i] by {
                        assert(self@.children[i] == self.child_nodes@[i]@);
                        lemma_tile_at(n, empty@[i]);
                    }
                }
            }
            if self.child_nodes.len() == 0 {
                self.state = State::Draw;
                self.score = 0;
                proof {
                    self.lemma_view();
                    assert(self@.children =~= Seq::empty());
                }
                return stats;
            }
            proof {
                assert forall|i: int| 0 <= i < self@.children.len() implies ready(
                    #[trigger] self@.children[i],
                    after,
                    n,
                    self@.first_score,
                ) && self@.children[i].depth == 0 && self@.children[i].player
                    == self@.player.other() by {
                    assert(self@.children[i] == self.child_nodes@[i]@);
                    assert(board.at(empty@[i]) is None);
                }
            }
        }
        let ghost mid = self@;
        let ghost replies = replies_before(before, after, n);
        let first_score = self.first_score;
        proof {
            self.lemma_view();
            assert(mid.children == replies);
            assert(replies.len() >= 1);
            assert forall|i: int| 0 <= i < self.child_nodes@.len() implies ready(
                (#[trigger] self.child_nodes@[i])@,
                after,
                n,
                first_score as int,
            ) by {
                assert(mid.children[i] == self.child_nodes@[i]@);
            }
        }
        let ghost old_children = self.child_nodes@;
        let below = expand_all(&mut self.child_nodes, board, first_score, deadline);
        stats = stats + below;
        let ghost expanded = self@;
        proof {
            self.lemma_view();
            lemma_signed_sqrt_bound(self.first_score as int);
            assert(expanded == (Tree { depth: before.depth + 1, children: expanded.children, ..before }));
            assert forall|i: int| 0 <= i < expanded.children.len() implies advanced(
                replies[i],
                #[trigger] expanded.children[i],
                after,
                n,
                first_score as int,
                unlimited,
            ) by {
                assert(mid.children[i] == old_children[i]@);
                assert(expanded.children[i] == self.child_nodes@[i]@);
            }
            assert(views(old_children) =~= mid.children);
            if before.depth == 1 {
                lemma_fresh_work(mid.children, after, n, mid.children.len() as int);
            }
            if forall|i: int| 0 <= i < expanded.children.len() ==> expanded.children[i].valid {
                assert forall|i: int| 0 <= i < self.child_nodes@.len() implies (
                #[trigger] self.child_nodes@[i])@.valid by {
                    assert(expanded.children[i] == self.child_nodes@[i]@);
                }
            }
            if unlimited && calm(before, cells, n) {
                assert forall|i: int| 0 <= i < expanded.children.len() implies (
                #[trigger] expanded.children[i]).valid by {
                    assert(advanced(
                        replies[i],
                        expanded.children[i],
                        after,
                        n,
                        first_score as int,
                        unlimited,
                    ));
                    if before.depth == 1 {
                        let e = empty_cells(after, n * n);
                        assert(replies[i].tile == tile_at(n, e[i]));
                        assert(calm(replies[i], after, n));
                    } else {
                        assert(calm(before.children[i], after, n));
                    }
                }
            }
        }
        self.evaluate_children();
        proof {
            if forall|i: int| 0 <= i < expanded.children.len() ==> expanded.children[i].valid {
                let sorted = choose|sorted: Seq<Tree>|
                    {
                        &&& #[trigger] sorted.to_multiset() == expanded.children.to_multiset()
                        &&& descending(sorted)
                        &&& self@ == settled(expanded, sorted)
                    };
                let holds = |c: Tree|
                    sound(c, after, n, expanded.first_score) && c.player
                        == expanded.player.other() && c.depth + 1 == expanded.depth;
                assert forall|j: int| 0 <= j < expanded.children.len() implies holds(
                    #[trigger] expanded.children[j],
                ) by {
                    assert(advanced(
                        replies[j],
                        expanded.children[j],
                        after,
                        n,
                        first_score as int,
                        unlimited,
                    ));
                }
                lemma_reordered_all(sorted, expanded.children, holds);
                lemma_settled_sound(expanded, sorted, cells, n, base);
            }
            assert(unfolded(before, self@, expanded.children, after, stats, n, unlimited));
        }
        stats
    }

    /// One pass over the node on a copy of the board, which is left as it is.
    pub fn compute_next_on_copy(
        &mut self,
        board: &Board,
        parent_score: Score,
        deadline: &Deadline,
    ) -> (stats: Stats)
        requires
            board.wf(),
            ready(old(self)@, board@, board.side(), parent_score as int),
            -allowance(board@) <= parent_score <= allowance(board@),
        ensures
            exists|go_on: bool, cells_after: Seq<Tile>|
                (deadline.unlimited() ==> go_on) && #[trigger] pass_outcome(
                    old(self)@,
                    final(self)@,
                    board@,
                    cells_after,
                    stats,
                    board.side(),
                    parent_score as int,
                    deadline.unlimited(),
                    go_on,
                ),
            advanced(
                old(self)@,
                final(self)@,
                board@,
                board.side(),
                parent_score as int,
                deadline.unlimited(),
            ),
            final(self)@.valid ==> stats.nodes_evaluated == capped(
                work(old(self)@, board@, board.side()) as int,
            ) && stats.nodes_pruned == 0,
    {
        let mut copy = board.clone();
        self.compute_next(&mut copy, parent_score, deadline)
    }

    /// Appends the beginning of the text of the node.
    fn push_head(&self, out: &mut Vec<char>)
        requires
            printable(self@),
        ensures
            final(out)@ == old(out)@ + node_head(self@),
    {
        proof {
            self.lemma_view();
        }
        push_text(out, "(");
        push_pointer(out, self.tile);
        push_text(out, ", ");
        push_signed(out, self.score);
        push_text(out, ", ");
        push_decimal(out, self.depth as usize);
        push_text(out, ", ");
        out.push(self.player.char());
        assert(out@ =~= old(out)@ + node_head(self@));
    }

    /// The node as text: the tile, the score, the depth, the player, the outcome and whether
    /// the node is valid.
    pub fn to_text(&self) -> (text: String)
        requires
            printable(self@),
        ensures
            text@ == node_text(self@),
    {
        proof {
            self.lemma_view();
        }
        let mut out: Vec<char> = Vec::new();
        self.push_head(&mut out);
        push_text(&mut out, ", ");
        push_text(&mut out, self.state.to_text());
        push_text(&mut out, ", ");
        if self.valid {
            push_text(&mut out, "valid");
        } else {
            push_text(&mut out, "invalid");
        }
        push_text(&mut out, ")");
        assert(out@ =~= node_text(self@));
        crate::text::string_of(&out)
    }

    /// Appends the text of the node and of its best replies.
    fn push_path(&self, out: &mut Vec<char>)
        requires
            path_printable(self@),
        ensures
            final(out)@ == old(out)@ + node_path(self@),
        decreases self,
    {
        proof {
            self.lemma_view();
        }
        self.push_head(out);
        if self.state.is_end() {
            push_text(out, ", ");
            push_text(out, self.state.to_text());
            push_text(out, ")");
            assert(out@ =~= old(out)@ + node_path(self@));
        } else if self.child_nodes.len() > 0 {
            push_text(out, ")");
            push_text(out, " -> ");
            let ghost before = out@;
            assert(self@.children[0] == self.child_nodes@[0]@);
            self.child_nodes[0].push_path(out);
            assert(out@ =~= old(out)@ + node_path(self@));
        } else {
            push_text(out, ")");
            assert(out@ =~= old(out)@ + node_path(self@));
        }
    }

    /// The node and its best replies as text, one after the other.
    pub fn path_text(&self) -> (text: String)
        requires
            path_printable(self@),
        ensures
            text@ == node_path(self@),
    {
        let mut out: Vec<char> = Vec::new();
        self.push_path(&mut out);
        assert(out@ =~= node_path(self@));
        crate::text::string_of(&out)
    }

    /// Whether this node ranks above the other: a won node ranks above any that is not won;
    /// else the higher score ranks above.
    pub fn outranks(&self, other: &Node) -> (above: bool)
        ensures
            above == outranks(self@, other@),
    {
        proof {
            self.lemma_view();
            other.lemma_view();
        }
        let self_wins = self.state.is_win();
        let other_wins = other.state.is_win();
        if self_wins && !other_wins {
            true
        } else if !self_wins && other_wins {
            false
        } else {
            self.score > other.score
        }
    }

    /// A copy of the node with its whole tree.
    pub fn duplicate(&self) -> (copy: Node)
        ensures
            copy@ == self@,
        decreases self,
    {
        let mut children: Vec<Node> = Vec::with_capacity(self.child_nodes.len());
        let mut i: usize = 0;
        while i < self.child_nodes.len()
            invariant
                i <= self.child_nodes@.len(),
                children@.len() == i,
                forall|k: int| 0 <= k < i ==> (#[trigger] children@[k])@ == self.child_nodes@[k]@,
            decreases self.child_nodes@.len() - i,
        {
            children.push(self.child_nodes[i].duplicate());
            i += 1;
        }
        let copy = Node {
            tile: self.tile,
            player: self.player,
            state: self.state,
            valid: self.valid,
            child_nodes: children,
            score: self.score,
            first_score: self.first_score,
            first_score_sqrt: self.first_score_sqrt,
            depth: self.depth,
        };
        proof {
            self.lemma_view();
            copy.lemma_view();
            assert(copy@.children =~= self@.children);
        }
        copy
    }

    /// The tile of the move.
    pub fn tile(&self) -> (tile: TilePointer)
        ensures
            tile == self@.tile,
    {
        self.tile
    }

    /// The player who makes the move.
    pub fn player(&self) -> (player: Player)
        ensures
            player == self@.player,
    {
        self.player
    }

    /// The outcome that the search has found for the move.
    pub fn state(&self) -> (state: State)
        ensures
            state == self@.state,
    {
        self.state
    }

    /// Whether the node was fully expanded in the last pass.
    pub fn is_valid(&self) -> (valid: bool)
        ensures
            valid == self@.valid,
    {
        self.valid
    }

    /// The score of the move for the player who makes it.
    pub fn score(&self) -> (score: Score)
        ensures
            score == self@.score,
    {
        self.score
    }

    /// The number of passes that have reached the node.
    pub fn depth(&self) -> (depth: u8)
        ensures
            depth == self@.depth,
    {
        self.depth
    }

    /// The replies that are kept, best first.
    pub fn children(&self) -> (children: &Vec<Node>)
        ensures
            views(children@) == self@.children,
    {
        proof {
            self.lemma_view();
        }
        &self.child_nodes
    }

    /// The number of replies that are kept.
    pub fn child_count(&self) -> (count: usize)
        ensures
            count == self@.children.len(),
    {
        proof {
            self.lemma_view();
        }
        self.child_nodes.len()
    }

    /// The move that the node stands for, with the node's score.
    pub fn to_move(&self) -> (m: Move)
        ensures
            m.tile == self@.tile,
            m.score == self@.score,
    {
        Move { tile: self.tile, score: self.score }
    }

    /// The number of nodes of the tree below and including this node, as far as it can be
    /// counted in a `usize`.
    pub fn node_count(&self) -> (count: usize)
        ensures
            count == (if tree_size(self@) <= usize::MAX {
                tree_size(self@)
            } else {
                usize::MAX as nat
            }),
        decreases self,
    {
        let mut count: usize = 1;
        let mut i: usize = 0;
        proof {
            self.lemma_view();
        }
        while i < self.child_nodes.len()
            invariant
                i <= self.child_nodes@.len(),
                self@.children.len() == self.child_nodes@.len(),
                forall|k: int|
                    0 <= k < self.child_nodes@.len() ==> #[trigger] self@.children[k]
                        == self.child_nodes@[k]@,
                count == (if 1 + forest_size(self@.children, i as int) <= usize::MAX {
                    1 + forest_size(self@.children, i as int)
                } else {
                    usize::MAX as nat
                }),
            decreases self.child_nodes@.len() - i,
        {
            let below = self.child_nodes[i].node_count();
            count = count.saturating_add(below);
            i += 1;
        }
        count
    }
}

} // verus!
