//! The order in which nodes are ranked: a won node before any other, then the higher score.

use vstd::prelude::*;
use std::cmp::Ordering;
use crate::node::{views, Node, Tree};
use crate::state::State;

verus! {

/// `a` ranks above `b`: a win beats anything that is no win; among two wins, or two nodes
/// that are no wins, the higher score ranks above.
pub open spec fn outranks(a: Tree, b: Tree) -> bool {
    if a.state == State::Win && b.state != State::Win {
        true
    } else if a.state != State::Win && b.state == State::Win {
        false
    } else {
        a.score > b.score
    }
}

/// No tree of the list ranks above one that stands before it.
pub open spec fn descending(trees: Seq<Tree>) -> bool {
    forall|i: int, j: int| 0 <= i < j < trees.len() ==> !outranks(trees[j], trees[i])
}

/// No tree of the list ranks above `top`.
pub open spec fn tops(top: Tree, trees: Seq<Tree>) -> bool {
    forall|i: int| 0 <= i < trees.len() ==> !outranks(#[trigger] trees[i], top)
}

/// Ranking is a strict order that leaves no two nodes unordered but those of equal rank.
pub proof fn lemma_outranks_order(a: Tree, b: Tree, c: Tree)
    ensures
        !outranks(a, a),
        outranks(a, b) ==> !outranks(b, a),
        outranks(a, b) && outranks(b, c) ==> outranks(a, c),
        !outranks(a, b) && !outranks(b, c) ==> !outranks(a, c),
{
}

/// Compares two nodes by rank.
pub fn compare(a: &Node, b: &Node) -> (o: Ordering)
    ensures
        o is Greater <==> outranks(a@, b@),
        o is Less <==> outranks(b@, a@),
{
    let a_wins = a.state().is_win();
    let b_wins = b.state().is_win();
    if a_wins && !b_wins {
        Ordering::Greater
    } else if !a_wins && b_wins {
        Ordering::Less
    } else if a.score() > b.score() {
        Ordering::Greater
    } else if a.score() < b.score() {
        Ordering::Less
    } else {
        Ordering::Equal
    }
}

/// Sorts the nodes by falling rank: `sort_unstable_by` of std, with the comparison turned
/// round. The nodes are the same as before, in an order in which none ranks above one that
/// stands before it; nodes of equal rank may come in any order.
#[verifier::external_body]
pub(crate) fn sort_descending(nodes: &mut Vec<Node>)
    ensures
        views(final(nodes)@).to_multiset() == views(old(nodes)@).to_multiset(),
        descending(views(final(nodes)@)),
{
    nodes.sort_unstable_by(|a, b| compare(b, a));
}

} // verus!
