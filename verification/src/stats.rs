//! Counters that the search reports.

use vstd::prelude::*;

verus! {

/// Counters of one search, or of a part of it. A counter stops at the largest value it can
/// hold.
#[derive(Debug, Clone, Copy, PartialEq, Eq, Structural)]
pub struct Stats {
    /// The number of nodes evaluated by the engine
    pub nodes_evaluated: u32,
    /// The number of nodes pruned
    pub nodes_pruned: u32,
}

/// A count as a counter holds it: the count itself, or the largest value of a counter where
/// the count is above it.
pub open spec fn capped(count: int) -> u32 {
    if count > u32::MAX {
        u32::MAX
    } else {
        count as u32
    }
}

impl Stats {
    /// Create a new stats initialized to 0
    pub fn new() -> (s: Stats)
        ensures
            s.nodes_evaluated == 0,
            s.nodes_pruned == 0,
    {
        Stats { nodes_evaluated: 0, nodes_pruned: 0 }
    }

    /// Increase the number of nodes evaluated by 1
    pub fn evaluate_node(&mut self)
        ensures
            final(self).nodes_evaluated == capped(old(self).nodes_evaluated + 1),
            final(self).nodes_pruned == old(self).nodes_pruned,
    {
        self.nodes_evaluated = self.nodes_evaluated.saturating_add(1);
    }

    /// Increase the number of nodes evaluated by 1
    pub fn create_node(&mut self)
        ensures
            final(self).nodes_evaluated == capped(old(self).nodes_evaluated + 1),
            final(self).nodes_pruned == old(self).nodes_pruned,
    {
        self.nodes_evaluated = self.nodes_evaluated.saturating_add(1);
    }

    /// Increase the number of pruned nodes by `count`
    pub fn prune_nodes(&mut self, count: u32)
        ensures
            final(self).nodes_pruned == capped(old(self).nodes_pruned + count),
            final(self).nodes_evaluated == old(self).nodes_evaluated,
    {
        self.nodes_pruned = self.nodes_pruned.saturating_add(count);
    }
}

impl Default for Stats {
    /// The record with all counters at 0.
    fn default() -> (s: Stats)
        ensures
            s.nodes_evaluated == 0,
            s.nodes_pruned == 0,
    {
        Stats::new()
    }
}

impl core::ops::Add for Stats {
    type Output = Stats;

    /// The sum of two records, counter by counter.
    fn add(self, other: Stats) -> (s: Stats) {
        Stats {
            nodes_evaluated: self.nodes_evaluated.saturating_add(other.nodes_evaluated),
            nodes_pruned: self.nodes_pruned.saturating_add(other.nodes_pruned),
        }
    }
}

impl vstd::std_specs::ops::AddSpecImpl for Stats {
    open spec fn obeys_add_spec() -> bool {
        true
    }

    open spec fn add_req(self, other: Stats) -> bool {
        true
    }

    open spec fn add_spec(self, other: Stats) -> Stats {
        Stats {
            nodes_evaluated: capped(self.nodes_evaluated + other.nodes_evaluated),
            nodes_pruned: capped(self.nodes_pruned + other.nodes_pruned),
        }
    }
}

/// The sum of two records, counter by counter.
pub open spec fn stats_sum(a: Stats, b: Stats) -> Stats {
    Stats {
        nodes_evaluated: capped(a.nodes_evaluated + b.nodes_evaluated),
        nodes_pruned: capped(a.nodes_pruned + b.nodes_pruned),
    }
}

/// Records form a commutative monoid under addition, with the empty record as identity.
pub proof fn lemma_stats_monoid(a: Stats, b: Stats, c: Stats)
    ensures
        stats_sum(a, Stats { nodes_evaluated: 0, nodes_pruned: 0 }) == a,
        stats_sum(a, b) == stats_sum(b, a),
        stats_sum(stats_sum(a, b), c) == stats_sum(a, stats_sum(b, c)),
{
}

} // verus!
