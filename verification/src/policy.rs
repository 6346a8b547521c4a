//! What a plan is judged by, and how the effort of planning is counted.
use vstd::prelude::*;

verus! {

/// What justifies rearranging a plan.
#[derive(Debug, Clone, Copy, PartialEq, Eq, Structural)]
pub enum Policy {
    /// Improve current batch count, then execution cost. Keep ties stable.
    Cost,
    /// Rearrange only to reduce current batch count; useful as a baseline.
    Count,
}

impl Default for Policy {
    fn default() -> (policy: Self)
        ensures
            policy == Policy::Cost,
    {
        Policy::Cost
    }
}

/// Planner diagnostics. The counters wrap around.
#[derive(Debug, Clone, Copy, PartialEq, Eq, Structural)]
pub struct Stats {
    pub planning_calls: usize,
    pub exact_searches: usize,
    pub bounded_searches: usize,
    pub search_nodes: usize,
    /// Includes node-budget exhaustion and skipping search above the pattern cap.
    pub search_budget_exhaustions: usize,
    pub peak_pending_patterns: usize,
}

impl Default for Stats {
    fn default() -> (stats: Self)
        ensures
            stats == Stats::none(),
    {
        Stats {
            planning_calls: 0,
            exact_searches: 0,
            bounded_searches: 0,
            search_nodes: 0,
            search_budget_exhaustions: 0,
            peak_pending_patterns: 0,
        }
    }
}

/// What one planning call does.
pub struct Effort {
    pub patterns: nat,
    pub exact: nat,
    pub bounded: nat,
    pub nodes: nat,
    pub exhaustions: nat,
}

impl Stats {
    pub open spec fn none() -> Stats {
        Stats {
            planning_calls: 0,
            exact_searches: 0,
            bounded_searches: 0,
            search_nodes: 0,
            search_budget_exhaustions: 0,
            peak_pending_patterns: 0,
        }
    }

    /// The diagnostics after one more planning call.
    pub open spec fn after(self, effort: Effort) -> Stats {
        Stats {
            planning_calls: self.planning_calls.wrapping_add(1),
            exact_searches: self.exact_searches.wrapping_add(effort.exact as usize),
            bounded_searches: self.bounded_searches.wrapping_add(effort.bounded as usize),
            search_nodes: self.search_nodes.wrapping_add(effort.nodes as usize),
            search_budget_exhaustions: self.search_budget_exhaustions.wrapping_add(
                effort.exhaustions as usize,
            ),
            peak_pending_patterns: if self.peak_pending_patterns <= effort.patterns {
                effort.patterns as usize
            } else {
                self.peak_pending_patterns
            },
        }
    }
}

} // verus!
