//! Per-step counters of a graph walk.

use vstd::prelude::*;

verus! {

/// What one step of a walk saw.
#[derive(Clone, Copy, Debug, Default, PartialEq, Eq, Structural)]
pub struct StepStats {
    pub error_count: usize,
    pub num_direct: usize,
    pub num_direct_new: usize,
    pub num_expanded_new: usize,
    pub visited_of_type: usize,
}

impl StepStats {
    /// Two steps together: counts add up, and the visit count is the larger.
    pub fn add(self, other: StepStats) -> (r: StepStats)
        requires
            self.error_count + other.error_count <= usize::MAX,
            self.num_direct + other.num_direct <= usize::MAX,
            self.num_direct_new + other.num_direct_new <= usize::MAX,
            self.num_expanded_new + other.num_expanded_new <= usize::MAX,
        ensures
            r.error_count == self.error_count + other.error_count,
            r.num_direct == self.num_direct + other.num_direct,
            r.num_direct_new == self.num_direct_new + other.num_direct_new,
            r.num_expanded_new == self.num_expanded_new + other.num_expanded_new,
            r.visited_of_type == if self.visited_of_type >= other.visited_of_type {
                self.visited_of_type
            } else {
                other.visited_of_type
            },
    {
        StepStats {
            error_count: self.error_count + other.error_count,
            num_direct: self.num_direct + other.num_direct,
            num_direct_new: self.num_direct_new + other.num_direct_new,
            num_expanded_new: self.num_expanded_new + other.num_expanded_new,
            visited_of_type: if self.visited_of_type >= other.visited_of_type {
                self.visited_of_type
            } else {
                other.visited_of_type
            },
        }
    }
}

} // verus!
