use vstd::prelude::*;

verus! {

/// The costs the annealing optimiser carries between iterations: the cost of
/// the incumbent placement and the best cost seen so far.
#[derive(Clone, Copy, Debug)]
pub struct AnnealCosts {
    pub current_cost: usize,
    pub best_cost: usize,
}

impl AnnealCosts {
    /// The best cost never exceeds the incumbent's.
    pub open spec fn wf(self) -> bool {
        self.best_cost <= self.current_cost
    }

    pub fn new(initial_cost: usize) -> (r: AnnealCosts)
        ensures
            r.current_cost == initial_cost,
            r.best_cost == initial_cost,
            r.wf(),
    {
        AnnealCosts { current_cost: initial_cost, best_cost: initial_cost }
    }

    /// Whether the random test decides on `candidate_cost`: a candidate no
    /// worse than the incumbent is accepted whatever the draw.
    pub fn needs_draw(&self, candidate_cost: usize) -> (r: bool)
        ensures
            r == (candidate_cost > self.current_cost),
    {
        candidate_cost > self.current_cost
    }

    /// One acceptance decision. `draw_accepts` is the outcome of the random
    /// test for a worse candidate. Returns whether the candidate was accepted
    /// (it becomes the incumbent) and whether it improved on the best cost
    /// (it becomes the best).
    pub fn consider(&mut self, candidate_cost: usize, draw_accepts: bool) -> (r: (bool, bool))
        requires
            old(self).wf(),
        ensures
            r.0 == (candidate_cost <= old(self).current_cost || draw_accepts),
            r.1 == (candidate_cost < old(self).best_cost),
            r.1 ==> r.0,
            final(self).current_cost == (if r.0 {
                candidate_cost
            } else {
                old(self).current_cost
            }),
            final(self).best_cost == (if r.1 {
                candidate_cost
            } else {
                old(self).best_cost
            }),
            final(self).best_cost <= old(self).best_cost,
            final(self).wf(),
    {
        let accepted = candidate_cost <= self.current_cost || draw_accepts;
        let improved = candidate_cost < self.best_cost;
        if accepted {
            self.current_cost = candidate_cost;
        }
        if improved {
            self.best_cost = candidate_cost;
        }
        (accepted, improved)
    }
}

} // verus!
