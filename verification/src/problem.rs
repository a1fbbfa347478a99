//! The interface a domain offers to the search engine.
use vstd::prelude::*;

verus! {

/// A domain state. Two states are the same configuration exactly when their
/// views are equal; bookkeeping that is not part of the view is ignored.
pub trait DomainState: View + Sized {
    /// Decides whether `self` and `other` are the same configuration.
    fn same_as(&self, other: &Self) -> (r: bool)
        ensures
            r == (self@ == other@),
    ;
}

/// The sum of two costs, held at `u64::MAX` where it would exceed it.
pub open spec fn cost_sum(a: u64, b: u64) -> u64 {
    if a + b > u64::MAX {
        u64::MAX
    } else {
        (a + b) as u64
    }
}

/// Computes [`cost_sum`].
pub fn add_cost(a: u64, b: u64) -> (r: u64)
    ensures
        r == cost_sum(a, b),
{
    if a > u64::MAX - b {
        u64::MAX
    } else {
        a + b
    }
}

/// A search domain over states `S` and actions `A`.
///
/// Legal actions, transitions and the goal are functions of a state's view, so
/// two states that are the same configuration are never told apart. The cost of
/// a step may read bookkeeping of the state stepped into.
pub trait Problem<S: DomainState, A: Copy> {
    /// The actions that are legal in a configuration, in the order offered.
    spec fn spec_actions(&self, state: S::V) -> Seq<A>;

    /// The configuration that an action leads to.
    spec fn spec_result(&self, state: S::V, action: A) -> S::V;

    /// Whether a configuration satisfies the goal.
    spec fn spec_goal_test(&self, state: S::V) -> bool;

    /// The accumulated cost after stepping into `next` with `cost_so_far` behind.
    spec fn spec_path_cost(&self, cost_so_far: u64, next: &S) -> u64;

    /// Lists the actions that are legal in `state`; the engine filters nothing.
    fn actions(&self, state: &S) -> (r: Vec<A>)
        ensures
            r@ == self.spec_actions(state@),
    ;

    /// Applies an action that `actions` offers for `state`. Applying any other
    /// action is a defect of the caller, ruled out here rather than absorbed.
    fn result(&self, state: &S, action: &A) -> (r: S)
        requires
            self.spec_actions(state@).contains(*action),
        ensures
            r@ == self.spec_result(state@, *action),
    ;

    fn goal_test(&self, state: &S) -> (r: bool)
        ensures
            r == self.spec_goal_test(state@),
    ;

    fn path_cost(&self, cost_so_far: u64, next: &S) -> (r: u64)
        ensures
            r == self.spec_path_cost(cost_so_far, next),
    ;
}

/// Whether a step never lowers the accumulated cost.
pub open spec fn cost_never_drops<S: DomainState, A: Copy, P: Problem<S, A>>(problem: &P) -> bool {
    forall|c: u64, s: &S| #[trigger] problem.spec_path_cost(c, s) >= c
}

/// The usual goal test: `state` is the fixed goal configuration, where there is one.
pub fn goal_test_by_equality<S: DomainState>(goal: &Option<S>, state: &S) -> (r: bool)
    ensures
        r == (goal is Some && state@ == goal->0@),
{
    match goal {
        Some(g) => state.same_as(g),
        None => false,
    }
}

/// The usual cost of a step: one more than the cost so far.
pub fn unit_path_cost(cost_so_far: u64) -> (r: u64)
    ensures
        r == cost_sum(cost_so_far, 1),
{
    add_cost(cost_so_far, 1)
}

} // verus!
