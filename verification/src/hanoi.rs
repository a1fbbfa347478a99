//! The Towers-of-Hanoi puzzle as a search domain.
use vstd::prelude::*;
use vstd::pervasive::unreached;
use crate::actions::{Action, ACTIONS, move_error, move_result};
use crate::node::NodeHanoi;
use crate::optimal::{shortest_plan, unit_costs};
use crate::search::{a_star_search, solvable};
use crate::problem::{Problem, cost_sum, goal_test_by_equality, unit_path_cost};
use crate::replay::cost_by_view;
use crate::states::{
    States, descending, fits, lemma_no_duplicates_means_apart, pegs_valid, top_disk,
};

verus! {

/// Whether the top disk of peg `from` may go onto the other peg `to`.
pub open spec fn legal_move(pegs: Seq<Seq<u32>>, from: int, to: int) -> bool {
    &&& 0 <= from < pegs.len()
    &&& 0 <= to < pegs.len()
    &&& from != to
    &&& pegs[from].len() > 0
    &&& fits(pegs, to, pegs[from].last())
}

/// The move from peg `from` onto peg `to`.
pub open spec fn move_of(from: int, to: int) -> Action {
    Action { rod_input: from as usize, rod_output: to as usize, action: ACTIONS::Move }
}

/// The legal moves from peg `from` onto the pegs below `bound`, by rising destination.
pub open spec fn moves_onto(pegs: Seq<Seq<u32>>, from: int, bound: int) -> Seq<Action>
    decreases bound,
{
    if bound <= 0 {
        Seq::empty()
    } else {
        let rest = moves_onto(pegs, from, bound - 1);
        if legal_move(pegs, from, bound - 1) {
            rest.push(move_of(from, bound - 1))
        } else {
            rest
        }
    }
}

/// The legal moves from the pegs below `bound`, by rising source, then destination.
pub open spec fn moves_from_below(pegs: Seq<Seq<u32>>, bound: int) -> Seq<Action>
    decreases bound,
{
    if bound <= 0 {
        Seq::empty()
    } else {
        moves_from_below(pegs, bound - 1) + moves_onto(pegs, bound - 1, pegs.len() as int)
    }
}

/// Every legal move of a configuration, by rising source, then destination.
pub open spec fn hanoi_actions(pegs: Seq<Seq<u32>>) -> Seq<Action> {
    moves_from_below(pegs, pegs.len() as int)
}

/// Whether `a` is a legal move of the configuration.
pub open spec fn is_legal(pegs: Seq<Seq<u32>>, a: Action) -> bool {
    legal_move(pegs, a.rod_input as int, a.rod_output as int)
}

/// The moves onto the pegs below `bound` are exactly the legal ones among them.
pub proof fn lemma_moves_onto(pegs: Seq<Seq<u32>>, from: int, bound: int, a: Action)
    requires
        0 <= from <= usize::MAX,
        bound <= usize::MAX,
    ensures
        moves_onto(pegs, from, bound).contains(a) <==> (is_legal(pegs, a) && a.rod_input == from
            && a.rod_output < bound),
    decreases bound,
{
    if bound > 0 {
        lemma_moves_onto(pegs, from, bound - 1, a);
        let rest = moves_onto(pegs, from, bound - 1);
        if legal_move(pegs, from, bound - 1) {
            let m = move_of(from, bound - 1);
            let all = rest.push(m);
            if all.contains(a) {
                let k = choose|k: int| 0 <= k < all.len() && all[k] == a;
                if k < rest.len() {
                    assert(rest[k] == a);
                }
            }
            if rest.contains(a) {
                let k = choose|k: int| 0 <= k < rest.len() && rest[k] == a;
                assert(all[k] == a);
            }
            assert(all[rest.len() as int] == m);
        }
    }
}

/// The moves from the pegs below `bound` are exactly the legal ones among them.
pub proof fn lemma_moves_from_below(pegs: Seq<Seq<u32>>, bound: int, a: Action)
    requires
        pegs.len() <= usize::MAX,
        bound <= pegs.len(),
    ensures
        moves_from_below(pegs, bound).contains(a) <==> (is_legal(pegs, a) && a.rod_input < bound),
    decreases bound,
{
    if bound > 0 {
        lemma_moves_from_below(pegs, bound - 1, a);
        lemma_moves_onto(pegs, bound - 1, pegs.len() as int, a);
        let below = moves_from_below(pegs, bound - 1);
        let row = moves_onto(pegs, bound - 1, pegs.len() as int);
        let all = below + row;
        if all.contains(a) {
            let k = choose|k: int| 0 <= k < all.len() && all[k] == a;
            if k < below.len() {
                assert(below[k] == a);
            } else {
                assert(row[k - below.len()] == a);
            }
        }
        if below.contains(a) {
            let k = choose|k: int| 0 <= k < below.len() && below[k] == a;
            assert(all[k] == a);
        }
        if row.contains(a) {
            let k = choose|k: int| 0 <= k < row.len() && row[k] == a;
            assert(all[below.len() + k] == a);
        }
    }
}

/// The actions of a configuration are exactly its legal moves.
pub proof fn lemma_actions_are_the_legal_moves(pegs: Seq<Seq<u32>>, a: Action)
    requires
        pegs.len() <= usize::MAX,
    ensures
        hanoi_actions(pegs).contains(a) <==> is_legal(pegs, a),
{
    lemma_moves_from_below(pegs, pegs.len() as int, a);
}

/// A legal move can be applied.
pub proof fn lemma_legal_move_applies(pegs: Seq<Seq<u32>>, a: Action)
    requires
        is_legal(pegs, a),
    ensures
        move_error(pegs, a) is None,
{
}

/// Moving a disk and then moving the same disk back restores the pegs: on
/// descending pegs the move back is legal, and it undoes the move.
pub proof fn lemma_move_round_trip(pegs: Seq<Seq<u32>>, a: Action)
    requires
        forall|n: int| 0 <= n < pegs.len() ==> descending(#[trigger] pegs[n]),
        is_legal(pegs, a),
    ensures
        is_legal(
            move_result(pegs, a),
            (Action { rod_input: a.rod_output, rod_output: a.rod_input, action: a.action }),
        ),
        move_result(
            move_result(pegs, a),
            (Action { rod_input: a.rod_output, rod_output: a.rod_input, action: a.action }),
        ) == pegs,
{
    let from = a.rod_input as int;
    let to = a.rod_output as int;
    let back = Action { rod_input: a.rod_output, rod_output: a.rod_input, action: a.action };
    let mid = move_result(pegs, a);
    let disk = pegs[from].last();
    assert(descending(pegs[from]));
    assert(mid[to] == pegs[to].push(disk));
    assert(mid[from] == pegs[from].drop_last());
    assert(mid[to].drop_last() =~= pegs[to]);
    assert(mid[from].push(disk) =~= pegs[from]);
    assert(move_result(mid, back) =~= pegs);
}

/// A legal move leaves every peg descending and every disk in one place.
pub proof fn lemma_move_keeps_valid(pegs: Seq<Seq<u32>>, a: Action)
    requires
        pegs_valid(pegs),
        is_legal(pegs, a),
    ensures
        pegs_valid(move_result(pegs, a)),
{
    let from = a.rod_input as int;
    let to = a.rod_output as int;
    let next = move_result(pegs, a);
    let disk = pegs[from].last();
    assert(descending(pegs[from]));
    assert(descending(pegs[to]));
    assert(next[from] == pegs[from].drop_last());
    assert(next[to] == pegs[to].push(disk));
    assert forall|n: int| 0 <= n < next.len() implies descending(#[trigger] next[n]) by {
        if n != from && n != to {
            assert(next[n] == pegs[n]);
            assert(descending(pegs[n]));
        }
    }
    lemma_no_duplicates_means_apart(pegs);
    lemma_no_duplicates_means_apart(next);
    assert forall|n1: int, i: int, n2: int, j: int|
        0 <= n1 < next.len() && 0 <= i < next[n1].len() && 0 <= n2 < next.len() && 0 <= j
            < next[n2].len() && (n1 != n2 || i != j) implies #[trigger] next[n1][i]
        != #[trigger] next[n2][j] by {
        let (m1, k1) = if n1 == to && i == pegs[to].len() {
            (from, pegs[from].len() - 1)
        } else {
            (n1, i)
        };
        let (m2, k2) = if n2 == to && j == pegs[to].len() {
            (from, pegs[from].len() - 1)
        } else {
            (n2, j)
        };
        assert(next[n1][i] == pegs[m1][k1]);
        assert(next[n2][j] == pegs[m2][k2]);
        assert(pegs[m1][k1] != pegs[m2][k2]);
    }
}

/// Every move of the puzzle costs one unit.
pub proof fn lemma_hanoi_unit_costs(problem: &HanoiProblem)
    ensures
        unit_costs::<States, Action, HanoiProblem>(problem),
{
}

/// The cost of a move does not depend on the state moved into.
pub proof fn lemma_hanoi_cost_by_view(problem: &HanoiProblem)
    ensures
        cost_by_view::<States, Action, HanoiProblem>(problem),
{
}

/// The puzzle: where it starts and, if any, the configuration to reach.
pub struct HanoiProblem {
    pub initial: States,
    pub goal: Option<States>,
}

impl HanoiProblem {
    /// Searches from the initial state for the goal. Gives a shortest plan of
    /// legal moves that ends in the goal, or none exactly where no plan does.
    pub fn solve(&self) -> (r: Option<Vec<Action>>)
        ensures
            r is Some <==> solvable(self, self.initial@),
            r is Some ==> shortest_plan(self, self.initial@, r->0@),
    {
        let root = NodeHanoi {
            state: self.initial.duplicate(),
            parent: None,
            action: None,
            path_cost: 0,
            depth: 0,
        };
        let outcome = a_star_search(self, root);
        proof {
            lemma_hanoi_unit_costs(self);
        }
        match outcome.goal {
            Some(goal) => Some(outcome.tree.solution(goal)),
            None => None,
        }
    }

    /// A copy of the goal state, where there is one.
    pub fn goal_state(&self) -> (r: Option<States>)
        ensures
            r is Some == self.goal is Some,
            r is Some ==> r->0@ == self.goal->0@ && r->0.acc_cost == self.goal->0.acc_cost,
    {
        match &self.goal {
            Some(g) => Some(g.duplicate()),
            None => None,
        }
    }
}

impl Problem<States, Action> for HanoiProblem {
    open spec fn spec_actions(&self, state: Seq<Seq<u32>>) -> Seq<Action> {
        hanoi_actions(state)
    }

    open spec fn spec_result(&self, state: Seq<Seq<u32>>, action: Action) -> Seq<Seq<u32>> {
        move_result(state, action)
    }

    open spec fn spec_goal_test(&self, state: Seq<Seq<u32>>) -> bool {
        self.goal is Some && state == self.goal->0@
    }

    open spec fn spec_path_cost(&self, cost_so_far: u64, next: &States) -> u64 {
        cost_sum(cost_so_far, 1)
    }

    /// Every move of a top disk onto another peg that is empty or has a larger
    /// top disk, by rising source peg, then destination peg.
    fn actions(&self, state: &States) -> (r: Vec<Action>) {
        let n = state.rods.len();
        let mut actions: Vec<Action> = Vec::new();
        let mut from: usize = 0;
        while from < n
            invariant
                n == state@.len(),
                from <= n,
                actions@ == moves_from_below(state@, from as int),
            decreases n - from,
        {
            let top = state.get_last_disk_rod(from);
            let ghost before = actions@;
            let mut to: usize = 0;
            while to < n
                invariant
                    n == state@.len(),
                    from < n,
                    to <= n,
                    top == top_disk(state@, from as int),
                    actions@ == before + moves_onto(state@, from as int, to as int),
                decreases n - to,
            {
                let legal = match top {
                    Some(disk) => from != to && state.check_valid_disk_in_rod(to, disk),
                    None => false,
                };
                if legal {
                    actions.push(Action { rod_input: from, rod_output: to, action: ACTIONS::Move });
                }
                to += 1;
                assert(actions@ =~= before + moves_onto(state@, from as int, to as int));
            }
            from += 1;
        }
        actions
    }

    /// The state after a legal move, with one unit of cost charged to it.
    fn result(&self, state: &States, action: &Action) -> (r: States)
        ensures
            r.acc_cost == cost_sum(state.acc_cost, 1),
            state.valid() ==> r.valid(),
    {
        proof {
            lemma_actions_are_the_legal_moves(state@, *action);
            lemma_legal_move_applies(state@, *action);
            if state.valid() {
                lemma_move_keeps_valid(state@, *action);
            }
        }
        match action.apply_action(state) {
            Ok(next) => next,
            Err(_) => unreached(),
        }
    }

    /// Whether the pegs of `state` are exactly the pegs of the goal.
    fn goal_test(&self, state: &States) -> (r: bool) {
        goal_test_by_equality(&self.goal, state)
    }

    /// One unit more than the cost so far: every move costs the same.
    fn path_cost(&self, cost_so_far: u64, next: &States) -> (r: u64) {
        unit_path_cost(cost_so_far)
    }
}

} // verus!
