//! The best-first driver: frontier, closed list and best-known costs.
use vstd::prelude::*;
use crate::node::{Node, NodeHanoi, SearchTree, child_of, legal_plan, link_between, reachable, run};
use crate::optimal::{
    cheapest_plan, lemma_carried_after_pop, lemma_carried_after_push, lemma_cheapest_is_shortest,
    lemma_node_cost_is_plan_cost, lemma_plan_within, lemma_pledge_kept, lemma_promise_loosened,
    lemma_steps_kept, lemma_toll, lemma_unit_costs_are_steady, offered, plan_cost, pledge,
    promised, settled, shortest_plan, steady_costs, steps_promised, toll, unit_costs,
};
use crate::problem::{DomainState, Problem, cost_never_drops};
use crate::replay::{
    cost_by_view, lemma_offer, lemma_step_expand, lemma_step_goal, lemma_step_stale, offers,
    outcome_of, phase_of, run_steps, start_phase, step, vertices,
};

verus! {

/// A pending node, by its arena index, and the score the frontier orders it by.
pub struct PriorityNode {
    pub node: usize,
    pub f_score: u64,
}

/// The lowest cost seen so far for the state of arena node `node`.
pub struct BestCost {
    pub node: usize,
    pub cost: u64,
}

/// What a search leaves behind.
pub struct SearchOutcome<S, A> {
    /// Every node that was ever put on the frontier, the root first.
    pub tree: SearchTree<S, A>,
    /// The node that satisfied the goal; none where the frontier ran empty.
    pub goal: Option<usize>,
    /// The nodes that were expanded, in the order of their expansion.
    pub expanded: Vec<usize>,
    /// The entries that were still on the frontier when the search ended.
    pub pending: Vec<PriorityNode>,
    /// The best-cost table as the search left it.
    pub best: Vec<BestCost>,
}

/// The configuration held by arena node `i`.
pub open spec fn state_at<S: DomainState, A>(ns: Seq<NodeHanoi<S, A>>, i: usize) -> S::V {
    ns[i as int].state@
}

/// The path cost of arena node `i`.
pub open spec fn cost_at<S, A>(ns: Seq<NodeHanoi<S, A>>, i: usize) -> u64 {
    ns[i as int].path_cost
}

/// Whether every frontier entry names an arena node and is scored by that
/// node's path cost.
pub open spec fn scores_match<S, A>(ns: Seq<NodeHanoi<S, A>>, open: Seq<PriorityNode>) -> bool {
    forall|j: int|
        0 <= j < open.len() ==> (#[trigger] open[j]).node < ns.len() && open[j].f_score == cost_at(
            ns,
            open[j].node,
        )
}

/// Whether no expanded node cost more than `limit`.
pub open spec fn closed_within<S, A>(
    ns: Seq<NodeHanoi<S, A>>,
    closed: Seq<usize>,
    limit: u64,
) -> bool {
    forall|j: int| 0 <= j < closed.len() ==> #[trigger] cost_at(ns, closed[j]) <= limit
}

/// Whether no frontier entry is scored below `floor`.
pub open spec fn open_from(open: Seq<PriorityNode>, floor: u64) -> bool {
    forall|q: int| 0 <= q < open.len() ==> floor <= (#[trigger] open[q]).f_score
}

/// Whether no expanded node cost more than any frontier entry is scored.
pub open spec fn closed_before_open<S, A>(
    ns: Seq<NodeHanoi<S, A>>,
    closed: Seq<usize>,
    open: Seq<PriorityNode>,
) -> bool {
    forall|q: int| 0 <= q < open.len() ==> closed_within(ns, closed, (#[trigger] open[q]).f_score)
}

/// Whether the expanded nodes come in the order of their cost, cheapest first.
pub open spec fn rising_costs<S, A>(ns: Seq<NodeHanoi<S, A>>, closed: Seq<usize>) -> bool {
    forall|a: int, b: int|
        0 <= a < b < closed.len() ==> #[trigger] cost_at(ns, closed[a]) <= #[trigger] cost_at(
            ns,
            closed[b],
        )
}

/// Whether some expanded node holds configuration `v`.
pub open spec fn state_closed<S: DomainState, A>(
    ns: Seq<NodeHanoi<S, A>>,
    closed: Seq<usize>,
    v: S::V,
) -> bool {
    exists|j: int| 0 <= j < closed.len() && #[trigger] state_at(ns, closed[j]) == v
}

/// Whether arena node `i` waits on the frontier.
pub open spec fn queued(open: Seq<PriorityNode>, i: int) -> bool {
    exists|j: int| 0 <= j < open.len() && (#[trigger] open[j]).node == i
}

/// Whether some arena node holds configuration `v`.
pub open spec fn known<S: DomainState, A>(ns: Seq<NodeHanoi<S, A>>, v: S::V) -> bool {
    exists|i: int| 0 <= i < ns.len() && (#[trigger] ns[i]).state@ == v
}

/// Whether arena node `i` still waits, or its configuration has been expanded.
pub open spec fn covered<S: DomainState, A>(
    ns: Seq<NodeHanoi<S, A>>,
    open: Seq<PriorityNode>,
    closed: Seq<usize>,
    i: int,
) -> bool {
    queued(open, i) || state_closed(ns, closed, ns[i].state@)
}

/// Whether the first `upto` successors of configuration `v` are held by arena nodes.
pub open spec fn successors_known<S: DomainState, A: Copy, P: Problem<S, A>>(
    problem: &P,
    ns: Seq<NodeHanoi<S, A>>,
    v: S::V,
    upto: int,
) -> bool {
    forall|k: int|
        0 <= k < upto && k < problem.spec_actions(v).len() ==> known(
            ns,
            problem.spec_result(v, #[trigger] problem.spec_actions(v)[k]),
        )
}

/// Whether every successor of every expanded configuration but the last
/// `pending` ones is held by an arena node.
pub open spec fn closed_under_steps<S: DomainState, A: Copy, P: Problem<S, A>>(
    problem: &P,
    ns: Seq<NodeHanoi<S, A>>,
    closed: Seq<usize>,
    pending: int,
) -> bool {
    forall|j: int|
        0 <= j < closed.len() - pending ==> successors_known(
            problem,
            ns,
            #[trigger] state_at(ns, closed[j]),
            problem.spec_actions(state_at(ns, closed[j])).len() as int,
        )
}

/// Whether no two expanded nodes hold the same configuration.
pub open spec fn expanded_once<S: DomainState, A>(
    ns: Seq<NodeHanoi<S, A>>,
    closed: Seq<usize>,
) -> bool {
    forall|a: int, b: int|
        0 <= a < b < closed.len() ==> #[trigger] state_at(ns, closed[a]) != #[trigger] state_at(
            ns,
            closed[b],
        )
}

/// Whether some best-cost entry holds the configuration of arena node `i`
/// at no more than the node's cost.
pub open spec fn best_for<S: DomainState, A>(
    ns: Seq<NodeHanoi<S, A>>,
    best: Seq<BestCost>,
    i: int,
) -> bool {
    exists|b: int|
        0 <= b < best.len() && (#[trigger] best[b]).node < ns.len() && state_at(ns, best[b].node)
            == ns[i].state@ && best[b].cost <= ns[i].path_cost
}

/// Whether the best-cost table has one entry for each configuration in the
/// arena and none twice.
pub open spec fn best_kept<S: DomainState, A>(ns: Seq<NodeHanoi<S, A>>, best: Seq<BestCost>) -> bool {
    &&& forall|i: int| 0 <= i < ns.len() ==> #[trigger] best_for(ns, best, i)
    &&& forall|a: int, b: int|
        0 <= a < b < best.len() ==> state_at(ns, (#[trigger] best[a]).node) != state_at(
            ns,
            (#[trigger] best[b]).node,
        )
}

/// Whether, of two arena nodes that hold one configuration, the later costs less.
pub open spec fn falling_costs<S: DomainState, A>(ns: Seq<NodeHanoi<S, A>>) -> bool {
    forall|i: int, j: int|
        0 <= i < j < ns.len() && (#[trigger] ns[i]).state@ == (#[trigger] ns[j]).state@
            ==> ns[j].path_cost < ns[i].path_cost
}

/// Whether some configuration that satisfies the goal can be reached from `start`.
pub open spec fn solvable<S: DomainState, A: Copy, P: Problem<S, A>>(
    problem: &P,
    start: S::V,
) -> bool {
    exists|v: S::V| reachable(problem, start, v) && #[trigger] problem.spec_goal_test(v)
}

/// Whether `ns2` holds the nodes of `ns`, each in its place, and maybe more.
pub open spec fn extends<S, A>(ns: Seq<NodeHanoi<S, A>>, ns2: Seq<NodeHanoi<S, A>>) -> bool {
    ns.len() <= ns2.len() && forall|i: int| 0 <= i < ns.len() ==> #[trigger] ns2[i] == ns[i]
}

/// Whether entry `m` has the lowest score of the frontier and is the first
/// entry with that score.
pub open spec fn is_cheapest(open: Seq<PriorityNode>, m: int) -> bool {
    &&& 0 <= m < open.len()
    &&& forall|j: int| 0 <= j < open.len() ==> open[m].f_score <= (#[trigger] open[j]).f_score
    &&& forall|j: int| 0 <= j < m ==> open[m].f_score < (#[trigger] open[j]).f_score
}

/// The frontier alone settles which entry is handed out next: no two entries
/// are both the first of lowest score.
pub proof fn lemma_cheapest_is_settled(open: Seq<PriorityNode>, m1: int, m2: int)
    requires
        is_cheapest(open, m1),
        is_cheapest(open, m2),
    ensures
        m1 == m2,
{
    if m1 < m2 {
        assert(open[m2].f_score < open[m1].f_score);
    } else if m2 < m1 {
        assert(open[m1].f_score < open[m2].f_score);
    }
}

/// The index of the entry with the lowest score; among equal scores, of the
/// one that was put on the frontier first.
pub fn cheapest(open: &Vec<PriorityNode>) -> (m: usize)
    requires
        open.len() > 0,
    ensures
        is_cheapest(open@, m as int),
{
    let mut m: usize = 0;
    let mut j: usize = 1;
    while j < open.len()
        invariant
            m < j <= open.len(),
            forall|q: int| 0 <= q < j ==> open[m as int].f_score <= open[q].f_score,
            forall|q: int| 0 <= q < m ==> open[m as int].f_score < open[q].f_score,
        decreases open.len() - j,
    {
        if open[j].f_score < open[m].f_score {
            m = j;
        }
        j += 1;
    }
    m
}

/// Decides whether one of the expanded nodes holds the configuration of `state`.
pub fn closed_has<S: DomainState, A: Copy>(
    nodes: &Vec<NodeHanoi<S, A>>,
    closed: &Vec<usize>,
    state: &S,
) -> (r: bool)
    requires
        forall|j: int| 0 <= j < closed.len() ==> #[trigger] closed[j] < nodes.len(),
    ensures
        r == state_closed(nodes@, closed@, state@),
{
    let mut j: usize = 0;
    while j < closed.len()
        invariant
            j <= closed.len(),
            forall|q: int| 0 <= q < closed.len() ==> #[trigger] closed[q] < nodes.len(),
            forall|q: int| 0 <= q < j ==> #[trigger] state_at(nodes@, closed@[q]) != state@,
        decreases closed.len() - j,
    {
        if nodes[closed[j]].state.same_as(state) {
            assert(state_at(nodes@, closed@[j as int]) == state@);
            return true;
        }
        j += 1;
    }
    false
}

/// Finds the best-cost entry kept for the configuration of `state`, the first
/// where there are several.
pub fn best_entry<S: DomainState, A: Copy>(
    nodes: &Vec<NodeHanoi<S, A>>,
    best: &Vec<BestCost>,
    state: &S,
) -> (r: Option<usize>)
    requires
        forall|j: int| 0 <= j < best.len() ==> (#[trigger] best[j]).node < nodes.len(),
    ensures
        match r {
            Some(b) => b < best.len() && state_at(nodes@, best[b as int].node) == state@
                && forall|q: int| 0 <= q < b ==> state_at(nodes@, (#[trigger] best[q]).node) != state@,
            None => forall|q: int|
                0 <= q < best.len() ==> state_at(nodes@, (#[trigger] best[q]).node) != state@,
        },
{
    let mut j: usize = 0;
    while j < best.len()
        invariant
            j <= best.len(),
            forall|q: int| 0 <= q < best.len() ==> (#[trigger] best[q]).node < nodes.len(),
            forall|q: int| 0 <= q < j ==> state_at(nodes@, (#[trigger] best[q]).node) != state@,
        decreases best.len() - j,
    {
        if nodes[best[j].node].state.same_as(state) {
            return Some(j);
        }
        j += 1;
    }
    None
}

/// What holds of older nodes goes on holding when the arena grows.
pub proof fn lemma_growth<S: DomainState, A: Copy, P: Problem<S, A>>(
    problem: &P,
    ns: Seq<NodeHanoi<S, A>>,
    ns2: Seq<NodeHanoi<S, A>>,
    closed: Seq<usize>,
)
    requires
        extends(ns, ns2),
        forall|j: int| 0 <= j < closed.len() ==> #[trigger] closed[j] < ns.len(),
    ensures
        forall|v: S::V| known(ns, v) ==> known(ns2, v),
        forall|v: S::V| state_closed(ns, closed, v) ==> state_closed(ns2, closed, v),
        forall|v: S::V, upto: int|
            successors_known(problem, ns, v, upto) ==> successors_known(problem, ns2, v, upto),
        forall|j: int| 0 <= j < closed.len() ==> #[trigger] state_at(ns2, closed[j]) == state_at(ns, closed[j]),
{
    assert forall|v: S::V| known(ns, v) implies known(ns2, v) by {
        let i = choose|i: int| 0 <= i < ns.len() && (#[trigger] ns[i]).state@ == v;
        assert(ns2[i].state@ == v);
    }
    assert forall|v: S::V| state_closed(ns, closed, v) implies state_closed(ns2, closed, v) by {
        let j = choose|j: int| 0 <= j < closed.len() && #[trigger] state_at(ns, closed[j]) == v;
        assert(ns2[closed[j] as int] == ns[closed[j] as int]);
        assert(state_at(ns2, closed[j]) == v);
    }
    assert forall|j: int| 0 <= j < closed.len() implies #[trigger] state_at(ns2, closed[j])
        == state_at(ns, closed[j]) by {
        assert(ns2[closed[j] as int] == ns[closed[j] as int]);
    }
}

/// Once every arena node's configuration has been expanded and every successor
/// of an expanded configuration is held by an arena node, every configuration
/// that a legal plan reaches from the root has been expanded.
pub proof fn lemma_closed_holds_reachable<S: DomainState, A: Copy, P: Problem<S, A>>(
    problem: &P,
    ns: Seq<NodeHanoi<S, A>>,
    closed: Seq<usize>,
    plan: Seq<A>,
)
    requires
        ns.len() > 0,
        forall|i: int| 0 <= i < ns.len() ==> state_closed(ns, closed, (#[trigger] ns[i]).state@),
        closed_under_steps(problem, ns, closed, 0),
        legal_plan(problem, ns[0].state@, plan),
    ensures
        state_closed(ns, closed, run(problem, ns[0].state@, plan)),
    decreases plan.len(),
{
    if plan.len() > 0 {
        let front = plan.drop_last();
        let prev = run(problem, ns[0].state@, front);
        lemma_closed_holds_reachable(problem, ns, closed, front);
        let j = choose|j: int| 0 <= j < closed.len() && #[trigger] state_at(ns, closed[j]) == prev;
        let acts = problem.spec_actions(prev);
        let k = choose|k: int| 0 <= k < acts.len() && acts[k] == plan.last();
        assert(successors_known(problem, ns, state_at(ns, closed[j]), acts.len() as int));
        let next = problem.spec_result(prev, acts[k]);
        assert(known(ns, next));
        let i = choose|i: int| 0 <= i < ns.len() && (#[trigger] ns[i]).state@ == next;
        assert(state_closed(ns, closed, ns[i].state@));
    } else {
        assert(state_closed(ns, closed, ns[0].state@));
    }
}

/// A link between older nodes stays good when the arena grows.
pub proof fn lemma_link_kept<S: DomainState, A: Copy, P: Problem<S, A>>(
    problem: &P,
    ns: Seq<NodeHanoi<S, A>>,
    ns2: Seq<NodeHanoi<S, A>>,
    i: int,
)
    requires
        extends(ns, ns2),
        0 <= i < ns.len(),
    ensures
        link_between(problem, ns, i) ==> link_between(problem, ns2, i),
{
    match ns[i].parent {
        Some(p) => {
            if p < i {
                assert(ns2[p as int] == ns[p as int]);
            }
        },
        None => {},
    }
}

/// Taking an entry off the frontier keeps every other node that waited waiting.
pub proof fn lemma_still_queued(open: Seq<PriorityNode>, m: int, i: int)
    requires
        0 <= m < open.len(),
        queued(open, i),
        open[m].node != i,
    ensures
        queued(open.remove(m), i),
{
    let j = choose|j: int| 0 <= j < open.len() && (#[trigger] open[j]).node == i;
    let rest = open.remove(m);
    if j < m {
        assert(rest[j].node == i);
    } else {
        assert(rest[j - 1].node == i);
    }
}

/// The best-cost table stays in order, and costs go on falling, when a node
/// that improves on the entry for its configuration, or has none, joins the
/// arena and takes the entry.
pub proof fn lemma_best_kept_after_push<S: DomainState, A>(
    ns1: Seq<NodeHanoi<S, A>>,
    best1: Seq<BestCost>,
    child: NodeHanoi<S, A>,
    slot: int,
    entry: BestCost,
)
    requires
        best_kept(ns1, best1),
        falling_costs(ns1),
        forall|b: int| 0 <= b < best1.len() ==> (#[trigger] best1[b]).node < ns1.len(),
        0 <= slot <= best1.len(),
        slot < best1.len() ==> state_at(ns1, best1[slot].node) == child.state@ && child.path_cost
            < best1[slot].cost,
        slot == best1.len() ==> forall|q: int|
            0 <= q < best1.len() ==> state_at(ns1, (#[trigger] best1[q]).node) != child.state@,
        entry.node == ns1.len(),
        entry.cost == child.path_cost,
    ensures
        best_kept(
            ns1.push(child),
            if slot < best1.len() {
                best1.update(slot, entry)
            } else {
                best1.push(entry)
            },
        ),
        falling_costs(ns1.push(child)),
{
    let ns2 = ns1.push(child);
    let best2 = if slot < best1.len() {
        best1.update(slot, entry)
    } else {
        best1.push(entry)
    };
    let index = ns1.len() as int;
    assert forall|a: int| 0 <= a < best2.len() implies state_at(ns2, (#[trigger] best2[a]).node) == (
    if a < best1.len() {
        state_at(ns1, best1[a].node)
    } else {
        child.state@
    }) by {
        if a != slot {
            assert(best2[a] == best1[a]);
            assert(ns2[best1[a].node as int] == ns1[best1[a].node as int]);
        }
    }
    assert forall|i: int| 0 <= i < ns2.len() implies #[trigger] best_for(ns2, best2, i) by {
        if i == index {
            assert(state_at(ns2, best2[slot].node) == ns2[i].state@);
        } else {
            assert(best_for(ns1, best1, i));
            let b = choose|b: int|
                0 <= b < best1.len() && (#[trigger] best1[b]).node < ns1.len() && state_at(
                    ns1,
                    best1[b].node,
                ) == ns1[i].state@ && best1[b].cost <= ns1[i].path_cost;
            if b == slot {
                assert(state_at(ns2, best2[slot].node) == ns2[i].state@ && best2[slot].cost
                    <= ns2[i].path_cost);
            } else {
                assert(best2[b] == best1[b]);
                assert(state_at(ns2, best2[b].node) == ns2[i].state@ && best2[b].cost
                    <= ns2[i].path_cost);
            }
        }
    }
    assert forall|i: int, j: int|
        0 <= i < j < ns2.len() && (#[trigger] ns2[i]).state@ == (#[trigger] ns2[j]).state@ implies ns2[j].path_cost
        < ns2[i].path_cost by {
        if j == index {
            assert(best_for(ns1, best1, i));
            let b = choose|b: int|
                0 <= b < best1.len() && (#[trigger] best1[b]).node < ns1.len() && state_at(
                    ns1,
                    best1[b].node,
                ) == ns1[i].state@ && best1[b].cost <= ns1[i].path_cost;
            assert(ns1[i] == ns2[i]);
            if slot < best1.len() && b != slot {
                if b < slot {
                    assert(state_at(ns1, best1[b].node) != state_at(ns1, best1[slot].node));
                } else {
                    assert(state_at(ns1, best1[slot].node) != state_at(ns1, best1[b].node));
                }
            }
        } else {
            assert(ns1[i] == ns2[i] && ns1[j] == ns2[j]);
        }
    }
}

/// Best-first search from `initial_node` for a state that satisfies the goal.
///
/// The frontier hands out the pending node of lowest path cost; among equal
/// costs, the one that was put on it first. A node whose configuration has
/// been expanded already is dropped. A child is put on the frontier, and into
/// the tree, where its configuration has not been expanded and its cost is
/// lower than any seen for that configuration, or none has been seen.
///
/// The search finds a goal exactly when a legal plan from the root's state
/// leads to one, and the node it returns is the end of such a plan and the
/// cheapest node of the tree whose state satisfies the goal. No configuration
/// is expanded twice, and where no step lowers the cost, the nodes are
/// expanded in the order of their cost. Where costs are steady, the returned
/// node costs no more than any plan to a goal, so its solution is a cheapest
/// plan; where every step costs one unit, its solution is a shortest plan.
#[verifier::rlimit(100)]
#[verifier::spinoff_prover]
pub fn a_star_search<S: DomainState, A: Copy, P: Problem<S, A>>(
    problem: &P,
    initial_node: NodeHanoi<S, A>,
) -> (r: SearchOutcome<S, A>)
    requires
        initial_node.parent is None,
        initial_node.depth == 0,
    ensures
        r.tree.wf(problem),
        r.tree.nodes[0] == initial_node,
        forall|i: int| 0 <= i < r.tree.nodes.len() ==> (#[trigger] r.tree.nodes[i]).depth <= i,
        falling_costs(r.tree.nodes@),
        r.goal is Some <==> solvable(problem, initial_node.state@),
        match r.goal {
            Some(g) => g < r.tree.nodes.len() && problem.spec_goal_test(
                r.tree.nodes[g as int].state@,
            ),
            None => true,
        },
        forall|j: int| 0 <= j < r.expanded.len() ==> #[trigger] r.expanded[j] < r.tree.nodes.len(),
        expanded_once(r.tree.nodes@, r.expanded@),
        forall|j: int|
            0 <= j < r.expanded.len() ==> !problem.spec_goal_test(
                #[trigger] state_at(r.tree.nodes@, r.expanded[j]),
            ),
        closed_under_steps(problem, r.tree.nodes@, r.expanded@, 0),
        forall|i: int|
            0 <= i < r.tree.nodes.len() ==> r.goal == Some(i as usize) || #[trigger] covered(
                r.tree.nodes@,
                r.pending@,
                r.expanded@,
                i,
            ),
        scores_match(r.tree.nodes@, r.pending@),
        r.goal is None ==> r.pending.len() == 0,
        r.goal is Some ==> open_from(r.pending@, cost_at(r.tree.nodes@, r.goal->0)),
        r.goal is Some ==> forall|i: int|
            0 <= i < r.tree.nodes.len() && problem.spec_goal_test((#[trigger] r.tree.nodes[i]).state@)
                ==> cost_at(r.tree.nodes@, r.goal->0) <= r.tree.nodes[i].path_cost,
        cost_never_drops::<S, A, P>(problem) ==> rising_costs(r.tree.nodes@, r.expanded@),
        cost_never_drops::<S, A, P>(problem) && r.goal is Some ==> closed_within(
            r.tree.nodes@,
            r.expanded@,
            cost_at(r.tree.nodes@, r.goal->0),
        ),
        steady_costs::<S, A, P>(problem) && r.goal is Some ==> forall|plan: Seq<A>|
            legal_plan(problem, initial_node.state@, plan) && problem.spec_goal_test(
                run(problem, initial_node.state@, plan),
            ) ==> cost_at(r.tree.nodes@, r.goal->0) <= #[trigger] plan_cost(
                problem,
                initial_node.path_cost,
                initial_node.state@,
                plan,
            ),
        cost_by_view::<S, A, P>(problem) ==> outcome_of(
            problem,
            initial_node.state@,
            initial_node.path_cost,
            phase_of(r.tree.nodes@, r.pending@, r.expanded@, r.best@, r.goal),
        ),
        steady_costs::<S, A, P>(problem) && r.goal is Some ==> cheapest_plan(
            problem,
            initial_node.path_cost,
            initial_node.state@,
            r.tree.spec_solution(r.goal->0 as int),
        ),
        unit_costs::<S, A, P>(problem) && r.goal is Some && initial_node.path_cost
            + r.tree.nodes[r.goal->0 as int].depth < u64::MAX ==> shortest_plan(
            problem,
            initial_node.state@,
            r.tree.spec_solution(r.goal->0 as int),
        ),
{
    let f_score = initial_node.path_cost();
    let mut tree = SearchTree::new(initial_node);
    let mut open: Vec<PriorityNode> = Vec::new();
    let mut closed: Vec<usize> = Vec::new();
    let mut best: Vec<BestCost> = Vec::new();
    open.push(PriorityNode { node: 0, f_score });
    best.push(BestCost { node: 0, cost: f_score });
    proof {
        assert(tree.link_ok(problem, 0));
        assert(open@[0].node == 0);
        assert(queued(open@, 0));
        let ns = tree.nodes@;
        assert(state_at(ns, open@[0].node) == ns[0].state@ && open@[0].f_score <= ns[0].path_cost);
        assert(offered(ns, open@, ns[0].state@, ns[0].path_cost));
        assert forall|b: int| 0 <= b < best@.len() implies promised(
            ns,
            open@,
            closed@,
            state_at(ns, (#[trigger] best@[b]).node),
            best@[b].cost,
        ) by {
            assert(offered(ns, open@, state_at(ns, best@[b].node), best@[b].cost));
        }
        assert(pledge(problem, ns, open@, closed@, best@, 0));
        assert(best@[0].node == 0);
        assert(best_for(ns, best@, 0));
        let start = start_phase(initial_node.state@, initial_node.path_cost);
        assert(vertices(ns) =~= start.vs);
        assert(open@ =~= start.open);
        assert(closed@ =~= start.closed);
        assert(best@ =~= start.best);
    }
    let ghost mut t: nat = 0;
    while open.len() > 0
        invariant
            tree.wf(problem),
            tree.nodes[0] == initial_node,
            forall|j: int| 0 <= j < closed.len() ==> #[trigger] closed[j] < tree.nodes.len(),
            forall|j: int| 0 <= j < open.len() ==> (#[trigger] open[j]).node < tree.nodes.len(),
            forall|j: int| 0 <= j < best.len() ==> (#[trigger] best[j]).node < tree.nodes.len(),
            forall|i: int|
                0 <= i < tree.nodes.len() ==> #[trigger] covered(tree.nodes@, open@, closed@, i),
            forall|i: int| 0 <= i < tree.nodes.len() ==> (#[trigger] tree.nodes[i]).depth <= i,
            scores_match(tree.nodes@, open@),
            best_kept(tree.nodes@, best@),
            falling_costs(tree.nodes@),
            cost_never_drops::<S, A, P>(problem) ==> rising_costs(tree.nodes@, closed@),
            cost_never_drops::<S, A, P>(problem) ==> closed_before_open(
                tree.nodes@,
                closed@,
                open@,
            ),
            closed_under_steps(problem, tree.nodes@, closed@, 0),
            expanded_once(tree.nodes@, closed@),
            forall|j: int|
                0 <= j < closed.len() ==> !problem.spec_goal_test(
                    #[trigger] state_at(tree.nodes@, closed[j]),
                ),
            steady_costs::<S, A, P>(problem) ==> pledge(
                problem,
                tree.nodes@,
                open@,
                closed@,
                best@,
                0,
            ),
            cost_by_view::<S, A, P>(problem) ==> phase_of(
                tree.nodes@,
                open@,
                closed@,
                best@,
                None,
            ) == run_steps(
                problem,
                start_phase(initial_node.state@, initial_node.path_cost),
                t,
            ),
        decreases usize::MAX - tree.nodes.len() + open.len(),
    {
        let ghost open0 = open@;
        let ghost best0 = best@;
        let ghost start = start_phase(initial_node.state@, initial_node.path_cost);
        let m = cheapest(&open);
        let entry = open.remove(m);
        let n = entry.node;
        proof {
            assert(open0[m as int].node == n);
            assert(entry.f_score == cost_at(tree.nodes@, n));
            assert forall|j: int| 0 <= j < open.len() implies (#[trigger] open[j]).node
                < tree.nodes.len() && open[j].f_score == cost_at(tree.nodes@, open[j].node)
                && entry.f_score <= open[j].f_score && (cost_never_drops::<S, A, P>(problem)
                ==> closed_within(tree.nodes@, closed@, open[j].f_score)) by {
                if j < m {
                    assert(open@[j] == open0[j]);
                } else {
                    assert(open@[j] == open0[j + 1]);
                }
            }
            assert(open_from(open@, cost_at(tree.nodes@, n)));
            assert(cost_never_drops::<S, A, P>(problem) ==> closed_within(
                tree.nodes@,
                closed@,
                open0[m as int].f_score,
            ));
            assert forall|i: int| 0 <= i < tree.nodes.len() && i != n implies #[trigger] covered(
                tree.nodes@,
                open@,
                closed@,
                i,
            ) by {
                assert(covered(tree.nodes@, open0, closed@, i));
                if queued(open0, i) {
                    lemma_still_queued(open0, m as int, i);
                }
            }
        }
        if problem.goal_test(tree.nodes[n].state()) {
            proof {
                tree.lemma_solution_is_plan(problem, n as int);
                assert(reachable(problem, initial_node.state@, tree.nodes[n as int].state@));
                let ns = tree.nodes@;
                assert forall|i: int|
                    0 <= i < ns.len() && problem.spec_goal_test((#[trigger] ns[i]).state@) implies cost_at(
                    ns,
                    n,
                ) <= ns[i].path_cost by {
                    if i != n {
                        assert(covered(ns, open@, closed@, i));
                        if queued(open@, i) {
                            let j = choose|j: int| 0 <= j < open@.len() && (#[trigger] open@[j]).node == i;
                            assert(open@[j].f_score == cost_at(ns, open@[j].node));
                        } else {
                            let j = choose|j: int|
                                0 <= j < closed@.len() && #[trigger] state_at(ns, closed@[j])
                                    == ns[i].state@;
                            assert(!problem.spec_goal_test(state_at(ns, closed@[j])));
                        }
                    }
                }
            }
            proof {
                let ns = tree.nodes@;
                if unit_costs::<S, A, P>(problem) {
                    lemma_unit_costs_are_steady(problem);
                }
                if steady_costs::<S, A, P>(problem) {
                    assert forall|plan: Seq<A>|
                        legal_plan(problem, initial_node.state@, plan) && problem.spec_goal_test(
                            run(problem, initial_node.state@, plan),
                        ) implies cost_at(ns, n) <= #[trigger] plan_cost(
                        problem,
                        initial_node.path_cost,
                        initial_node.state@,
                        plan,
                    ) by {
                        lemma_plan_within(problem, ns, open0, closed@, best@, plan);
                        let v = run(problem, initial_node.state@, plan);
                        let total = plan_cost(
                            problem,
                            initial_node.path_cost,
                            initial_node.state@,
                            plan,
                        );
                        if settled(ns, closed@, v, total) {
                            let j = choose|j: int|
                                0 <= j < closed@.len() && #[trigger] state_at(ns, closed@[j]) == v
                                    && cost_at(ns, closed@[j]) <= total;
                            assert(!problem.spec_goal_test(state_at(ns, closed@[j])));
                        } else {
                            let j = choose|j: int|
                                0 <= j < open0.len() && (#[trigger] open0[j]).f_score <= total;
                            assert(open0[m as int].f_score <= open0[j].f_score);
                        }
                    }
                }
                if steady_costs::<S, A, P>(problem) {
                    lemma_node_cost_is_plan_cost(problem, &tree, n as int);
                }
                if unit_costs::<S, A, P>(problem) && ns[0].path_cost + ns[n as int].depth
                    < u64::MAX {
                    lemma_cheapest_is_shortest(problem, &tree, n as int);
                }
            }
            proof {
                if cost_by_view::<S, A, P>(problem) {
                    lemma_step_goal(problem, tree.nodes@, open0, closed@, best@, m as int);
                    assert(run_steps(problem, start, t + 1) == step(
                        problem,
                        run_steps(problem, start, t),
                    ));
                    assert(phase_of(tree.nodes@, open@, closed@, best@, Some(n)) == run_steps(
                        problem,
                        start,
                        t + 1,
                    ));
                }
            }
            return SearchOutcome { tree, goal: Some(n), expanded: closed, pending: open, best };
        }
        if closed_has(&tree.nodes, &closed, tree.nodes[n].state()) {
            proof {
                if cost_by_view::<S, A, P>(problem) {
                    lemma_step_stale(problem, tree.nodes@, open0, closed@, best@, m as int);
                    assert(run_steps(problem, start, t + 1) == step(
                        problem,
                        run_steps(problem, start, t),
                    ));
                }
                t = t + 1;
                assert(covered(tree.nodes@, open@, closed@, n as int));
                if steady_costs::<S, A, P>(problem) {
                    let ns = tree.nodes@;
                    let q = choose|q: int|
                        0 <= q < closed@.len() && #[trigger] state_at(ns, closed@[q])
                            == ns[n as int].state@;
                    assert(cost_at(ns, closed@[q]) <= open0[m as int].f_score);
                    assert(settled(ns, closed@, state_at(ns, open0[m as int].node), open0[m as int].f_score));
                    lemma_carried_after_pop(ns, open0, m as int, closed@);
                    lemma_pledge_kept(problem, ns, open0, closed@, best@, 0, ns, open@, closed@);
                }
            }
        } else {
            let ghost closed0 = closed@;
            let ghost ns0 = tree.nodes@;
            closed.push(n);
            proof {
                assert(state_at(ns0, closed@[closed0.len() as int]) == ns0[n as int].state@);
                assert forall|i: int| 0 <= i < tree.nodes.len() implies #[trigger] covered(
                    ns0,
                    open@,
                    closed@,
                    i,
                ) by {
                    if i == n {
                        assert(state_closed(ns0, closed@, ns0[i].state@));
                    } else {
                        assert(covered(ns0, open@, closed0, i));
                        if !queued(open@, i) {
                            let j = choose|j: int|
                                0 <= j < closed0.len() && #[trigger] state_at(ns0, closed0[j])
                                    == ns0[i].state@;
                            assert(state_at(ns0, closed@[j]) == ns0[i].state@);
                        }
                    }
                }
                assert forall|a: int, b: int| 0 <= a < b < closed@.len() implies #[trigger] state_at(
                    ns0,
                    closed@[a],
                ) != #[trigger] state_at(ns0, closed@[b]) by {
                    if b < closed0.len() {
                        assert(closed@[a] == closed0[a] && closed@[b] == closed0[b]);
                    } else {
                        assert(closed@[a] == closed0[a]);
                        assert(state_at(ns0, closed0[a]) != ns0[n as int].state@);
                    }
                }
                assert forall|j: int| 0 <= j < closed@.len() - 1 implies successors_known(
                    problem,
                    ns0,
                    #[trigger] state_at(ns0, closed@[j]),
                    problem.spec_actions(state_at(ns0, closed@[j])).len() as int,
                ) by {
                    assert(closed@[j] == closed0[j]);
                }
                assert forall|j: int| 0 <= j < closed@.len() implies !problem.spec_goal_test(
                    #[trigger] state_at(ns0, closed@[j]),
                ) by {
                    if j < closed0.len() {
                        assert(closed@[j] == closed0[j]);
                    }
                }
                if cost_never_drops::<S, A, P>(problem) {
                    assert forall|j: int| 0 <= j < closed@.len() implies #[trigger] cost_at(
                        ns0,
                        closed@[j],
                    ) <= cost_at(ns0, n) by {
                        if j < closed0.len() {
                            assert(closed@[j] == closed0[j]);
                            assert(cost_at(ns0, closed0[j]) <= cost_at(ns0, n));
                        }
                    }
                    assert forall|a: int, b: int| 0 <= a < b < closed@.len() implies #[trigger] cost_at(
                        ns0,
                        closed@[a],
                    ) <= #[trigger] cost_at(ns0, closed@[b]) by {
                        assert(closed@[a] == closed0[a]);
                        if b < closed0.len() {
                            assert(closed@[b] == closed0[b]);
                        }
                    }
                }
                if steady_costs::<S, A, P>(problem) {
                    let q = closed0.len() as int;
                    assert(state_at(ns0, closed@[q]) == state_at(ns0, open0[m as int].node)
                        && cost_at(ns0, closed@[q]) <= open0[m as int].f_score);
                    assert(settled(ns0, closed@, state_at(ns0, open0[m as int].node), open0[m as int].f_score));
                    lemma_carried_after_pop(ns0, open0, m as int, closed@);
                    lemma_pledge_kept(problem, ns0, open0, closed0, best@, 0, ns0, open@, closed@);
                }
            }
            let mut children = tree.expand(n, problem);
            let ghost all = children@;
            let ghost here = ns0[n as int].state@;
            let ghost acts = problem.spec_actions(here);
            let ghost mut k: int = 0;
            let ghost phc = phase_of(ns0, open@, closed@, best@, None);
            proof {
                if cost_by_view::<S, A, P>(problem) {
                    lemma_step_expand(problem, ns0, open0, closed0, best0, m as int);
                    assert(run_steps(problem, start, t + 1) == step(
                        problem,
                        run_steps(problem, start, t),
                    ));
                }
                t = t + 1;
            }
            assert(children@ =~= all.skip(0));
            while children.len() > 0
                invariant
                    tree.wf(problem),
                    tree.nodes[0] == initial_node,
                    extends(ns0, tree.nodes@),
                    n < ns0.len(),
                    here == ns0[n as int].state@,
                    acts == problem.spec_actions(here),
                    all.len() == acts.len(),
                    0 <= k <= all.len(),
                    children@ == all.skip(k),
                    forall|q: int|
                        0 <= q < all.len() ==> child_of(
                            problem,
                            &ns0[n as int],
                            n,
                            acts[q],
                            &#[trigger] all[q],
                        ),
                    closed@.len() > 0,
                    closed@.last() == n,
                    forall|j: int| 0 <= j < closed.len() ==> #[trigger] closed[j] < ns0.len(),
                    forall|j: int|
                        0 <= j < open.len() ==> (#[trigger] open[j]).node < tree.nodes.len(),
                    forall|j: int|
                        0 <= j < best.len() ==> (#[trigger] best[j]).node < tree.nodes.len(),
                    forall|i: int|
                        0 <= i < tree.nodes.len() ==> #[trigger] covered(
                            tree.nodes@,
                            open@,
                            closed@,
                            i,
                        ),
                    forall|i: int|
                        0 <= i < tree.nodes.len() ==> (#[trigger] tree.nodes[i]).depth <= i,
                    scores_match(tree.nodes@, open@),
                    best_kept(tree.nodes@, best@),
                    falling_costs(tree.nodes@),
                    cost_never_drops::<S, A, P>(problem) ==> open_from(open@, cost_at(ns0, n)),
                    cost_never_drops::<S, A, P>(problem) ==> rising_costs(tree.nodes@, closed@),
                    cost_never_drops::<S, A, P>(problem) ==> closed_within(
                        tree.nodes@,
                        closed@,
                        cost_at(ns0, n),
                    ),
                    closed_under_steps(problem, tree.nodes@, closed@, 1),
                    successors_known(problem, tree.nodes@, here, k),
                    cost_by_view::<S, A, P>(problem) ==> phase_of(
                        tree.nodes@,
                        open@,
                        closed@,
                        best@,
                        None,
                    ) == offers(problem, phc, n as int, k),
                    cost_by_view::<S, A, P>(problem) ==> run_steps(problem, start, t) == offers(
                        problem,
                        phc,
                        n as int,
                        acts.len() as int,
                    ),
                    steady_costs::<S, A, P>(problem) ==> pledge(
                        problem,
                        tree.nodes@,
                        open@,
                        closed@,
                        best@,
                        1,
                    ),
                    steady_costs::<S, A, P>(problem) ==> steps_promised(
                        problem,
                        tree.nodes@,
                        open@,
                        closed@,
                        here,
                        cost_at(ns0, n),
                        k,
                    ),
                    expanded_once(tree.nodes@, closed@),
                    forall|j: int|
                        0 <= j < closed.len() ==> !problem.spec_goal_test(
                            #[trigger] state_at(tree.nodes@, closed[j]),
                        ),
                    tree.nodes.len() - open.len() == ns0.len() - (open0.len() - 1),
                decreases children.len(),
            {
                let child = children.remove(0);
                let ghost tree1 = tree;
                let ghost ns1 = tree.nodes@;
                let ghost open1 = open@;
                let ghost best1 = best@;
                let ghost due = toll(problem, cost_at(ns0, n), child.state@);
                proof {
                    if steady_costs::<S, A, P>(problem) {
                        lemma_toll(problem, cost_at(ns0, n), child.state);
                    }
                    assert(child == all[k]);
                    assert(children@ =~= all.skip(k + 1));
                    assert(child_of(problem, &ns0[n as int], n, acts[k], &all[k]));
                    assert(child.state@ == problem.spec_result(here, acts[k]));
                    lemma_growth(problem, ns0, ns1, closed@);
                }
                let mut keep: bool = false;
                let ghost mut slot: int = best1.len() as int;
                let ghost mut hit: int = best1.len() as int;
                if !closed_has(&tree.nodes, &closed, &child.state) {
                    match best_entry(&tree.nodes, &best, &child.state) {
                        Some(b) => {
                            proof {
                                hit = b as int;
                            }
                            if child.path_cost < best[b].cost {
                                best.set(b, BestCost { node: tree.nodes.len(), cost: child.path_cost });
                                keep = true;
                                proof {
                                    slot = b as int;
                                }
                            } else {
                                proof {
                                    if cost_by_view::<S, A, P>(problem) {
                                        assert(ns1[n as int] == ns0[n as int]);
                                        lemma_offer(
                                            problem,
                                            ns1,
                                            open1,
                                            closed@,
                                            best1,
                                            n as int,
                                            k,
                                            child,
                                            b as int,
                                            false,
                                            ns1,
                                            open1,
                                            best1,
                                        );
                                    }
                                    assert(ns1[best@[b as int].node as int].state@ == child.state@);
                                    assert(known(ns1, child.state@));
                                    if steady_costs::<S, A, P>(problem) {
                                        assert(promised(
                                            ns1,
                                            open1,
                                            closed@,
                                            state_at(ns1, best1[b as int].node),
                                            best1[b as int].cost,
                                        ));
                                        lemma_promise_loosened(
                                            ns1,
                                            open1,
                                            closed@,
                                            child.state@,
                                            best1[b as int].cost,
                                            due,
                                        );
                                    }
                                }
                            }
                        },
                        None => {
                            best.push(BestCost { node: tree.nodes.len(), cost: child.path_cost });
                            keep = true;
                            proof {
                                hit = best1.len() as int;
                            }
                        },
                    }
                } else {
                    proof {
                        let j = choose|j: int|
                            0 <= j < closed@.len() && #[trigger] state_at(ns1, closed@[j])
                                == child.state@;
                        if cost_by_view::<S, A, P>(problem) {
                            assert(ns1[n as int] == ns0[n as int]);
                            lemma_offer(
                                problem,
                                ns1,
                                open1,
                                closed@,
                                best1,
                                n as int,
                                k,
                                child,
                                0,
                                false,
                                ns1,
                                open1,
                                best1,
                            );
                        }
                        assert(ns1[closed@[j] as int].state@ == child.state@);
                        assert(known(ns1, child.state@));
                        if steady_costs::<S, A, P>(problem) {
                            assert(cost_at(ns1, closed@[j]) <= cost_at(ns0, n));
                            assert(problem.spec_path_cost(ns0[n as int].path_cost, &child.state)
                                >= ns0[n as int].path_cost);
                            assert(settled(ns1, closed@, child.state@, due));
                        }
                    }
                }
                if keep {
                    let index = tree.nodes.len();
                    open.push(PriorityNode { node: index, f_score: child.path_cost });
                    tree.nodes.push(child);
                    proof {
                        if cost_by_view::<S, A, P>(problem) {
                            assert(ns1[n as int] == ns0[n as int]);
                            lemma_offer(
                                problem,
                                ns1,
                                open1,
                                closed@,
                                best1,
                                n as int,
                                k,
                                child,
                                hit,
                                true,
                                tree.nodes@,
                                open@,
                                best@,
                            );
                        }
                        let ns2 = tree.nodes@;
                        assert(extends(ns1, ns2));
                        lemma_growth(problem, ns1, ns2, closed@);
                        assert(ns2[index as int] == child);
                        assert(ns2[n as int] == ns0[n as int]);
                        assert(acts[k] == problem.spec_actions(ns2[n as int].state@)[k]);
                        assert(problem.spec_actions(ns2[n as int].state@).contains(acts[k]));
                        assert(tree.link_ok(problem, index as int));
                        assert forall|i: int| 0 <= i < ns2.len() implies #[trigger] tree.link_ok(
                            problem,
                            i,
                        ) by {
                            if i < index {
                                assert(tree1.link_ok(problem, i));
                                lemma_link_kept(problem, ns1, ns2, i);
                            }
                        }
                        assert(open@[open1.len() as int].node == index);
                        assert forall|i: int| 0 <= i < ns2.len() implies #[trigger] covered(
                            ns2,
                            open@,
                            closed@,
                            i,
                        ) by {
                            if i == index {
                                assert(queued(open@, i));
                            } else {
                                assert(covered(ns1, open1, closed@, i));
                                if queued(open1, i) {
                                    let j = choose|j: int|
                                        0 <= j < open1.len() && (#[trigger] open1[j]).node == i;
                                    assert(open@[j].node == i);
                                } else {
                                    assert(state_closed(ns2, closed@, ns1[i].state@));
                                }
                            }
                        }
                        assert(known(ns2, child.state@));
                        assert forall|j: int| 0 <= j < best.len() implies (#[trigger] best[j]).node
                            < tree.nodes.len() by {}
                        assert forall|j: int| 0 <= j < open@.len() implies (#[trigger] open@[j]).node
                            < ns2.len() && open@[j].f_score == cost_at(ns2, open@[j].node) by {
                            if j < open1.len() {
                                assert(open@[j] == open1[j]);
                                assert(ns2[open1[j].node as int] == ns1[open1[j].node as int]);
                            }
                        }
                        assert forall|j: int| 0 <= j < closed@.len() implies #[trigger] cost_at(
                            ns2,
                            closed@[j],
                        ) == cost_at(ns1, closed@[j]) by {
                            assert(ns2[closed@[j] as int] == ns1[closed@[j] as int]);
                        }
                        if cost_never_drops::<S, A, P>(problem) {
                            assert(problem.spec_path_cost(ns0[n as int].path_cost, &child.state)
                                >= ns0[n as int].path_cost);
                            assert forall|q: int| 0 <= q < open@.len() implies cost_at(ns0, n) <= (
                            #[trigger] open@[q]).f_score by {
                                if q < open1.len() {
                                    assert(open@[q] == open1[q]);
                                }
                            }
                        }
                        if steady_costs::<S, A, P>(problem) {
                            let last = open1.len() as int;
                            assert(open@ == open1.push(open@[last]));
                            lemma_carried_after_push(ns1, open1, child, open@[last], closed@);
                            lemma_pledge_kept(problem, ns1, open1, closed@, best1, 1, ns2, open@, closed@);
                            lemma_steps_kept(
                                problem,
                                ns1,
                                open1,
                                closed@,
                                ns2,
                                open@,
                                closed@,
                                here,
                                cost_at(ns0, n),
                                k,
                            );
                            assert(state_at(ns2, open@[last].node) == child.state@ && open@[last].f_score
                                <= due);
                            assert(offered(ns2, open@, child.state@, due));
                            assert forall|b: int| 0 <= b < best@.len() implies promised(
                                ns2,
                                open@,
                                closed@,
                                state_at(ns2, (#[trigger] best@[b]).node),
                                best@[b].cost,
                            ) by {
                                if b < best1.len() && best@[b] == best1[b] {
                                    assert(promised(
                                        ns2,
                                        open@,
                                        closed@,
                                        state_at(ns2, best1[b].node),
                                        best1[b].cost,
                                    ));
                                } else {
                                    assert(best@[b].node == index && best@[b].cost == child.path_cost);
                                    assert(offered(ns2, open@, state_at(ns2, best@[b].node), best@[b].cost));
                                }
                            }
                            assert(pledge(problem, ns2, open@, closed@, best@, 1));
                        }
                        assert(best@ =~= (if slot < best1.len() {
                            best1.update(slot, best@[slot])
                        } else {
                            best1.push(best@[slot])
                        }));
                        lemma_best_kept_after_push(ns1, best1, child, slot, best@[slot]);
                    }
                }
                proof {
                    assert(cost_by_view::<S, A, P>(problem) ==> phase_of(
                        tree.nodes@,
                        open@,
                        closed@,
                        best@,
                        None,
                    ) == offers(problem, phc, n as int, k + 1));
                    k = k + 1;
                    assert(known(tree.nodes@, problem.spec_result(here, acts[k - 1])));
                    assert(successors_known(problem, tree.nodes@, here, k));
                    if steady_costs::<S, A, P>(problem) {
                        assert(promised(
                            tree.nodes@,
                            open@,
                            closed@,
                            problem.spec_result(here, acts[k - 1]),
                            due,
                        ));
                        assert(steps_promised(
                            problem,
                            tree.nodes@,
                            open@,
                            closed@,
                            here,
                            cost_at(ns0, n),
                            k,
                        ));
                    }
                }
            }
            proof {
                assert(state_at(tree.nodes@, closed@[closed@.len() - 1]) == here);
                assert(closed_under_steps(problem, tree.nodes@, closed@, 0));
                if steady_costs::<S, A, P>(problem) {
                    assert(cost_at(tree.nodes@, closed@[closed@.len() - 1]) == cost_at(ns0, n));
                    assert(pledge(problem, tree.nodes@, open@, closed@, best@, 0));
                }
                if cost_never_drops::<S, A, P>(problem) {
                    assert forall|q: int| 0 <= q < open@.len() implies closed_within(
                        tree.nodes@,
                        closed@,
                        (#[trigger] open@[q]).f_score,
                    ) by {
                        assert(cost_at(ns0, n) <= open@[q].f_score);
                    }
                }
            }
        }
    }
    proof {
        let ns = tree.nodes@;
        assert forall|i: int| 0 <= i < ns.len() implies state_closed(
            ns,
            closed@,
            (#[trigger] ns[i]).state@,
        ) by {
            assert(covered(ns, open@, closed@, i));
        }
        assert forall|v: S::V| reachable(problem, initial_node.state@, v) implies !(
        #[trigger] problem.spec_goal_test(v)) by {
            let plan = choose|plan: Seq<A>|
                legal_plan(problem, initial_node.state@, plan) && run(
                    problem,
                    initial_node.state@,
                    plan,
                ) == v;
            lemma_closed_holds_reachable(problem, ns, closed@, plan);
            let j = choose|j: int| 0 <= j < closed@.len() && #[trigger] state_at(ns, closed@[j]) == v;
        }
    }
    proof {
        if cost_by_view::<S, A, P>(problem) {
            let start = start_phase(initial_node.state@, initial_node.path_cost);
            assert(phase_of(tree.nodes@, open@, closed@, best@, None) == run_steps(
                problem,
                start,
                t,
            ));
        }
    }
    SearchOutcome { tree, goal: None, expanded: closed, pending: open, best }
}

} // verus!
