//! Why the node that the search returns is as cheap as any plan to a goal,
//! for problems whose costs are steady.
use vstd::prelude::*;
use crate::node::{NodeHanoi, SearchTree, legal_plan, run};
use crate::problem::{DomainState, Problem, cost_never_drops, cost_sum};
use crate::search::{BestCost, PriorityNode, cost_at, extends, state_at};

verus! {

/// Whether the cost of a step depends on the configuration stepped into
/// alone, never falls when the cost so far rises, and is never below the cost
/// so far.
pub open spec fn steady_costs<S: DomainState, A: Copy, P: Problem<S, A>>(problem: &P) -> bool {
    &&& forall|c: u64, s1: S, s2: S|
        s1@ == s2@ ==> #[trigger] problem.spec_path_cost(c, &s1) == #[trigger] problem.spec_path_cost(
            c,
            &s2,
        )
    &&& forall|c1: u64, c2: u64, s: S|
        c1 <= c2 ==> #[trigger] problem.spec_path_cost(c1, &s) <= #[trigger] problem.spec_path_cost(
            c2,
            &s,
        )
    &&& cost_never_drops::<S, A, P>(problem)
}

/// The cost after stepping into configuration `v` with `c` behind.
pub open spec fn toll<S: DomainState, A: Copy, P: Problem<S, A>>(problem: &P, c: u64, v: S::V) -> u64 {
    problem.spec_path_cost(c, &choose|s: S| s@ == v)
}

/// The cost of carrying out `plan` from `start` with `c0` behind.
pub open spec fn plan_cost<S: DomainState, A: Copy, P: Problem<S, A>>(
    problem: &P,
    c0: u64,
    start: S::V,
    plan: Seq<A>,
) -> u64
    decreases plan.len(),
{
    if plan.len() == 0 {
        c0
    } else {
        toll(
            problem,
            plan_cost(problem, c0, start, plan.drop_last()),
            run(problem, start, plan),
        )
    }
}

/// Whether configuration `v` has been expanded at a cost of at most `x`.
pub open spec fn settled<S: DomainState, A>(
    ns: Seq<NodeHanoi<S, A>>,
    closed: Seq<usize>,
    v: S::V,
    x: u64,
) -> bool {
    exists|j: int|
        0 <= j < closed.len() && #[trigger] state_at(ns, closed[j]) == v && cost_at(ns, closed[j])
            <= x
}

/// Whether configuration `v` waits on the frontier with a score of at most `x`.
pub open spec fn offered<S: DomainState, A>(
    ns: Seq<NodeHanoi<S, A>>,
    open: Seq<PriorityNode>,
    v: S::V,
    x: u64,
) -> bool {
    exists|j: int|
        0 <= j < open.len() && state_at(ns, (#[trigger] open[j]).node) == v && open[j].f_score <= x
}

/// Whether configuration `v` has been expanded or waits, at a cost of at most `x`.
pub open spec fn promised<S: DomainState, A>(
    ns: Seq<NodeHanoi<S, A>>,
    open: Seq<PriorityNode>,
    closed: Seq<usize>,
    v: S::V,
    x: u64,
) -> bool {
    settled(ns, closed, v, x) || offered(ns, open, v, x)
}

/// Whether each of the first `upto` successors of `v` is promised at the cost
/// of stepping into it with `c` behind.
pub open spec fn steps_promised<S: DomainState, A: Copy, P: Problem<S, A>>(
    problem: &P,
    ns: Seq<NodeHanoi<S, A>>,
    open: Seq<PriorityNode>,
    closed: Seq<usize>,
    v: S::V,
    c: u64,
    upto: int,
) -> bool {
    forall|k: int|
        0 <= k < upto && k < problem.spec_actions(v).len() ==> promised(
            ns,
            open,
            closed,
            problem.spec_result(v, #[trigger] problem.spec_actions(v)[k]),
            toll(problem, c, problem.spec_result(v, problem.spec_actions(v)[k])),
        )
}

/// Whether the root, every best-cost entry and every successor of every
/// expanded node but the last `pending` ones are promised at their costs.
pub open spec fn pledge<S: DomainState, A: Copy, P: Problem<S, A>>(
    problem: &P,
    ns: Seq<NodeHanoi<S, A>>,
    open: Seq<PriorityNode>,
    closed: Seq<usize>,
    best: Seq<BestCost>,
    pending: int,
) -> bool {
    &&& promised(ns, open, closed, ns[0].state@, ns[0].path_cost)
    &&& forall|b: int|
        0 <= b < best.len() ==> promised(
            ns,
            open,
            closed,
            state_at(ns, (#[trigger] best[b]).node),
            best[b].cost,
        )
    &&& forall|j: int|
        0 <= j < closed.len() - pending ==> steps_promised(
            problem,
            ns,
            open,
            closed,
            #[trigger] state_at(ns, closed[j]),
            cost_at(ns, closed[j]),
            problem.spec_actions(state_at(ns, closed[j])).len() as int,
        )
}

/// Whether every frontier entry of `open` is promised, at its score, once the
/// search has moved on to `ns2`, `open2` and `closed2`.
pub open spec fn carried<S: DomainState, A>(
    ns: Seq<NodeHanoi<S, A>>,
    open: Seq<PriorityNode>,
    ns2: Seq<NodeHanoi<S, A>>,
    open2: Seq<PriorityNode>,
    closed2: Seq<usize>,
) -> bool {
    forall|j: int|
        0 <= j < open.len() ==> promised(
            ns2,
            open2,
            closed2,
            state_at(ns, (#[trigger] open[j]).node),
            open[j].f_score,
        )
}

/// Whether `closed2` begins with `closed`.
pub open spec fn begins_with(closed2: Seq<usize>, closed: Seq<usize>) -> bool {
    closed.len() <= closed2.len() && forall|j: int|
        0 <= j < closed.len() ==> #[trigger] closed2[j] == closed[j]
}

/// A promise is kept when the arena and the closed list grow and every
/// frontier entry stays promised.
pub proof fn lemma_promise_kept<S: DomainState, A>(
    ns: Seq<NodeHanoi<S, A>>,
    open: Seq<PriorityNode>,
    closed: Seq<usize>,
    ns2: Seq<NodeHanoi<S, A>>,
    open2: Seq<PriorityNode>,
    closed2: Seq<usize>,
    v: S::V,
    x: u64,
)
    requires
        extends(ns, ns2),
        begins_with(closed2, closed),
        forall|j: int| 0 <= j < closed.len() ==> #[trigger] closed[j] < ns.len(),
        carried(ns, open, ns2, open2, closed2),
        promised(ns, open, closed, v, x),
    ensures
        promised(ns2, open2, closed2, v, x),
{
    if settled(ns, closed, v, x) {
        let j = choose|j: int|
            0 <= j < closed.len() && #[trigger] state_at(ns, closed[j]) == v && cost_at(
                ns,
                closed[j],
            ) <= x;
        assert(closed2[j] == closed[j]);
        assert(ns2[closed[j] as int] == ns[closed[j] as int]);
        assert(state_at(ns2, closed2[j]) == v && cost_at(ns2, closed2[j]) <= x);
    } else {
        let j = choose|j: int|
            0 <= j < open.len() && state_at(ns, (#[trigger] open[j]).node) == v && open[j].f_score
                <= x;
        let f = open[j].f_score;
        assert(promised(ns2, open2, closed2, v, f));
        if settled(ns2, closed2, v, f) {
            let q = choose|q: int|
                0 <= q < closed2.len() && #[trigger] state_at(ns2, closed2[q]) == v && cost_at(
                    ns2,
                    closed2[q],
                ) <= f;
            assert(state_at(ns2, closed2[q]) == v && cost_at(ns2, closed2[q]) <= x);
        } else {
            let q = choose|q: int|
                0 <= q < open2.len() && state_at(ns2, (#[trigger] open2[q]).node) == v
                    && open2[q].f_score <= f;
            assert(state_at(ns2, open2[q].node) == v && open2[q].f_score <= x);
        }
    }
}

/// The whole pledge is kept under the same conditions; the nodes that were
/// closed in between join the pending ones.
pub proof fn lemma_pledge_kept<S: DomainState, A: Copy, P: Problem<S, A>>(
    problem: &P,
    ns: Seq<NodeHanoi<S, A>>,
    open: Seq<PriorityNode>,
    closed: Seq<usize>,
    best: Seq<BestCost>,
    pending: int,
    ns2: Seq<NodeHanoi<S, A>>,
    open2: Seq<PriorityNode>,
    closed2: Seq<usize>,
)
    requires
        ns.len() > 0,
        pending >= 0,
        extends(ns, ns2),
        begins_with(closed2, closed),
        forall|j: int| 0 <= j < closed.len() ==> #[trigger] closed[j] < ns.len(),
        forall|b: int| 0 <= b < best.len() ==> (#[trigger] best[b]).node < ns.len(),
        carried(ns, open, ns2, open2, closed2),
        pledge(problem, ns, open, closed, best, pending),
    ensures
        pledge(problem, ns2, open2, closed2, best, pending + closed2.len() - closed.len()),
{
    lemma_promise_kept(ns, open, closed, ns2, open2, closed2, ns[0].state@, ns[0].path_cost);
    assert(ns2[0] == ns[0]);
    assert forall|b: int| 0 <= b < best.len() implies promised(
        ns2,
        open2,
        closed2,
        state_at(ns2, (#[trigger] best[b]).node),
        best[b].cost,
    ) by {
        assert(ns2[best[b].node as int] == ns[best[b].node as int]);
        lemma_promise_kept(
            ns,
            open,
            closed,
            ns2,
            open2,
            closed2,
            state_at(ns, best[b].node),
            best[b].cost,
        );
    }
    assert forall|j: int| 0 <= j < closed.len() - pending implies steps_promised(
        problem,
        ns2,
        open2,
        closed2,
        #[trigger] state_at(ns2, closed2[j]),
        cost_at(ns2, closed2[j]),
        problem.spec_actions(state_at(ns2, closed2[j])).len() as int,
    ) by {
        assert(closed2[j] == closed[j]);
        assert(ns2[closed[j] as int] == ns[closed[j] as int]);
        let v = state_at(ns, closed[j]);
        let c = cost_at(ns, closed[j]);
        lemma_steps_kept(
            problem,
            ns,
            open,
            closed,
            ns2,
            open2,
            closed2,
            v,
            c,
            problem.spec_actions(v).len() as int,
        );
    }
}

/// The promises for the successors of one configuration are kept under the
/// same conditions.
pub proof fn lemma_steps_kept<S: DomainState, A: Copy, P: Problem<S, A>>(
    problem: &P,
    ns: Seq<NodeHanoi<S, A>>,
    open: Seq<PriorityNode>,
    closed: Seq<usize>,
    ns2: Seq<NodeHanoi<S, A>>,
    open2: Seq<PriorityNode>,
    closed2: Seq<usize>,
    v: S::V,
    c: u64,
    upto: int,
)
    requires
        extends(ns, ns2),
        begins_with(closed2, closed),
        forall|j: int| 0 <= j < closed.len() ==> #[trigger] closed[j] < ns.len(),
        carried(ns, open, ns2, open2, closed2),
        steps_promised(problem, ns, open, closed, v, c, upto),
    ensures
        steps_promised(problem, ns2, open2, closed2, v, c, upto),
{
    assert forall|k: int| 0 <= k < upto && k < problem.spec_actions(v).len() implies promised(
        ns2,
        open2,
        closed2,
        problem.spec_result(v, #[trigger] problem.spec_actions(v)[k]),
        toll(problem, c, problem.spec_result(v, problem.spec_actions(v)[k])),
    ) by {
        let w = problem.spec_result(v, problem.spec_actions(v)[k]);
        lemma_promise_kept(ns, open, closed, ns2, open2, closed2, w, toll(problem, c, w));
    }
}

/// With steady costs, the cost of stepping into a state is the toll of its
/// configuration.
pub proof fn lemma_toll<S: DomainState, A: Copy, P: Problem<S, A>>(problem: &P, c: u64, s: S)
    requires
        steady_costs::<S, A, P>(problem),
    ensures
        problem.spec_path_cost(c, &s) == toll(problem, c, s@),
{
    let t = choose|t: S| t@ == s@;
    assert(t@ == s@);
    assert(problem.spec_path_cost(c, &s) == problem.spec_path_cost(c, &t));
}

/// Where the cost of a step depends on the configuration stepped into
/// alone, the cost of stepping into a state is the toll of its configuration.
pub proof fn lemma_toll_by_view<S: DomainState, A: Copy, P: Problem<S, A>>(problem: &P, c: u64, s: S)
    requires
        crate::replay::cost_by_view::<S, A, P>(problem),
    ensures
        problem.spec_path_cost(c, &s) == toll(problem, c, s@),
{
    let t = choose|t: S| t@ == s@;
    assert(t@ == s@);
    assert(problem.spec_path_cost(c, &s) == problem.spec_path_cost(c, &t));
}

/// Under a full pledge with steady costs, where a legal plan from the root
/// ends has been expanded at no more than the plan's cost, or some frontier
/// entry is scored no higher than the plan's cost.
pub proof fn lemma_plan_within<S: DomainState, A: Copy, P: Problem<S, A>>(
    problem: &P,
    ns: Seq<NodeHanoi<S, A>>,
    open: Seq<PriorityNode>,
    closed: Seq<usize>,
    best: Seq<BestCost>,
    plan: Seq<A>,
)
    requires
        ns.len() > 0,
        steady_costs::<S, A, P>(problem),
        pledge(problem, ns, open, closed, best, 0),
        legal_plan(problem, ns[0].state@, plan),
    ensures
        settled(
            ns,
            closed,
            run(problem, ns[0].state@, plan),
            plan_cost(problem, ns[0].path_cost, ns[0].state@, plan),
        ) || exists|j: int|
            0 <= j < open.len() && (#[trigger] open[j]).f_score <= plan_cost(
                problem,
                ns[0].path_cost,
                ns[0].state@,
                plan,
            ),
    decreases plan.len(),
{
    let root = ns[0].state@;
    let c0 = ns[0].path_cost;
    let total = plan_cost(problem, c0, root, plan);
    if plan.len() == 0 {
        if !settled(ns, closed, root, c0) {
            let j = choose|j: int|
                0 <= j < open.len() && state_at(ns, (#[trigger] open[j]).node) == root
                    && open[j].f_score <= c0;
            assert(open[j].f_score <= total);
        }
    } else {
        let front = plan.drop_last();
        let prev = run(problem, root, front);
        let before = plan_cost(problem, c0, root, front);
        let here = run(problem, root, plan);
        lemma_plan_within(problem, ns, open, closed, best, front);
        let s = choose|s: S| s@ == here;
        assert(total == problem.spec_path_cost(before, &s));
        assert(before <= total);
        if settled(ns, closed, prev, before) {
            let j = choose|j: int|
                0 <= j < closed.len() && #[trigger] state_at(ns, closed[j]) == prev && cost_at(
                    ns,
                    closed[j],
                ) <= before;
            let acts = problem.spec_actions(prev);
            let k = choose|k: int| 0 <= k < acts.len() && acts[k] == plan.last();
            let c = cost_at(ns, closed[j]);
            assert(steps_promised(problem, ns, open, closed, prev, c, acts.len() as int));
            assert(problem.spec_result(prev, acts[k]) == here);
            let x = toll(problem, c, here);
            assert(promised(ns, open, closed, here, x));
            assert(x == problem.spec_path_cost(c, &s));
            assert(x <= total);
            if settled(ns, closed, here, x) {
                let q = choose|q: int|
                    0 <= q < closed.len() && #[trigger] state_at(ns, closed[q]) == here && cost_at(
                        ns,
                        closed[q],
                    ) <= x;
                assert(state_at(ns, closed[q]) == here && cost_at(ns, closed[q]) <= total);
            } else {
                let q = choose|q: int|
                    0 <= q < open.len() && state_at(ns, (#[trigger] open[q]).node) == here
                        && open[q].f_score <= x;
                assert(open[q].f_score <= total);
            }
        } else {
            let j = choose|j: int| 0 <= j < open.len() && (#[trigger] open[j]).f_score <= before;
            assert(open[j].f_score <= total);
        }
    }
}

/// A promise at one cost is a promise at any higher cost.
pub proof fn lemma_promise_loosened<S: DomainState, A>(
    ns: Seq<NodeHanoi<S, A>>,
    open: Seq<PriorityNode>,
    closed: Seq<usize>,
    v: S::V,
    x: u64,
    y: u64,
)
    requires
        promised(ns, open, closed, v, x),
        x <= y,
    ensures
        promised(ns, open, closed, v, y),
{
    if settled(ns, closed, v, x) {
        let j = choose|j: int|
            0 <= j < closed.len() && #[trigger] state_at(ns, closed[j]) == v && cost_at(
                ns,
                closed[j],
            ) <= x;
        assert(state_at(ns, closed[j]) == v && cost_at(ns, closed[j]) <= y);
    } else {
        let j = choose|j: int|
            0 <= j < open.len() && state_at(ns, (#[trigger] open[j]).node) == v && open[j].f_score
                <= x;
        assert(state_at(ns, open[j].node) == v && open[j].f_score <= y);
    }
}

/// Every frontier entry stays promised when one whose configuration has
/// been expanded at no more than its score is taken off.
pub proof fn lemma_carried_after_pop<S: DomainState, A>(
    ns: Seq<NodeHanoi<S, A>>,
    open: Seq<PriorityNode>,
    m: int,
    closed: Seq<usize>,
)
    requires
        0 <= m < open.len(),
        settled(ns, closed, state_at(ns, open[m].node), open[m].f_score),
    ensures
        carried(ns, open, ns, open.remove(m), closed),
{
    let rest = open.remove(m);
    assert forall|j: int| 0 <= j < open.len() implies promised(
        ns,
        rest,
        closed,
        state_at(ns, (#[trigger] open[j]).node),
        open[j].f_score,
    ) by {
        if j < m {
            assert(rest[j] == open[j]);
            assert(offered(ns, rest, state_at(ns, open[j].node), open[j].f_score));
        } else if j > m {
            assert(rest[j - 1] == open[j]);
            assert(offered(ns, rest, state_at(ns, open[j].node), open[j].f_score));
        }
    }
}

/// Every frontier entry stays promised when a node joins the arena and an
/// entry joins the frontier.
pub proof fn lemma_carried_after_push<S: DomainState, A>(
    ns: Seq<NodeHanoi<S, A>>,
    open: Seq<PriorityNode>,
    node: NodeHanoi<S, A>,
    entry: PriorityNode,
    closed: Seq<usize>,
)
    requires
        forall|j: int| 0 <= j < open.len() ==> (#[trigger] open[j]).node < ns.len(),
    ensures
        carried(ns, open, ns.push(node), open.push(entry), closed),
{
    let ns2 = ns.push(node);
    let open2 = open.push(entry);
    assert forall|j: int| 0 <= j < open.len() implies promised(
        ns2,
        open2,
        closed,
        state_at(ns, (#[trigger] open[j]).node),
        open[j].f_score,
    ) by {
        assert(open2[j] == open[j]);
        assert(ns2[open[j].node as int] == ns[open[j].node as int]);
        assert(offered(ns2, open2, state_at(ns, open[j].node), open[j].f_score));
    }
}

/// Whether every step costs one unit.
pub open spec fn unit_costs<S: DomainState, A: Copy, P: Problem<S, A>>(problem: &P) -> bool {
    forall|c: u64, s: S| #[trigger] problem.spec_path_cost(c, &s) == cost_sum(c, 1)
}

/// Whether `plan` is a legal plan from `start` to a goal.
pub open spec fn goal_plan<S: DomainState, A: Copy, P: Problem<S, A>>(
    problem: &P,
    start: S::V,
    plan: Seq<A>,
) -> bool {
    legal_plan(problem, start, plan) && problem.spec_goal_test(run(problem, start, plan))
}

/// Whether `plan` is a legal plan from `start` to a goal and no such plan is shorter.
pub open spec fn shortest_plan<S: DomainState, A: Copy, P: Problem<S, A>>(
    problem: &P,
    start: S::V,
    plan: Seq<A>,
) -> bool {
    &&& goal_plan(problem, start, plan)
    &&& forall|other: Seq<A>| #[trigger] goal_plan(problem, start, other) ==> plan.len() <= other.len()
}

/// Two shortest plans of one problem from one start have one length. So the
/// length of the solution is settled by the problem and the root wherever
/// the search returns a shortest plan, however often it is run.
pub proof fn lemma_shortest_length_is_settled<S: DomainState, A: Copy, P: Problem<S, A>>(
    problem: &P,
    start: S::V,
    first: Seq<A>,
    second: Seq<A>,
)
    requires
        shortest_plan(problem, start, first),
        shortest_plan(problem, start, second),
    ensures
        first.len() == second.len(),
{
    assert(goal_plan(problem, start, first));
    assert(goal_plan(problem, start, second));
}

/// Unit costs are steady.
pub proof fn lemma_unit_costs_are_steady<S: DomainState, A: Copy, P: Problem<S, A>>(problem: &P)
    requires
        unit_costs::<S, A, P>(problem),
    ensures
        steady_costs::<S, A, P>(problem),
{
    assert forall|c: u64, s: &S| #[trigger] problem.spec_path_cost(c, s) >= c by {
        assert(problem.spec_path_cost(c, &*s) == cost_sum(c, 1));
    }
}

/// With unit costs a plan costs one unit for each of its actions, held at `u64::MAX`.
pub proof fn lemma_unit_plan_cost<S: DomainState, A: Copy, P: Problem<S, A>>(
    problem: &P,
    c0: u64,
    start: S::V,
    plan: Seq<A>,
)
    requires
        unit_costs::<S, A, P>(problem),
    ensures
        plan_cost(problem, c0, start, plan) == (if c0 + plan.len() > u64::MAX {
            u64::MAX
        } else {
            (c0 + plan.len()) as u64
        }),
    decreases plan.len(),
{
    if plan.len() > 0 {
        lemma_unit_plan_cost(problem, c0, start, plan.drop_last());
    }
}

/// With unit costs a node costs one unit for each level of its depth, held at `u64::MAX`.
pub proof fn lemma_unit_node_cost<S: DomainState, A: Copy, P: Problem<S, A>>(
    problem: &P,
    tree: &SearchTree<S, A>,
    i: int,
)
    requires
        unit_costs::<S, A, P>(problem),
        tree.wf(problem),
        0 <= i < tree.nodes.len(),
    ensures
        tree.nodes[i].path_cost == (if tree.nodes[0].path_cost + tree.nodes[i].depth > u64::MAX {
            u64::MAX
        } else {
            (tree.nodes[0].path_cost + tree.nodes[i].depth) as u64
        }),
    decreases i,
{
    assert(tree.link_ok(problem, i));
    match tree.nodes[i].parent {
        Some(p) => {
            lemma_unit_node_cost(problem, tree, p as int);
        },
        None => {},
    }
}

/// With unit costs, a goal node that costs no more than any plan to a goal
/// ends a shortest plan, as long as its cost has not reached `u64::MAX`.
pub proof fn lemma_cheapest_is_shortest<S: DomainState, A: Copy, P: Problem<S, A>>(
    problem: &P,
    tree: &SearchTree<S, A>,
    g: int,
)
    requires
        unit_costs::<S, A, P>(problem),
        tree.wf(problem),
        0 <= g < tree.nodes.len(),
        problem.spec_goal_test(tree.nodes[g].state@),
        tree.nodes[0].path_cost + tree.nodes[g].depth < u64::MAX,
        forall|plan: Seq<A>|
            goal_plan(problem, tree.nodes[0].state@, plan) ==> tree.nodes[g].path_cost
                <= #[trigger] plan_cost(problem, tree.nodes[0].path_cost, tree.nodes[0].state@, plan),
    ensures
        shortest_plan(problem, tree.nodes[0].state@, tree.spec_solution(g)),
{
    tree.lemma_solution_is_plan(problem, g);
    lemma_unit_node_cost(problem, tree, g);
    let root = tree.nodes[0].state@;
    assert forall|other: Seq<A>| #[trigger] goal_plan(problem, root, other) implies tree.spec_solution(
        g,
    ).len() <= other.len() by {
        lemma_unit_plan_cost(problem, tree.nodes[0].path_cost, root, other);
        assert(tree.nodes[g].path_cost <= plan_cost(problem, tree.nodes[0].path_cost, root, other));
    }
}

/// Whether `plan` is a legal plan from `start` to a goal and no such plan costs less.
pub open spec fn cheapest_plan<S: DomainState, A: Copy, P: Problem<S, A>>(
    problem: &P,
    c0: u64,
    start: S::V,
    plan: Seq<A>,
) -> bool {
    &&& goal_plan(problem, start, plan)
    &&& forall|other: Seq<A>| #[trigger]
        goal_plan(problem, start, other) ==> plan_cost(problem, c0, start, plan) <= plan_cost(
            problem,
            c0,
            start,
            other,
        )
}

/// Two cheapest plans of one problem from one start cost the same. So the
/// cost of the solution is settled by the problem and the root wherever the
/// search returns a cheapest plan, however often it is run.
pub proof fn lemma_least_cost_is_settled<S: DomainState, A: Copy, P: Problem<S, A>>(
    problem: &P,
    c0: u64,
    start: S::V,
    first: Seq<A>,
    second: Seq<A>,
)
    requires
        cheapest_plan(problem, c0, start, first),
        cheapest_plan(problem, c0, start, second),
    ensures
        plan_cost(problem, c0, start, first) == plan_cost(problem, c0, start, second),
{
    assert(goal_plan(problem, start, first));
    assert(goal_plan(problem, start, second));
}

/// With steady costs, a node of a well-formed tree costs what the plan from
/// the root down to it costs.
pub proof fn lemma_node_cost_is_plan_cost<S: DomainState, A: Copy, P: Problem<S, A>>(
    problem: &P,
    tree: &SearchTree<S, A>,
    i: int,
)
    requires
        steady_costs::<S, A, P>(problem),
        tree.wf(problem),
        0 <= i < tree.nodes.len(),
    ensures
        tree.nodes[i].path_cost == plan_cost(
            problem,
            tree.nodes[0].path_cost,
            tree.nodes[0].state@,
            tree.spec_solution(i),
        ),
    decreases i,
{
    assert(tree.link_ok(problem, i));
    match tree.nodes[i].parent {
        Some(p) => {
            lemma_node_cost_is_plan_cost(problem, tree, p as int);
            tree.lemma_solution_is_plan(problem, i);
            tree.lemma_solution_is_plan(problem, p as int);
            lemma_toll(problem, tree.nodes[p as int].path_cost, tree.nodes[i].state);
            let above = tree.spec_solution(p as int);
            let a = tree.nodes[i].action->0;
            assert(tree.spec_solution(i) == above.push(a));
            assert(above.push(a).drop_last() =~= above);
        },
        None => {},
    }
}

} // verus!
