//! The search as a function of the problem and the root: where the cost of a
//! step depends on the configuration stepped into alone, every run from one
//! root state and cost goes through the same phases and ends in the same one.
use vstd::prelude::*;
use crate::node::NodeHanoi;
use crate::optimal::toll;
use crate::problem::{DomainState, Problem};
use crate::search::{
    BestCost, PriorityNode, SearchOutcome, is_cheapest, lemma_cheapest_is_settled, state_at,
    state_closed,
};

verus! {

/// What a run reads of an arena node: its configuration, cost and depth.
pub struct Vertex<V> {
    pub view: V,
    pub cost: u64,
    pub depth: usize,
}

/// The state of a run between two steps of the driver.
pub struct Phase<V> {
    pub vs: Seq<Vertex<V>>,
    pub open: Seq<PriorityNode>,
    pub closed: Seq<usize>,
    pub best: Seq<BestCost>,
    pub goal: Option<usize>,
}

/// Whether the cost of a step depends on the configuration stepped into alone.
pub open spec fn cost_by_view<S: DomainState, A: Copy, P: Problem<S, A>>(problem: &P) -> bool {
    forall|c: u64, s1: S, s2: S|
        s1@ == s2@ ==> #[trigger] problem.spec_path_cost(c, &s1) == #[trigger] problem.spec_path_cost(
            c,
            &s2,
        )
}

/// What a run reads of each node of the arena.
pub open spec fn vertices<S: DomainState, A>(ns: Seq<NodeHanoi<S, A>>) -> Seq<Vertex<S::V>> {
    Seq::new(
        ns.len(),
        |i: int| Vertex { view: ns[i].state@, cost: ns[i].path_cost, depth: ns[i].depth },
    )
}

/// The phase that the driver's data stand for.
pub open spec fn phase_of<S: DomainState, A>(
    ns: Seq<NodeHanoi<S, A>>,
    open: Seq<PriorityNode>,
    closed: Seq<usize>,
    best: Seq<BestCost>,
    goal: Option<usize>,
) -> Phase<S::V> {
    Phase { vs: vertices(ns), open, closed, best, goal }
}

/// The phase a run starts in: the root alone, pending.
pub open spec fn start_phase<V>(root: V, cost: u64) -> Phase<V> {
    Phase {
        vs: seq![Vertex { view: root, cost: cost, depth: 0 }],
        open: seq![PriorityNode { node: 0, f_score: cost }],
        closed: Seq::empty(),
        best: seq![BestCost { node: 0, cost: cost }],
        goal: None,
    }
}

/// Whether a run has ended: a goal was found or nothing is pending.
pub open spec fn finished<V>(ph: Phase<V>) -> bool {
    ph.goal is Some || ph.open.len() == 0
}

/// Whether some expanded vertex holds configuration `w`.
pub open spec fn view_closed<V>(vs: Seq<Vertex<V>>, closed: Seq<usize>, w: V) -> bool {
    exists|j: int| 0 <= j < closed.len() && vs[#[trigger] closed[j] as int].view == w
}

/// The first best-cost entry from `from` on that is kept for configuration
/// `w`; the length of the table where there is none.
pub open spec fn first_hit<V>(vs: Seq<Vertex<V>>, best: Seq<BestCost>, w: V, from: int) -> int
    decreases best.len() - from,
{
    if from < 0 || from >= best.len() {
        best.len() as int
    } else if vs[best[from].node as int].view == w {
        from
    } else {
        first_hit(vs, best, w, from + 1)
    }
}

/// The entry that the frontier hands out next.
pub open spec fn first_cheapest(open: Seq<PriorityNode>) -> int {
    choose|m: int| is_cheapest(open, m)
}

/// The phase after successor `k` of vertex `n` has been dealt with.
pub open spec fn offer<S: DomainState, A: Copy, P: Problem<S, A>>(
    problem: &P,
    ph: Phase<S::V>,
    n: int,
    k: int,
) -> Phase<S::V> {
    let v = ph.vs[n].view;
    let w = problem.spec_result(v, problem.spec_actions(v)[k]);
    let c = toll(problem, ph.vs[n].cost, w);
    let b = first_hit(ph.vs, ph.best, w, 0);
    let index = ph.vs.len() as usize;
    if view_closed(ph.vs, ph.closed, w) || (b < ph.best.len() && c >= ph.best[b].cost) {
        ph
    } else {
        Phase {
            vs: ph.vs.push(Vertex { view: w, cost: c, depth: (ph.vs[n].depth + 1) as usize }),
            open: ph.open.push(PriorityNode { node: index, f_score: c }),
            closed: ph.closed,
            best: if b < ph.best.len() {
                ph.best.update(b, BestCost { node: index, cost: c })
            } else {
                ph.best.push(BestCost { node: index, cost: c })
            },
            goal: ph.goal,
        }
    }
}

/// The phase after the first `k` successors of vertex `n` have been dealt with.
pub open spec fn offers<S: DomainState, A: Copy, P: Problem<S, A>>(
    problem: &P,
    ph: Phase<S::V>,
    n: int,
    k: int,
) -> Phase<S::V>
    decreases k,
{
    if k <= 0 {
        ph
    } else {
        offer(problem, offers(problem, ph, n, k - 1), n, k - 1)
    }
}

/// The phase after one round of the driver; a run that has ended stays as it is.
pub open spec fn step<S: DomainState, A: Copy, P: Problem<S, A>>(
    problem: &P,
    ph: Phase<S::V>,
) -> Phase<S::V> {
    if finished(ph) {
        ph
    } else {
        let m = first_cheapest(ph.open);
        let n = ph.open[m].node;
        let rest = ph.open.remove(m);
        let v = ph.vs[n as int].view;
        if problem.spec_goal_test(v) {
            Phase { vs: ph.vs, open: rest, closed: ph.closed, best: ph.best, goal: Some(n) }
        } else if view_closed(ph.vs, ph.closed, v) {
            Phase { vs: ph.vs, open: rest, closed: ph.closed, best: ph.best, goal: None }
        } else {
            offers(
                problem,
                Phase {
                    vs: ph.vs,
                    open: rest,
                    closed: ph.closed.push(n),
                    best: ph.best,
                    goal: None,
                },
                n as int,
                problem.spec_actions(v).len() as int,
            )
        }
    }
}

/// The phase after `t` rounds from `ph`.
pub open spec fn run_steps<S: DomainState, A: Copy, P: Problem<S, A>>(
    problem: &P,
    ph: Phase<S::V>,
    t: nat,
) -> Phase<S::V>
    decreases t,
{
    if t == 0 {
        ph
    } else {
        step(problem, run_steps(problem, ph, (t - 1) as nat))
    }
}

/// Whether `ph` is where a run from a root of configuration `root` and cost
/// `cost` ends.
pub open spec fn outcome_of<S: DomainState, A: Copy, P: Problem<S, A>>(
    problem: &P,
    root: S::V,
    cost: u64,
    ph: Phase<S::V>,
) -> bool {
    finished(ph) && exists|t: nat| ph == #[trigger] run_steps(problem, start_phase(root, cost), t)
}

/// A run that has ended after `t` rounds is where it was after any more rounds.
pub proof fn lemma_finished_stays<S: DomainState, A: Copy, P: Problem<S, A>>(
    problem: &P,
    ph: Phase<S::V>,
    t: nat,
    more: nat,
)
    requires
        finished(run_steps(problem, ph, t)),
    ensures
        run_steps(problem, ph, t + more) == run_steps(problem, ph, t),
    decreases more,
{
    if more > 0 {
        lemma_finished_stays(problem, ph, t, (more - 1) as nat);
        assert(run_steps(problem, ph, t + more) == step(
            problem,
            run_steps(problem, ph, (t + more - 1) as nat),
        ));
    }
}

/// Every run of one problem from one root configuration and cost ends in the
/// same phase: the same vertices at the same depths and costs, the same
/// expansions in the same order, and the same goal vertex or none. So the
/// length of the solution, which is the depth of the goal vertex, is the same
/// however often the search is run.
pub proof fn lemma_outcome_is_settled<S: DomainState, A: Copy, P: Problem<S, A>>(
    problem: &P,
    root: S::V,
    cost: u64,
    first: Phase<S::V>,
    second: Phase<S::V>,
)
    requires
        outcome_of(problem, root, cost, first),
        outcome_of(problem, root, cost, second),
    ensures
        first == second,
{
    let start = start_phase(root, cost);
    let t1 = choose|t: nat| first == #[trigger] run_steps(problem, start, t);
    let t2 = choose|t: nat| second == #[trigger] run_steps(problem, start, t);
    if t1 <= t2 {
        lemma_finished_stays(problem, start, t1, (t2 - t1) as nat);
    } else {
        lemma_finished_stays(problem, start, t2, (t1 - t2) as nat);
    }
}

/// An expanded configuration of the arena is an expanded configuration of
/// its vertices.
pub proof fn lemma_closed_bridge<S: DomainState, A>(
    ns: Seq<NodeHanoi<S, A>>,
    closed: Seq<usize>,
    w: S::V,
)
    requires
        forall|j: int| 0 <= j < closed.len() ==> #[trigger] closed[j] < ns.len(),
    ensures
        state_closed(ns, closed, w) == view_closed(vertices(ns), closed, w),
{
    let vs = vertices(ns);
    if state_closed(ns, closed, w) {
        let j = choose|j: int| 0 <= j < closed.len() && #[trigger] state_at(ns, closed[j]) == w;
        assert(vs[closed[j] as int].view == w);
    }
    if view_closed(vs, closed, w) {
        let j = choose|j: int| 0 <= j < closed.len() && vs[#[trigger] closed[j] as int].view == w;
        assert(state_at(ns, closed[j]) == w);
    }
}

/// The first hit from `from` on is `b` where no entry from `from` up to `b`
/// is kept for `w` and entry `b` is, or `b` is the length of the table.
pub proof fn lemma_first_hit<V>(vs: Seq<Vertex<V>>, best: Seq<BestCost>, w: V, from: int, b: int)
    requires
        0 <= from <= b <= best.len(),
        forall|q: int| from <= q < b ==> vs[(#[trigger] best[q]).node as int].view != w,
        b < best.len() ==> vs[best[b].node as int].view == w,
    ensures
        first_hit(vs, best, w, from) == b,
    decreases b - from,
{
    if from < b {
        assert(vs[best[from].node as int].view != w);
        lemma_first_hit(vs, best, w, from + 1, b);
    }
}

/// What the driver does with one child is what `offer` says.
pub proof fn lemma_offer<S: DomainState, A: Copy, P: Problem<S, A>>(
    problem: &P,
    ns1: Seq<NodeHanoi<S, A>>,
    open1: Seq<PriorityNode>,
    closed: Seq<usize>,
    best1: Seq<BestCost>,
    n: int,
    k: int,
    child: NodeHanoi<S, A>,
    hit: int,
    keep: bool,
    ns2: Seq<NodeHanoi<S, A>>,
    open2: Seq<PriorityNode>,
    best2: Seq<BestCost>,
)
    requires
        cost_by_view::<S, A, P>(problem),
        0 <= n < ns1.len() <= usize::MAX,
        0 <= k < problem.spec_actions(ns1[n].state@).len(),
        child.state@ == problem.spec_result(
            ns1[n].state@,
            problem.spec_actions(ns1[n].state@)[k],
        ),
        child.path_cost == problem.spec_path_cost(ns1[n].path_cost, &child.state),
        child.depth == ns1[n].depth + 1,
        forall|j: int| 0 <= j < closed.len() ==> #[trigger] closed[j] < ns1.len(),
        forall|b: int| 0 <= b < best1.len() ==> (#[trigger] best1[b]).node < ns1.len(),
        !state_closed(ns1, closed, child.state@) ==> 0 <= hit <= best1.len() && (forall|q: int|
            0 <= q < hit ==> state_at(ns1, (#[trigger] best1[q]).node) != child.state@) && (hit
            < best1.len() ==> state_at(ns1, best1[hit].node) == child.state@),
        keep == (!state_closed(ns1, closed, child.state@) && (hit >= best1.len()
            || child.path_cost < best1[hit].cost)),
        !keep ==> ns2 == ns1 && open2 == open1 && best2 == best1,
        keep ==> ns2 == ns1.push(child) && open2 == open1.push(
            (PriorityNode { node: ns1.len() as usize, f_score: child.path_cost }),
        ) && best2 == (if hit < best1.len() {
            best1.update(hit, (BestCost { node: ns1.len() as usize, cost: child.path_cost }))
        } else {
            best1.push((BestCost { node: ns1.len() as usize, cost: child.path_cost }))
        }),
    ensures
        phase_of(ns2, open2, closed, best2, None) == offer(
            problem,
            phase_of(ns1, open1, closed, best1, None),
            n,
            k,
        ),
{
    let ph = phase_of(ns1, open1, closed, best1, None);
    let vs = vertices(ns1);
    let w = child.state@;
    crate::optimal::lemma_toll_by_view(problem, ns1[n].path_cost, child.state);
    lemma_closed_bridge(ns1, closed, w);
    if !state_closed(ns1, closed, w) {
        assert forall|q: int| 0 <= q < hit implies vs[(#[trigger] best1[q]).node as int].view
            != w by {
            assert(state_at(ns1, best1[q].node) != w);
        }
        lemma_first_hit(vs, best1, w, 0, hit);
    }
    if keep {
        assert(vertices(ns2) =~= vs.push(
            Vertex { view: w, cost: child.path_cost, depth: child.depth },
        ));
    }
}

/// Where the node handed out satisfies the goal, the round ends the run there.
pub proof fn lemma_step_goal<S: DomainState, A: Copy, P: Problem<S, A>>(
    problem: &P,
    ns: Seq<NodeHanoi<S, A>>,
    open: Seq<PriorityNode>,
    closed: Seq<usize>,
    best: Seq<BestCost>,
    m: int,
)
    requires
        is_cheapest(open, m),
        open[m].node < ns.len(),
        problem.spec_goal_test(ns[open[m].node as int].state@),
    ensures
        step(problem, phase_of(ns, open, closed, best, None)) == phase_of(
            ns,
            open.remove(m),
            closed,
            best,
            Some(open[m].node),
        ),
{
    lemma_cheapest_is_settled(open, m, first_cheapest(open));
}

/// Where the configuration of the node handed out has been expanded, the
/// round drops the node.
pub proof fn lemma_step_stale<S: DomainState, A: Copy, P: Problem<S, A>>(
    problem: &P,
    ns: Seq<NodeHanoi<S, A>>,
    open: Seq<PriorityNode>,
    closed: Seq<usize>,
    best: Seq<BestCost>,
    m: int,
)
    requires
        is_cheapest(open, m),
        open[m].node < ns.len(),
        forall|j: int| 0 <= j < closed.len() ==> #[trigger] closed[j] < ns.len(),
        !problem.spec_goal_test(ns[open[m].node as int].state@),
        state_closed(ns, closed, ns[open[m].node as int].state@),
    ensures
        step(problem, phase_of(ns, open, closed, best, None)) == phase_of(
            ns,
            open.remove(m),
            closed,
            best,
            None,
        ),
{
    lemma_cheapest_is_settled(open, m, first_cheapest(open));
    lemma_closed_bridge(ns, closed, ns[open[m].node as int].state@);
}

/// Otherwise the round expands the node: it closes it and deals with each of
/// its successors in turn.
pub proof fn lemma_step_expand<S: DomainState, A: Copy, P: Problem<S, A>>(
    problem: &P,
    ns: Seq<NodeHanoi<S, A>>,
    open: Seq<PriorityNode>,
    closed: Seq<usize>,
    best: Seq<BestCost>,
    m: int,
)
    requires
        is_cheapest(open, m),
        open[m].node < ns.len(),
        forall|j: int| 0 <= j < closed.len() ==> #[trigger] closed[j] < ns.len(),
        !problem.spec_goal_test(ns[open[m].node as int].state@),
        !state_closed(ns, closed, ns[open[m].node as int].state@),
    ensures
        step(problem, phase_of(ns, open, closed, best, None)) == offers(
            problem,
            phase_of(ns, open.remove(m), closed.push(open[m].node), best, None),
            open[m].node as int,
            problem.spec_actions(ns[open[m].node as int].state@).len() as int,
        ),
{
    lemma_cheapest_is_settled(open, m, first_cheapest(open));
    lemma_closed_bridge(ns, closed, ns[open[m].node as int].state@);
}

/// The phase that a search left behind.
pub open spec fn last_phase<S: DomainState, A>(outcome: &SearchOutcome<S, A>) -> Phase<S::V> {
    phase_of(
        outcome.tree.nodes@,
        outcome.pending@,
        outcome.expanded@,
        outcome.best@,
        outcome.goal,
    )
}

/// Two searches of one problem from roots of one configuration and cost agree
/// on whether a goal is found, on the goal node's place in the tree, and on
/// the length of the solution.
pub proof fn lemma_runs_agree<S: DomainState, A: Copy, P: Problem<S, A>>(
    problem: &P,
    root: S::V,
    cost: u64,
    first: &SearchOutcome<S, A>,
    second: &SearchOutcome<S, A>,
)
    requires
        first.tree.wf(problem),
        second.tree.wf(problem),
        first.goal is Some ==> first.goal->0 < first.tree.nodes.len(),
        second.goal is Some ==> second.goal->0 < second.tree.nodes.len(),
        outcome_of(problem, root, cost, last_phase(first)),
        outcome_of(problem, root, cost, last_phase(second)),
    ensures
        first.goal == second.goal,
        first.expanded@ == second.expanded@,
        first.tree.nodes.len() == second.tree.nodes.len(),
        first.goal is Some ==> first.tree.spec_solution(first.goal->0 as int).len()
            == second.tree.spec_solution(second.goal->0 as int).len(),
{
    lemma_outcome_is_settled(problem, root, cost, last_phase(first), last_phase(second));
    let vs1 = vertices(first.tree.nodes@);
    let vs2 = vertices(second.tree.nodes@);
    assert(vs1 == vs2);
    assert(vs1.len() == first.tree.nodes.len());
    assert(vs2.len() == second.tree.nodes.len());
    if first.goal is Some {
        let g = first.goal->0 as int;
        first.tree.lemma_solution_is_plan(problem, g);
        second.tree.lemma_solution_is_plan(problem, g);
        assert(vs1[g].depth == first.tree.nodes[g].depth);
        assert(vs2[g].depth == second.tree.nodes[g].depth);
    }
}

} // verus!
