//! Search-tree nodes, kept in an arena and linked to their parents by index.
use vstd::prelude::*;
use crate::problem::{DomainState, Problem, cost_never_drops};

verus! {

/// One vertex of the search tree. It is never changed once built.
pub struct NodeHanoi<S, A> {
    pub state: S,
    /// The arena index of the node this one was expanded from; none at the root.
    pub parent: Option<usize>,
    /// The action that led here from the parent.
    pub action: Option<A>,
    pub path_cost: u64,
    pub depth: usize,
}

/// What can be read of a search-tree vertex.
pub trait Node<S, A> {
    /// The vertex as a plain record.
    spec fn record(&self) -> NodeHanoi<S, A>;

    /// The state the vertex stands for.
    fn state(&self) -> (r: &S)
        ensures
            *r == self.record().state,
    ;

    /// The arena index of the vertex it was expanded from; none at the root.
    fn parent(&self) -> (r: Option<usize>)
        ensures
            r == self.record().parent,
    ;

    /// The action that led to it; none at the root.
    fn action(&self) -> (r: Option<A>)
        ensures
            r == self.record().action,
    ;

    /// The cost accumulated from the root.
    fn path_cost(&self) -> (r: u64)
        ensures
            r == self.record().path_cost,
    ;
}

impl<S, A: Copy> Node<S, A> for NodeHanoi<S, A> {
    open spec fn record(&self) -> NodeHanoi<S, A> {
        *self
    }

    fn state(&self) -> (r: &S) {
        &self.state
    }

    fn parent(&self) -> (r: Option<usize>) {
        self.parent
    }

    fn action(&self) -> (r: Option<A>) {
        self.action
    }

    fn path_cost(&self) -> (r: u64) {
        self.path_cost
    }
}

/// Whether `child` is what expanding `parent`, which sits at `index`, yields for `action`.
pub open spec fn child_of<S: DomainState, A: Copy, P: Problem<S, A>>(
    problem: &P,
    parent: &NodeHanoi<S, A>,
    index: usize,
    action: A,
    child: &NodeHanoi<S, A>,
) -> bool {
    &&& child.parent == Some(index)
    &&& child.action == Some(action)
    &&& child.state@ == problem.spec_result(parent.state@, action)
    &&& child.path_cost == problem.spec_path_cost(parent.path_cost, &child.state)
    &&& child.depth == parent.depth + 1
}

/// Whether node `i` of `ns` is the root, or what expanding its parent yields
/// for an action that is legal in the parent's state.
pub open spec fn link_between<S: DomainState, A: Copy, P: Problem<S, A>>(
    problem: &P,
    ns: Seq<NodeHanoi<S, A>>,
    i: int,
) -> bool {
    let n = ns[i];
    match n.parent {
        None => i == 0 && n.depth == 0,
        Some(p) => {
            &&& p < i
            &&& n.action is Some
            &&& problem.spec_actions(ns[p as int].state@).contains(n.action->0)
            &&& child_of(problem, &ns[p as int], p, n.action->0, &n)
        },
    }
}

/// The state reached from `start` by carrying out `plan` in order.
pub open spec fn run<S: DomainState, A: Copy, P: Problem<S, A>>(
    problem: &P,
    start: S::V,
    plan: Seq<A>,
) -> S::V
    decreases plan.len(),
{
    if plan.len() == 0 {
        start
    } else {
        problem.spec_result(run(problem, start, plan.drop_last()), plan.last())
    }
}

/// Whether each action of `plan` is offered in the state it is applied to.
pub open spec fn legal_plan<S: DomainState, A: Copy, P: Problem<S, A>>(
    problem: &P,
    start: S::V,
    plan: Seq<A>,
) -> bool
    decreases plan.len(),
{
    plan.len() == 0 || (legal_plan(problem, start, plan.drop_last()) && problem.spec_actions(
        run(problem, start, plan.drop_last()),
    ).contains(plan.last()))
}

/// Whether some legal plan leads from `start` to `target`.
pub open spec fn reachable<S: DomainState, A: Copy, P: Problem<S, A>>(
    problem: &P,
    start: S::V,
    target: S::V,
) -> bool {
    exists|plan: Seq<A>| legal_plan(problem, start, plan) && run(problem, start, plan) == target
}

/// Copies a list back to front.
pub fn reversed<T: Copy>(v: &Vec<T>) -> (r: Vec<T>)
    ensures
        r@ == v@.reverse(),
{
    let mut out: Vec<T> = Vec::new();
    let mut k: usize = v.len();
    while k > 0
        invariant
            k <= v.len(),
            out.len() == v.len() - k,
            forall|j: int| 0 <= j < out.len() ==> out@[j] == v@[v.len() - 1 - j],
        decreases k,
    {
        k -= 1;
        out.push(v[k]);
    }
    assert(out@ =~= v@.reverse());
    out
}

impl<S: DomainState, A: Copy> NodeHanoi<S, A> {
    /// The node that `action` leads to from this one, which sits at `index`.
    pub fn child_node<P: Problem<S, A>>(&self, index: usize, problem: &P, action: A) -> (r: Self)
        requires
            problem.spec_actions(self.state@).contains(action),
            self.depth < usize::MAX,
        ensures
            child_of(problem, self, index, action, &r),
            cost_never_drops::<S, A, P>(problem) ==> r.path_cost >= self.path_cost,
    {
        let next_state = problem.result(&self.state, &action);
        let next_cost = problem.path_cost(self.path_cost, &next_state);
        NodeHanoi {
            state: next_state,
            parent: Some(index),
            action: Some(action),
            path_cost: next_cost,
            depth: self.depth + 1,
        }
    }
}

/// The arena that holds a search tree: the root at index 0, every other node
/// behind its parent.
pub struct SearchTree<S, A> {
    pub nodes: Vec<NodeHanoi<S, A>>,
}

impl<S: DomainState, A: Copy> SearchTree<S, A> {
    /// Whether node `i` is the root, or what expanding its parent yields for a
    /// legal action.
    pub open spec fn link_ok<P: Problem<S, A>>(&self, problem: &P, i: int) -> bool {
        link_between(problem, self.nodes@, i)
    }

    /// Whether the arena is a tree grown from its root by legal actions alone.
    pub open spec fn wf<P: Problem<S, A>>(&self, problem: &P) -> bool {
        &&& self.nodes.len() > 0
        &&& self.nodes[0].parent is None
        &&& forall|i: int| 0 <= i < self.nodes.len() ==> #[trigger] self.link_ok(problem, i)
    }

    /// The indices from the root down to node `i`.
    pub open spec fn spec_path(&self, i: int) -> Seq<usize>
        decreases i,
    {
        if 0 <= i < self.nodes.len() {
            match self.nodes[i].parent {
                Some(p) if p < i => self.spec_path(p as int).push(i as usize),
                _ => seq![i as usize],
            }
        } else {
            Seq::empty()
        }
    }

    /// The actions from the root down to node `i`; the root contributes none.
    pub open spec fn spec_solution(&self, i: int) -> Seq<A>
        decreases i,
    {
        if 0 <= i < self.nodes.len() {
            match self.nodes[i].parent {
                Some(p) if p < i => {
                    let above = self.spec_solution(p as int);
                    match self.nodes[i].action {
                        Some(a) => above.push(a),
                        None => above,
                    }
                },
                _ => Seq::empty(),
            }
        } else {
            Seq::empty()
        }
    }

    /// Starts a tree that holds `root` alone.
    pub fn new(root: NodeHanoi<S, A>) -> (r: Self)
        ensures
            r.nodes@ == seq![root],
    {
        let mut nodes: Vec<NodeHanoi<S, A>> = Vec::new();
        nodes.push(root);
        SearchTree { nodes }
    }

    /// One child of node `i` for each action the problem offers in its state,
    /// in that order. The tree itself is left as it is.
    pub fn expand<P: Problem<S, A>>(&self, i: usize, problem: &P) -> (r: Vec<NodeHanoi<S, A>>)
        requires
            i < self.nodes.len(),
            self.nodes[i as int].depth < usize::MAX,
        ensures
            r.len() == problem.spec_actions(self.nodes[i as int].state@).len(),
            forall|k: int|
                0 <= k < r.len() ==> child_of(
                    problem,
                    &self.nodes[i as int],
                    i,
                    problem.spec_actions(self.nodes[i as int].state@)[k],
                    &#[trigger] r[k],
                ),
            cost_never_drops::<S, A, P>(problem) ==> forall|k: int|
                0 <= k < r.len() ==> (#[trigger] r[k]).path_cost >= self.nodes[i as int].path_cost,
    {
        let node = &self.nodes[i];
        let actions = problem.actions(&node.state);
        let mut children: Vec<NodeHanoi<S, A>> = Vec::new();
        let mut k: usize = 0;
        while k < actions.len()
            invariant
                k <= actions.len(),
                children.len() == k,
                actions@ == problem.spec_actions(node.state@),
                node.depth < usize::MAX,
                forall|j: int|
                    0 <= j < k ==> child_of(problem, node, i, actions@[j], &#[trigger] children[j]),
                cost_never_drops::<S, A, P>(problem) ==> forall|j: int|
                    0 <= j < k ==> (#[trigger] children[j]).path_cost >= node.path_cost,
            decreases actions.len() - k,
        {
            let child = node.child_node(i, problem, actions[k]);
            children.push(child);
            k += 1;
        }
        children
    }

    /// The indices of the nodes from the root down to node `i`.
    pub fn path(&self, i: usize) -> (r: Vec<usize>)
        ensures
            r@ == self.spec_path(i as int),
    {
        let mut upward: Vec<usize> = Vec::new();
        if i >= self.nodes.len() {
            return upward;
        }
        let mut cur: usize = i;
        loop
            invariant_except_break
                self.spec_path(i as int) == self.spec_path(cur as int) + upward@.reverse(),
            invariant
                cur < self.nodes.len(),
            ensures
                self.spec_path(i as int) == upward@.reverse(),
            decreases cur,
        {
            let ghost before = upward@;
            upward.push(cur);
            assert(upward@.reverse() =~= seq![cur] + before.reverse());
            match self.nodes[cur].parent {
                Some(p) if p < cur => {
                    assert(self.spec_path(cur as int) + before.reverse() =~= self.spec_path(
                        p as int,
                    ) + upward@.reverse());
                    cur = p;
                },
                _ => {
                    assert(self.spec_path(i as int) =~= upward@.reverse());
                    break;
                },
            }
        }
        reversed(&upward)
    }

    /// The actions that lead from the root to node `i`, in order.
    pub fn solution(&self, i: usize) -> (r: Vec<A>)
        ensures
            r@ == self.spec_solution(i as int),
    {
        let mut upward: Vec<A> = Vec::new();
        if i >= self.nodes.len() {
            return upward;
        }
        let mut cur: usize = i;
        loop
            invariant_except_break
                self.spec_solution(i as int) == self.spec_solution(cur as int) + upward@.reverse(),
            invariant
                cur < self.nodes.len(),
            ensures
                self.spec_solution(i as int) == upward@.reverse(),
            decreases cur,
        {
            match self.nodes[cur].parent {
                Some(p) if p < cur => {
                    let ghost before = upward@;
                    match self.nodes[cur].action {
                        Some(a) => {
                            upward.push(a);
                            assert(upward@.reverse() =~= seq![a] + before.reverse());
                        },
                        None => {},
                    }
                    assert(self.spec_solution(cur as int) + before.reverse()
                        =~= self.spec_solution(p as int) + upward@.reverse());
                    cur = p;
                },
                _ => {
                    assert(self.spec_solution(i as int) =~= upward@.reverse());
                    break;
                },
            }
        }
        reversed(&upward)
    }

    /// In a well-formed tree the actions down to a node are a legal plan from
    /// the root's state to the node's state, one action per level of depth.
    pub proof fn lemma_solution_is_plan<P: Problem<S, A>>(&self, problem: &P, i: int)
        requires
            self.wf(problem),
            0 <= i < self.nodes.len(),
        ensures
            legal_plan(problem, self.nodes[0].state@, self.spec_solution(i)),
            run(problem, self.nodes[0].state@, self.spec_solution(i)) == self.nodes[i].state@,
            self.spec_solution(i).len() == self.nodes[i].depth,
            self.spec_path(i).len() == self.nodes[i].depth + 1,
            reachable(problem, self.nodes[0].state@, self.nodes[i].state@),
        decreases i,
    {
        assert(self.link_ok(problem, i));
        match self.nodes[i].parent {
            Some(p) => {
                self.lemma_solution_is_plan(problem, p as int);
                let above = self.spec_solution(p as int);
                let a = self.nodes[i].action->0;
                assert(self.spec_solution(i) == above.push(a));
                assert(above.push(a).drop_last() =~= above);
            },
            None => {},
        }
        let root = self.nodes[0].state@;
        let plan = self.spec_solution(i);
        assert(legal_plan(problem, root, plan) && run(problem, root, plan) == self.nodes[i].state@);
    }

    /// In a well-formed tree the path to a node starts at the root and ends
    /// at the node, each entry after the first is a child of the entry before
    /// it, and there is one entry for each level from the root down.
    pub proof fn lemma_path_shape<P: Problem<S, A>>(&self, problem: &P, i: int)
        requires
            self.wf(problem),
            0 <= i < self.nodes.len(),
        ensures
            self.spec_path(i).len() == self.nodes[i].depth + 1,
            self.spec_path(i)[0] == 0,
            self.spec_path(i).last() == i,
            forall|k: int|
                0 <= k < self.spec_path(i).len() ==> #[trigger] self.spec_path(i)[k]
                    < self.nodes.len(),
            forall|k: int|
                0 < k < self.spec_path(i).len() ==> self.nodes[#[trigger] self.spec_path(
                    i,
                )[k] as int].parent == Some(self.spec_path(i)[k - 1]),
            forall|k: int|
                0 <= k < self.spec_path(i).len() ==> self.nodes[#[trigger] self.spec_path(
                    i,
                )[k] as int].depth == k,
        decreases i,
    {
        assert(self.link_ok(problem, i));
        match self.nodes[i].parent {
            Some(p) => {
                self.lemma_path_shape(problem, p as int);
            },
            None => {},
        }
    }

    /// Where no step lowers the cost, the cost never drops from a node's
    /// parent to the node.
    pub proof fn lemma_child_costs_no_less<P: Problem<S, A>>(&self, problem: &P, i: int)
        requires
            self.wf(problem),
            cost_never_drops::<S, A, P>(problem),
            0 <= i < self.nodes.len(),
            self.nodes[i].parent is Some,
        ensures
            self.nodes[i].parent->0 < i,
            self.nodes[self.nodes[i].parent->0 as int].path_cost <= self.nodes[i].path_cost,
    {
        assert(self.link_ok(problem, i));
    }

    /// Where no step lowers the cost, the cost never drops from one entry of
    /// the path to a node to the next.
    pub proof fn lemma_cost_monotone<P: Problem<S, A>>(&self, problem: &P, i: int)
        requires
            self.wf(problem),
            cost_never_drops::<S, A, P>(problem),
            0 <= i < self.nodes.len(),
        ensures
            forall|k: int|
                0 < k < self.spec_path(i).len() ==> self.nodes[self.spec_path(i)[k - 1] as int].path_cost
                    <= self.nodes[#[trigger] self.spec_path(i)[k] as int].path_cost,
    {
        self.lemma_path_shape(problem, i);
        let path = self.spec_path(i);
        assert forall|k: int| 0 < k < path.len() implies self.nodes[path[k - 1] as int].path_cost
            <= self.nodes[#[trigger] path[k] as int].path_cost by {
            self.lemma_child_costs_no_less(problem, path[k] as int);
        }
    }
}

} // verus!
