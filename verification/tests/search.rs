use hanoi_astar::actions::{Action, ACTIONS};
use hanoi_astar::hanoi::HanoiProblem;
use hanoi_astar::node::{reversed, Node, NodeHanoi, SearchTree};
use hanoi_astar::problem::DomainState;
use hanoi_astar::search::{
    a_star_search, best_entry, cheapest, closed_has, BestCost, PriorityNode, SearchOutcome,
};
use hanoi_astar::states::States;

fn mv(from: usize, to: usize) -> Action {
    Action { rod_input: from, rod_output: to, action: ACTIONS::Move }
}

fn tower(n: u32) -> Vec<u32> {
    (1..=n).rev().collect()
}

fn root_of(state: States) -> NodeHanoi<States, Action> {
    NodeHanoi { state, parent: None, action: None, path_cost: 0, depth: 0 }
}

fn classic(n: u32) -> (HanoiProblem, SearchOutcome<States, Action>) {
    let problem = HanoiProblem {
        initial: States::new(tower(n), vec![], vec![], 0),
        goal: Some(States::new(vec![], vec![], tower(n), 0)),
    };
    let outcome = a_star_search(&problem, root_of(States::new(tower(n), vec![], vec![], 0)));
    (problem, outcome)
}

#[test]
fn one_disk_takes_one_move() {
    let (_, outcome) = classic(1);
    let goal = outcome.goal.unwrap();
    assert_eq!(outcome.tree.solution(goal), vec![mv(0, 2)]);
    assert_eq!(outcome.tree.nodes[goal].state.rods, vec![vec![], vec![], vec![1]]);
}

#[test]
fn two_disks_take_three_moves() {
    let (_, outcome) = classic(2);
    let goal = outcome.goal.unwrap();
    assert_eq!(outcome.tree.solution(goal), vec![mv(0, 1), mv(0, 2), mv(1, 2)]);
}

#[test]
fn three_disks_take_seven_moves() {
    let (_, outcome) = classic(3);
    assert_eq!(outcome.tree.solution(outcome.goal.unwrap()).len(), 7);
}

#[test]
fn five_disks_take_thirty_one_moves() {
    let (_, outcome) = classic(5);
    assert_eq!(outcome.tree.solution(outcome.goal.unwrap()).len(), 31);
}

#[test]
fn the_plan_leads_from_the_start_to_the_goal() {
    let (problem, outcome) = classic(4);
    let plan = outcome.tree.solution(outcome.goal.unwrap());
    assert_eq!(plan.len(), 15);
    let mut state = States::new(tower(4), vec![], vec![], 0);
    for a in plan {
        state = a.apply_action(&state).unwrap();
    }
    assert!(state.same_as(problem.goal.as_ref().unwrap()));
}

#[test]
fn repeated_runs_give_the_same_plan() {
    let (_, first) = classic(3);
    let (_, second) = classic(3);
    assert_eq!(
        first.tree.solution(first.goal.unwrap()),
        second.tree.solution(second.goal.unwrap())
    );
    assert_eq!(first.expanded, second.expanded);
    assert_eq!(first.goal, second.goal);
    assert_eq!(first.tree.nodes.len(), second.tree.nodes.len());
    assert_eq!(first.pending.len(), second.pending.len());
    assert_eq!(first.best.len(), second.best.len());
    for (a, b) in first.best.iter().zip(second.best.iter()) {
        assert_eq!((a.node, a.cost), (b.node, b.cost));
    }
}

#[test]
fn no_configuration_is_expanded_twice() {
    let (_, outcome) = classic(3);
    let e = &outcome.expanded;
    assert!(!e.is_empty());
    for a in 0..e.len() {
        for b in (a + 1)..e.len() {
            assert!(!outcome.tree.nodes[e[a]].state.same_as(&outcome.tree.nodes[e[b]].state));
        }
    }
}

#[test]
fn cost_never_drops_along_the_path() {
    let (_, outcome) = classic(3);
    let path = outcome.tree.path(outcome.goal.unwrap());
    assert_eq!(path.len(), 8);
    assert_eq!(path[0], 0);
    assert_eq!(*path.last().unwrap(), outcome.goal.unwrap());
    for k in 1..path.len() {
        let before = &outcome.tree.nodes[path[k - 1]];
        let after = &outcome.tree.nodes[path[k]];
        assert!(before.path_cost() <= after.path_cost());
        assert_eq!(after.parent(), Some(path[k - 1]));
        assert_eq!(after.depth, before.depth + 1);
    }
    let costs: Vec<u64> = path.iter().map(|&i| outcome.tree.nodes[i].path_cost).collect();
    assert_eq!(costs, vec![0, 1, 2, 3, 4, 5, 6, 7]);
}

#[test]
fn an_unreachable_goal_gives_no_result() {
    let problem = HanoiProblem {
        initial: States::new(vec![2, 1], vec![], vec![], 0),
        goal: Some(States::new(vec![], vec![], vec![3, 2, 1], 0)),
    };
    let outcome = a_star_search(&problem, root_of(States::new(vec![2, 1], vec![], vec![], 0)));
    assert!(outcome.goal.is_none());
    assert_eq!(outcome.expanded.len(), 9);
}

#[test]
fn no_goal_gives_no_result() {
    let problem = HanoiProblem { initial: States::new(vec![1], vec![], vec![], 0), goal: None };
    let outcome = a_star_search(&problem, root_of(States::new(vec![1], vec![], vec![], 0)));
    assert!(outcome.goal.is_none());
    assert_eq!(outcome.expanded.len(), 3);
}

#[test]
fn a_root_that_is_the_goal_needs_no_move() {
    let problem = HanoiProblem {
        initial: States::new(vec![2, 1], vec![], vec![], 0),
        goal: Some(States::new(vec![2, 1], vec![], vec![], 0)),
    };
    let outcome = a_star_search(&problem, root_of(States::new(vec![2, 1], vec![], vec![], 0)));
    assert_eq!(outcome.goal, Some(0));
    assert_eq!(outcome.tree.solution(0), vec![]);
    assert_eq!(outcome.tree.path(0), vec![0]);
    assert!(outcome.expanded.is_empty());
}

#[test]
fn expand_builds_one_child_per_action() {
    let problem = HanoiProblem { initial: States::new(vec![2, 1], vec![], vec![], 0), goal: None };
    let tree = SearchTree::new(NodeHanoi {
        state: States::new(vec![2, 1], vec![], vec![], 0),
        parent: None,
        action: None,
        path_cost: 5,
        depth: 0,
    });
    let children = tree.expand(0, &problem);
    assert_eq!(children.len(), 2);
    assert_eq!(children[0].action(), Some(mv(0, 1)));
    assert_eq!(children[1].action(), Some(mv(0, 2)));
    assert_eq!(children[0].state().rods, vec![vec![2], vec![1], vec![]]);
    assert_eq!(children[1].state().rods, vec![vec![2], vec![], vec![1]]);
    for c in &children {
        assert_eq!(c.parent(), Some(0));
        assert_eq!(c.depth, 1);
        assert_eq!(c.path_cost(), 6);
    }
    assert_eq!(tree.nodes.len(), 1);
}

#[test]
fn child_node_steps_once() {
    let problem = HanoiProblem { initial: States::new(vec![1], vec![], vec![], 0), goal: None };
    let root = root_of(States::new(vec![1], vec![], vec![], 0));
    let child = root.child_node(3, &problem, mv(0, 2));
    assert_eq!(child.parent, Some(3));
    assert_eq!(child.action, Some(mv(0, 2)));
    assert_eq!(child.state.rods, vec![vec![], vec![], vec![1]]);
    assert_eq!(child.path_cost, 1);
    assert_eq!(child.depth, 1);
}

#[test]
fn path_and_solution_follow_the_parents() {
    let s = || States::new(vec![], vec![], vec![], 0);
    let tree = SearchTree {
        nodes: vec![
            NodeHanoi { state: s(), parent: None, action: None, path_cost: 0, depth: 0 },
            NodeHanoi { state: s(), parent: Some(0), action: Some(mv(0, 1)), path_cost: 1, depth: 1 },
            NodeHanoi { state: s(), parent: Some(0), action: Some(mv(0, 2)), path_cost: 1, depth: 1 },
            NodeHanoi { state: s(), parent: Some(2), action: Some(mv(2, 1)), path_cost: 2, depth: 2 },
        ],
    };
    assert_eq!(tree.path(3), vec![0, 2, 3]);
    assert_eq!(tree.solution(3), vec![mv(0, 2), mv(2, 1)]);
    assert_eq!(tree.path(1), vec![0, 1]);
    assert_eq!(tree.solution(1), vec![mv(0, 1)]);
    assert_eq!(tree.path(0), vec![0]);
    assert_eq!(tree.solution(0), vec![]);
    assert_eq!(tree.path(9), vec![]);
    assert_eq!(tree.solution(9), vec![]);
    assert_eq!(reversed(&vec![1, 2, 3]), vec![3, 2, 1]);
}

#[test]
fn the_frontier_hands_out_the_cheapest_and_the_oldest_among_equals() {
    let open = vec![
        PriorityNode { node: 4, f_score: 7 },
        PriorityNode { node: 5, f_score: 3 },
        PriorityNode { node: 6, f_score: 9 },
        PriorityNode { node: 7, f_score: 3 },
    ];
    assert_eq!(cheapest(&open), 1);
    assert_eq!(cheapest(&vec![PriorityNode { node: 0, f_score: 2 }]), 0);
}

#[test]
fn lookups_go_by_configuration() {
    let nodes = vec![
        root_of(States::new(vec![2, 1], vec![], vec![], 0)),
        root_of(States::new(vec![2], vec![1], vec![], 0)),
        root_of(States::new(vec![2], vec![], vec![1], 0)),
    ];
    let closed = vec![0, 2];
    assert!(closed_has(&nodes, &closed, &States::new(vec![2], vec![], vec![1], 8)));
    assert!(!closed_has(&nodes, &closed, &States::new(vec![2], vec![1], vec![], 0)));
    let best = vec![BestCost { node: 1, cost: 4 }, BestCost { node: 2, cost: 6 }];
    assert_eq!(best_entry(&nodes, &best, &States::new(vec![2], vec![], vec![1], 0)), Some(1));
    assert_eq!(best_entry(&nodes, &best, &States::new(vec![2, 1], vec![], vec![], 0)), None);
}

#[test]
fn solve_gives_a_shortest_plan_or_none() {
    let problem = HanoiProblem {
        initial: States::new(tower(3), vec![], vec![], 0),
        goal: Some(States::new(vec![], vec![], tower(3), 0)),
    };
    assert_eq!(
        problem.solve().unwrap(),
        vec![mv(0, 2), mv(0, 1), mv(2, 1), mv(0, 2), mv(1, 0), mv(1, 2), mv(0, 2)]
    );
    let stuck = HanoiProblem {
        initial: States::new(vec![2, 1], vec![], vec![], 0),
        goal: Some(States::new(vec![], vec![], vec![3], 0)),
    };
    assert_eq!(stuck.solve(), None);
    let done = HanoiProblem {
        initial: States::new(vec![2, 1], vec![], vec![], 0),
        goal: Some(States::new(vec![2, 1], vec![], vec![], 5)),
    };
    assert_eq!(done.solve(), Some(vec![]));
}

#[test]
fn a_later_node_of_one_configuration_costs_less() {
    let (_, outcome) = classic(3);
    let nodes = &outcome.tree.nodes;
    for i in 0..nodes.len() {
        assert!(nodes[i].depth <= i);
        for j in (i + 1)..nodes.len() {
            if nodes[i].state.same_as(&nodes[j].state) {
                assert!(nodes[j].path_cost < nodes[i].path_cost);
            }
        }
    }
    let goal = outcome.goal.unwrap();
    for entry in &outcome.pending {
        assert_eq!(entry.f_score, nodes[entry.node].path_cost);
        assert!(nodes[goal].path_cost <= entry.f_score);
    }
    let e = &outcome.expanded;
    for k in 1..e.len() {
        assert!(nodes[e[k - 1]].path_cost <= nodes[e[k]].path_cost);
    }
}
