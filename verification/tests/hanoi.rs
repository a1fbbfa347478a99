use hanoi_astar::actions::{Action, ACTIONS};
use hanoi_astar::hanoi::HanoiProblem;
use hanoi_astar::problem::{add_cost, goal_test_by_equality, unit_path_cost, DomainState, Problem};
use hanoi_astar::states::{
    copy_rod, has_no_duplicates, is_descending, same_rod, MoveError, States,
};

fn mv(from: usize, to: usize) -> Action {
    Action { rod_input: from, rod_output: to, action: ACTIONS::Move }
}

#[test]
fn new_keeps_pegs_and_cost() {
    let s = States::new(vec![3, 2, 1], vec![], vec![7], 4);
    assert_eq!(s.rods, vec![vec![3, 2, 1], vec![], vec![7]]);
    assert_eq!(s.get_acc_cost(), 4);
}

#[test]
fn new_accepts_a_single_disk() {
    let s = States::new(vec![1], vec![], vec![], 0);
    assert!(s.check_sortness());
    assert!(s.check_uniqueness());
}

#[test]
fn uniqueness_sees_a_disk_on_two_pegs() {
    let s = States { rods: vec![vec![3, 1], vec![2], vec![1]], acc_cost: 0 };
    assert!(!s.check_uniqueness());
    let t = States { rods: vec![vec![3, 1], vec![2], vec![]], acc_cost: 0 };
    assert!(t.check_uniqueness());
}

#[test]
fn sortness_wants_every_peg_descending() {
    let good = States { rods: vec![vec![5, 4, 1], vec![3, 2], vec![]], acc_cost: 0 };
    assert!(good.check_sortness());
    let rising = States { rods: vec![vec![1, 2], vec![], vec![]], acc_cost: 0 };
    assert!(!rising.check_sortness());
    let mixed = States { rods: vec![vec![], vec![3, 1, 2], vec![]], acc_cost: 0 };
    assert!(!mixed.check_sortness());
    let equal = States { rods: vec![vec![], vec![], vec![2, 2]], acc_cost: 0 };
    assert!(!equal.check_sortness());
}

#[test]
fn rod_helpers() {
    assert!(is_descending(&vec![]));
    assert!(is_descending(&vec![9]));
    assert!(is_descending(&vec![9, 4, 2]));
    assert!(!is_descending(&vec![9, 4, 4]));
    assert!(has_no_duplicates(&vec![1, 2, 3]));
    assert!(!has_no_duplicates(&vec![1, 2, 1]));
    assert_eq!(copy_rod(&vec![4, 3]), vec![4, 3]);
    assert!(same_rod(&vec![4, 3], &vec![4, 3]));
    assert!(!same_rod(&vec![4, 3], &vec![4]));
    assert!(!same_rod(&vec![4, 3], &vec![4, 2]));
}

#[test]
fn top_disk_of_each_peg() {
    let s = States::new(vec![3, 2], vec![], vec![1], 0);
    assert_eq!(s.get_last_disk_rod(0), Some(2));
    assert_eq!(s.get_last_disk_rod(1), None);
    assert_eq!(s.get_last_disk_rod(2), Some(1));
}

#[test]
fn a_disk_fits_on_an_empty_peg_or_a_larger_top() {
    let s = States::new(vec![3, 2], vec![], vec![1], 0);
    assert!(s.check_valid_disk_in_rod(1, 9));
    assert!(s.check_valid_disk_in_rod(0, 1));
    assert!(!s.check_valid_disk_in_rod(2, 2));
    assert!(!s.check_valid_disk_in_rod(0, 2));
}

#[test]
fn put_and_pop() {
    let mut s = States::new(vec![3], vec![], vec![], 5);
    assert_eq!(s.put_disk_in_rod(0, 2), Ok(()));
    assert_eq!(s.rods, vec![vec![3, 2], vec![], vec![]]);
    assert_eq!(s.put_disk_in_rod(0, 4), Err(MoveError::DestinationTooSmall));
    assert_eq!(s.put_disk_in_rod(0, 2), Err(MoveError::DestinationTooSmall));
    assert_eq!(s.put_disk_in_rod(3, 1), Err(MoveError::InvalidPegIndex));
    assert_eq!(s.rods, vec![vec![3, 2], vec![], vec![]]);
    assert_eq!(s.pop_disk_from_rod(0), Some(2));
    assert_eq!(s.rods, vec![vec![3], vec![], vec![]]);
    assert_eq!(s.pop_disk_from_rod(1), None);
    assert_eq!(s.rods, vec![vec![3], vec![], vec![]]);
    assert_eq!(s.get_acc_cost(), 5);
}

#[test]
fn cost_accumulates_and_holds_at_the_maximum() {
    let mut s = States::new(vec![], vec![], vec![], 1);
    s.accumulate_cost(2);
    assert_eq!(s.get_acc_cost(), 3);
    s.accumulate_cost(u64::MAX);
    assert_eq!(s.get_acc_cost(), u64::MAX);
    assert_eq!(add_cost(2, 3), 5);
    assert_eq!(add_cost(u64::MAX - 1, 1), u64::MAX);
    assert_eq!(add_cost(u64::MAX, 1), u64::MAX);
    assert_eq!(unit_path_cost(0), 1);
    assert_eq!(unit_path_cost(41), 42);
    assert_eq!(unit_path_cost(u64::MAX), u64::MAX);
}

#[test]
fn same_configuration_ignores_cost() {
    let a = States::new(vec![2, 1], vec![], vec![], 0);
    let b = States::new(vec![2, 1], vec![], vec![], 9);
    let c = States::new(vec![2], vec![1], vec![], 0);
    assert!(a.same_as(&b));
    assert!(!a.same_as(&c));
    let d = a.duplicate();
    assert_eq!(d.rods, a.rods);
    assert_eq!(d.acc_cost, a.acc_cost);
}

#[test]
fn apply_moves_the_top_disk_and_charges_one() {
    let s = States::new(vec![3, 2, 1], vec![], vec![], 4);
    let next = mv(0, 2).apply_action(&s).unwrap();
    assert_eq!(next.rods, vec![vec![3, 2], vec![], vec![1]]);
    assert_eq!(next.get_acc_cost(), 5);
    assert_eq!(s.rods, vec![vec![3, 2, 1], vec![], vec![]]);
}

#[test]
fn apply_says_why_a_move_fails() {
    let s = States::new(vec![3, 2], vec![], vec![1], 0);
    assert_eq!(mv(1, 0).apply_action(&s).unwrap_err(), MoveError::EmptySourcePeg);
    assert_eq!(mv(0, 2).apply_action(&s).unwrap_err(), MoveError::DestinationTooSmall);
}

#[test]
fn apply_reports_a_peg_index_out_of_range_before_anything_else() {
    let s = States::new(vec![3, 2], vec![], vec![1], 0);
    assert_eq!(mv(3, 0).apply_action(&s).unwrap_err(), MoveError::InvalidPegIndex);
    assert_eq!(mv(5, 1).apply_action(&s).unwrap_err(), MoveError::InvalidPegIndex);
    assert_eq!(mv(0, 3).apply_action(&s).unwrap_err(), MoveError::InvalidPegIndex);
    assert_eq!(mv(1, 3).apply_action(&s).unwrap_err(), MoveError::InvalidPegIndex);
    assert_eq!(mv(2, 7).apply_action(&s).unwrap_err(), MoveError::InvalidPegIndex);
    assert_eq!(mv(7, 9).apply_action(&s).unwrap_err(), MoveError::InvalidPegIndex);
    assert_eq!(s.rods, vec![vec![3, 2], vec![], vec![1]]);
}

#[test]
fn apply_onto_the_same_peg_puts_the_disk_back() {
    let s = States::new(vec![3, 2], vec![], vec![], 0);
    let next = mv(0, 0).apply_action(&s).unwrap();
    assert_eq!(next.rods, s.rods);
    assert_eq!(next.get_acc_cost(), 1);
}

#[test]
fn moving_a_disk_back_restores_the_pegs() {
    let s = States::new(vec![4, 3], vec![2], vec![1], 0);
    let problem = HanoiProblem { initial: s.duplicate(), goal: None };
    for a in problem.actions(&s) {
        let there = a.apply_action(&s).unwrap();
        let back = mv(a.rod_output, a.rod_input);
        assert!(problem.actions(&there).contains(&back));
        let again = back.apply_action(&there).unwrap();
        assert_eq!(again.rods, s.rods);
    }
}

#[test]
fn actions_are_the_legal_moves_in_order() {
    let problem = HanoiProblem { initial: States::new(vec![1], vec![], vec![], 0), goal: None };
    let start = States::new(vec![3, 2, 1], vec![], vec![], 0);
    assert_eq!(problem.actions(&start), vec![mv(0, 1), mv(0, 2)]);
    let mid = States::new(vec![3], vec![2], vec![1], 0);
    assert_eq!(problem.actions(&mid), vec![mv(1, 0), mv(2, 0), mv(2, 1)]);
    let none = States::new(vec![], vec![], vec![], 0);
    assert_eq!(problem.actions(&none), vec![]);
}

#[test]
fn result_applies_a_legal_move() {
    let start = States::new(vec![2, 1], vec![], vec![], 0);
    let problem = HanoiProblem { initial: start.duplicate(), goal: None };
    let next = problem.result(&start, &mv(0, 1));
    assert_eq!(next.rods, vec![vec![2], vec![1], vec![]]);
    assert_eq!(next.get_acc_cost(), 1);
}

#[test]
fn goal_test_is_equality_of_pegs() {
    let goal = States::new(vec![], vec![], vec![2, 1], 0);
    let problem = HanoiProblem {
        initial: States::new(vec![2, 1], vec![], vec![], 0),
        goal: Some(goal),
    };
    assert!(problem.goal_test(&States::new(vec![], vec![], vec![2, 1], 0)));
    assert!(problem.goal_test(&States::new(vec![], vec![], vec![2, 1], 17)));
    assert!(!problem.goal_test(&States::new(vec![], vec![2, 1], vec![], 0)));
    assert!(!problem.goal_test(&States::new(vec![], vec![1], vec![2], 0)));
    assert!(!problem.goal_test(&States::new(vec![], vec![], vec![2], 0)));
    assert_eq!(problem.goal_state().unwrap().rods, vec![vec![], vec![], vec![2, 1]]);
    let open = HanoiProblem { initial: States::new(vec![1], vec![], vec![], 0), goal: None };
    assert!(!open.goal_test(&States::new(vec![1], vec![], vec![], 0)));
    assert!(open.goal_state().is_none());
    let one = States::new(vec![1], vec![], vec![], 0);
    assert!(goal_test_by_equality(&Some(one.duplicate()), &one));
    assert!(!goal_test_by_equality(&None, &one));
}

#[test]
fn every_move_costs_one() {
    let problem = HanoiProblem { initial: States::new(vec![1], vec![], vec![], 0), goal: None };
    let next = States::new(vec![], vec![1], vec![], 3);
    assert_eq!(problem.path_cost(4, &next), 5);
    assert_eq!(problem.path_cost(u64::MAX, &next), u64::MAX);
}

#[test]
fn rows_show_the_pegs_from_the_top_down() {
    let s = States::new(vec![5, 4, 1], vec![3], vec![], 0);
    assert_eq!(
        s.pretty_rows(),
        vec![
            vec![Some(1), None, None],
            vec![Some(4), None, None],
            vec![Some(5), Some(3), None],
        ]
    );
    let empty = States::new(vec![], vec![], vec![], 0);
    assert_eq!(empty.pretty_rows().len(), 0);
}

#[test]
fn a_legal_move_keeps_the_state_in_order() {
    let s = States::new(vec![4, 3], vec![2], vec![1], 0);
    let problem = HanoiProblem { initial: s.duplicate(), goal: None };
    for a in problem.actions(&s) {
        let next = problem.result(&s, &a);
        assert!(next.check_sortness());
        assert!(next.check_uniqueness());
    }
}
