use nim_solver::solution::{Conclusion, SolutionMap};
use nim_solver::state::{index_of_state, parity_ones, state_at_index, State, STATE_COUNT};

fn solved() -> SolutionMap {
    let mut sols = SolutionMap::new();
    sols.solve();
    sols
}

#[test]
fn new_table_is_unknown_but_zero() {
    let sols = SolutionMap::new();
    assert!(sols.is_losing(State(0, 0, 0, 0)));
    assert!(!sols.is_winning(State(0, 0, 0, 0)));
    assert_eq!(sols.conclusion(State(1, 3, 5, 7)), Conclusion::Unknown);
    assert_eq!(sols.unsolved().len(), STATE_COUNT - 1);
    assert!(sols.find_winning_states().is_empty());
    assert!(!sols.is_solved());
}

#[test]
fn mark_overwrites_one_entry() {
    let mut sols = SolutionMap::new();
    sols.mark(State(0, 0, 0, 1), Conclusion::Winning);
    assert!(sols.is_winning(State(0, 0, 0, 1)));
    assert_eq!(sols.conclusion(State(0, 0, 0, 2)), Conclusion::Unknown);
    assert_eq!(sols.find_winning_states(), vec![State(0, 0, 0, 1)]);
    assert_eq!(sols.unsolved().len(), STATE_COUNT - 2);
}

#[test]
fn every_state_solved() {
    let sols = solved();
    assert!(sols.is_solved());
    assert!(sols.unsolved().is_empty());
    for s in sols.all_states() {
        assert_ne!(sols.conclusion(s), Conclusion::Unknown);
    }
}

#[test]
fn zero_state_is_losing() {
    let sols = solved();
    assert!(sols.is_losing(State(0, 0, 0, 0)));
}

#[test]
fn class_follows_children() {
    let sols = solved();
    for s in sols.all_states() {
        if s == State(0, 0, 0, 0) {
            continue;
        }
        let kids = sols.children_of(s);
        let all_losing = kids.iter().all(|c| sols.is_losing(*c));
        let some_winning = kids.iter().any(|c| sols.is_winning(*c));
        assert_eq!(sols.is_winning(s), all_losing);
        assert_eq!(sols.is_losing(s), some_winning);
        assert_ne!(sols.is_winning(s), sols.is_losing(s));
    }
}

#[test]
fn children_and_parents_are_inverse() {
    let sols = SolutionMap::new();
    let all = sols.all_states();
    for p in all.iter() {
        let kids = sols.children_of(*p);
        for c in all.iter() {
            let ups = sols.parents_of(*c);
            assert_eq!(kids.contains(c), ups.contains(p));
        }
    }
}

#[test]
fn no_state_is_its_own_ancestor() {
    let sols = SolutionMap::new();
    for s in sols.all_states() {
        let mut frontier = sols.children_of(s);
        while let Some(c) = frontier.pop() {
            assert_ne!(c, s);
            assert!(index_of_state(c) < index_of_state(s));
            frontier.extend(sols.children_of(c));
            frontier.sort();
            frontier.dedup();
        }
    }
}

#[test]
fn solving_again_changes_nothing() {
    let mut sols = solved();
    let before: Vec<Conclusion> = sols.all_states().iter().map(|s| sols.conclusion(*s)).collect();
    sols.solve();
    sols.solve_round();
    let after: Vec<Conclusion> = sols.all_states().iter().map(|s| sols.conclusion(*s)).collect();
    assert_eq!(before, after);
}

#[test]
fn single_object_on_last_heap_is_winning() {
    let sols = solved();
    assert_eq!(sols.children_of(State(0, 0, 0, 1)), vec![State(0, 0, 0, 0)]);
    assert!(sols.is_winning(State(0, 0, 0, 1)));
}

#[test]
fn single_object_on_first_heap_is_winning() {
    let sols = solved();
    assert_eq!(sols.children_of(State(1, 0, 0, 0)), vec![State(0, 0, 0, 0)]);
    assert!(sols.is_winning(State(1, 0, 0, 0)));
}

#[test]
fn two_single_heaps_are_losing() {
    let sols = solved();
    assert_eq!(
        sols.children_of(State(1, 1, 0, 0)),
        vec![State(0, 1, 0, 0), State(1, 0, 0, 0)]
    );
    assert!(sols.is_winning(State(0, 1, 0, 0)));
    assert!(sols.is_winning(State(1, 0, 0, 0)));
    assert!(sols.is_losing(State(1, 1, 0, 0)));
}

#[test]
fn more_than_one_object_on_one_heap_is_losing() {
    let sols = solved();
    assert!(sols.is_losing(State(0, 0, 0, 2)));
    assert!(sols.is_losing(State(0, 0, 0, 7)));
    assert!(sols.is_losing(State(0, 0, 1, 1)));
}

#[test]
fn solved_state_count() {
    let sols = solved();
    let all = sols.all_states();
    assert_eq!(all.len(), 2 * 4 * 6 * 8);
    let winning = sols.find_winning_states().len();
    let losing = all.iter().filter(|s| sols.is_losing(**s)).count();
    assert_eq!(winning + losing, 384);
}

#[test]
fn parents_of_zero_and_top() {
    let sols = SolutionMap::new();
    assert_eq!(sols.parents_of(State(0, 0, 0, 0)).len(), 1 + 3 + 5 + 7);
    assert!(sols.parents_of(State(1, 3, 5, 7)).is_empty());
    assert!(sols.children_of(State(0, 0, 0, 0)).is_empty());
    assert_eq!(sols.children_of(State(1, 3, 5, 7)).len(), 1 + 3 + 5 + 7);
}

#[test]
fn child_relation() {
    assert!(State(0, 2, 3, 4).is_child_of(State(1, 2, 3, 4)));
    assert!(State(1, 2, 3, 0).is_child_of(State(1, 2, 3, 4)));
    assert!(!State(1, 2, 3, 4).is_child_of(State(1, 2, 3, 4)));
    assert!(!State(0, 1, 3, 4).is_child_of(State(1, 2, 3, 4)));
    assert!(!State(1, 2, 3, 4).is_child_of(State(0, 2, 3, 4)));
}

#[test]
fn parity_values() {
    assert_eq!(State(0, 0, 0, 0).parity(), 0);
    assert_eq!(State(1, 3, 5, 7).parity(), 0);
    assert_eq!(State(1, 2, 3, 4).parity(), 1);
    assert_eq!(State(0, 3, 0, 0).parity(), 2);
    assert_eq!(State(0, 3, 4, 0).parity(), 3);
}

#[test]
fn parity_ones_values() {
    assert_eq!(parity_ones(&[]), 0);
    assert_eq!(parity_ones(&[1, 1, 1]), 1);
    assert_eq!(parity_ones(&[2, 4]), 0);
    assert_eq!(parity_ones(&[3, 5]), 0);
    assert_eq!(parity_ones(&[7]), 1);
}

#[test]
fn index_round_trip() {
    assert_eq!(state_at_index(0), State(0, 0, 0, 0));
    assert_eq!(state_at_index(1), State(0, 0, 0, 1));
    assert_eq!(state_at_index(383), State(1, 3, 5, 7));
    for i in 0..STATE_COUNT {
        assert_eq!(index_of_state(state_at_index(i)), i);
    }
}
