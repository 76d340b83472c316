use sorting_game::game::stack::kind::Kind;
use sorting_game::game::stack::Stack;

#[test]
fn stack_new_holds_its_parts() {
    let stack = Stack::new(5, 3, vec![Kind::new(5, 3)]);
    assert_eq!(stack.get_capacity(), 5);
    assert_eq!(stack.get_occupancy(), 3);
    assert_eq!(stack.get_vacancy(), 2);
    assert_eq!(stack.get_top_unit_id(), 5);
    assert_eq!(stack.get_top_unit_quantity(), 3);
    assert_eq!(stack.clone_top_unit(), Kind::new(5, 3));
    assert!(!stack.is_vacant());
}

#[test]
fn stack_from_row_compresses_runs() {
    let stack = Stack::new_from_vec(vec![4, 4, 3, 3, 5]);
    assert_eq!(stack.get_capacity(), 5);
    assert_eq!(stack.get_occupancy(), 5);
    assert_eq!(stack.get_vacancy(), 0);
    assert_eq!(stack.clone_top_unit(), Kind::new(5, 1));
    assert_eq!(stack.iter_unit_ids(), vec![4, 4, 3, 3, 5]);
}

#[test]
fn stack_from_row_skips_free_slots() {
    let stack = Stack::new_from_vec(vec![2, 1, 0]);
    assert_eq!(stack.get_capacity(), 3);
    assert_eq!(stack.get_occupancy(), 2);
    assert_eq!(stack.get_vacancy(), 1);
    assert_eq!(stack.clone_top_unit(), Kind::new(1, 1));
    assert_eq!(stack.iter_unit_ids(), vec![2, 1]);
}

#[test]
fn stack_from_row_merges_equal_neighbours_at_the_end() {
    let mut stack = Stack::new_from_vec(vec![5, 5]);
    assert_eq!(stack.get_occupancy(), 2);
    assert_eq!(stack.pop_residents(), Kind::new(5, 2));
    assert!(stack.is_vacant());
}

#[test]
fn stack_from_row_merges_across_a_free_slot() {
    let mut stack = Stack::new_from_vec(vec![1, 0, 1]);
    assert_eq!(stack.get_capacity(), 3);
    assert_eq!(stack.get_occupancy(), 2);
    assert_eq!(stack.pop_residents(), Kind::new(1, 2));
    assert_eq!(stack.get_occupancy(), 0);
}

#[test]
fn stack_from_empty_row_is_empty() {
    let stack = Stack::new_from_vec(vec![0, 0, 0, 0, 0]);
    assert_eq!(stack.get_capacity(), 5);
    assert_eq!(stack.get_occupancy(), 0);
    assert!(stack.is_vacant());
    assert_eq!(stack.get_top_unit_id(), 0);
    assert_eq!(stack.get_top_unit_quantity(), 0);
    assert_eq!(stack.clone_top_unit(), Kind::new_empty());
    assert_eq!(stack.iter_unit_ids(), Vec::<usize>::new());
    let none = Stack::new_from_vec(Vec::new());
    assert_eq!(none.get_capacity(), 0);
    assert_eq!(none.get_vacancy(), 0);
}

#[test]
fn stack_pop_without_limit_takes_whole_top_run() {
    let mut stack = Stack::new_from_vec(vec![7, 3, 3, 3, 0]);
    let taken = stack.pop_residents_with_limit(None);
    assert_eq!(taken, Kind::new(3, 3));
    assert_eq!(stack.get_occupancy(), 1);
    assert_eq!(stack.get_vacancy(), 4);
    assert_eq!(stack.clone_top_unit(), Kind::new(7, 1));
}

#[test]
fn stack_pop_below_limit_splits_top_run() {
    let mut stack = Stack::new_from_vec(vec![7, 3, 3, 3, 0]);
    let taken = stack.pop_residents_with_limit(Some(2));
    assert_eq!(taken, Kind::new(3, 2));
    assert_eq!(stack.get_occupancy(), 2);
    assert_eq!(stack.clone_top_unit(), Kind::new(3, 1));
    assert_eq!(stack.iter_unit_ids(), vec![7, 3]);
}

#[test]
fn stack_pop_at_limit_takes_whole_top_run() {
    let mut stack = Stack::new_from_vec(vec![7, 3, 3, 3, 0]);
    assert_eq!(stack.pop_residents_with_limit(Some(3)), Kind::new(3, 3));
    assert_eq!(stack.iter_unit_ids(), vec![7]);
}

#[test]
fn stack_pop_above_limit_takes_whole_top_run() {
    let mut stack = Stack::new_from_vec(vec![7, 3, 3, 3, 0]);
    assert_eq!(stack.pop_residents_with_limit(Some(9)), Kind::new(3, 3));
    assert_eq!(stack.get_occupancy(), 1);
}

#[test]
fn stack_pop_of_no_units_changes_nothing() {
    let mut stack = Stack::new_from_vec(vec![7, 3, 3, 3, 0]);
    assert_eq!(stack.pop_residents_with_limit(Some(0)), Kind::new(3, 0));
    assert_eq!(stack.get_occupancy(), 4);
    assert_eq!(stack.iter_unit_ids(), vec![7, 3, 3, 3]);
}

#[test]
fn stack_pop_from_empty_stack_gives_empty_kind() {
    let mut stack = Stack::new_from_vec(vec![0, 0]);
    assert_eq!(stack.pop_residents(), Kind::new_empty());
    assert_eq!(stack.pop_residents_with_limit(Some(1)), Kind::new_empty());
    assert_eq!(stack.get_occupancy(), 0);
    assert_eq!(stack.get_capacity(), 2);
}

#[test]
fn stack_push_merges_into_equal_top() {
    let mut stack = Stack::new(5, 3, vec![Kind::new(5, 3)]);
    stack.push_immigrants(Kind::new(5, 2));
    assert_eq!(stack.get_occupancy(), 5);
    assert_eq!(stack.get_vacancy(), 0);
    assert_eq!(stack.clone_top_unit(), Kind::new(5, 5));
    assert_eq!(stack.pop_residents(), Kind::new(5, 5));
    assert!(stack.is_vacant());
}

#[test]
fn stack_push_appends_other_kind() {
    let mut stack = Stack::new(5, 3, vec![Kind::new(5, 3)]);
    stack.push_immigrants(Kind::new(4, 2));
    assert_eq!(stack.get_occupancy(), 5);
    assert_eq!(stack.iter_unit_ids(), vec![5, 5, 5, 4, 4]);
    assert_eq!(stack.pop_residents(), Kind::new(4, 2));
    assert_eq!(stack.pop_residents(), Kind::new(5, 3));
}

#[test]
fn stack_push_onto_empty_stack_starts_a_run() {
    let mut stack = Stack::new_from_vec(vec![0, 0, 0]);
    stack.push_immigrants(Kind::new(3, 2));
    assert_eq!(stack.get_occupancy(), 2);
    assert_eq!(stack.clone_top_unit(), Kind::new(3, 2));
}

#[test]
fn stack_push_of_nothing_changes_nothing() {
    let mut stack = Stack::new_from_vec(vec![6, 0, 0]);
    stack.push_immigrants(Kind::new_empty());
    stack.push_immigrants(Kind::new(4, 0));
    stack.push_immigrants(Kind::new(0, 2));
    assert_eq!(stack.get_occupancy(), 1);
    assert_eq!(stack.iter_unit_ids(), vec![6]);
    assert_eq!(stack.clone_top_unit(), Kind::new(6, 1));
}

#[test]
fn stack_occupancy_is_sum_of_runs() {
    let mut stack = Stack::new_from_vec(vec![1, 1, 2, 0, 0, 0]);
    stack.push_immigrants(Kind::new(2, 2));
    stack.push_immigrants(Kind::new(9, 1));
    assert_eq!(stack.get_occupancy(), 6);
    assert_eq!(stack.iter_unit_ids().len(), 6);
    assert_eq!(stack.iter_unit_ids(), vec![1, 1, 2, 2, 2, 9]);
    assert_eq!(stack.pop_residents_with_limit(Some(1)), Kind::new(9, 1));
    assert_eq!(stack.pop_residents_with_limit(Some(1)), Kind::new(2, 1));
    assert_eq!(stack.get_occupancy(), 4);
    assert_eq!(stack.iter_unit_ids(), vec![1, 1, 2, 2]);
}

#[test]
fn stack_clone_shares_nothing() {
    let mut stack = Stack::new_from_vec(vec![8, 8, 4, 0]);
    let copy = stack.clone();
    stack.pop_residents();
    stack.push_immigrants(Kind::new(8, 1));
    assert_eq!(stack.iter_unit_ids(), vec![8, 8, 8]);
    assert_eq!(copy.iter_unit_ids(), vec![8, 8, 4]);
    assert_eq!(copy.get_capacity(), 4);
    assert_eq!(copy.get_occupancy(), 3);
}

#[test]
fn stack_iter_unit_ids_can_be_read_again() {
    let stack = Stack::new_from_vec(vec![2, 2, 5]);
    assert_eq!(stack.iter_unit_ids(), stack.iter_unit_ids());
}

#[test]
fn stack_pop_immigrants_moves_top_run_to_other_stack() {
    let mut from = Stack::new_from_vec(vec![7, 3, 3, 0]);
    let mut onto = Stack::new_from_vec(vec![3, 0, 0, 0]);
    from.pop_immigrants(&mut onto);
    assert_eq!(from.iter_unit_ids(), vec![7]);
    assert_eq!(onto.iter_unit_ids(), vec![3, 3, 3]);
    assert_eq!(onto.clone_top_unit(), Kind::new(3, 3));
    from.pop_immigrants(&mut onto);
    assert_eq!(from.get_occupancy(), 0);
    assert_eq!(onto.iter_unit_ids(), vec![3, 3, 3, 7]);
    from.pop_immigrants(&mut onto);
    assert_eq!(onto.get_occupancy(), 4);
}

#[test]
fn stack_keeps_adjacent_runs_of_different_kinds() {
    let mut stack = Stack::new_from_vec(vec![1, 2, 2, 1, 1, 0, 0, 0]);
    stack.push_immigrants(Kind::new(1, 1));
    stack.push_immigrants(Kind::new(2, 1));
    stack.push_immigrants(Kind::new(2, 1));
    let mut runs: Vec<Kind> = Vec::new();
    while !stack.is_vacant() {
        runs.push(stack.pop_residents());
    }
    assert_eq!(
        runs,
        vec![Kind::new(2, 2), Kind::new(1, 3), Kind::new(2, 2), Kind::new(1, 1)]
    );
    for pair in runs.windows(2) {
        assert_ne!(pair[0].get_id(), pair[1].get_id());
    }
}
