use sorting_game::game::Game;

#[test]
fn test_get_stages() {
    let stages: Vec<Game> = Game::get_stages();
    let last_stage_index: usize = stages.len() - 1;

    assert!(last_stage_index > 0);
    let mut last_stage = stages[last_stage_index].clone();
    let _ = last_stage.move_legally(0, 1);
}

#[test]
fn stages_are_fresh_and_named() {
    let stages = Game::get_stages();
    assert_eq!(stages.len(), 3);
    let names: Vec<&str> = stages.iter().map(|stage| stage.get_stage_name().as_str()).collect();
    assert_eq!(names, vec!["Stage - 1", "Stage - 2", "Stage - 3"]);
    let counts: Vec<usize> = stages.iter().map(|stage| stage.get_stacks().len()).collect();
    assert_eq!(counts, vec![3, 14, 13]);
    for stage in &stages {
        assert_eq!(stage.get_turn(), 1);
        assert_eq!(stage.get_kinds_status(), 0);
        assert!(stage.get_ledger().is_empty());
        assert!(!stage.stage_complete());
    }
}

#[test]
fn first_stage_layout() {
    let stages = Game::get_stages();
    let stacks = stages[0].get_stacks();
    assert_eq!(stacks[0].iter_unit_ids(), vec![2, 1]);
    assert_eq!(stacks[1].iter_unit_ids(), vec![1, 2]);
    assert_eq!(stacks[2].iter_unit_ids(), vec![2]);
    assert_eq!(stacks[0].get_capacity(), 3);
    assert_eq!(stacks[1].get_capacity(), 2);
    assert_eq!(stacks[2].get_capacity(), 2);
}

#[test]
fn large_layouts_hold_ten_kinds_of_five_units() {
    for game in [Game::game_0(), Game::game_9()] {
        for id in 1..=10usize {
            assert_eq!(game.get_total_quantity(id), 5);
            assert_eq!(game.get_kind_index(id), id - 1);
        }
        assert_eq!(game.get_stage_name(), "");
    }
    assert_eq!(Game::game_0().get_stacks().len(), 14);
    assert_eq!(Game::game_9().get_stacks().len(), 13);
    assert_eq!(Game::game_0().get_stacks()[1].iter_unit_ids(), vec![5, 5, 3, 3, 4]);
    assert_eq!(Game::game_9().get_stacks()[8].iter_unit_ids(), vec![5, 8, 6]);
}

#[test]
fn vecs_to_stacks_makes_one_stack_per_row() {
    let stacks = Game::vecs_to_stacks(vec![vec![1, 1, 0], vec![], vec![3]]);
    assert_eq!(stacks.len(), 3);
    assert_eq!(stacks[0].get_capacity(), 3);
    assert_eq!(stacks[0].get_occupancy(), 2);
    assert_eq!(stacks[1].get_capacity(), 0);
    assert_eq!(stacks[2].iter_unit_ids(), vec![3]);
}
