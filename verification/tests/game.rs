use sorting_game::game::entry::{Entry, InvalidMove};
use sorting_game::game::stack::kind::Kind;
use sorting_game::game::stack::Stack;
use sorting_game::game::Game;

fn rows(game: &Game) -> Vec<Vec<usize>> {
    game.get_stacks().iter().map(|stack| stack.iter_unit_ids()).collect()
}

fn capacities(game: &Game) -> Vec<usize> {
    game.get_stacks().iter().map(|stack| stack.get_capacity()).collect()
}

fn units_of(game: &Game, id: usize) -> usize {
    rows(game).iter().map(|row| row.iter().filter(|unit| **unit == id).count()).sum()
}

fn small_game() -> Game {
    Game::new_from_vecs(vec![vec![2, 1, 0], vec![1, 2], vec![2, 0]], Some("small".to_string()))
}

#[test]
fn fresh_game_starts_at_turn_one_with_empty_ledger() {
    let game = small_game();
    assert_eq!(game.get_turn(), 1);
    assert_eq!(game.get_kinds_status(), 0);
    assert!(game.get_ledger().is_empty());
    assert_eq!(game.get_stage_name(), "small");
    assert_eq!(rows(&game), vec![vec![2, 1], vec![1, 2], vec![2]]);
    assert_eq!(capacities(&game), vec![3, 2, 2]);
    assert!(!game.stage_complete());
}

#[test]
fn game_without_name_has_empty_name() {
    let game = Game::new_from_vecs(vec![vec![1, 0]], None);
    assert_eq!(game.get_stage_name(), "");
}

#[test]
fn game_counts_units_per_kind() {
    let game = small_game();
    assert_eq!(game.get_total_quantity(1usize), 2);
    assert_eq!(game.get_total_quantity(2usize), 3);
    assert_eq!(game.get_total_quantity(Kind::new(2, 1)), 3);
    assert_eq!(game.get_census(), &vec![Kind::new(1, 2), Kind::new(2, 3)]);
}

#[test]
fn game_indexes_kinds_by_ascending_id() {
    let game = Game::new_from_vecs(
        vec![vec![10, 3, 0], vec![7, 10, 3], vec![3, 0, 0]],
        None,
    );
    assert_eq!(game.get_kind_index(3usize), 0);
    assert_eq!(game.get_kind_index(7usize), 1);
    assert_eq!(game.get_kind_index(10usize), 2);
    assert_eq!(game.get_kind_index(Kind::new(7, 0)), 1);
    assert_eq!(game.get_total_quantity(3usize), 3);
    assert_eq!(game.get_total_quantity(7usize), 1);
    assert_eq!(game.get_total_quantity(10usize), 2);
}

#[test]
fn scenario_same_kind_with_room_is_legal_and_merges() {
    let a = Stack::new(2, 2, vec![Kind::new(5, 2)]);
    let b = Stack::new(5, 3, vec![Kind::new(5, 3)]);
    let mut game = Game::new(vec![a, b], None);
    assert!(game.move_is_legal(0, 1));
    assert!(!game.move_is_illegal(0, 1));
    assert_eq!(game.move_legally(0, 1), Ok(()));
    let stacks = game.get_stacks();
    assert_eq!(stacks[1].iter_unit_ids(), vec![5, 5, 5, 5, 5]);
    assert_eq!(stacks[1].clone_top_unit(), Kind::new(5, 5));
    assert_eq!(stacks[1].get_occupancy(), 5);
    assert_eq!(stacks[0].get_occupancy(), 0);
    assert!(stacks[0].is_vacant());
    assert_eq!(stacks[0].iter_unit_ids(), Vec::<usize>::new());
    assert_eq!(
        game.get_ledger(),
        &vec![Entry { from: 0, to: 1, kind: Kind::new(5, 2), quantity: 2 }]
    );
}

#[test]
fn scenario_empty_destination_accepts_any_kind() {
    for id in [3, 1, 8, 62] {
        let c = Stack::new(2, 0, Vec::new());
        let d = Stack::new(4, 3, vec![Kind::new(id + 1, 1), Kind::new(id, 2)]);
        let mut game = Game::new(vec![c, d], None);
        assert!(game.get_stacks()[0].is_vacant());
        assert_eq!(game.get_stacks()[1].clone_top_unit(), Kind::new(id, 2));
        assert!(game.move_is_legal(1, 0));
        assert!(!game.stack_tops_mismatch(1, 0));
        assert_eq!(game.move_legally(1, 0), Ok(()));
        assert_eq!(game.get_stacks()[0].iter_unit_ids(), vec![id, id]);
    }
}

#[test]
fn empty_destination_needs_room_for_the_run() {
    let c = Stack::new(1, 0, Vec::new());
    let d = Stack::new(4, 3, vec![Kind::new(8, 1), Kind::new(3, 2)]);
    let wide = Stack::new(2, 0, Vec::new());
    let game = Game::new(vec![c, d, wide], None);
    assert!(game.move_requires_more_room(1, 0));
    assert!(!game.move_is_legal(1, 0));
    assert!(game.move_is_legal(1, 2));
}

#[test]
fn scenario_two_complete_kinds_complete_the_stage() {
    let game = Game::new_from_vecs(vec![vec![1, 1, 1], vec![2, 2]], None);
    assert!(game.stage_complete());
    assert_eq!(game.get_kinds_status(), 0b11);
}

#[test]
fn scenario_complete_kinds_reached_by_moves() {
    let mut game = Game::new_from_vecs(vec![vec![1, 0], vec![2, 0], vec![1], vec![2]], None);
    assert!(!game.stage_complete());
    assert_eq!(game.get_kinds_status(), 0);
    assert_eq!(game.move_legally(2, 0), Ok(()));
    assert_eq!(game.get_kinds_status(), 0b01);
    assert!(!game.stage_complete());
    assert_eq!(game.get_turn(), 2);
    assert_eq!(game.move_legally(3, 1), Ok(()));
    assert_eq!(game.get_kinds_status(), 0b11);
    assert!(game.stage_complete());
    assert_eq!(game.get_turn(), 2);
    assert_eq!(rows(&game), vec![vec![1, 1], vec![2, 2], vec![], vec![]]);
}

#[test]
fn scenario_undo_on_fresh_game_changes_nothing() {
    let mut game = small_game();
    game.undo_move();
    assert_eq!(rows(&game), vec![vec![2, 1], vec![1, 2], vec![2]]);
    assert_eq!(capacities(&game), vec![3, 2, 2]);
    assert_eq!(game.get_turn(), 1);
    assert_eq!(game.get_kinds_status(), 0);
    assert!(game.get_ledger().is_empty());
}

#[test]
fn move_onto_same_stack_is_never_legal() {
    let game = small_game();
    for x in 0..3 {
        assert!(!game.move_is_legal(x, x));
        assert!(game.move_is_illegal(x, x));
    }
    for game in Game::get_stages() {
        for x in 0..game.get_stacks().len() {
            assert!(!game.move_is_legal(x, x));
        }
    }
}

#[test]
fn refused_move_same_stack_changes_nothing() {
    let mut game = small_game();
    assert_eq!(game.move_legally(2, 2), Err(InvalidMove::SameStack));
    assert_eq!(rows(&game), vec![vec![2, 1], vec![1, 2], vec![2]]);
    assert_eq!(game.get_turn(), 1);
    assert!(game.get_ledger().is_empty());
}

#[test]
fn refused_move_not_enough_room_changes_nothing() {
    let mut game = small_game();
    assert!(game.move_requires_more_room(2, 1));
    assert_eq!(game.move_legally(2, 1), Err(InvalidMove::NotEnoughRoom));
    assert_eq!(rows(&game), vec![vec![2, 1], vec![1, 2], vec![2]]);
    assert_eq!(game.get_turn(), 1);
    assert_eq!(game.get_kinds_status(), 0);
    assert!(game.get_ledger().is_empty());
}

#[test]
fn refused_move_top_mismatch_changes_nothing() {
    let mut game = small_game();
    assert!(!game.move_requires_more_room(2, 0));
    assert!(game.stack_tops_mismatch(2, 0));
    assert_eq!(game.move_legally(2, 0), Err(InvalidMove::TopMismatch));
    assert_eq!(rows(&game), vec![vec![2, 1], vec![1, 2], vec![2]]);
    assert_eq!(game.get_turn(), 1);
    assert!(game.get_ledger().is_empty());
}

#[test]
fn refusal_names_room_before_mismatch() {
    let game = Game::new_from_vecs(vec![vec![1, 1, 0], vec![2, 0]], None);
    assert!(game.move_requires_more_room(0, 1));
    assert!(game.stack_tops_mismatch(0, 1));
    let mut game = game;
    assert_eq!(game.move_legally(0, 1), Err(InvalidMove::NotEnoughRoom));
}

#[test]
fn legal_move_carries_top_run_and_counts_the_turn() {
    let mut game = small_game();
    assert!(game.move_is_legal(1, 2));
    assert_eq!(game.move_legally(1, 2), Ok(()));
    assert_eq!(rows(&game), vec![vec![2, 1], vec![1], vec![2, 2]]);
    assert_eq!(game.get_turn(), 2);
    assert_eq!(
        game.get_ledger(),
        &vec![Entry { from: 1, to: 2, kind: Kind::new(2, 1), quantity: 1 }]
    );
    assert_eq!(game.get_kinds_status(), 0);
}

#[test]
fn small_stage_can_be_solved() {
    let mut game = small_game();
    assert_eq!(game.move_legally(1, 2), Ok(()));
    assert_eq!(game.move_legally(0, 1), Ok(()));
    assert_eq!(game.get_kinds_status(), 0b01);
    assert_eq!(game.get_turn(), 3);
    assert_eq!(game.move_legally(2, 0), Ok(()));
    assert_eq!(rows(&game), vec![vec![2, 2, 2], vec![1, 1], vec![]]);
    assert_eq!(game.get_kinds_status(), 0b11);
    assert!(game.stage_complete());
    assert_eq!(game.get_turn(), 3);
    assert_eq!(game.get_ledger().len(), 3);
}

#[test]
fn move_then_undo_restores_stacks_and_ledger() {
    let mut game = small_game();
    assert_eq!(game.move_legally(1, 2), Ok(()));
    let before_rows = rows(&game);
    let before_ledger = game.get_ledger().clone();
    let before_mask = game.get_kinds_status();
    let before_turn = game.get_turn();
    assert_eq!(game.move_legally(0, 1), Ok(()));
    assert_eq!(rows(&game), vec![vec![2], vec![1, 1], vec![2, 2]]);
    assert_eq!(game.get_kinds_status(), 0b01);
    game.undo_move();
    assert_eq!(rows(&game), before_rows);
    assert_eq!(game.get_ledger(), &before_ledger);
    assert_eq!(game.get_kinds_status(), before_mask);
    assert_eq!(game.get_turn(), before_turn + 1);
    assert_eq!(capacities(&game), vec![3, 2, 2]);
}

#[test]
fn undo_of_a_merged_run_splits_it_again() {
    let a = Stack::new(2, 2, vec![Kind::new(5, 2)]);
    let b = Stack::new(5, 3, vec![Kind::new(5, 3)]);
    let mut game = Game::new(vec![a, b], None);
    assert_eq!(game.move_legally(0, 1), Ok(()));
    assert!(game.stage_complete());
    assert_eq!(game.get_turn(), 1);
    game.undo_move();
    assert_eq!(rows(&game), vec![vec![5, 5], vec![5, 5, 5]]);
    assert_eq!(game.get_turn(), 1);
    assert_eq!(game.get_kinds_status(), 0);
    assert!(game.get_ledger().is_empty());
    assert!(!game.stage_complete());
}

#[test]
fn undo_takes_moves_back_newest_first() {
    let mut game = small_game();
    assert_eq!(game.move_legally(1, 2), Ok(()));
    assert_eq!(game.move_legally(0, 1), Ok(()));
    assert_eq!(game.move_legally(2, 0), Ok(()));
    game.undo_move();
    assert_eq!(rows(&game), vec![vec![2], vec![1, 1], vec![2, 2]]);
    game.undo_move();
    assert_eq!(rows(&game), vec![vec![2, 1], vec![1], vec![2, 2]]);
    game.undo_move();
    assert_eq!(rows(&game), vec![vec![2, 1], vec![1, 2], vec![2]]);
    assert!(game.get_ledger().is_empty());
    game.undo_move();
    assert_eq!(rows(&game), vec![vec![2, 1], vec![1, 2], vec![2]]);
}

#[test]
fn move_from_empty_stack_moves_nothing() {
    let mut game = Game::new_from_vecs(vec![vec![0, 0], vec![4, 0]], None);
    assert!(game.move_is_legal(0, 1));
    assert_eq!(game.move_legally(0, 1), Ok(()));
    assert_eq!(rows(&game), vec![vec![], vec![4]]);
    assert_eq!(
        game.get_ledger(),
        &vec![Entry { from: 0, to: 1, kind: Kind::new_empty(), quantity: 0 }]
    );
    game.undo_move();
    assert_eq!(rows(&game), vec![vec![], vec![4]]);
    assert!(game.get_ledger().is_empty());
}

#[test]
fn undo_can_uncover_a_complete_run_for_the_mask() {
    let mut game = Game::new_from_vecs(vec![vec![1, 2, 0], vec![2], vec![0]], None);
    assert_eq!(game.get_kinds_status(), 0);
    assert_eq!(game.move_legally(0, 2), Ok(()));
    assert_eq!(game.get_kinds_status(), 0b01);
    game.undo_move();
    assert_eq!(rows(&game), vec![vec![1, 2], vec![2], vec![]]);
    assert_eq!(game.get_kinds_status(), 0b01);
    assert_eq!(game.move_legally(1, 0), Ok(()));
    assert_eq!(rows(&game), vec![vec![1, 2, 2], vec![], vec![]]);
    assert_eq!(game.get_kinds_status(), 0b11);
    assert!(game.stage_complete());
}

#[test]
fn units_per_kind_stay_fixed_through_play() {
    let mut game = Game::get_stages().remove(1);
    let ids: Vec<usize> = (1..=10).collect();
    let totals: Vec<usize> = ids.iter().map(|id| game.get_total_quantity(*id)).collect();
    assert_eq!(totals, vec![5, 5, 5, 5, 5, 5, 5, 5, 5, 5]);
    let moves = [(0, 7), (5, 10), (3, 7), (6, 7), (1, 12), (13, 7), (2, 9)];
    for (step, (from, to)) in moves.iter().enumerate() {
        let moved = game.move_legally(*from, *to).is_ok();
        if step % 3 == 2 {
            game.undo_move();
        }
        for (id, total) in ids.iter().zip(totals.iter()) {
            assert_eq!(units_of(&game, *id), *total, "kind {} after move {}", id, moved);
            assert_eq!(game.get_total_quantity(*id), *total);
        }
        for stack in game.get_stacks() {
            assert_eq!(stack.get_occupancy(), stack.iter_unit_ids().len());
            assert!(stack.get_occupancy() <= stack.get_capacity());
        }
    }
}

#[test]
fn no_legal_moves_tells_a_stuck_board() {
    let stuck = Game::new_from_vecs(vec![vec![1, 2], vec![2, 1]], None);
    assert!(stuck.no_legal_moves());
    let open = small_game();
    assert!(!open.no_legal_moves());
    let lone = Game::new_from_vecs(vec![vec![1, 0]], None);
    assert!(lone.no_legal_moves());
}

#[test]
fn reset_goes_back_to_the_first_board() {
    let mut game = small_game();
    assert_eq!(game.move_legally(1, 2), Ok(()));
    assert_eq!(game.move_legally(0, 1), Ok(()));
    game.reset();
    assert_eq!(rows(&game), vec![vec![2, 1], vec![1, 2], vec![2]]);
    assert_eq!(game.get_turn(), 1);
    assert_eq!(game.get_kinds_status(), 0);
    assert!(game.get_ledger().is_empty());
    assert_eq!(game.get_stage_name(), "small");
    game.undo_move();
    assert_eq!(rows(&game), vec![vec![2, 1], vec![1, 2], vec![2]]);
}

#[test]
fn clone_is_a_fresh_game_over_the_present_board() {
    let mut game = small_game();
    assert_eq!(game.move_legally(1, 2), Ok(()));
    let mut copy = game.clone();
    assert_eq!(rows(&copy), vec![vec![2, 1], vec![1], vec![2, 2]]);
    assert_eq!(copy.get_turn(), 1);
    assert!(copy.get_ledger().is_empty());
    assert_eq!(copy.get_stage_name(), "small");
    assert_eq!(copy.move_legally(0, 1), Ok(()));
    assert_eq!(rows(&game), vec![vec![2, 1], vec![1], vec![2, 2]]);
    copy.reset();
    assert_eq!(rows(&copy), vec![vec![2, 1], vec![1], vec![2, 2]]);
}

#[test]
fn game_without_stacks_is_complete() {
    let game = Game::new(Vec::new(), None);
    assert!(game.stage_complete());
    assert!(game.no_legal_moves());
    assert_eq!(game.get_kinds_status(), 0);
}
