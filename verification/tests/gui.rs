use sorting_game::game::entry::InvalidMove;
use sorting_game::game::gui::{MenuOption, Rejection, TurnEffect, UserInput};
use sorting_game::game::words::{is_whitespace, parse_number, split_words};
use sorting_game::game::Game;

fn small_game() -> Game {
    Game::new_from_vecs(vec![vec![2, 1, 0], vec![1, 2], vec![2, 0]], None)
}

fn rows(game: &Game) -> Vec<Vec<usize>> {
    game.get_stacks().iter().map(|stack| stack.iter_unit_ids()).collect()
}

fn letters(word: &str) -> Vec<char> {
    word.chars().collect()
}

fn a_move(from: usize, to: usize) -> UserInput {
    UserInput { menu_option: MenuOption::Move, stack_move: Some((from, to)) }
}

#[test]
fn menu_option_input_holds_no_move() {
    let input = UserInput::new_menu_option(MenuOption::Reset);
    assert_eq!(input.menu_option, MenuOption::Reset);
    assert_eq!(input.stack_move, None);
}

#[test]
fn whitespace_is_what_std_calls_whitespace() {
    for code in 0..=0x10FFFFu32 {
        if let Some(c) = char::from_u32(code) {
            assert_eq!(is_whitespace(c), c.is_whitespace(), "U+{:04X}", code);
        }
    }
}

#[test]
fn words_are_split_at_whitespace() {
    assert_eq!(split_words("2 3"), vec![letters("2"), letters("3")]);
    assert_eq!(split_words("  12\t\u{3000}345 \n"), vec![letters("12"), letters("345")]);
    assert_eq!(split_words("h"), vec![letters("h")]);
    assert_eq!(split_words(""), Vec::<Vec<char>>::new());
    assert_eq!(split_words(" \r\n "), Vec::<Vec<char>>::new());
    assert_eq!(split_words("a  b   c"), vec![letters("a"), letters("b"), letters("c")]);
    for line in ["2 3", " x  yz\tw ", "", "\u{a0}q\u{2003}", "one"] {
        let expected: Vec<Vec<char>> = line.split_whitespace().map(letters).collect();
        assert_eq!(split_words(line), expected);
    }
}

#[test]
fn numbers_are_parsed_as_std_parses_them() {
    assert_eq!(parse_number(&letters("0")), Some(0));
    assert_eq!(parse_number(&letters("7")), Some(7));
    assert_eq!(parse_number(&letters("0042")), Some(42));
    assert_eq!(parse_number(&letters("+13")), Some(13));
    assert_eq!(parse_number(&letters("18446744073709551615")), Some(usize::MAX));
    assert_eq!(parse_number(&letters("18446744073709551616")), None);
    assert_eq!(parse_number(&letters("99999999999999999999999")), None);
    assert_eq!(parse_number(&letters("")), None);
    assert_eq!(parse_number(&letters("+")), None);
    assert_eq!(parse_number(&letters("-1")), None);
    assert_eq!(parse_number(&letters("++1")), None);
    assert_eq!(parse_number(&letters("1+")), None);
    assert_eq!(parse_number(&letters("12a")), None);
    assert_eq!(parse_number(&letters("\u{ff11}")), None);
    for word in ["5", "+5", "05", "", "+", "-", "-0", "1_0", "0x10", "184467440737095516150", "3.0"] {
        assert_eq!(parse_number(&letters(word)), word.parse::<usize>().ok(), "{:?}", word);
    }
}

#[test]
fn letters_ask_for_menu_options() {
    let game = small_game();
    assert_eq!(game.parse_input("h"), Ok(UserInput::new_menu_option(MenuOption::Help)));
    assert_eq!(game.parse_input("q\n"), Ok(UserInput::new_menu_option(MenuOption::Quit)));
    assert_eq!(game.parse_input("  r  "), Ok(UserInput::new_menu_option(MenuOption::Reset)));
    assert_eq!(game.parse_input("\tu\r\n"), Ok(UserInput::new_menu_option(MenuOption::Undo)));
    assert_eq!(game.parse_input("H"), Err(Rejection::InvalidInput));
    assert_eq!(game.parse_input("hq"), Err(Rejection::InvalidInput));
    assert_eq!(game.parse_input("m"), Err(Rejection::InvalidInput));
}

#[test]
fn two_stack_numbers_ask_for_a_move() {
    let game = small_game();
    assert_eq!(game.parse_input("2 3"), Ok(a_move(1, 2)));
    assert_eq!(game.parse_input(" +2\t03 \n"), Ok(a_move(1, 2)));
    assert_eq!(game.parse_input("2\u{3000}3"), Ok(a_move(1, 2)));
}

#[test]
fn moves_against_the_rule_are_turned_down() {
    let game = small_game();
    assert_eq!(
        game.parse_input("3 2"),
        Err(Rejection::IllegalMove(InvalidMove::NotEnoughRoom))
    );
    assert_eq!(
        game.parse_input("3 1"),
        Err(Rejection::IllegalMove(InvalidMove::TopMismatch))
    );
}

#[test]
fn other_lines_are_invalid() {
    let game = small_game();
    for line in [
        "", " ", "1", "1 2 3", "a b", "1 b", "a 2", "0 1", "1 0", "4 1", "1 4", "2 2", "-1 2",
        "1,2", "99999999999999999999999 1", "\u{ff11} 2",
    ] {
        assert_eq!(game.parse_input(line), Err(Rejection::InvalidInput), "{:?}", line);
    }
}

#[test]
fn turn_with_a_move_makes_the_move() {
    let mut game = small_game();
    assert_eq!(game.take_turn(a_move(1, 2)), TurnEffect::Continue);
    assert_eq!(rows(&game), vec![vec![2, 1], vec![1], vec![2, 2]]);
    assert_eq!(game.get_turn(), 2);
    assert_eq!(game.get_ledger().len(), 1);
}

#[test]
fn turn_with_a_move_against_the_rule_changes_nothing() {
    let mut game = small_game();
    assert_eq!(game.take_turn(a_move(2, 0)), TurnEffect::Continue);
    assert_eq!(rows(&game), vec![vec![2, 1], vec![1, 2], vec![2]]);
    assert_eq!(game.get_turn(), 1);
    assert!(game.get_ledger().is_empty());
}

#[test]
fn turn_with_undo_and_reset() {
    let mut game = small_game();
    game.take_turn(a_move(1, 2));
    game.take_turn(a_move(0, 1));
    assert_eq!(
        game.take_turn(UserInput::new_menu_option(MenuOption::Undo)),
        TurnEffect::Continue
    );
    assert_eq!(rows(&game), vec![vec![2, 1], vec![1], vec![2, 2]]);
    assert_eq!(
        game.take_turn(UserInput::new_menu_option(MenuOption::Reset)),
        TurnEffect::Continue
    );
    assert_eq!(rows(&game), vec![vec![2, 1], vec![1, 2], vec![2]]);
    assert_eq!(game.get_turn(), 1);
}

#[test]
fn turn_with_help_or_quit_is_left_to_the_caller() {
    let mut game = small_game();
    assert_eq!(
        game.take_turn(UserInput::new_menu_option(MenuOption::Help)),
        TurnEffect::ShowHelp
    );
    assert_eq!(game.take_turn(UserInput::new_menu_option(MenuOption::Quit)), TurnEffect::Quit);
    assert_eq!(
        game.take_turn(UserInput::new_menu_option(MenuOption::Move)),
        TurnEffect::Continue
    );
    assert_eq!(rows(&game), vec![vec![2, 1], vec![1, 2], vec![2]]);
    assert_eq!(game.get_turn(), 1);
}

#[test]
fn scripted_lines_play_the_small_stage() {
    let mut game = small_game();
    for line in ["2 3", "1 2", "3 1"] {
        let input = game.parse_input(line).unwrap();
        assert_eq!(game.take_turn(input), TurnEffect::Continue);
    }
    assert!(game.stage_complete());
    assert_eq!(rows(&game), vec![vec![2, 2, 2], vec![1, 1], vec![]]);
}
