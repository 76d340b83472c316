//! What a player can ask for, and what the game makes of it.

use vstd::prelude::*;
use crate::game::board::{needs_more_room, tops_mismatch};
use crate::game::entry::InvalidMove;
use crate::game::model::GameView;
use crate::game::stack::StackView;
use crate::game::words::{number, parse_number, split_words, texts_of, words};
use crate::game::Game;

verus! {

/// What a player can ask for.
#[derive(Clone, Copy, Debug, PartialEq, Eq, Structural)]
pub enum MenuOption {
    Help,
    Move,
    Reset,
    Undo,
    Quit,
}

/// One input of the player: a move between two stacks, or else an option
/// of the menu.
#[derive(Clone, Copy, Debug, PartialEq, Eq)]
pub struct UserInput {
    pub menu_option: MenuOption,
    pub stack_move: Option<(usize, usize)>,
}

/// What is left to do for whoever runs the game, once the game has taken
/// an input in.
#[derive(Clone, Copy, Debug, PartialEq, Eq, Structural)]
pub enum TurnEffect {
    /// Nothing: go on with the next input.
    Continue,
    /// Show the help.
    ShowHelp,
    /// End the game.
    Quit,
}

/// Why a line of input is turned down.
#[derive(Clone, Copy, Debug, PartialEq, Eq, Structural)]
pub enum Rejection {
    /// The line is neither a letter of the menu nor two different numbers
    /// of stacks.
    InvalidInput,
    /// The line names a move that is against the rule.
    IllegalMove(InvalidMove),
}

/// The line consists of the one letter `letter`, with or without white
/// space around it.
pub open spec fn is_letter(line: Seq<char>, letter: char) -> bool {
    words(line) == seq![seq![letter]]
}

/// The stack that a word names: the word spells a number from 1 to
/// `count`, and the stack is counted from 0.
pub open spec fn stack_named(word: Seq<char>, count: nat) -> Option<usize> {
    match number(word) {
        Some(n) => if 1 <= n <= count {
            Some((n - 1) as usize)
        } else {
            None
        },
        None => None,
    }
}

/// What a line of input means on a board. One of the letters h, q, r, u
/// asks for help, quitting, a reset, an undo. Two words that name two
/// different stacks ask for a move, which is turned down where the rule is
/// against it. Every other line is turned down as invalid.
pub open spec fn reading(stacks: Seq<StackView>, line: Seq<char>) -> Result<UserInput, Rejection> {
    if is_letter(line, 'h') {
        Ok(UserInput { menu_option: MenuOption::Help, stack_move: None })
    } else if is_letter(line, 'q') {
        Ok(UserInput { menu_option: MenuOption::Quit, stack_move: None })
    } else if is_letter(line, 'r') {
        Ok(UserInput { menu_option: MenuOption::Reset, stack_move: None })
    } else if is_letter(line, 'u') {
        Ok(UserInput { menu_option: MenuOption::Undo, stack_move: None })
    } else if words(line).len() != 2 {
        Err(Rejection::InvalidInput)
    } else {
        match (stack_named(words(line)[0], stacks.len()), stack_named(words(line)[1], stacks.len())) {
            (Some(from), Some(to)) => if from == to {
                Err(Rejection::InvalidInput)
            } else if needs_more_room(stacks, from as int, to as int) {
                Err(Rejection::IllegalMove(InvalidMove::NotEnoughRoom))
            } else if tops_mismatch(stacks, from as int, to as int) {
                Err(Rejection::IllegalMove(InvalidMove::TopMismatch))
            } else {
                Ok(UserInput { menu_option: MenuOption::Move, stack_move: Some((from, to)) })
            },
            _ => Err(Rejection::InvalidInput),
        }
    }
}

/// The stack that a word names among `count` stacks, if it names one.
fn parse_stack(word: &Vec<char>, count: usize) -> (stack: Option<usize>)
    ensures
        stack == stack_named(word@, count as nat),
{
    match parse_number(word) {
        Some(n) => if 1 <= n && n <= count {
            Some(n - 1)
        } else {
            None
        },
        None => None,
    }
}

impl UserInput {
    /// An input that asks for an option of the menu and holds no move.
    pub fn new_menu_option(menu_option: MenuOption) -> (input: UserInput)
        ensures
            input == (UserInput { menu_option, stack_move: None }),
    {
        UserInput { menu_option: menu_option, stack_move: None }
    }

    /// The game after this input, where a move names stacks of the game.
    pub open spec fn applied(self, game: GameView) -> GameView {
        match self.stack_move {
            Some((from, to)) => if game.is_legal(from as int, to as int) {
                game.after_move(from as int, to as int)
            } else {
                game
            },
            None => match self.menu_option {
                MenuOption::Reset => game.after_reset(),
                MenuOption::Undo => game.after_undo(),
                _ => game,
            },
        }
    }

    /// What this input leaves to do for whoever runs the game.
    pub open spec fn effect(self) -> TurnEffect {
        match self.stack_move {
            Some(_) => TurnEffect::Continue,
            None => match self.menu_option {
                MenuOption::Help => TurnEffect::ShowHelp,
                MenuOption::Quit => TurnEffect::Quit,
                _ => TurnEffect::Continue,
            },
        }
    }

    /// A move, if the input holds one, names two stacks of the game.
    pub open spec fn fits(self, game: GameView) -> bool {
        match self.stack_move {
            Some((from, to)) => from < game.stacks.len() && to < game.stacks.len(),
            None => true,
        }
    }
}

impl Game {
    /// Reads one line of input: what the player asks for, or why the line
    /// is turned down. A move that is read is a legal move.
    pub fn parse_input(&self, line: &str) -> (read: Result<UserInput, Rejection>)
        requires
            self.well_formed(),
        ensures
            read == reading(self@.stacks, line@),
            read matches Ok(input) ==> input.fits(self@) && (input.stack_move matches Some(
                (from, to),
            ) ==> self@.is_legal(from as int, to as int)),
    {
        let found: Vec<Vec<char>> = split_words(line);
        proof {
            assert(texts_of(found@).len() == found@.len());
            if found@.len() > 0 {
                assert(texts_of(found@)[0] == found@[0]@);
            }
            if found@.len() > 1 {
                assert(texts_of(found@)[1] == found@[1]@);
            }
        }
        if found.len() == 1 && found[0].len() == 1 {
            let letter: char = found[0][0];
            proof {
                assert(words(line@) =~~= seq![seq![letter]]);
                assert(seq![seq![letter]][0][0] == letter);
            }
            if letter == 'h' {
                return Ok(UserInput::new_menu_option(MenuOption::Help));
            }
            if letter == 'q' {
                return Ok(UserInput::new_menu_option(MenuOption::Quit));
            }
            if letter == 'r' {
                return Ok(UserInput::new_menu_option(MenuOption::Reset));
            }
            if letter == 'u' {
                return Ok(UserInput::new_menu_option(MenuOption::Undo));
            }
            proof {
                assert(seq![seq!['h']][0][0] == 'h');
                assert(seq![seq!['q']][0][0] == 'q');
                assert(seq![seq!['r']][0][0] == 'r');
                assert(seq![seq!['u']][0][0] == 'u');
            }
        } else {
            proof {
                assert(seq![seq!['h']].len() == 1 && seq![seq!['h']][0].len() == 1);
                assert(seq![seq!['q']].len() == 1 && seq![seq!['q']][0].len() == 1);
                assert(seq![seq!['r']].len() == 1 && seq![seq!['r']][0].len() == 1);
                assert(seq![seq!['u']].len() == 1 && seq![seq!['u']][0].len() == 1);
            }
        }
        if found.len() != 2 {
            return Err(Rejection::InvalidInput);
        }
        let count: usize = self.get_stacks().len();
        let from: usize = match parse_stack(&found[0], count) {
            Some(from) => from,
            None => {
                return Err(Rejection::InvalidInput);
            },
        };
        let to: usize = match parse_stack(&found[1], count) {
            Some(to) => to,
            None => {
                return Err(Rejection::InvalidInput);
            },
        };
        if from == to {
            return Err(Rejection::InvalidInput);
        }
        if self.move_requires_more_room(from, to) {
            return Err(Rejection::IllegalMove(InvalidMove::NotEnoughRoom));
        }
        if self.stack_tops_mismatch(from, to) {
            return Err(Rejection::IllegalMove(InvalidMove::TopMismatch));
        }
        Ok(UserInput { menu_option: MenuOption::Move, stack_move: Some((from, to)) })
    }

    /// Takes one input in. A move is made if the rule allows it and
    /// changes nothing otherwise; a reset or an undo is carried out; help
    /// and quitting change nothing in the game and are left to the caller.
    pub fn take_turn(&mut self, user_input: UserInput) -> (effect: TurnEffect)
        requires
            old(self).well_formed(),
            user_input.fits(old(self)@),
            user_input.stack_move is Some ==> old(self)@.turn < usize::MAX,
        ensures
            final(self).well_formed(),
            final(self)@ == user_input.applied(old(self)@),
            effect == user_input.effect(),
    {
        match user_input.stack_move {
            Some((from, to)) => {
                let _ = self.move_legally(from, to);
                TurnEffect::Continue
            },
            None => match user_input.menu_option {
                MenuOption::Help => TurnEffect::ShowHelp,
                MenuOption::Quit => TurnEffect::Quit,
                MenuOption::Reset => {
                    self.reset();
                    TurnEffect::Continue
                },
                MenuOption::Undo => {
                    self.undo_move();
                    TurnEffect::Continue
                },
                MenuOption::Move => TurnEffect::Continue,
            },
        }
    }
}

} // verus!
