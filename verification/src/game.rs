//! The puzzle: a board of stacks and the rules of play.

pub mod bits;
pub mod board;
pub mod census;
pub mod completion;
pub mod entry;
pub mod gui;
pub mod model;
pub mod stack;
pub mod stages;
pub mod words;

use vstd::prelude::*;
use crate::game::bits::{lemma_full_mask, lemma_subtract_bit};
use crate::game::board::{
    board_wf, can_carry, carried, has_legal_move, is_legal, lemma_carried,
    lemma_legal_can_carry, lemma_units_in_next, lemma_units_in_prefix, needs_more_room,
    tops_mismatch, units_in,
};
use crate::game::census::{
    ascending, census_of, counts, distinct, kind_index, kinds_on, lemma_ascending_distinct,
    lemma_census_length, lemma_census_unique, lemma_entry, lemma_top_listed, lemma_unlisted,
    listed, MAX_KINDS,
};
use crate::game::completion::{initial_mask, refreshed, scanned};
use crate::game::entry::{Entry, InvalidMove};
use crate::game::model::{
    lemma_carry_sound, lemma_fresh_exact, lemma_fresh_wf, lemma_move_exact, lemma_move_wf,
    lemma_undo_wf, GameView,
};
use crate::game::stack::kind::{HasId, IsEmpty, Kind, KindId, EMPTY_SLOT_VALUE};
use crate::game::stack::runs::{
    lemma_occurrences_concat, lemma_push_run, lemma_run_counted, lemma_unit_ids_count,
    lemma_unit_ids_proper, lemma_units_of_insert, lemma_units_of_update, occurrences, proper,
    unit_ids, units_of,
};
use crate::game::stack::{Stack, StackView};

verus! {

/// The stacks seen as a board.
pub open spec fn board_of(stacks: Seq<Stack>) -> Seq<StackView> {
    stacks.map_values(|stack: Stack| stack@)
}

/// Every stack is well formed.
pub open spec fn stacks_well_formed(stacks: Seq<Stack>) -> bool {
    forall|s: int| 0 <= s < stacks.len() ==> (#[trigger] stacks[s]).well_formed()
}

/// The name a stage gets: the one given, or none.
pub open spec fn name_of(stage_name: Option<String>) -> Seq<char> {
    match stage_name {
        Some(name) => name@,
        None => Seq::empty(),
    }
}

/// Well-formed stacks make a well-formed board.
pub proof fn lemma_board_of(stacks: Seq<Stack>)
    requires
        stacks_well_formed(stacks),
    ensures
        board_wf(board_of(stacks)),
        board_of(stacks).len() == stacks.len(),
{
    assert forall|s: int| 0 <= s < board_of(stacks).len() implies (#[trigger] board_of(
        stacks,
    )[s]).wf() by {
        stacks[s].lemma_well_formed();
    }
}

/// A game: the stacks, the census of their kinds, the completion mask, the
/// turn, and the ledger of the moves made.
pub struct Game {
    stacks: Vec<Stack>,
    initial: Vec<Stack>,
    census: Vec<Kind>,
    kinds_status: u64,
    turn: usize,
    stage_name: String,
    ledger: Vec<Entry>,
}

impl View for Game {
    type V = GameView;

    closed spec fn view(&self) -> GameView {
        GameView {
            stacks: board_of(self.stacks@),
            initial: board_of(self.initial@),
            census: self.census@,
            mask: self.kinds_status,
            turn: self.turn as nat,
            name: self.stage_name@,
            ledger: self.ledger@,
        }
    }
}

/// A deep copy of the stacks.
fn clone_stacks(stacks: &Vec<Stack>) -> (copy: Vec<Stack>)
    ensures
        board_of(copy@) == board_of(stacks@),
        stacks_well_formed(stacks@) ==> stacks_well_formed(copy@),
        copy@.len() == stacks@.len(),
{
    let mut copy: Vec<Stack> = Vec::new();
    let mut s: usize = 0;
    while s < stacks.len()
        invariant
            s <= stacks.len(),
            copy@.len() == s,
            forall|t: int| 0 <= t < s ==> (#[trigger] copy@[t])@ == stacks@[t]@,
            forall|t: int|
                0 <= t < s ==> (#[trigger] copy@[t]).well_formed() == stacks@[t].well_formed(),
        decreases stacks.len() - s,
    {
        copy.push(stacks[s].clone());
        s += 1;
    }
    assert(board_of(copy@) =~= board_of(stacks@));
    copy
}

impl Game {
    /// The stacks are well formed and the census counts them.
    closed spec fn tallied(&self) -> bool {
        &&& stacks_well_formed(self.stacks@)
        &&& stacks_well_formed(self.initial@)
        &&& self@.counted()
    }

    /// All but the ledger is in order.
    closed spec fn steady(&self) -> bool {
        &&& self.tallied()
        &&& self@.sound()
    }

    /// The invariant of a game: its stacks are well formed, its census
    /// counts them, its mask fits them and its ledger can be taken back.
    pub closed spec fn well_formed(&self) -> bool {
        &&& self.steady()
        &&& self@.wf()
    }

    /// A well-formed game has a well-formed view.
    pub proof fn lemma_well_formed(&self)
        requires
            self.well_formed(),
        ensures
            self@.wf(),
    {
    }

    /// Where the census lists the kind `id`, if it does.
    fn find_kind(census: &Vec<Kind>, id: KindId) -> (found: Option<usize>)
        ensures
            match found {
                Some(place) => place < census@.len() && census@[place as int].id == id,
                None => !listed(census@, id),
            },
    {
        let mut place: usize = 0;
        while place < census.len()
            invariant
                place <= census.len(),
                forall|i: int| 0 <= i < place ==> (#[trigger] census@[i]).id != id,
            decreases census.len() - place,
        {
            if census[place].get_id() == id {
                return Some(place);
            }
            place += 1;
        }
        None
    }

    /// Counts the units of each kind on the stacks: one entry for each kind,
    /// in the order in which the kinds are met.
    fn count_kinds(stacks: &Vec<Stack>) -> (tally: Vec<Kind>)
        requires
            stacks_well_formed(stacks@),
            forall|id: KindId| units_in(board_of(stacks@), id) <= usize::MAX,
        ensures
            proper(tally@),
            distinct(tally@),
            counts(tally@, board_of(stacks@)),
    {
        let mut tally: Vec<Kind> = Vec::new();
        let ghost board = board_of(stacks@);
        let mut s: usize = 0;
        proof {
            lemma_board_of(stacks@);
            assert(board.take(0) =~= Seq::<StackView>::empty());
        }
        while s < stacks.len()
            invariant
                s <= stacks.len(),
                board == board_of(stacks@),
                board_wf(board),
                stacks_well_formed(stacks@),
                forall|id: KindId| units_in(board, id) <= usize::MAX,
                proper(tally@),
                distinct(tally@),
                forall|id: KindId| #[trigger]
                    units_of(tally@, id) == units_in(board.take(s as int), id),
            decreases stacks.len() - s,
        {
            let ids: Vec<KindId> = stacks[s].iter_unit_ids();
            let ghost runs = board[s as int].runs;
            let mut u: usize = 0;
            proof {
                assert(board[s as int].wf());
                assert(ids@.take(0) =~= Seq::<KindId>::empty());
            }
            while u < ids.len()
                invariant
                    u <= ids.len(),
                    s < stacks.len(),
                    board == board_of(stacks@),
                    runs == board[s as int].runs,
                    proper(runs),
                    ids@ == unit_ids(runs),
                    forall|id: KindId| units_in(board, id) <= usize::MAX,
                    proper(tally@),
                    distinct(tally@),
                    forall|id: KindId| #[trigger]
                        units_of(tally@, id) == units_in(board.take(s as int), id) + occurrences(
                            ids@.take(u as int),
                            id,
                        ),
                decreases ids.len() - u,
            {
                let unit_id: KindId = ids[u];
                let ghost before = tally@;
                proof {
                    lemma_unit_ids_proper(runs, u as int);
                    assert(ids@.take(u + 1).drop_last() =~= ids@.take(u as int));
                    assert(ids@ =~= ids@.take(u + 1) + ids@.skip(u + 1));
                    lemma_occurrences_concat(ids@.take(u + 1), ids@.skip(u + 1), unit_id);
                    lemma_unit_ids_count(runs, unit_id);
                    lemma_units_in_next(board, s as int, unit_id);
                    lemma_units_in_prefix(board, s + 1, unit_id);
                    assert(units_of(before, unit_id) == units_in(board.take(s as int), unit_id)
                        + occurrences(ids@.take(u as int), unit_id));
                    assert(units_of(before, unit_id) + 1 <= units_in(board, unit_id));
                }
                match Game::find_kind(&tally, unit_id) {
                    Some(place) => {
                        let entry: Kind = tally[place];
                        proof {
                            lemma_entry(before, place as int);
                        }
                        let grown = Kind::new(unit_id, entry.get_quantity() + 1);
                        tally.set(place, grown);
                        proof {
                            assert forall|id: KindId| #[trigger]
                                units_of(tally@, id) == units_in(board.take(s as int), id)
                                    + occurrences(ids@.take(u + 1), id) by {
                                lemma_units_of_update(before, place as int, grown, id);
                                assert(units_of(before, id) == units_in(board.take(s as int), id)
                                    + occurrences(ids@.take(u as int), id));
                            }
                            assert forall|i: int, j: int| 0 <= i < j < tally@.len() implies (
                            #[trigger] tally@[i]).id != (#[trigger] tally@[j]).id by {
                                assert(before[i].id != before[j].id);
                            }
                            assert forall|i: int| 0 <= i < tally@.len() implies (
                            #[trigger] tally@[i]).id != EMPTY_SLOT_VALUE && tally@[i].quantity
                                > 0 by {
                                assert(before[i].id != EMPTY_SLOT_VALUE);
                            }
                        }
                    },
                    None => {
                        let first = Kind::new(unit_id, 1);
                        tally.push(first);
                        proof {
                            assert forall|id: KindId| #[trigger]
                                units_of(tally@, id) == units_in(board.take(s as int), id)
                                    + occurrences(ids@.take(u + 1), id) by {
                                lemma_push_run(before, first, id);
                                assert(units_of(before, id) == units_in(board.take(s as int), id)
                                    + occurrences(ids@.take(u as int), id));
                            }
                            assert forall|i: int, j: int| 0 <= i < j < tally@.len() implies (
                            #[trigger] tally@[i]).id != (#[trigger] tally@[j]).id by {
                                if j < before.len() {
                                    assert(before[i].id != before[j].id);
                                } else {
                                    assert(before[i].id != unit_id);
                                }
                            }
                            assert forall|i: int| 0 <= i < tally@.len() implies (
                            #[trigger] tally@[i]).id != EMPTY_SLOT_VALUE && tally@[i].quantity
                                > 0 by {
                                if i < before.len() {
                                    assert(before[i].id != EMPTY_SLOT_VALUE);
                                }
                            }
                        }
                    },
                }
                u += 1;
            }
            proof {
                assert(ids@.take(u as int) =~= ids@);
                assert forall|id: KindId| #[trigger]
                    units_of(tally@, id) == units_in(board.take(s + 1), id) by {
                    lemma_unit_ids_count(runs, id);
                    lemma_units_in_next(board, s as int, id);
                    assert(units_of(tally@, id) == units_in(board.take(s as int), id)
                        + occurrences(ids@.take(u as int), id));
                }
            }
            s += 1;
        }
        proof {
            assert(board.take(s as int) =~= board);
            assert forall|id: KindId| units_of(tally@, id) == units_in(board, id) by {
                assert(units_of(tally@, id) == units_in(board.take(s as int), id));
            }
        }
        tally
    }

    /// Puts the kinds in ascending order of id, so that the place of a kind
    /// is its index.
    fn index_kinds(units_per_kind: &Vec<Kind>) -> (census: Vec<Kind>)
        requires
            proper(units_per_kind@),
            distinct(units_per_kind@),
        ensures
            proper(census@),
            ascending(census@),
            census@.len() == units_per_kind@.len(),
            forall|id: KindId| #[trigger] units_of(census@, id) == units_of(units_per_kind@, id),
    {
        let mut census: Vec<Kind> = Vec::new();
        let mut k: usize = 0;
        proof {
            assert(units_per_kind@.take(0) =~= Seq::<Kind>::empty());
        }
        while k < units_per_kind.len()
            invariant
                k <= units_per_kind.len(),
                proper(units_per_kind@),
                distinct(units_per_kind@),
                proper(census@),
                ascending(census@),
                census@.len() == k,
                forall|id: KindId| #[trigger]
                    units_of(census@, id) == units_of(units_per_kind@.take(k as int), id),
            decreases units_per_kind.len() - k,
        {
            let kind: Kind = units_per_kind[k];
            let mut place: usize = 0;
            while place < census.len() && census[place].get_id() < kind.get_id()
                invariant
                    place <= census.len(),
                    forall|j: int| 0 <= j < place ==> (#[trigger] census@[j]).id < kind.id,
                decreases census.len() - place,
            {
                place += 1;
            }
            let ghost before = census@;
            proof {
                let seen = units_per_kind@.take(k as int);
                assert forall|i: int| 0 <= i < seen.len() implies (#[trigger] seen[i]).id
                    != kind.id by {
                    assert(units_per_kind@[i].id != units_per_kind@[k as int].id);
                }
                lemma_unlisted(seen, kind.id);
                assert(units_of(before, kind.id) == units_of(seen, kind.id));
                assert forall|j: int| 0 <= j < before.len() implies (#[trigger] before[j]).id
                    != kind.id by {
                    lemma_run_counted(before, j);
                    assert(before[j].quantity > 0);
                }
                assert(units_per_kind@[k as int].id != EMPTY_SLOT_VALUE);
            }
            census.insert(place, kind);
            proof {
                let after = census@;
                assert(after.len() == before.len() + 1);
                assert forall|i: int| 0 <= i < after.len() implies #[trigger] after[i] == (if i
                    < place {
                    before[i]
                } else if i == place {
                    kind
                } else {
                    before[i - 1]
                }) by {}
                assert forall|i: int| 0 <= i < after.len() implies (#[trigger] after[i]).id
                    != EMPTY_SLOT_VALUE && after[i].quantity > 0 by {
                    if i < place {
                        assert(before[i].id != EMPTY_SLOT_VALUE);
                    } else if i > place {
                        assert(before[i - 1].id != EMPTY_SLOT_VALUE);
                    }
                }
                assert forall|i: int, j: int| 0 <= i < j < after.len() implies (
                #[trigger] after[i]).id < (#[trigger] after[j]).id by {
                    if j < place {
                        assert(before[i].id < before[j].id);
                    } else if j == place {
                        assert(before[i].id < kind.id);
                    } else if i < place {
                        assert(before[i].id < kind.id);
                        if place < before.len() {
                            assert(before[place as int].id != kind.id);
                            if place < j - 1 {
                                assert(before[place as int].id < before[j - 1].id);
                            }
                        }
                    } else if i == place {
                        assert(before[place as int].id != kind.id);
                        if place < j - 1 {
                            assert(before[place as int].id < before[j - 1].id);
                        }
                    } else {
                        assert(before[i - 1].id < before[j - 1].id);
                    }
                }
                assert(units_per_kind@.take(k + 1).drop_last() =~= units_per_kind@.take(k as int));
                assert forall|id: KindId| #[trigger]
                    units_of(after, id) == units_of(units_per_kind@.take(k + 1), id) by {
                    lemma_units_of_insert(before, place as int, kind, id);
                    assert(units_of(before, id) == units_of(units_per_kind@.take(k as int), id));
                }
            }
            k += 1;
        }
        proof {
            assert(units_per_kind@.take(k as int) =~= units_per_kind@);
        }
        census
    }

    /// The index of a kind: its rank among the ids of the game, from 0.
    pub fn get_kind_index<T: HasId>(&self, kind_or_id: T) -> (index: usize)
        requires
            ascending(self@.census),
            listed(self@.census, kind_or_id.id_of()),
        ensures
            index == self@.kind_index(kind_or_id.id_of()),
            index < self@.census.len(),
            self@.census[index as int].id == kind_or_id.id_of(),
    {
        let id: KindId = kind_or_id.get_id();
        match Game::find_kind(&self.census, id) {
            Some(index) => {
                proof {
                    lemma_ascending_distinct(self.census@);
                    lemma_entry(self.census@, index as int);
                }
                index
            },
            None => {
                proof {
                    assert(false);
                }
                0
            },
        }
    }

    /// The number of units of a kind in the game.
    pub fn get_total_quantity<T: HasId>(&self, kind_or_id: T) -> (total: usize)
        requires
            ascending(self@.census),
            listed(self@.census, kind_or_id.id_of()),
        ensures
            total == self@.units_per_kind(kind_or_id.id_of()),
            total == self@.census[self@.kind_index(kind_or_id.id_of())].quantity,
    {
        let id: KindId = kind_or_id.get_id();
        match Game::find_kind(&self.census, id) {
            Some(index) => {
                proof {
                    lemma_ascending_distinct(self.census@);
                    lemma_entry(self.census@, index as int);
                }
                self.census[index].get_quantity()
            },
            None => {
                proof {
                    assert(false);
                }
                0
            },
        }
    }

    /// Looks at the top of one stack and brings the bit of the kind that
    /// lies there up to date: set where the top run holds all units of the
    /// kind, cleared where it does not. An empty stack changes nothing.
    fn update_kind_status(&mut self, stack_ind: usize)
        requires
            old(self).tallied(),
            stack_ind < old(self).stacks@.len(),
        ensures
            final(self).tallied(),
            final(self).kinds_status == refreshed(
                old(self).kinds_status,
                old(self).census@,
                board_of(old(self).stacks@)[stack_ind as int],
            ),
            final(self).stacks == old(self).stacks,
            final(self).initial == old(self).initial,
            final(self).census == old(self).census,
            final(self).turn == old(self).turn,
            final(self).stage_name == old(self).stage_name,
            final(self).ledger == old(self).ledger,
    {
        proof {
            lemma_board_of(self.stacks@);
        }
        let resident_id: KindId = self.stacks[stack_ind].get_top_unit_id();
        if resident_id.is_empty() {
            return ;
        }
        let resident_quantity: usize = self.stacks[stack_ind].get_top_unit_quantity();
        proof {
            lemma_top_listed(self.census@, board_of(self.stacks@), stack_ind as int);
        }
        let index: usize = self.get_kind_index(resident_id);
        let total: usize = self.get_total_quantity(resident_id);
        proof {
            lemma_subtract_bit(self.kinds_status, index as int);
        }
        let resident_bit: u64 = 1u64 << (index as u64);
        self.kinds_status = self.kinds_status | resident_bit;
        if resident_quantity != total {
            self.kinds_status = self.kinds_status - resident_bit;
        }
    }

    /// Works the mask out anew: from the empty mask, a look at every stack.
    fn recompute_kinds_status(&mut self)
        requires
            old(self).tallied(),
        ensures
            final(self).tallied(),
            final(self).kinds_status == initial_mask(
                old(self).census@,
                board_of(old(self).stacks@),
            ),
            final(self).stacks == old(self).stacks,
            final(self).initial == old(self).initial,
            final(self).census == old(self).census,
            final(self).turn == old(self).turn,
            final(self).stage_name == old(self).stage_name,
            final(self).ledger == old(self).ledger,
    {
        self.kinds_status = 0;
        let ghost start = *self;
        let mut s: usize = 0;
        while s < self.stacks.len()
            invariant
                s <= self.stacks@.len(),
                self.tallied(),
                self.stacks == start.stacks,
                self.initial == start.initial,
                self.census == start.census,
                self.turn == start.turn,
                self.stage_name == start.stage_name,
                self.ledger == start.ledger,
                self.kinds_status == scanned(start.census@, board_of(start.stacks@), s as int),
            decreases self.stacks@.len() - s,
        {
            self.update_kind_status(s);
            s += 1;
        }
    }

    /// A game over the given stacks: its kinds counted and indexed, the
    /// stacks kept as they are for a later reset, nothing played yet.
    pub fn new(stacks: Vec<Stack>, stage_name: Option<String>) -> (game: Game)
        requires
            stacks_well_formed(stacks@),
            forall|id: KindId| units_in(board_of(stacks@), id) <= usize::MAX,
            kinds_on(board_of(stacks@)).len() <= MAX_KINDS,
        ensures
            game.well_formed(),
            census_of(game@.census, board_of(stacks@)),
            game@ == GameView::fresh(board_of(stacks@), game@.census, name_of(stage_name)),
            game@.exact(),
    {
        let units_per_kind: Vec<Kind> = Game::count_kinds(&stacks);
        let census: Vec<Kind> = Game::index_kinds(&units_per_kind);
        let ghost board = board_of(stacks@);
        proof {
            lemma_board_of(stacks@);
            assert forall|id: KindId| units_of(census@, id) == units_in(board, id) by {
                assert(units_of(census@, id) == units_of(units_per_kind@, id));
                assert(units_of(units_per_kind@, id) == units_in(board, id));
            }
            lemma_ascending_distinct(census@);
            lemma_census_length(census@, board);
        }
        let initial: Vec<Stack> = clone_stacks(&stacks);
        let name: String = match stage_name {
            Some(name) => name,
            None => String::new(),
        };
        let mut game = Game {
            stacks,
            initial,
            census,
            kinds_status: 0,
            turn: 1,
            stage_name: name,
            ledger: Vec::new(),
        };
        proof {
            assert(game.stacks.len() == game.stacks@.len());
        }
        game.recompute_kinds_status();
        proof {
            lemma_fresh_wf(board, game.census@, game.stage_name@);
            lemma_fresh_exact(board, game.census@, game.stage_name@);
            assert(game@.ledger =~= Seq::<Entry>::empty());
        }
        game
    }

    /// A new game over a deep copy of the stacks as they stand now.
    pub fn clone(&self) -> (copy: Game)
        requires
            self.well_formed(),
        ensures
            copy.well_formed(),
            copy@ == GameView::fresh(self@.stacks, self@.census, self@.name),
            copy@.exact(),
    {
        let stacks: Vec<Stack> = clone_stacks(&self.stacks);
        proof {
            assert forall|id: KindId| units_in(board_of(stacks@), id) <= usize::MAX by {
                crate::game::census::lemma_census_bounded(self.census@, id);
                assert(units_of(self.census@, id) == units_in(board_of(self.stacks@), id));
            }
            lemma_ascending_distinct(self.census@);
            lemma_census_length(self.census@, board_of(self.stacks@));
        }
        let copy = Game::new(stacks, Some(self.stage_name.clone()));
        proof {
            lemma_census_unique(copy@.census, self@.census, self@.stacks);
        }
        copy
    }

    /// Whether the move from `from` to `to` is against the rule.
    pub fn move_is_illegal(&self, from: usize, to: usize) -> (illegal: bool)
        requires
            self.well_formed(),
            from < self@.stacks.len(),
            to < self@.stacks.len(),
        ensures
            illegal == !self@.is_legal(from as int, to as int),
    {
        (from == to) || self.move_requires_more_room(from, to) || self.stack_tops_mismatch(
            from,
            to,
        )
    }

    /// Whether the top run of `from` may go onto `to`. No stack may give to
    /// itself.
    pub fn move_is_legal(&self, from: usize, to: usize) -> (legal: bool)
        requires
            self.well_formed(),
            from < self@.stacks.len(),
            to < self@.stacks.len(),
        ensures
            legal == self@.is_legal(from as int, to as int),
            from == to ==> !legal,
    {
        !self.move_is_illegal(from, to)
    }

    /// Whether `to` lacks the room for the top run of `from`.
    pub fn move_requires_more_room(&self, from: usize, to: usize) -> (short: bool)
        requires
            self.well_formed(),
            from < self@.stacks.len(),
            to < self@.stacks.len(),
        ensures
            short == needs_more_room(self@.stacks, from as int, to as int),
    {
        self.stacks[to].get_vacancy() < self.stacks[from].get_top_unit_quantity()
    }

    /// Whether the tops of `from` and `to` are of different kinds, neither
    /// stack being empty.
    pub fn stack_tops_mismatch(&self, from: usize, to: usize) -> (mismatch: bool)
        requires
            self.well_formed(),
            from < self@.stacks.len(),
            to < self@.stacks.len(),
        ensures
            mismatch == tops_mismatch(self@.stacks, from as int, to as int),
    {
        let immigrant_id: KindId = self.stacks[from].get_top_unit_id();
        let resident_id: KindId = self.stacks[to].get_top_unit_id();
        let tops_match: bool = (immigrant_id == resident_id) || immigrant_id.is_empty()
            || resident_id.is_empty();
        !tops_match
    }

    /// Whether the game is stuck: no move from any stack to any other is
    /// legal.
    pub fn no_legal_moves(&self) -> (stuck: bool)
        requires
            self.well_formed(),
        ensures
            stuck == !has_legal_move(self@.stacks),
    {
        let count: usize = self.stacks.len();
        let mut from: usize = 0;
        while from < count
            invariant
                from <= count,
                count == self@.stacks.len(),
                self.well_formed(),
                forall|f: int, t: int|
                    0 <= f < from && 0 <= t < count ==> !#[trigger] is_legal(self@.stacks, f, t),
            decreases count - from,
        {
            let mut to: usize = 0;
            while to < count
                invariant
                    from < count,
                    to <= count,
                    count == self@.stacks.len(),
                    self.well_formed(),
                    forall|t: int| 0 <= t < to ==> !#[trigger] is_legal(self@.stacks, from as int, t),
                decreases count - to,
            {
                if self.move_is_legal(from, to) {
                    return false;
                }
                to += 1;
            }
            from += 1;
        }
        true
    }

    /// Records a move in the ledger.
    fn ledge(&mut self, from: usize, to: usize, kind: Kind, quantity: usize)
        ensures
            final(self).ledger@ == old(self).ledger@.push(Entry { from, to, kind, quantity }),
            final(self).stacks == old(self).stacks,
            final(self).initial == old(self).initial,
            final(self).census == old(self).census,
            final(self).kinds_status == old(self).kinds_status,
            final(self).turn == old(self).turn,
            final(self).stage_name == old(self).stage_name,
    {
        self.ledger.push(Entry { from, to, kind, quantity });
    }

    /// After a legal move: looks at the giving and the receiving stack, and
    /// counts the turn unless the stage is now complete.
    fn update_state(&mut self, from: usize, to: usize)
        requires
            old(self).tallied(),
            from < old(self).stacks@.len(),
            to < old(self).stacks@.len(),
            old(self).turn < usize::MAX,
        ensures
            final(self).tallied(),
            final(self).kinds_status == refreshed(
                refreshed(
                    old(self).kinds_status,
                    old(self).census@,
                    board_of(old(self).stacks@)[from as int],
                ),
                old(self).census@,
                board_of(old(self).stacks@)[to as int],
            ),
            final(self).turn == if final(self)@.stage_complete() {
                old(self).turn
            } else {
                (old(self).turn + 1) as usize
            },
            final(self).stacks == old(self).stacks,
            final(self).initial == old(self).initial,
            final(self).census == old(self).census,
            final(self).stage_name == old(self).stage_name,
            final(self).ledger == old(self).ledger,
    {
        self.update_kind_status(from);
        self.update_kind_status(to);
        let complete: bool = self.stage_complete();
        self.turn = self.turn + if complete {
            0
        } else {
            1
        };
    }

    /// Carries up to `limit_` units from the top of `from` onto `to`. With
    /// no limit this is a legal move: the whole top run goes, the move is
    /// recorded and the turn counted. With a limit it is a move taken back:
    /// neither recorded nor counted.
    fn move_units(&mut self, from: usize, to: usize, limit_: Option<usize>)
        requires
            old(self).steady(),
            can_carry(old(self)@.stacks, from as int, to as int, limit_),
            limit_ is None ==> old(self).turn < usize::MAX,
        ensures
            final(self).steady(),
            limit_ is Some ==> final(self)@ == old(self)@.after_carry(
                from as int,
                to as int,
                limit_,
            ),
            limit_ is None ==> final(self)@ == old(self)@.after_move(from as int, to as int),
    {
        let ghost before = board_of(self.stacks@);
        let ghost after = carried(before, from as int, to as int, limit_);
        proof {
            lemma_board_of(self.stacks@);
        }
        let kind: Kind = self.stacks[from].pop_residents_with_limit(limit_);
        let quantity: usize = kind.get_quantity();
        self.stacks[to].push_immigrants(kind);
        proof {
            assert(board_of(self.stacks@) =~= after);
            lemma_carried(before, from as int, to as int, limit_, EMPTY_SLOT_VALUE);
            assert forall|id: KindId| units_of(self.census@, id) == units_in(after, id) by {
                lemma_carried(before, from as int, to as int, limit_, id);
                assert(units_of(self.census@, id) == units_in(before, id));
            }
            lemma_carry_sound(old(self)@, from as int, to as int, limit_);
        }
        match limit_ {
            Some(_) => {
                self.update_kind_status(from);
                self.update_kind_status(to);
            },
            None => {
                self.update_state(from, to);
                self.ledge(from, to, kind, quantity);
            },
        }
    }

    /// Makes the move from `from` to `to` if the rule allows it: the whole
    /// top run of `from` goes onto `to`, the move is recorded, and the turn
    /// is counted unless the move completes the stage. A move against the
    /// rule is refused and changes nothing.
    pub fn move_legally(&mut self, from: usize, to: usize) -> (outcome: Result<(), InvalidMove>)
        requires
            old(self).well_formed(),
            from < old(self)@.stacks.len(),
            to < old(self)@.stacks.len(),
            old(self)@.turn < usize::MAX,
        ensures
            final(self).well_formed(),
            outcome == crate::game::board::verdict(old(self)@.stacks, from as int, to as int),
            outcome is Ok <==> old(self)@.is_legal(from as int, to as int),
            outcome is Ok ==> final(self)@ == old(self)@.after_move(from as int, to as int),
            outcome is Err ==> *final(self) == *old(self),
            old(self)@.exact() ==> final(self)@.exact(),
    {
        if from == to {
            return Err(InvalidMove::SameStack);
        }
        if self.move_requires_more_room(from, to) {
            return Err(InvalidMove::NotEnoughRoom);
        }
        if self.stack_tops_mismatch(from, to) {
            return Err(InvalidMove::TopMismatch);
        }
        proof {
            lemma_legal_can_carry(self@.stacks, from as int, to as int);
            lemma_move_wf(self@, from as int, to as int);
            if self@.exact() {
                lemma_move_exact(self@, from as int, to as int);
            }
        }
        self.move_units(from, to, None);
        Ok(())
    }

    /// Carries exactly `quantity` units from the top run of `from` onto
    /// `to`, whatever the rule says. Nothing is recorded.
    fn move_forcefully(&mut self, from: usize, to: usize, quantity: usize)
        requires
            old(self).steady(),
            can_carry(old(self)@.stacks, from as int, to as int, Some(quantity)),
        ensures
            final(self).steady(),
            final(self)@ == old(self)@.after_carry(from as int, to as int, Some(quantity)),
    {
        self.move_units(from, to, Some(quantity));
    }

    /// Whether the stage is complete: every kind has its bit set.
    pub fn stage_complete(&self) -> (complete: bool)
        requires
            self@.census.len() <= MAX_KINDS,
        ensures
            complete == self@.stage_complete(),
    {
        proof {
            lemma_full_mask(self.census@.len() as int, 0);
        }
        let kinds: usize = self.census.len();
        self.kinds_status == (1u64 << (kinds as u64)) - 1
    }

    /// Takes the newest move back: its units return to the stack they came
    /// from, and the move leaves the ledger. Without a move to take back,
    /// nothing happens.
    pub fn undo_move(&mut self)
        requires
            old(self).well_formed(),
        ensures
            final(self).well_formed(),
            final(self)@ == old(self)@.after_undo(),
    {
        let moves: usize = self.ledger.len();
        if moves > 0 {
            let entry: Entry = self.ledger[moves - 1];
            let (from, to, quantity) = (entry.to, entry.from, entry.quantity);
            proof {
                lemma_undo_wf(self@);
            }
            self.ledger.pop();
            self.move_forcefully(from, to, quantity);
        }
    }

    /// Sets the game back to the stacks it was made from: no move
    /// recorded, the first turn, the mask worked out anew.
    pub fn reset(&mut self)
        requires
            old(self).well_formed(),
        ensures
            final(self).well_formed(),
            final(self)@ == old(self)@.after_reset(),
            final(self)@.exact(),
    {
        self.stacks = clone_stacks(&self.initial);
        self.ledger = Vec::new();
        self.turn = 1;
        self.recompute_kinds_status();
        proof {
            crate::game::model::lemma_reset_wf(old(self)@);
            lemma_fresh_exact(old(self)@.initial, old(self)@.census, old(self)@.name);
            assert(self@.ledger =~= Seq::<Entry>::empty());
        }
    }

    /// The number of the turn, from 1.
    pub fn get_turn(&self) -> (turn: usize)
        ensures
            turn == self@.turn,
    {
        self.turn
    }

    /// The completion mask: bit `i` is the bit of the kind with index `i`.
    pub fn get_kinds_status(&self) -> (mask: u64)
        ensures
            mask == self@.mask,
    {
        self.kinds_status
    }

    /// The name of the stage.
    pub fn get_stage_name(&self) -> (name: &String)
        ensures
            name@ == self@.name,
    {
        &self.stage_name
    }

    /// The stacks, in their order.
    pub fn get_stacks(&self) -> (stacks: &Vec<Stack>)
        ensures
            board_of(stacks@) == self@.stacks,
            self.well_formed() ==> stacks_well_formed(stacks@),
    {
        &self.stacks
    }

    /// The moves made and not taken back, oldest first.
    pub fn get_ledger(&self) -> (ledger: &Vec<Entry>)
        ensures
            ledger@ == self@.ledger,
    {
        &self.ledger
    }

    /// The kinds of the game in ascending order of id, each with the number
    /// of its units.
    pub fn get_census(&self) -> (census: &Vec<Kind>)
        ensures
            census@ == self@.census,
    {
        &self.census
    }
}

} // verus!
