//! The stages of the game, and games made from rows of slots.

use vstd::prelude::*;
use crate::game::board::{
    all_units, board_wf, lemma_units_in_bounded, lemma_units_in_some_stack, units_in,
};
use crate::game::census::{census_of, kinds_on, MAX_KINDS};
use crate::game::model::GameView;
use crate::game::stack::kind::{Kind, KindId, EMPTY_SLOT_VALUE};
use crate::game::stack::runs::{
    compressed, lemma_counted_has_run, lemma_pushed, merged, proper, pushed, total_quantity,
};
use crate::game::stack::{Stack, StackView};
use crate::game::{board_of, name_of, stacks_well_formed, Game};

verus! {

/// The rows as sequences.
pub open spec fn rows_of(vecs: Seq<Vec<usize>>) -> Seq<Seq<KindId>> {
    vecs.map_values(|row: Vec<usize>| row@)
}

/// The board that rows of slots describe: one stack for each row, as
/// large as the row is long, holding the row's kinds in runs.
pub open spec fn board_of_rows(rows: Seq<Seq<KindId>>) -> Seq<StackView> {
    rows.map_values(|row: Seq<KindId>| StackView { capacity: row.len(), runs: compressed(row) })
}

/// The ids from 1 to `bound`.
pub open spec fn ids_upto(bound: nat) -> Set<KindId> {
    Set::new(|id: KindId| 1 <= id <= bound)
}

/// The rows are at most `width` long and hold no id above `bound`.
pub open spec fn rows_within(rows: Seq<Seq<KindId>>, width: nat, bound: nat) -> bool {
    &&& forall|i: int| 0 <= i < rows.len() ==> (#[trigger] rows[i]).len() <= width
    &&& forall|i: int, k: int|
        0 <= i < rows.len() && 0 <= k < rows[i].len() ==> #[trigger] rows[i][k] <= bound
}

/// The runs of a row are proper and merged, hold no more units than the
/// row has slots, and no id that the row does not hold.
pub proof fn lemma_compressed(ids: Seq<KindId>, bound: nat)
    requires
        ids.len() <= usize::MAX,
        forall|k: int| 0 <= k < ids.len() ==> #[trigger] ids[k] <= bound,
    ensures
        proper(compressed(ids)),
        merged(compressed(ids)),
        total_quantity(compressed(ids)) <= ids.len(),
        forall|r: int|
            0 <= r < compressed(ids).len() ==> (#[trigger] compressed(ids)[r]).id <= bound,
    decreases ids.len(),
{
    if ids.len() > 0 {
        let rest = ids.drop_last();
        let unit = Kind { id: ids.last(), quantity: 1 };
        assert forall|k: int| 0 <= k < rest.len() implies #[trigger] rest[k] <= bound by {
            assert(rest[k] == ids[k]);
        }
        lemma_compressed(rest, bound);
        lemma_pushed(compressed(rest), unit, EMPTY_SLOT_VALUE);
        let before = compressed(rest);
        let after = compressed(ids);
        assert(after == pushed(before, unit));
        assert(ids[ids.len() - 1] <= bound);
        assert forall|r: int| 0 <= r < after.len() implies (#[trigger] after[r]).id <= bound by {
            if r < before.len() {
                assert(before[r].id <= bound);
            }
        }
    }
}

/// There are `bound` ids from 1 to `bound`.
pub proof fn lemma_ids_upto(bound: nat)
    requires
        bound <= usize::MAX,
    ensures
        ids_upto(bound).finite(),
        ids_upto(bound).len() == bound,
    decreases bound,
{
    if bound == 0 {
        assert(ids_upto(bound) =~= Set::<KindId>::empty());
    } else {
        lemma_ids_upto((bound - 1) as nat);
        assert(ids_upto(bound) =~= ids_upto((bound - 1) as nat).insert(bound as usize));
    }
}

/// A board of `width`-bounded stacks holds no more units than its stacks
/// have slots.
pub proof fn lemma_all_units(stacks: Seq<StackView>, width: nat)
    requires
        board_wf(stacks),
        forall|s: int| 0 <= s < stacks.len() ==> (#[trigger] stacks[s]).capacity <= width,
    ensures
        all_units(stacks) <= stacks.len() * width,
    decreases stacks.len(),
{
    if stacks.len() > 0 {
        let rest = stacks.drop_last();
        assert forall|s: int| 0 <= s < rest.len() implies (#[trigger] rest[s]).wf() by {
            assert(stacks[s].wf());
        }
        assert forall|s: int| 0 <= s < rest.len() implies (#[trigger] rest[s]).capacity
            <= width by {
            assert(stacks[s].capacity <= width);
        }
        lemma_all_units(rest, width);
        assert(stacks[stacks.len() - 1].wf());
        assert(stacks[stacks.len() - 1].capacity <= width);
        assert(stacks.len() * width == rest.len() * width + width) by (nonlinear_arith)
            requires
                stacks.len() == rest.len() + 1,
        ;
    } else {
        assert(stacks.len() * width == 0) by (nonlinear_arith)
            requires
                stacks.len() == 0,
        ;
    }
}

/// Rows of bounded width and bounded ids make a board that a game can be
/// played on: its units can be counted and its kinds told apart.
pub proof fn lemma_rows_fit(rows: Seq<Seq<KindId>>, width: nat, bound: nat)
    requires
        rows_within(rows, width, bound),
        rows.len() * width <= usize::MAX,
        width <= usize::MAX,
        bound <= MAX_KINDS,
    ensures
        board_wf(board_of_rows(rows)),
        forall|id: KindId| units_in(board_of_rows(rows), id) <= usize::MAX,
        kinds_on(board_of_rows(rows)).finite(),
        kinds_on(board_of_rows(rows)).len() <= MAX_KINDS,
{
    let board = board_of_rows(rows);
    assert forall|s: int| 0 <= s < board.len() implies (#[trigger] board[s]).wf()
        && board[s].capacity <= width by {
        assert(rows[s].len() <= width);
        assert forall|k: int| 0 <= k < rows[s].len() implies #[trigger] rows[s][k] <= bound by {}
        lemma_compressed(rows[s], bound);
    }
    lemma_all_units(board, width);
    assert forall|id: KindId| units_in(board, id) <= usize::MAX by {
        lemma_units_in_bounded(board, id);
    }
    lemma_ids_upto(bound);
    assert forall|id: KindId| kinds_on(board).contains(id) implies ids_upto(bound).contains(
        id,
    ) by {
        let s = lemma_units_in_some_stack(board, id);
        let r = lemma_counted_has_run(board[s].runs, id);
        assert(rows[s].len() <= width);
        assert forall|k: int| 0 <= k < rows[s].len() implies #[trigger] rows[s][k] <= bound by {}
        lemma_compressed(rows[s], bound);
        assert(compressed(rows[s])[r].id <= bound);
        assert(compressed(rows[s])[r].id != EMPTY_SLOT_VALUE);
    }
    vstd::set_lib::lemma_len_subset(kinds_on(board), ids_upto(bound));
}

/// A copy of a row.
fn copy_row(row: &Vec<usize>) -> (copy: Vec<usize>)
    ensures
        copy@ == row@,
{
    let mut copy: Vec<usize> = Vec::new();
    let mut k: usize = 0;
    while k < row.len()
        invariant
            k <= row.len(),
            copy@ == row@.take(k as int),
        decreases row.len() - k,
    {
        copy.push(row[k]);
        assert(row@.take(k as int).push(row@[k as int]) =~= row@.take(k + 1));
        k += 1;
    }
    assert(row@.take(k as int) =~= row@);
    copy
}

/// The number of stages.
pub const STAGE_COUNT: usize = 3;

/// The rows of the stage with the given number, from 1: each row a stack,
/// bottom first, 0 for a free slot.
pub open spec fn stage_rows(number: int) -> Seq<Seq<KindId>> {
    if number == 1 {
        seq![
            seq![2, 1, 0],
            seq![1, 2],
            seq![2, 0],
        ]
    } else if number == 2 {
        seq![
            seq![1, 2, 3, 0, 0],
            seq![4, 4, 3, 3, 5],
            seq![6, 7, 8, 2, 8],
            seq![9, 7, 7, 0, 0],
            seq![2, 7, 1, 10, 0],
            seq![9, 4, 4, 3, 9],
            seq![7, 3, 10, 9, 0],
            seq![0, 0, 0, 0, 0],
            seq![6, 6, 1, 0, 0],
            seq![4, 8, 6, 0, 0],
            seq![8, 5, 9, 0, 0],
            seq![10, 10, 8, 6, 1],
            seq![2, 5, 1, 10, 0],
            seq![5, 2, 5, 0, 0],
        ]
    } else {
        seq![
            seq![1, 2, 3, 0, 0],
            seq![4, 4, 3, 3, 5],
            seq![6, 7, 8, 2, 8],
            seq![9, 7, 7, 0, 0],
            seq![2, 7, 1, 10, 0],
            seq![9, 4, 4, 3, 9],
            seq![7, 3, 10, 9, 0],
            seq![6, 6, 1, 0, 0],
            seq![4, 8, 6],
            seq![8, 5, 9],
            seq![10, 10, 8, 6, 1],
            seq![2, 5, 1, 10, 0],
            seq![5, 2, 5],
        ]
    }
}

/// The name of the stage with the given number, from 1.
pub open spec fn stage_name(number: int) -> Seq<char> {
    if number == 1 {
        "Stage - 1"@
    } else if number == 2 {
        "Stage - 2"@
    } else {
        "Stage - 3"@
    }
}

/// The stages hold no id above 10 in rows of at most 5 slots.
pub proof fn lemma_stage_rows(number: int)
    requires
        1 <= number <= 3,
    ensures
        rows_within(stage_rows(number), 5, 10),
        stage_rows(number).len() <= 14,
{
    let rows = stage_rows(number);
    assert forall|i: int| 0 <= i < rows.len() implies (#[trigger] rows[i]).len() <= 5 by {}
    assert forall|i: int, k: int|
        0 <= i < rows.len() && 0 <= k < rows[i].len() implies #[trigger] rows[i][k] <= 10 by {}
}

/// The rows of the large layout with a free stack.
pub open spec fn game_0_rows() -> Seq<Seq<KindId>> {
    seq![
        seq![1, 2, 3, 0, 0],
        seq![5, 5, 3, 3, 4],
        seq![6, 7, 8, 2, 8],
        seq![9, 7, 7, 0, 0],
        seq![2, 7, 1, 10, 0],
        seq![9, 5, 5, 3, 9],
        seq![7, 3, 10, 9, 0],
        seq![0, 0, 0, 0, 0],
        seq![6, 6, 1, 0, 0],
        seq![5, 8, 6, 0, 0],
        seq![8, 4, 9, 0, 0],
        seq![10, 10, 8, 6, 1],
        seq![2, 4, 1, 10, 0],
        seq![4, 2, 4, 0, 0],
    ]
}

/// The rows of the large layout without a free stack.
pub open spec fn game_9_rows() -> Seq<Seq<KindId>> {
    seq![
        seq![1, 2, 3, 0, 0],
        seq![5, 5, 3, 3, 4],
        seq![6, 7, 8, 2, 8],
        seq![9, 7, 7, 0, 0],
        seq![2, 7, 1, 10, 0],
        seq![9, 5, 5, 3, 9],
        seq![7, 3, 10, 9, 0],
        seq![6, 6, 1, 0, 0],
        seq![5, 8, 6],
        seq![8, 4, 9],
        seq![10, 10, 8, 6, 1],
        seq![2, 4, 1, 10, 0],
        seq![4, 2, 4],
    ]
}

/// The two large layouts hold no id above 10 in rows of at most 5 slots.
pub proof fn lemma_layout_rows()
    ensures
        rows_within(game_0_rows(), 5, 10),
        game_0_rows().len() == 14,
        rows_within(game_9_rows(), 5, 10),
        game_9_rows().len() == 13,
{
    let first = game_0_rows();
    assert forall|i: int| 0 <= i < first.len() implies (#[trigger] first[i]).len() <= 5 by {}
    assert forall|i: int, k: int|
        0 <= i < first.len() && 0 <= k < first[i].len() implies #[trigger] first[i][k] <= 10 by {}
    let second = game_9_rows();
    assert forall|i: int| 0 <= i < second.len() implies (#[trigger] second[i]).len() <= 5 by {}
    assert forall|i: int, k: int|
        0 <= i < second.len() && 0 <= k < second[i].len() implies #[trigger] second[i][k]
        <= 10 by {}
}

/// The rows of a stage.
fn stage_vecs(number: usize) -> (vecs: Vec<Vec<usize>>)
    requires
        1 <= number <= 3,
    ensures
        rows_of(vecs@) == stage_rows(number as int),
{
    let vecs: Vec<Vec<usize>> = if number == 1 {
        vec![
            vec![2, 1, 0],
            vec![1, 2],
            vec![2, 0],
        ]
    } else if number == 2 {
        vec![
            vec![1, 2, 3, 0, 0],
            vec![4, 4, 3, 3, 5],
            vec![6, 7, 8, 2, 8],
            vec![9, 7, 7, 0, 0],
            vec![2, 7, 1, 10, 0],
            vec![9, 4, 4, 3, 9],
            vec![7, 3, 10, 9, 0],
            vec![0, 0, 0, 0, 0],
            vec![6, 6, 1, 0, 0],
            vec![4, 8, 6, 0, 0],
            vec![8, 5, 9, 0, 0],
            vec![10, 10, 8, 6, 1],
            vec![2, 5, 1, 10, 0],
            vec![5, 2, 5, 0, 0],
        ]
    } else {
        vec![
            vec![1, 2, 3, 0, 0],
            vec![4, 4, 3, 3, 5],
            vec![6, 7, 8, 2, 8],
            vec![9, 7, 7, 0, 0],
            vec![2, 7, 1, 10, 0],
            vec![9, 4, 4, 3, 9],
            vec![7, 3, 10, 9, 0],
            vec![6, 6, 1, 0, 0],
            vec![4, 8, 6],
            vec![8, 5, 9],
            vec![10, 10, 8, 6, 1],
            vec![2, 5, 1, 10, 0],
            vec![5, 2, 5],
        ]
    };
    assert(rows_of(vecs@) =~~= stage_rows(number as int));
    vecs
}

/// The name of a stage.
fn stage_label(number: usize) -> (name: String)
    requires
        1 <= number <= 3,
    ensures
        name@ == stage_name(number as int),
{
    if number == 1 {
        "Stage - 1".to_string()
    } else if number == 2 {
        "Stage - 2".to_string()
    } else {
        "Stage - 3".to_string()
    }
}

impl Game {
    /// One stack for each row of slots.
    pub fn vecs_to_stacks(vecs: Vec<Vec<usize>>) -> (stacks: Vec<Stack>)
        ensures
            stacks_well_formed(stacks@),
            board_of(stacks@) == board_of_rows(rows_of(vecs@)),
    {
        let mut stacks: Vec<Stack> = Vec::new();
        let mut i: usize = 0;
        while i < vecs.len()
            invariant
                i <= vecs.len(),
                stacks@.len() == i,
                stacks_well_formed(stacks@),
                forall|s: int|
                    0 <= s < i ==> (#[trigger] stacks@[s])@ == (StackView {
                        capacity: vecs@[s]@.len(),
                        runs: compressed(vecs@[s]@),
                    }),
            decreases vecs.len() - i,
        {
            let stack: Stack = Stack::new_from_vec(copy_row(&vecs[i]));
            stacks.push(stack);
            i += 1;
        }
        assert(board_of(stacks@) =~= board_of_rows(rows_of(vecs@)));
        stacks
    }

    /// A game over the board that rows of slots describe.
    pub fn new_from_vecs(vecs: Vec<Vec<usize>>, stage_name: Option<String>) -> (game: Game)
        requires
            forall|id: KindId| units_in(board_of_rows(rows_of(vecs@)), id) <= usize::MAX,
            kinds_on(board_of_rows(rows_of(vecs@))).len() <= MAX_KINDS,
        ensures
            game.well_formed(),
            census_of(game@.census, board_of_rows(rows_of(vecs@))),
            game@ == GameView::fresh(
                board_of_rows(rows_of(vecs@)),
                game@.census,
                name_of(stage_name),
            ),
    {
        Game::new(Game::vecs_to_stacks(vecs), stage_name)
    }
    /// The stages of the game in their order, each a game on which nothing
    /// has been played.
    pub fn get_stages() -> (stages: Vec<Game>)
        ensures
            stages@.len() == STAGE_COUNT,
            forall|k: int|
                0 <= k < STAGE_COUNT ==> {
                    &&& (#[trigger] stages@[k]).well_formed()
                    &&& census_of(stages@[k]@.census, board_of_rows(stage_rows(k + 1)))
                    &&& stages@[k]@ == GameView::fresh(
                        board_of_rows(stage_rows(k + 1)),
                        stages@[k]@.census,
                        stage_name(k + 1),
                    )
                },
    {
        let mut stages: Vec<Game> = Vec::new();
        let mut ind: usize = 0;
        while ind < STAGE_COUNT
            invariant
                ind <= STAGE_COUNT,
                stages@.len() == ind,
                forall|k: int|
                    0 <= k < ind ==> {
                        &&& (#[trigger] stages@[k]).well_formed()
                        &&& census_of(stages@[k]@.census, board_of_rows(stage_rows(k + 1)))
                        &&& stages@[k]@ == GameView::fresh(
                            board_of_rows(stage_rows(k + 1)),
                            stages@[k]@.census,
                            stage_name(k + 1),
                        )
                    },
            decreases STAGE_COUNT - ind,
        {
            let vec_stacks: Vec<Vec<usize>> = stage_vecs(ind + 1);
            let name: String = stage_label(ind + 1);
            proof {
                lemma_stage_rows(ind + 1);
                lemma_rows_fit(stage_rows(ind + 1), 5, 10);
            }
            stages.push(Game::new_from_vecs(vec_stacks, Some(name)));
            ind += 1;
        }
        stages
    }
    /// A game over the large layout with a free stack.
    pub fn game_0() -> (game: Game)
        ensures
            game.well_formed(),
            census_of(game@.census, board_of_rows(game_0_rows())),
            game@ == GameView::fresh(
                board_of_rows(game_0_rows()),
                game@.census,
                Seq::<char>::empty(),
            ),
    {
        let vec_stacks: Vec<Vec<usize>> =
            vec![
                vec![1, 2, 3, 0, 0],
                vec![5, 5, 3, 3, 4],
                vec![6, 7, 8, 2, 8],
                vec![9, 7, 7, 0, 0],
                vec![2, 7, 1, 10, 0],
                vec![9, 5, 5, 3, 9],
                vec![7, 3, 10, 9, 0],
                vec![0, 0, 0, 0, 0],
                vec![6, 6, 1, 0, 0],
                vec![5, 8, 6, 0, 0],
                vec![8, 4, 9, 0, 0],
                vec![10, 10, 8, 6, 1],
                vec![2, 4, 1, 10, 0],
                vec![4, 2, 4, 0, 0],
            ];
        proof {
            assert(rows_of(vec_stacks@) =~~= game_0_rows());
            lemma_layout_rows();
            lemma_rows_fit(game_0_rows(), 5, 10);
        }
        Game::new_from_vecs(vec_stacks, None)
    }

    /// A game over the large layout without a free stack.
    pub fn game_9() -> (game: Game)
        ensures
            game.well_formed(),
            census_of(game@.census, board_of_rows(game_9_rows())),
            game@ == GameView::fresh(
                board_of_rows(game_9_rows()),
                game@.census,
                Seq::<char>::empty(),
            ),
    {
        let vec_stacks: Vec<Vec<usize>> =
            vec![
                vec![1, 2, 3, 0, 0],
                vec![5, 5, 3, 3, 4],
                vec![6, 7, 8, 2, 8],
                vec![9, 7, 7, 0, 0],
                vec![2, 7, 1, 10, 0],
                vec![9, 5, 5, 3, 9],
                vec![7, 3, 10, 9, 0],
                vec![6, 6, 1, 0, 0],
                vec![5, 8, 6],
                vec![8, 4, 9],
                vec![10, 10, 8, 6, 1],
                vec![2, 4, 1, 10, 0],
                vec![4, 2, 4],
            ];
        proof {
            assert(rows_of(vec_stacks@) =~~= game_9_rows());
            lemma_layout_rows();
            lemma_rows_fit(game_9_rows(), 5, 10);
        }
        Game::new_from_vecs(vec_stacks, None)
    }
}

} // verus!
