use vstd::prelude::*;
use std::collections::HashSet;

use crate::board::Board;
use crate::constraints::{
    choice_col, choice_index, choice_row, choice_val, grid_cell, lemma_choice_fields,
    lemma_choice_parts,
};

verus! {

broadcast use vstd::std_specs::hash::group_hash_axioms;

/// Encodes placing digit `value` at (`row`, `col`) as a choice index in
/// [0, 729).
pub fn encode(row: usize, col: usize, value: i32) -> (r: usize)
    requires
        row < 9,
        col < 9,
        1 <= value <= 9,
    ensures
        r == choice_index(row as int, col as int, value as int),
        r < 729,
{
    row * 81 + col * 9 + (value as usize - 1)
}

/// Decodes a choice index back into its row, column and digit: the exact
/// inverse of `encode`. An index outside [0, 729) is a caller error.
pub fn decode(choice: usize) -> (r: (usize, usize, i32))
    requires
        choice < 729,
    ensures
        r.0 == choice_row(choice as int),
        r.1 == choice_col(choice as int),
        r.2 == choice_val(choice as int),
        r.0 < 9,
        r.1 < 9,
        1 <= r.2 <= 9,
        choice_index(r.0 as int, r.1 as int, r.2 as int) == choice,
{
    proof {
        lemma_choice_parts(choice as int);
    }
    let row = choice / 81;
    let col = (choice % 81) / 9;
    let value = (choice % 9 + 1) as i32;
    (row, col, value)
}

/// The set of choices a grid's filled cells stand for, restricted to cells
/// whose linear index is below `n`.
pub open spec fn seed_choices_upto(b: Seq<i32>, n: int) -> Set<usize> {
    Set::new(
        |ch: usize|
            ch < 729 && choice_row(ch as int) * 9 + choice_col(ch as int) < n && grid_cell(
                b,
                choice_row(ch as int),
                choice_col(ch as int),
            ) == choice_val(ch as int),
    )
}

/// The set of choices a grid's filled cells stand for: one choice per
/// non-empty cell, none for empty cells.
pub open spec fn seed_choices(b: Seq<i32>) -> Set<usize> {
    seed_choices_upto(b, 81)
}

/// Collects the encoded choice of every non-empty cell of the board; empty
/// cells (digit 0) are skipped.
pub fn map_board_to_solution_set(board: &Board) -> (r: HashSet<usize>)
    requires
        board.wf(),
    ensures
        r@ == seed_choices(board@),
{
    let mut solution_set: HashSet<usize> = HashSet::new();
    let mut row_idx: usize = 0;
    while row_idx < 9
        invariant
            row_idx <= 9,
            board.wf(),
            solution_set@ == seed_choices_upto(board@, row_idx * 9),
        decreases 9 - row_idx,
    {
        let mut col_idx: usize = 0;
        while col_idx < 9
            invariant
                row_idx < 9,
                col_idx <= 9,
                board.wf(),
                solution_set@ == seed_choices_upto(board@, row_idx * 9 + col_idx),
            decreases 9 - col_idx,
        {
            let ghost n0 = row_idx * 9 + col_idx;
            let value = board.get(col_idx, row_idx);
            if value != 0 {
                let ci = encode(row_idx, col_idx, value);
                solution_set.insert(ci);
                proof {
                    lemma_choice_fields(row_idx as int, col_idx as int, value as int);
                    assert forall|ch: usize|
                        seed_choices_upto(board@, n0 + 1).contains(ch)
                            <==> seed_choices_upto(board@, n0).insert(ci).contains(ch) by {
                        if ch < 729 {
                            lemma_choice_parts(ch as int);
                        }
                    }
                    assert(seed_choices_upto(board@, n0 + 1) =~= seed_choices_upto(
                        board@,
                        n0,
                    ).insert(ci));
                }
            } else {
                proof {
                    assert forall|ch: usize|
                        seed_choices_upto(board@, n0 + 1).contains(ch)
                            <==> seed_choices_upto(board@, n0).contains(ch) by {
                        if ch < 729 {
                            lemma_choice_parts(ch as int);
                        }
                    }
                    assert(seed_choices_upto(board@, n0 + 1) =~= seed_choices_upto(board@, n0));
                }
            }
            col_idx += 1;
        }
        row_idx += 1;
    }
    solution_set
}

/// Whether some member of `s` below `n` is a choice for cell `i` (cells
/// numbered row by row, 0 through 80).
pub open spec fn covers_cell_below(s: Set<usize>, i: int, n: int) -> bool {
    exists|ch: usize|
        #[trigger] s.contains(ch) && ch < n && choice_row(ch as int) * 9 + choice_col(ch as int)
            == i
}

/// Whether some member of `s` is a choice for cell `i`.
pub open spec fn covers_cell(s: Set<usize>, i: int) -> bool {
    covers_cell_below(s, i, 729)
}

/// Decodes each choice in the set and writes its digit onto a fresh grid,
/// in ascending index order. A cell no choice decodes to stays empty; if
/// several choices decode to the same cell, the last one applied wins.
pub fn map_solution_set_to_board(solution_set: &HashSet<usize>) -> (r: Board)
    requires
        forall|ch: usize| solution_set@.contains(ch) ==> ch < 729,
    ensures
        r.wf(),
        forall|i: int| 0 <= i < 81 ==> ((r@[i] == 0) <==> !covers_cell(solution_set@, i)),
        forall|i: int|
            0 <= i < 81 && r@[i] != 0 ==> solution_set@.contains(
                (i * 9 + (r@[i] as int) - 1) as usize,
            ),
{
    let mut board = Board::new();
    let mut ch: usize = 0;
    while ch < 729
        invariant
            ch <= 729,
            board.wf(),
            forall|ch2: usize| solution_set@.contains(ch2) ==> ch2 < 729,
            forall|i: int|
                0 <= i < 81 ==> ((board@[i] == 0) <==> !covers_cell_below(
                    solution_set@,
                    i,
                    ch as int,
                )),
            forall|i: int|
                0 <= i < 81 && board@[i] != 0 ==> solution_set@.contains(
                    (i * 9 + (board@[i] as int) - 1) as usize,
                ),
        decreases 729 - ch,
    {
        if solution_set.contains(&ch) {
            let (row, col, value) = decode(ch);
            let ghost i0 = row * 9 + col;
            board.set(col, row, value);
            proof {
                lemma_choice_parts(ch as int);
                assert(ch == i0 * 9 + (value as int) - 1);
                assert(covers_cell_below(solution_set@, i0 as int, ch as int + 1));
                assert forall|i: int|
                    0 <= i < 81 && i != i0 implies (covers_cell_below(
                    solution_set@,
                    i,
                    ch as int + 1,
                ) <==> covers_cell_below(solution_set@, i, ch as int)) by {
                    if covers_cell_below(solution_set@, i, ch as int + 1) {
                        let w = choose|w: usize|
                            #[trigger] solution_set@.contains(w) && w < ch as int + 1
                                && choice_row(w as int) * 9 + choice_col(w as int) == i;
                        assert(w != ch);
                        assert(covers_cell_below(solution_set@, i, ch as int));
                    }
                }
            }
        } else {
            proof {
                assert forall|i: int| 0 <= i < 81 implies (covers_cell_below(
                    solution_set@,
                    i,
                    ch as int + 1,
                ) <==> covers_cell_below(solution_set@, i, ch as int)) by {
                    if covers_cell_below(solution_set@, i, ch as int + 1) {
                        let w = choose|w: usize|
                            #[trigger] solution_set@.contains(w) && w < ch as int + 1
                                && choice_row(w as int) * 9 + choice_col(w as int) == i;
                        assert(w != ch);
                        assert(covers_cell_below(solution_set@, i, ch as int));
                    }
                }
            }
        }
        ch += 1;
    }
    board
}

} // verus!
