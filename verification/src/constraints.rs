use vstd::prelude::*;
use vstd::arithmetic::div_mod::{
    lemma_fundamental_div_mod_converse_div, lemma_fundamental_div_mod_converse_mod,
};

use crate::board::Board;

verus! {

/// Number of possible digit placements: 9 rows times 9 columns times 9 digits.
pub const NUM_CHOICES: usize = 729;

/// Number of constraint columns: four families of 81 each.
pub const NUM_CONSTRAINTS: usize = 324;

/// The grid row a choice places its digit in.
pub open spec fn choice_row(choice: int) -> int {
    choice / 81
}

/// The grid column a choice places its digit in.
pub open spec fn choice_col(choice: int) -> int {
    (choice % 81) / 9
}

/// The digit (1 through 9) a choice places.
pub open spec fn choice_val(choice: int) -> int {
    choice % 9 + 1
}

/// The 3-by-3 subgrid a choice places its digit in, numbered row by row.
pub open spec fn choice_block(choice: int) -> int {
    (choice_row(choice) / 3) * 3 + choice_col(choice) / 3
}

/// The index of the choice that places digit `val` at (`row`, `col`).
pub open spec fn choice_index(row: int, col: int, val: int) -> int {
    row * 81 + col * 9 + (val - 1)
}

/// The subgrid containing cell (`row`, `col`), numbered row by row.
pub open spec fn block_of_cell(row: int, col: int) -> int {
    (row / 3) * 3 + col / 3
}

/// The linear index of the `slot`-th cell (numbered row by row) of subgrid
/// `block` in an 81-cell grid sequence.
pub open spec fn block_cell(block: int, slot: int) -> int {
    ((block / 3) * 3 + slot / 3) * 9 + (block % 3) * 3 + slot % 3
}

/// The digit of grid `b` at row `r`, column `c`.
pub open spec fn grid_cell(b: Seq<i32>, r: int, c: int) -> i32 {
    b[r * 9 + c]
}

/// The digit of grid `b` at slot `i` of subgrid `g`.
pub open spec fn grid_block_cell(b: Seq<i32>, g: int, i: int) -> i32 {
    b[block_cell(g, i)]
}

/// Whether the grid `b` contains digit `d` somewhere in row `r`.
pub open spec fn row_has(b: Seq<i32>, r: int, d: int) -> bool {
    exists|c: int| 0 <= c < 9 && #[trigger] grid_cell(b, r, c) == d
}

/// Whether the grid `b` contains digit `d` somewhere in column `c`.
pub open spec fn col_has(b: Seq<i32>, c: int, d: int) -> bool {
    exists|r: int| 0 <= r < 9 && #[trigger] grid_cell(b, r, c) == d
}

/// Whether the grid `b` contains digit `d` somewhere in subgrid `g`.
pub open spec fn block_has(b: Seq<i32>, g: int, d: int) -> bool {
    exists|i: int| 0 <= i < 9 && #[trigger] grid_block_cell(b, g, i) == d
}

/// Whether the placements present on grid `b` satisfy constraint column `k`.
///
/// The 324 columns fall in four families of 81: rows 0..81 ("row r contains
/// digit d"), columns 81..162, subgrids 162..243, and existence 243..324
/// ("cell (r, c) is filled").
pub open spec fn board_satisfies(b: Seq<i32>, k: int) -> bool {
    if 0 <= k < 81 {
        row_has(b, k / 9, k % 9 + 1)
    } else if 81 <= k < 162 {
        col_has(b, (k - 81) / 9, (k - 81) % 9 + 1)
    } else if 162 <= k < 243 {
        block_has(b, (k - 162) / 9, (k - 162) % 9 + 1)
    } else if 243 <= k < 324 {
        b[(k - 243)] != 0
    } else {
        false
    }
}

/// Whether making choice `choice` alone satisfies constraint column `k`:
/// the entry of the canonical constraint table.
pub open spec fn constraint_entry(choice: int, k: int) -> bool {
    if 0 <= k < 81 {
        choice_row(choice) == k / 9 && choice_val(choice) == k % 9 + 1
    } else if 81 <= k < 162 {
        choice_col(choice) == (k - 81) / 9 && choice_val(choice) == (k - 81) % 9 + 1
    } else if 162 <= k < 243 {
        choice_block(choice) == (k - 162) / 9 && choice_val(choice) == (k - 162) % 9 + 1
    } else if 243 <= k < 324 {
        choice_row(choice) * 9 + choice_col(choice) == k - 243
    } else {
        false
    }
}

/// Decomposing a choice index built from (row, col, val) gives the three
/// parts back.
pub proof fn lemma_choice_fields(r: int, c: int, v: int)
    requires
        0 <= r < 9,
        0 <= c < 9,
        1 <= v <= 9,
    ensures
        0 <= choice_index(r, c, v) < 729,
        choice_row(choice_index(r, c, v)) == r,
        choice_col(choice_index(r, c, v)) == c,
        choice_val(choice_index(r, c, v)) == v,
{
    let ci = choice_index(r, c, v);
    assert(ci == 81 * r + (c * 9 + (v - 1)));
    lemma_fundamental_div_mod_converse_div(ci, 81, r, c * 9 + (v - 1));
    lemma_fundamental_div_mod_converse_mod(ci, 81, r, c * 9 + (v - 1));
    assert(ci % 81 == 9 * c + (v - 1));
    lemma_fundamental_div_mod_converse_div(ci % 81, 9, c, v - 1);
    assert(ci == 9 * (r * 9 + c) + (v - 1));
    lemma_fundamental_div_mod_converse_mod(ci, 9, r * 9 + c, v - 1);
}

/// Every integer in [0, 729) is the choice index built from its own three
/// parts, which lie in range.
pub proof fn lemma_choice_parts(ci: int)
    requires
        0 <= ci < 729,
    ensures
        0 <= choice_row(ci) < 9,
        0 <= choice_col(ci) < 9,
        1 <= choice_val(ci) <= 9,
        choice_index(choice_row(ci), choice_col(ci), choice_val(ci)) == ci,
{
    assert(0 <= choice_row(ci) < 9 && 0 <= ci % 81 < 81) by {
        vstd::arithmetic::div_mod::lemma_fundamental_div_mod(ci, 81);
    }
    assert(0 <= choice_col(ci) < 9 && 0 <= (ci % 81) % 9 < 9) by {
        vstd::arithmetic::div_mod::lemma_fundamental_div_mod(ci % 81, 9);
    }
    assert(ci == 81 * (ci / 81) + 9 * ((ci % 81) / 9) + (ci % 81) % 9) by {
        vstd::arithmetic::div_mod::lemma_fundamental_div_mod(ci, 81);
        vstd::arithmetic::div_mod::lemma_fundamental_div_mod(ci % 81, 9);
    }
    assert((ci % 81) % 9 == ci % 9) by {
        lemma_fundamental_div_mod_converse_mod(
            ci,
            9,
            9 * (ci / 81) + (ci % 81) / 9,
            (ci % 81) % 9,
        );
    }
}

/// The constraint families kept in the table, in column order.
pub enum ConstraintType {
    Row,
    Column,
    SubGrid,
    Existence,
}

impl ConstraintType {
    /// The first column of this family's block of 81 columns.
    pub open spec fn spec_offset(&self) -> int {
        match self {
            ConstraintType::Row => 0,
            ConstraintType::Column => 81,
            ConstraintType::SubGrid => 162,
            ConstraintType::Existence => 243,
        }
    }

    /// Returns the first column of this family's block of 81 columns.
    pub fn get_offset(&self) -> (r: usize)
        ensures
            r == self.spec_offset(),
    {
        match self {
            ConstraintType::Row => 0,
            ConstraintType::Column => 81,
            ConstraintType::SubGrid => 162,
            ConstraintType::Existence => 243,
        }
    }
}

/// Maps a constraint to its column in the table: the family's offset, plus
/// nine columns for each earlier row/column/subgrid/cell group, plus the
/// position inside the group.
pub fn map_constraint_to_column_idx(
    constraint_type: ConstraintType,
    constraint_broad_value: usize,
    constraint_cell_value: usize,
) -> (r: usize)
    requires
        constraint_broad_value < 9,
        constraint_cell_value < 9,
    ensures
        r == constraint_type.spec_offset() + constraint_broad_value * 9 + constraint_cell_value,
        r < 324,
{
    constraint_type.get_offset() + (constraint_broad_value * 9) + constraint_cell_value
}

/// Whether a vector of digits contains `x`.
fn digits_contain(v: &Vec<i32>, x: i32) -> (r: bool)
    ensures
        r == v@.contains(x),
{
    let mut i: usize = 0;
    while i < v.len()
        invariant
            i <= v@.len(),
            forall|j: int| 0 <= j < i ==> v@[j] != x,
        decreases v@.len() - i,
    {
        if v[i] == x {
            assert(v@.contains(x));
            return true;
        }
        i += 1;
    }
    assert(!v@.contains(x));
    false
}

/// Marks, for every row `r` and digit `d` present in row `r` of the board,
/// the table column "row r contains d". Columns outside the row family and
/// columns whose digit is absent keep their old value.
pub fn fill_row_constraints(board: &Board, constraint_row: &mut Vec<bool>)
    requires
        board.wf(),
        old(constraint_row)@.len() == 324,
    ensures
        final(constraint_row)@.len() == 324,
        forall|k: int|
            0 <= k < 324 ==> final(constraint_row)@[k] == (old(constraint_row)@[k] || (0 <= k < 81
                && row_has(board@, k / 9, k % 9 + 1))),
{
    let mut row_idx: usize = 0;
    while row_idx < 9
        invariant
            row_idx <= 9,
            board.wf(),
            constraint_row@.len() == 324,
            forall|k: int|
                0 <= k < 324 ==> constraint_row@[k] == (old(constraint_row)@[k] || (0 <= k
                    < row_idx * 9 && row_has(board@, k / 9, k % 9 + 1))),
        decreases 9 - row_idx,
    {
        let board_row = board.get_row(row_idx);
        let mut cell_idx: usize = 0;
        while cell_idx < 9
            invariant
                row_idx < 9,
                cell_idx <= 9,
                board.wf(),
                board_row@ == board@.subrange(row_idx * 9, row_idx * 9 + 9),
                constraint_row@.len() == 324,
                forall|k: int|
                    0 <= k < 324 ==> constraint_row@[k] == (old(constraint_row)@[k] || (0 <= k
                        < row_idx * 9 + cell_idx && row_has(board@, k / 9, k % 9 + 1))),
            decreases 9 - cell_idx,
        {
            let required_number = cell_idx as i32 + 1;
            proof {
                let k0 = row_idx * 9 + cell_idx;
                lemma_fundamental_div_mod_converse_div(k0 as int, 9, row_idx as int, cell_idx as int);
                lemma_fundamental_div_mod_converse_mod(k0 as int, 9, row_idx as int, cell_idx as int);
                if board_row@.contains(required_number) {
                    let j = choose|j: int|
                        0 <= j < board_row@.len() && board_row@[j] == required_number;
                    assert(grid_cell(board@, row_idx as int, j) == required_number);
                }
                if row_has(board@, row_idx as int, required_number as int) {
                    let c = choose|c: int|
                        0 <= c < 9 && grid_cell(board@, row_idx as int, c) == required_number;
                    assert(board_row@[c] == required_number);
                }
            }
            if digits_contain(&board_row, required_number) {
                let index = map_constraint_to_column_idx(ConstraintType::Row, row_idx, cell_idx);
                constraint_row[index] = true;
            }
            cell_idx += 1;
        }
        row_idx += 1;
    }
}

/// Marks, for every column `c` and digit `d` present in column `c` of the
/// board, the table column "column c contains d".
pub fn fill_column_constraints(board: &Board, constraint_row: &mut Vec<bool>)
    requires
        board.wf(),
        old(constraint_row)@.len() == 324,
    ensures
        final(constraint_row)@.len() == 324,
        forall|k: int|
            0 <= k < 324 ==> final(constraint_row)@[k] == (old(constraint_row)@[k] || (81 <= k
                < 162 && col_has(board@, (k - 81) / 9, (k - 81) % 9 + 1))),
{
    let mut column_idx: usize = 0;
    while column_idx < 9
        invariant
            column_idx <= 9,
            board.wf(),
            constraint_row@.len() == 324,
            forall|k: int|
                0 <= k < 324 ==> constraint_row@[k] == (old(constraint_row)@[k] || (81 <= k < 81
                    + column_idx * 9 && col_has(board@, (k - 81) / 9, (k - 81) % 9 + 1))),
        decreases 9 - column_idx,
    {
        let board_column = board.get_column(column_idx);
        let mut cell_idx: usize = 0;
        while cell_idx < 9
            invariant
                column_idx < 9,
                cell_idx <= 9,
                board.wf(),
                board_column@.len() == 9,
                forall|j: int| 0 <= j < 9 ==> board_column@[j] == board@[j * 9 + column_idx],
                constraint_row@.len() == 324,
                forall|k: int|
                    0 <= k < 324 ==> constraint_row@[k] == (old(constraint_row)@[k] || (81 <= k < 81
                        + column_idx * 9 + cell_idx && col_has(
                        board@,
                        (k - 81) / 9,
                        (k - 81) % 9 + 1,
                    ))),
            decreases 9 - cell_idx,
        {
            let required_number = cell_idx as i32 + 1;
            proof {
                let k0 = column_idx * 9 + cell_idx;
                lemma_fundamental_div_mod_converse_div(
                    k0 as int,
                    9,
                    column_idx as int,
                    cell_idx as int,
                );
                lemma_fundamental_div_mod_converse_mod(
                    k0 as int,
                    9,
                    column_idx as int,
                    cell_idx as int,
                );
                if board_column@.contains(required_number) {
                    let j = choose|j: int|
                        0 <= j < board_column@.len() && board_column@[j] == required_number;
                    assert(grid_cell(board@, j, column_idx as int) == required_number);
                }
                if col_has(board@, column_idx as int, required_number as int) {
                    let r = choose|r: int|
                        0 <= r < 9 && grid_cell(board@, r, column_idx as int) == required_number;
                    assert(board_column@[r] == required_number);
                }
            }
            if digits_contain(&board_column, required_number) {
                let index = map_constraint_to_column_idx(
                    ConstraintType::Column,
                    column_idx,
                    cell_idx,
                );
                constraint_row[index] = true;
            }
            cell_idx += 1;
        }
        column_idx += 1;
    }
}

/// Slot `i` of subgrid `g` sits at row `(g / 3) * 3 + i / 3` and column
/// `(g % 3) * 3 + i % 3`, both in range, and that cell belongs to subgrid
/// `g`.
pub proof fn lemma_block_cell_decompose(g: int, i: int)
    requires
        0 <= g < 9,
        0 <= i < 9,
    ensures
        0 <= (g / 3) * 3 + i / 3 < 9,
        0 <= (g % 3) * 3 + i % 3 < 9,
        block_cell(g, i) == ((g / 3) * 3 + i / 3) * 9 + ((g % 3) * 3 + i % 3),
        block_of_cell((g / 3) * 3 + i / 3, (g % 3) * 3 + i % 3) == g,
{
    vstd::arithmetic::div_mod::lemma_fundamental_div_mod(g, 3);
    vstd::arithmetic::div_mod::lemma_fundamental_div_mod(i, 3);
    let r = (g / 3) * 3 + i / 3;
    let c = (g % 3) * 3 + i % 3;
    lemma_fundamental_div_mod_converse_div(r, 3, g / 3, i / 3);
    lemma_fundamental_div_mod_converse_div(c, 3, g % 3, i % 3);
}

/// The cell at (`r`, `c`) is slot `(r % 3) * 3 + c % 3` of its own subgrid.
pub proof fn lemma_block_slot(r: int, c: int)
    requires
        0 <= r < 9,
        0 <= c < 9,
    ensures
        0 <= block_of_cell(r, c) < 9,
        0 <= (r % 3) * 3 + c % 3 < 9,
        block_cell(block_of_cell(r, c), (r % 3) * 3 + c % 3) == r * 9 + c,
{
    vstd::arithmetic::div_mod::lemma_fundamental_div_mod(r, 3);
    vstd::arithmetic::div_mod::lemma_fundamental_div_mod(c, 3);
    let g = block_of_cell(r, c);
    let i = (r % 3) * 3 + c % 3;
    lemma_fundamental_div_mod_converse_div(g, 3, r / 3, c / 3);
    lemma_fundamental_div_mod_converse_mod(g, 3, r / 3, c / 3);
    lemma_fundamental_div_mod_converse_div(i, 3, r % 3, c % 3);
    lemma_fundamental_div_mod_converse_mod(i, 3, r % 3, c % 3);
}

/// Marks, for every subgrid `g` and digit `d` present in subgrid `g` of the
/// board, the table column "subgrid g contains d".
pub fn fill_sub_grid_constraints(board: &Board, constraint_row: &mut Vec<bool>)
    requires
        board.wf(),
        old(constraint_row)@.len() == 324,
    ensures
        final(constraint_row)@.len() == 324,
        forall|k: int|
            0 <= k < 324 ==> final(constraint_row)@[k] == (old(constraint_row)@[k] || (162 <= k
                < 243 && block_has(board@, (k - 162) / 9, (k - 162) % 9 + 1))),
{
    let mut sub_grid_idx: usize = 0;
    while sub_grid_idx < 9
        invariant
            sub_grid_idx <= 9,
            board.wf(),
            constraint_row@.len() == 324,
            forall|k: int|
                0 <= k < 324 ==> constraint_row@[k] == (old(constraint_row)@[k] || (162 <= k < 162
                    + sub_grid_idx * 9 && block_has(board@, (k - 162) / 9, (k - 162) % 9 + 1))),
        decreases 9 - sub_grid_idx,
    {
        let mut sub_grid_numbers: Vec<i32> = Vec::new();
        let mut slot: usize = 0;
        while slot < 9
            invariant
                sub_grid_idx < 9,
                slot <= 9,
                board.wf(),
                sub_grid_numbers@.len() == slot,
                forall|j: int|
                    0 <= j < slot ==> sub_grid_numbers@[j] == grid_block_cell(
                        board@,
                        sub_grid_idx as int,
                        j,
                    ),
            decreases 9 - slot,
        {
            proof {
                lemma_block_cell_decompose(sub_grid_idx as int, slot as int);
            }
            let cell_row = (sub_grid_idx / 3) * 3 + slot / 3;
            let cell_col = (sub_grid_idx % 3) * 3 + slot % 3;
            sub_grid_numbers.push(board.get(cell_col, cell_row));
            slot += 1;
        }
        let mut cell_idx: usize = 0;
        while cell_idx < 9
            invariant
                sub_grid_idx < 9,
                cell_idx <= 9,
                board.wf(),
                sub_grid_numbers@.len() == 9,
                forall|j: int|
                    0 <= j < 9 ==> sub_grid_numbers@[j] == grid_block_cell(
                        board@,
                        sub_grid_idx as int,
                        j,
                    ),
                constraint_row@.len() == 324,
                forall|k: int|
                    0 <= k < 324 ==> constraint_row@[k] == (old(constraint_row)@[k] || (162 <= k
                        < 162 + sub_grid_idx * 9 + cell_idx && block_has(
                        board@,
                        (k - 162) / 9,
                        (k - 162) % 9 + 1,
                    ))),
            decreases 9 - cell_idx,
        {
            let required_number = cell_idx as i32 + 1;
            proof {
                let k0 = sub_grid_idx * 9 + cell_idx;
                lemma_fundamental_div_mod_converse_div(
                    k0 as int,
                    9,
                    sub_grid_idx as int,
                    cell_idx as int,
                );
                lemma_fundamental_div_mod_converse_mod(
                    k0 as int,
                    9,
                    sub_grid_idx as int,
                    cell_idx as int,
                );
                if sub_grid_numbers@.contains(required_number) {
                    let j = choose|j: int|
                        0 <= j < sub_grid_numbers@.len() && sub_grid_numbers@[j] == required_number;
                    assert(grid_block_cell(board@, sub_grid_idx as int, j) == required_number);
                }
                if block_has(board@, sub_grid_idx as int, required_number as int) {
                    let i = choose|i: int|
                        0 <= i < 9 && grid_block_cell(board@, sub_grid_idx as int, i)
                            == required_number;
                    assert(sub_grid_numbers@[i] == required_number);
                }
            }
            if digits_contain(&sub_grid_numbers, required_number) {
                let index = map_constraint_to_column_idx(
                    ConstraintType::SubGrid,
                    sub_grid_idx,
                    cell_idx,
                );
                constraint_row[index] = true;
            }
            cell_idx += 1;
        }
        sub_grid_idx += 1;
    }
}

/// Marks, for every filled cell of the board, the table column "cell (r, c)
/// is filled".
pub fn fill_existence_constraints(board: &Board, constraint_row: &mut Vec<bool>)
    requires
        board.wf(),
        old(constraint_row)@.len() == 324,
    ensures
        final(constraint_row)@.len() == 324,
        forall|k: int|
            0 <= k < 324 ==> final(constraint_row)@[k] == (old(constraint_row)@[k] || (243 <= k
                < 324 && board@[k - 243] != 0)),
{
    let mut row_idx: usize = 0;
    while row_idx < 9
        invariant
            row_idx <= 9,
            board.wf(),
            constraint_row@.len() == 324,
            forall|k: int|
                0 <= k < 324 ==> constraint_row@[k] == (old(constraint_row)@[k] || (243 <= k < 243
                    + row_idx * 9 && board@[k - 243] != 0)),
        decreases 9 - row_idx,
    {
        let mut col_idx: usize = 0;
        while col_idx < 9
            invariant
                row_idx < 9,
                col_idx <= 9,
                board.wf(),
                constraint_row@.len() == 324,
                forall|k: int|
                    0 <= k < 324 ==> constraint_row@[k] == (old(constraint_row)@[k] || (243 <= k
                        < 243 + row_idx * 9 + col_idx && board@[k - 243] != 0)),
            decreases 9 - col_idx,
        {
            if board.get(col_idx, row_idx) != 0 {
                let index = map_constraint_to_column_idx(ConstraintType::Existence, row_idx, col_idx);
                constraint_row[index] = true;
            }
            col_idx += 1;
        }
        row_idx += 1;
    }
}

/// Fills one constraint-table row from the placements present on `board`:
/// afterwards entry `k` is set exactly where it already was set or where the
/// board satisfies constraint column `k`.
pub fn fill_constraint_table_row(board: &Board, row: &mut Vec<bool>)
    requires
        board.wf(),
        old(row)@.len() == 324,
    ensures
        final(row)@.len() == 324,
        forall|k: int|
            0 <= k < 324 ==> final(row)@[k] == (old(row)@[k] || board_satisfies(board@, k)),
{
    fill_row_constraints(board, row);
    fill_column_constraints(board, row);
    fill_sub_grid_constraints(board, row);
    fill_existence_constraints(board, row);
}

/// On a grid holding a single placement — digit `v0` at (`r0`, `c0`) — the
/// constraint columns the grid satisfies are exactly the entries of the
/// canonical table for that placement's choice.
pub proof fn lemma_single_placement(b: Seq<i32>, r0: int, c0: int, v0: int)
    requires
        b.len() == 81,
        0 <= r0 < 9,
        0 <= c0 < 9,
        1 <= v0 <= 9,
        b[r0 * 9 + c0] == v0,
        forall|j: int| 0 <= j < 81 && j != r0 * 9 + c0 ==> #[trigger] b[j] == 0,
    ensures
        forall|k: int|
            0 <= k < 324 ==> #[trigger] board_satisfies(b, k) == constraint_entry(
                choice_index(r0, c0, v0),
                k,
            ),
{
    let ci = choice_index(r0, c0, v0);
    lemma_choice_fields(r0, c0, v0);
    assert forall|k: int| 0 <= k < 324 implies #[trigger] board_satisfies(b, k)
        == constraint_entry(ci, k) by {
        if k < 81 {
            let r = k / 9;
            let d = k % 9 + 1;
            vstd::arithmetic::div_mod::lemma_fundamental_div_mod(k, 9);
            if row_has(b, r, d) {
                let c = choose|c: int| 0 <= c < 9 && grid_cell(b, r, c) == d;
                assert(b[r * 9 + c] == d);
                assert(r * 9 + c == r0 * 9 + c0);
                assert(r == r0 && c == c0);
            }
            if r == r0 && d == v0 {
                assert(grid_cell(b, r, c0) == d);
            }
        } else if k < 162 {
            let c = (k - 81) / 9;
            let d = (k - 81) % 9 + 1;
            vstd::arithmetic::div_mod::lemma_fundamental_div_mod(k - 81, 9);
            if col_has(b, c, d) {
                let r = choose|r: int| 0 <= r < 9 && grid_cell(b, r, c) == d;
                assert(b[r * 9 + c] == d);
                assert(r * 9 + c == r0 * 9 + c0);
                assert(r == r0 && c == c0);
            }
            if c == c0 && d == v0 {
                assert(grid_cell(b, r0, c) == d);
            }
        } else if k < 243 {
            let g = (k - 162) / 9;
            let d = (k - 162) % 9 + 1;
            vstd::arithmetic::div_mod::lemma_fundamental_div_mod(k - 162, 9);
            if block_has(b, g, d) {
                let i = choose|i: int| 0 <= i < 9 && grid_block_cell(b, g, i) == d;
                lemma_block_cell_decompose(g, i);
                let r = (g / 3) * 3 + i / 3;
                let c = (g % 3) * 3 + i % 3;
                assert(b[r * 9 + c] == d);
                assert(r * 9 + c == r0 * 9 + c0);
                assert(r == r0 && c == c0);
                assert(g == block_of_cell(r0, c0));
            }
            if g == choice_block(ci) && d == v0 {
                lemma_block_slot(r0, c0);
                let i = (r0 % 3) * 3 + c0 % 3;
                assert(grid_block_cell(b, g, i) == d);
            }
        } else {
            let j = k - 243;
            if b[j] != 0 {
                assert(j == r0 * 9 + c0);
            }
        }
    }
}

/// The fixed matrix mapping every possible digit placement to the
/// constraints it satisfies: one row per choice, one column per constraint.
pub struct ConstraintTable {
    pub table: Vec<Vec<bool>>,
}

/// The table has 729 rows of 324 entries each.
pub open spec fn table_wf(t: Seq<Vec<bool>>) -> bool {
    &&& t.len() == 729
    &&& forall|i: int| 0 <= i < 729 ==> (#[trigger] t[i])@.len() == 324
}

/// The table's content is the canonical Sudoku exact-cover matrix: entry
/// (choice, k) is set iff making that choice alone satisfies constraint `k`.
pub open spec fn is_canonical_table(t: Seq<Vec<bool>>) -> bool {
    &&& table_wf(t)
    &&& forall|i: int, k: int|
        0 <= i < 729 && 0 <= k < 324 ==> (#[trigger] t[i]@[k]) == constraint_entry(i, k)
}

/// Builds the constraint table: for each of the 729 choices, constructs the
/// grid holding that single placement and derives its row of 324 constraint
/// flags. The result depends only on Sudoku geometry, never on a puzzle.
pub fn generate_constraint_table() -> (r: ConstraintTable)
    ensures
        is_canonical_table(r.table@),
{
    let mut table: Vec<Vec<bool>> = Vec::new();
    let mut row_idx: usize = 0;
    while row_idx < 9
        invariant
            row_idx <= 9,
            table@.len() == row_idx * 81,
            forall|i: int| 0 <= i < table@.len() ==> (#[trigger] table@[i])@.len() == 324,
            forall|i: int, k: int|
                0 <= i < table@.len() && 0 <= k < 324 ==> (#[trigger] table@[i]@[k])
                    == constraint_entry(i, k),
        decreases 9 - row_idx,
    {
        let mut col_idx: usize = 0;
        while col_idx < 9
            invariant
                row_idx < 9,
                col_idx <= 9,
                table@.len() == row_idx * 81 + col_idx * 9,
                forall|i: int| 0 <= i < table@.len() ==> (#[trigger] table@[i])@.len() == 324,
                forall|i: int, k: int|
                    0 <= i < table@.len() && 0 <= k < 324 ==> (#[trigger] table@[i]@[k])
                        == constraint_entry(i, k),
            decreases 9 - col_idx,
        {
            let mut value: usize = 1;
            while value < 10
                invariant
                    row_idx < 9,
                    col_idx < 9,
                    1 <= value <= 10,
                    table@.len() == row_idx * 81 + col_idx * 9 + (value - 1),
                    forall|i: int| 0 <= i < table@.len() ==> (#[trigger] table@[i])@.len() == 324,
                    forall|i: int, k: int|
                        0 <= i < table@.len() && 0 <= k < 324 ==> (#[trigger] table@[i]@[k])
                            == constraint_entry(i, k),
                decreases 10 - value,
            {
                let mut constraint_row: Vec<bool> = vec![false; 324];
                let mut board = Board::new();
                board.set(col_idx, row_idx, value as i32);
                fill_constraint_table_row(&board, &mut constraint_row);
                proof {
                    lemma_single_placement(
                        board@,
                        row_idx as int,
                        col_idx as int,
                        value as int,
                    );
                    lemma_choice_fields(row_idx as int, col_idx as int, value as int);
                    let n = table@.len() as int;
                    assert(n == choice_index(row_idx as int, col_idx as int, value as int));
                    assert forall|k: int| 0 <= k < 324 implies constraint_row@[k]
                        == constraint_entry(n, k) by {
                        assert(board_satisfies(board@, k) == constraint_entry(n, k));
                    }
                }
                table.push(constraint_row);
                value += 1;
            }
            col_idx += 1;
        }
        row_idx += 1;
    }
    ConstraintTable { table }
}

/// Building the constraint table is idempotent: any two tables that meet
/// `generate_constraint_table`'s contract agree on their shape and on every
/// single entry, so two invocations yield identical matrices.
pub proof fn lemma_generate_constraint_table_idempotent(t1: Seq<Vec<bool>>, t2: Seq<Vec<bool>>)
    requires
        is_canonical_table(t1),
        is_canonical_table(t2),
    ensures
        t1.len() == t2.len(),
        forall|i: int| 0 <= i < 729 ==> (#[trigger] t1[i])@ == t2[i]@,
{
    assert forall|i: int| 0 <= i < 729 implies (#[trigger] t1[i])@ == t2[i]@ by {
        assert forall|k: int| 0 <= k < 324 implies t1[i]@[k] == t2[i]@[k] by {}
        assert(t1[i]@ =~= t2[i]@);
    }
}

/// The set of constraint columns a choice satisfies.
pub open spec fn choice_true_columns(ci: int) -> Set<int> {
    Set::new(|k: int| 0 <= k < 324 && constraint_entry(ci, k))
}

/// Every choice's constraint row has exactly four true entries: its row,
/// column and subgrid constraints for its digit, and the existence
/// constraint of its cell.
pub proof fn lemma_choice_row_true_entries(ci: int)
    requires
        0 <= ci < 729,
    ensures
        choice_true_columns(ci).finite(),
        choice_true_columns(ci).len() == 4,
{
    lemma_choice_parts(ci);
    let r = choice_row(ci);
    let c = choice_col(ci);
    let v = choice_val(ci);
    let g = choice_block(ci);
    let k_row = r * 9 + (v - 1);
    let k_col = 81 + c * 9 + (v - 1);
    let k_block = 162 + g * 9 + (v - 1);
    let k_cell = 243 + r * 9 + c;
    assert(0 <= g < 9) by {
        vstd::arithmetic::div_mod::lemma_fundamental_div_mod(r, 3);
        vstd::arithmetic::div_mod::lemma_fundamental_div_mod(c, 3);
    }
    let s = Set::empty().insert(k_row).insert(k_col).insert(k_block).insert(k_cell);
    assert forall|k: int| choice_true_columns(ci).contains(k) implies s.contains(k) by {
        if 0 <= k < 81 {
            vstd::arithmetic::div_mod::lemma_fundamental_div_mod(k, 9);
            assert(k == k_row);
        } else if 81 <= k < 162 {
            vstd::arithmetic::div_mod::lemma_fundamental_div_mod(k - 81, 9);
            assert(k == k_col);
        } else if 162 <= k < 243 {
            vstd::arithmetic::div_mod::lemma_fundamental_div_mod(k - 162, 9);
            assert(k == k_block);
        } else {
            assert(k == k_cell);
        }
    }
    assert forall|k: int| s.contains(k) implies choice_true_columns(ci).contains(k) by {
        lemma_fundamental_div_mod_converse_div(k_row, 9, r, v - 1);
        lemma_fundamental_div_mod_converse_mod(k_row, 9, r, v - 1);
        lemma_fundamental_div_mod_converse_div(k_col - 81, 9, c, v - 1);
        lemma_fundamental_div_mod_converse_mod(k_col - 81, 9, c, v - 1);
        lemma_fundamental_div_mod_converse_div(k_block - 162, 9, g, v - 1);
        lemma_fundamental_div_mod_converse_mod(k_block - 162, 9, g, v - 1);
    }
    assert(choice_true_columns(ci) =~= s);
    assert(s.len() == 4);
}

/// The set of choices that satisfy a constraint column.
pub open spec fn column_true_choices(k: int) -> Set<int> {
    Set::new(|ci: int| 0 <= ci < 729 && constraint_entry(ci, k))
}

/// Every constraint column is satisfied by exactly nine distinct choices:
/// one per cell of its row, column or subgrid, or one per digit of its
/// cell.
#[verifier::rlimit(100)]
pub proof fn lemma_column_true_choices(k: int)
    requires
        0 <= k < 324,
    ensures
        column_true_choices(k).finite(),
        column_true_choices(k).len() == 9,
{
    if k < 81 {
        let r = k / 9;
        let d = k % 9 + 1;
        vstd::arithmetic::div_mod::lemma_fundamental_div_mod(k, 9);
        let s = Set::empty().insert(choice_index(r, 0, d)).insert(choice_index(r, 1, d)).insert(
            choice_index(r, 2, d),
        ).insert(choice_index(r, 3, d)).insert(choice_index(r, 4, d)).insert(
            choice_index(r, 5, d),
        ).insert(choice_index(r, 6, d)).insert(choice_index(r, 7, d)).insert(
            choice_index(r, 8, d),
        );
        assert forall|ci: int| column_true_choices(k).contains(ci) implies s.contains(ci) by {
            lemma_choice_parts(ci);
            assert(ci == choice_index(r, choice_col(ci), d));
        }
        assert forall|ci: int| s.contains(ci) implies column_true_choices(k).contains(ci) by {
            assert forall|c: int| 0 <= c < 9 implies column_true_choices(k).contains(
                choice_index(r, c, d),
            ) by {
                lemma_choice_fields(r, c, d);
            }
        }
        assert(column_true_choices(k) =~= s);
        assert forall|c1: int, c2: int|
            0 <= c1 < 9 && 0 <= c2 < 9 && c1 != c2 implies choice_index(r, c1, d) != choice_index(
            r,
            c2,
            d,
        ) by {}
        assert(s.len() == 9);
    } else if k < 162 {
        let c = (k - 81) / 9;
        let d = (k - 81) % 9 + 1;
        vstd::arithmetic::div_mod::lemma_fundamental_div_mod(k - 81, 9);
        let s = Set::empty().insert(choice_index(0, c, d)).insert(choice_index(1, c, d)).insert(
            choice_index(2, c, d),
        ).insert(choice_index(3, c, d)).insert(choice_index(4, c, d)).insert(
            choice_index(5, c, d),
        ).insert(choice_index(6, c, d)).insert(choice_index(7, c, d)).insert(
            choice_index(8, c, d),
        );
        assert forall|ci: int| column_true_choices(k).contains(ci) implies s.contains(ci) by {
            lemma_choice_parts(ci);
            assert(ci == choice_index(choice_row(ci), c, d));
        }
        assert forall|ci: int| s.contains(ci) implies column_true_choices(k).contains(ci) by {
            assert forall|r: int| 0 <= r < 9 implies column_true_choices(k).contains(
                choice_index(r, c, d),
            ) by {
                lemma_choice_fields(r, c, d);
            }
        }
        assert(column_true_choices(k) =~= s);
        assert(s.len() == 9);
    } else if k < 243 {
        let g = (k - 162) / 9;
        let d = (k - 162) % 9 + 1;
        vstd::arithmetic::div_mod::lemma_fundamental_div_mod(k - 162, 9);
        let r0 = (g / 3) * 3;
        let c0 = (g % 3) * 3;
        let s = Set::empty().insert(choice_index(r0, c0, d)).insert(
            choice_index(r0, c0 + 1, d),
        ).insert(choice_index(r0, c0 + 2, d)).insert(choice_index(r0 + 1, c0, d)).insert(
            choice_index(r0 + 1, c0 + 1, d),
        ).insert(choice_index(r0 + 1, c0 + 2, d)).insert(choice_index(r0 + 2, c0, d)).insert(
            choice_index(r0 + 2, c0 + 1, d),
        ).insert(choice_index(r0 + 2, c0 + 2, d));
        assert(0 <= g < 9);
        assert(0 <= r0 <= 6 && 0 <= c0 <= 6) by {
            vstd::arithmetic::div_mod::lemma_fundamental_div_mod(g, 3);
        }
        assert forall|ci: int| column_true_choices(k).contains(ci) implies s.contains(ci) by {
            lemma_choice_parts(ci);
            let r = choice_row(ci);
            let c = choice_col(ci);
            assert((r / 3) * 3 + c / 3 == g);
            vstd::arithmetic::div_mod::lemma_fundamental_div_mod(r, 3);
            vstd::arithmetic::div_mod::lemma_fundamental_div_mod(c, 3);
            vstd::arithmetic::div_mod::lemma_fundamental_div_mod(g, 3);
            assert(r / 3 == g / 3 && c / 3 == g % 3) by {
                lemma_fundamental_div_mod_converse_div(g, 3, r / 3, c / 3);
                lemma_fundamental_div_mod_converse_mod(g, 3, r / 3, c / 3);
            }
            assert(r0 <= r <= r0 + 2 && c0 <= c <= c0 + 2);
            assert(ci == choice_index(r, c, d));
        }
        assert forall|ci: int| s.contains(ci) implies column_true_choices(k).contains(ci) by {
            assert forall|dr: int, dc: int|
                0 <= dr < 3 && 0 <= dc < 3 implies column_true_choices(k).contains(
                #[trigger] choice_index(r0 + dr, c0 + dc, d),
            ) by {
                lemma_choice_fields(r0 + dr, c0 + dc, d);
                assert(block_of_cell(r0 + dr, c0 + dc) == g) by {
                    vstd::arithmetic::div_mod::lemma_fundamental_div_mod(g, 3);
                    lemma_fundamental_div_mod_converse_div(r0 + dr, 3, g / 3, dr);
                    lemma_fundamental_div_mod_converse_div(c0 + dc, 3, g % 3, dc);
                }
            }
            assert(s.contains(ci) ==> (ci == choice_index(r0, c0, d) || ci == choice_index(
                r0,
                c0 + 1,
                d,
            ) || ci == choice_index(r0, c0 + 2, d) || ci == choice_index(r0 + 1, c0, d) || ci
                == choice_index(r0 + 1, c0 + 1, d) || ci == choice_index(r0 + 1, c0 + 2, d) || ci
                == choice_index(r0 + 2, c0, d) || ci == choice_index(r0 + 2, c0 + 1, d) || ci
                == choice_index(r0 + 2, c0 + 2, d)));
        }
        assert(column_true_choices(k) =~= s);
        assert(s.len() == 9);
    } else {
        let cell = k - 243;
        let r = cell / 9;
        let c = cell % 9;
        vstd::arithmetic::div_mod::lemma_fundamental_div_mod(cell, 9);
        let s = Set::empty().insert(choice_index(r, c, 1)).insert(choice_index(r, c, 2)).insert(
            choice_index(r, c, 3),
        ).insert(choice_index(r, c, 4)).insert(choice_index(r, c, 5)).insert(
            choice_index(r, c, 6),
        ).insert(choice_index(r, c, 7)).insert(choice_index(r, c, 8)).insert(
            choice_index(r, c, 9),
        );
        assert forall|ci: int| column_true_choices(k).contains(ci) implies s.contains(ci) by {
            lemma_choice_parts(ci);
            assert(choice_row(ci) * 9 + choice_col(ci) == cell);
            assert(choice_row(ci) == r && choice_col(ci) == c);
            assert(ci == choice_index(r, c, choice_val(ci)));
        }
        assert forall|ci: int| s.contains(ci) implies column_true_choices(k).contains(ci) by {
            assert forall|v: int| 1 <= v <= 9 implies column_true_choices(k).contains(
                choice_index(r, c, v),
            ) by {
                lemma_choice_fields(r, c, v);
            }
        }
        assert(column_true_choices(k) =~= s);
        assert(s.len() == 9);
    }
}

/// Whether two choices satisfy a common constraint column: they can never
/// both be part of one solution.
pub open spec fn choices_conflict(a: int, b: int) -> bool {
    exists|k: int|
        0 <= k < 324 && #[trigger] constraint_entry(a, k) && #[trigger] constraint_entry(b, k)
}

/// Two choices conflict exactly when they place the same digit in one row,
/// column or subgrid, or place anything in the same cell.
pub proof fn lemma_choices_conflict_iff(a: int, b: int)
    requires
        0 <= a < 729,
        0 <= b < 729,
    ensures
        choices_conflict(a, b) <==> ((choice_row(a) == choice_row(b) && choice_val(a)
            == choice_val(b)) || (choice_col(a) == choice_col(b) && choice_val(a) == choice_val(
            b,
        )) || (choice_block(a) == choice_block(b) && choice_val(a) == choice_val(b)) || (
        choice_row(a) == choice_row(b) && choice_col(a) == choice_col(b))),
{
    lemma_choice_parts(a);
    lemma_choice_parts(b);
    let ra = choice_row(a);
    let ca = choice_col(a);
    let va = choice_val(a);
    let rb = choice_row(b);
    let cb = choice_col(b);
    let vb = choice_val(b);
    assert(0 <= choice_block(a) < 9 && 0 <= choice_block(b) < 9) by {
        vstd::arithmetic::div_mod::lemma_fundamental_div_mod(ra, 3);
        vstd::arithmetic::div_mod::lemma_fundamental_div_mod(ca, 3);
        vstd::arithmetic::div_mod::lemma_fundamental_div_mod(rb, 3);
        vstd::arithmetic::div_mod::lemma_fundamental_div_mod(cb, 3);
    }
    if choices_conflict(a, b) {
        let k = choose|k: int|
            0 <= k < 324 && #[trigger] constraint_entry(a, k) && #[trigger] constraint_entry(b, k);
        if k < 81 {
        } else if k < 162 {
        } else if k < 243 {
        } else {
            assert(ra * 9 + ca == rb * 9 + cb);
            assert(ra == rb && ca == cb);
        }
    }
    if ra == rb && va == vb {
        let k = ra * 9 + (va - 1);
        lemma_fundamental_div_mod_converse_div(k, 9, ra, va - 1);
        lemma_fundamental_div_mod_converse_mod(k, 9, ra, va - 1);
        assert(constraint_entry(a, k) && constraint_entry(b, k));
    }
    if ca == cb && va == vb {
        let k = 81 + ca * 9 + (va - 1);
        lemma_fundamental_div_mod_converse_div(k - 81, 9, ca, va - 1);
        lemma_fundamental_div_mod_converse_mod(k - 81, 9, ca, va - 1);
        assert(constraint_entry(a, k) && constraint_entry(b, k));
    }
    if choice_block(a) == choice_block(b) && va == vb {
        let k = 162 + choice_block(a) * 9 + (va - 1);
        lemma_fundamental_div_mod_converse_div(k - 162, 9, choice_block(a), va - 1);
        lemma_fundamental_div_mod_converse_mod(k - 162, 9, choice_block(a), va - 1);
        assert(constraint_entry(a, k) && constraint_entry(b, k));
    }
    if ra == rb && ca == cb {
        let k = 243 + ra * 9 + ca;
        assert(constraint_entry(a, k) && constraint_entry(b, k));
    }
}

} // verus!
