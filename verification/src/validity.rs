use vstd::prelude::*;

use crate::board::Board;
use crate::constraints::{grid_block_cell, grid_cell, lemma_block_cell_decompose};

verus! {

/// Every cell of the grid holds a digit 1 through 9: no empty cells.
pub open spec fn board_complete(b: Seq<i32>) -> bool {
    forall|i: int| 0 <= i < 81 ==> 1 <= #[trigger] b[i] <= 9
}

/// No digit occurs twice in any row of the grid.
pub open spec fn rows_distinct(b: Seq<i32>) -> bool {
    forall|r: int, c1: int, c2: int|
        0 <= r < 9 && 0 <= c1 < c2 < 9 ==> #[trigger] grid_cell(b, r, c1) != #[trigger] grid_cell(
            b,
            r,
            c2,
        )
}

/// No digit occurs twice in any column of the grid.
pub open spec fn cols_distinct(b: Seq<i32>) -> bool {
    forall|c: int, r1: int, r2: int|
        0 <= c < 9 && 0 <= r1 < r2 < 9 ==> #[trigger] grid_cell(b, r1, c) != #[trigger] grid_cell(
            b,
            r2,
            c,
        )
}

/// No digit occurs twice in any 3-by-3 subgrid of the grid.
pub open spec fn blocks_distinct(b: Seq<i32>) -> bool {
    forall|g: int, i1: int, i2: int|
        0 <= g < 9 && 0 <= i1 < i2 < 9 ==> #[trigger] grid_block_cell(b, g, i1)
            != #[trigger] grid_block_cell(b, g, i2)
}

/// A completely solved, valid grid: all 81 cells filled with digits 1
/// through 9 and no digit repeated in any row, column, or 3-by-3 subgrid.
pub open spec fn board_full_and_valid(b: Seq<i32>) -> bool {
    &&& b.len() == 81
    &&& board_complete(b)
    &&& rows_distinct(b)
    &&& cols_distinct(b)
    &&& blocks_distinct(b)
}

/// Every non-empty cell of `seed` holds the same digit in `b`.
pub open spec fn seed_preserved(seed: Seq<i32>, b: Seq<i32>) -> bool {
    forall|i: int| 0 <= i < 81 && seed[i] != 0 ==> #[trigger] b[i] == seed[i]
}

/// Whether some row of the grid holds the same non-zero digit twice: a
/// contradictory seed.
pub open spec fn seed_row_duplicate(b: Seq<i32>) -> bool {
    exists|r: int, c1: int, c2: int|
        0 <= r < 9 && 0 <= c1 < c2 < 9 && #[trigger] grid_cell(b, r, c1) != 0 && grid_cell(
            b,
            r,
            c1,
        ) == #[trigger] grid_cell(b, r, c2)
}

/// A grid that preserves a seed with a duplicated digit in some row cannot
/// itself be free of row duplicates: so a seed with such a duplicate can
/// never be preserved by a valid solution.
pub proof fn lemma_no_duplicate_seed(seed: Seq<i32>, b: Seq<i32>)
    requires
        seed.len() == 81,
        b.len() == 81,
        seed_preserved(seed, b),
        rows_distinct(b),
    ensures
        !seed_row_duplicate(seed),
{
    if seed_row_duplicate(seed) {
        let (r, c1, c2) = choose|r: int, c1: int, c2: int|
            0 <= r < 9 && 0 <= c1 < c2 < 9 && #[trigger] grid_cell(seed, r, c1) != 0 && grid_cell(
                seed,
                r,
                c1,
            ) == #[trigger] grid_cell(seed, r, c2);
        assert(b[r * 9 + c1] == seed[r * 9 + c1]);
        assert(b[r * 9 + c2] == seed[r * 9 + c2]);
        assert(grid_cell(b, r, c1) == grid_cell(b, r, c2));
    }
}

/// A grid that preserves a complete seed is that seed.
pub proof fn lemma_preserved_of_complete(seed: Seq<i32>, b: Seq<i32>)
    requires
        seed.len() == 81,
        b.len() == 81,
        board_complete(seed),
        seed_preserved(seed, b),
    ensures
        b == seed,
{
    assert(b =~= seed);
}

/// Whether some completely solved valid grid agrees with every non-empty
/// cell of the seed: the seed is solvable.
pub open spec fn has_completion(seed: Seq<i32>) -> bool {
    exists|sol: Seq<i32>| #[trigger] board_full_and_valid(sol) && seed_preserved(seed, sol)
}

/// The digit of a fixed reference solution at (`r`, `c`): rows are shifts
/// of each other, with the shift pattern chosen so columns and subgrids
/// work out as well.
pub open spec fn pattern_value(r: int, c: int) -> int {
    (3 * (r % 3) + r / 3 + c) % 9 + 1
}

/// A fixed, completely solved valid reference grid.
pub open spec fn pattern_grid() -> Seq<i32> {
    Seq::new(81, |i: int| pattern_value(i / 9, i % 9) as i32)
}

/// Two different numbers less than nine apart have different remainders
/// modulo nine.
proof fn lemma_mod9_distinct(x: int, y: int)
    requires
        x != y,
        -9 < x - y < 9,
    ensures
        x % 9 != y % 9,
{
    vstd::arithmetic::div_mod::lemma_fundamental_div_mod(x, 9);
    vstd::arithmetic::div_mod::lemma_fundamental_div_mod(y, 9);
}

/// The row shift of the reference grid is injective: different rows get
/// different shifts.
proof fn lemma_pattern_shift_injective(r1: int, r2: int)
    requires
        0 <= r1 < 9,
        0 <= r2 < 9,
        r1 != r2,
    ensures
        3 * (r1 % 3) + r1 / 3 != 3 * (r2 % 3) + r2 / 3,
        0 <= 3 * (r1 % 3) + r1 / 3 < 9,
        0 <= 3 * (r2 % 3) + r2 / 3 < 9,
{
    vstd::arithmetic::div_mod::lemma_fundamental_div_mod(r1, 3);
    vstd::arithmetic::div_mod::lemma_fundamental_div_mod(r2, 3);
}

/// Reading the reference grid at (`r`, `c`) gives the pattern value there.
proof fn lemma_pattern_cell(r: int, c: int)
    requires
        0 <= r < 9,
        0 <= c < 9,
    ensures
        grid_cell(pattern_grid(), r, c) == pattern_value(r, c),
        1 <= pattern_value(r, c) <= 9,
{
    let i = r * 9 + c;
    vstd::arithmetic::div_mod::lemma_fundamental_div_mod_converse_div(i, 9, r, c);
    vstd::arithmetic::div_mod::lemma_fundamental_div_mod_converse_mod(i, 9, r, c);
    vstd::arithmetic::div_mod::lemma_fundamental_div_mod(r, 3);
    vstd::arithmetic::div_mod::lemma_fundamental_div_mod(3 * (r % 3) + r / 3 + c, 9);
}

/// The reference grid is a completely solved valid Sudoku, so at least one
/// solved valid grid exists, and it completes the empty seed.
pub proof fn lemma_pattern_grid_valid()
    ensures
        board_full_and_valid(pattern_grid()),
{
    let w = pattern_grid();
    assert forall|i: int| 0 <= i < 81 implies 1 <= #[trigger] w[i] <= 9 by {
        let r = i / 9;
        let c = i % 9;
        vstd::arithmetic::div_mod::lemma_fundamental_div_mod(i, 9);
        lemma_pattern_cell(r, c);
        assert(w[i] == grid_cell(w, r, c));
    }
    assert forall|r: int, c1: int, c2: int|
        0 <= r < 9 && 0 <= c1 < c2 < 9 implies #[trigger] grid_cell(w, r, c1)
        != #[trigger] grid_cell(w, r, c2) by {
        lemma_pattern_cell(r, c1);
        lemma_pattern_cell(r, c2);
        let shift = 3 * (r % 3) + r / 3;
        lemma_mod9_distinct(shift + c1, shift + c2);
    }
    assert forall|c: int, r1: int, r2: int|
        0 <= c < 9 && 0 <= r1 < r2 < 9 implies #[trigger] grid_cell(w, r1, c)
        != #[trigger] grid_cell(w, r2, c) by {
        lemma_pattern_cell(r1, c);
        lemma_pattern_cell(r2, c);
        lemma_pattern_shift_injective(r1, r2);
        lemma_mod9_distinct(3 * (r1 % 3) + r1 / 3 + c, 3 * (r2 % 3) + r2 / 3 + c);
    }
    assert forall|g: int, i1: int, i2: int|
        0 <= g < 9 && 0 <= i1 < i2 < 9 implies #[trigger] grid_block_cell(w, g, i1)
        != #[trigger] grid_block_cell(w, g, i2) by {
        lemma_block_cell_decompose(g, i1);
        lemma_block_cell_decompose(g, i2);
        let r1 = (g / 3) * 3 + i1 / 3;
        let c1 = (g % 3) * 3 + i1 % 3;
        let r2 = (g / 3) * 3 + i2 / 3;
        let c2 = (g % 3) * 3 + i2 % 3;
        lemma_pattern_cell(r1, c1);
        lemma_pattern_cell(r2, c2);
        assert(grid_block_cell(w, g, i1) == grid_cell(w, r1, c1));
        assert(grid_block_cell(w, g, i2) == grid_cell(w, r2, c2));
        vstd::arithmetic::div_mod::lemma_fundamental_div_mod(i1, 3);
        vstd::arithmetic::div_mod::lemma_fundamental_div_mod(i2, 3);
        vstd::arithmetic::div_mod::lemma_fundamental_div_mod(g, 3);
        assert(r1 % 3 == i1 / 3 && r1 / 3 == g / 3) by {
            vstd::arithmetic::div_mod::lemma_fundamental_div_mod_converse_div(r1, 3, g / 3, i1 / 3);
            vstd::arithmetic::div_mod::lemma_fundamental_div_mod_converse_mod(r1, 3, g / 3, i1 / 3);
        }
        assert(r2 % 3 == i2 / 3 && r2 / 3 == g / 3) by {
            vstd::arithmetic::div_mod::lemma_fundamental_div_mod_converse_div(r2, 3, g / 3, i2 / 3);
            vstd::arithmetic::div_mod::lemma_fundamental_div_mod_converse_mod(r2, 3, g / 3, i2 / 3);
        }
        let x1 = 3 * (r1 % 3) + r1 / 3 + c1;
        let x2 = 3 * (r2 % 3) + r2 / 3 + c2;
        assert(x1 != x2);
        lemma_mod9_distinct(x1, x2);
    }
}

/// Every grid with all cells empty has a completion.
pub proof fn lemma_empty_seed_has_completion(seed: Seq<i32>)
    requires
        forall|i: int| 0 <= i < 81 ==> #[trigger] seed[i] == 0,
    ensures
        has_completion(seed),
{
    lemma_pattern_grid_valid();
    assert(seed_preserved(seed, pattern_grid()));
}

/// Whether the first nine entries of `v` are pairwise distinct.
fn nine_distinct(v: &Vec<i32>) -> (r: bool)
    requires
        v@.len() == 9,
    ensures
        r == (forall|i1: int, i2: int| 0 <= i1 < i2 < 9 ==> v@[i1] != v@[i2]),
{
    let mut a: usize = 0;
    while a < 9
        invariant
            a <= 9,
            v@.len() == 9,
            forall|i1: int, i2: int| 0 <= i1 < i2 < 9 && i1 < a ==> v@[i1] != v@[i2],
        decreases 9 - a,
    {
        let mut b: usize = a + 1;
        while b < 9
            invariant
                a < 9,
                a < b <= 9,
                v@.len() == 9,
                forall|i1: int, i2: int| 0 <= i1 < i2 < 9 && i1 < a ==> v@[i1] != v@[i2],
                forall|i2: int| a < i2 < b ==> v@[a as int] != v@[i2],
            decreases 9 - b,
        {
            if v[a] == v[b] {
                return false;
            }
            b += 1;
        }
        a += 1;
    }
    true
}

/// The nine digits of subgrid `g`, in slot order.
fn block_digits(board: &Board, g: usize) -> (r: Vec<i32>)
    requires
        board.wf(),
        g < 9,
    ensures
        r@.len() == 9,
        forall|i: int| 0 <= i < 9 ==> r@[i] == grid_block_cell(board@, g as int, i),
{
    let mut r: Vec<i32> = Vec::new();
    let mut slot: usize = 0;
    while slot < 9
        invariant
            g < 9,
            slot <= 9,
            board.wf(),
            r@.len() == slot,
            forall|i: int| 0 <= i < slot ==> r@[i] == grid_block_cell(board@, g as int, i),
        decreases 9 - slot,
    {
        proof {
            lemma_block_cell_decompose(g as int, slot as int);
        }
        let cell_row = (g / 3) * 3 + slot / 3;
        let cell_col = (g % 3) * 3 + slot % 3;
        r.push(board.get(cell_col, cell_row));
        slot += 1;
    }
    r
}

/// Checks that the grid is completely solved and valid: no empty cells and
/// no digit repeated in any row, column, or 3-by-3 subgrid.
pub fn board_is_complete_and_valid(board: &Board) -> (r: bool)
    requires
        board.wf(),
    ensures
        r == board_full_and_valid(board@),
{
    let mut row_idx: usize = 0;
    while row_idx < 9
        invariant
            row_idx <= 9,
            board.wf(),
            forall|r: int, c: int| 0 <= r < row_idx && 0 <= c < 9 ==> #[trigger] grid_cell(board@, r, c) != 0,
        decreases 9 - row_idx,
    {
        let mut col_idx: usize = 0;
        while col_idx < 9
            invariant
                row_idx < 9,
                col_idx <= 9,
                board.wf(),
                forall|r: int, c: int| 0 <= r < row_idx && 0 <= c < 9 ==> #[trigger] grid_cell(board@, r, c) != 0,
                forall|c: int| 0 <= c < col_idx ==> #[trigger] grid_cell(board@, row_idx as int, c) != 0,
            decreases 9 - col_idx,
        {
            if board.get(col_idx, row_idx) == 0 {
                return false;
            }
            col_idx += 1;
        }
        row_idx += 1;
    }
    proof {
        assert forall|i: int| 0 <= i < 81 implies 1 <= #[trigger] board@[i] <= 9 by {
            let r = i / 9;
            let c = i % 9;
            vstd::arithmetic::div_mod::lemma_fundamental_div_mod(i, 9);
            assert(grid_cell(board@, r, c) != 0);
        }
    }
    let mut idx: usize = 0;
    while idx < 9
        invariant
            idx <= 9,
            board.wf(),
            board_complete(board@),
            forall|r: int, c1: int, c2: int|
                0 <= r < idx && 0 <= c1 < c2 < 9 ==> #[trigger] grid_cell(board@, r, c1)
                    != #[trigger] grid_cell(board@, r, c2),
        decreases 9 - idx,
    {
        let row = board.get_row(idx);
        proof {
            assert forall|c: int| 0 <= c < 9 implies row@[c] == #[trigger] grid_cell(
                board@,
                idx as int,
                c,
            ) by {
                assert(row@[c] == board@.subrange(idx * 9, idx * 9 + 9)[c]);
            }
        }
        if !nine_distinct(&row) {
            proof {
                let (c1, c2) = choose|c1: int, c2: int| 0 <= c1 < c2 < 9 && row@[c1] == row@[c2];
                assert(grid_cell(board@, idx as int, c1) == grid_cell(board@, idx as int, c2));
            }
            return false;
        }
        idx += 1;
    }
    let mut idx: usize = 0;
    while idx < 9
        invariant
            idx <= 9,
            board.wf(),
            board_complete(board@),
            rows_distinct(board@),
            forall|c: int, r1: int, r2: int|
                0 <= c < idx && 0 <= r1 < r2 < 9 ==> #[trigger] grid_cell(board@, r1, c)
                    != #[trigger] grid_cell(board@, r2, c),
        decreases 9 - idx,
    {
        let col = board.get_column(idx);
        proof {
            assert forall|r: int| 0 <= r < 9 implies col@[r] == #[trigger] grid_cell(
                board@,
                r,
                idx as int,
            ) by {
                assert(col@[r] == board@[r * 9 + idx]);
            }
        }
        if !nine_distinct(&col) {
            proof {
                let (r1, r2) = choose|r1: int, r2: int| 0 <= r1 < r2 < 9 && col@[r1] == col@[r2];
                assert(grid_cell(board@, r1, idx as int) == grid_cell(board@, r2, idx as int));
            }
            return false;
        }
        idx += 1;
    }
    let mut idx: usize = 0;
    while idx < 9
        invariant
            idx <= 9,
            board.wf(),
            board_complete(board@),
            rows_distinct(board@),
            cols_distinct(board@),
            forall|g: int, i1: int, i2: int|
                0 <= g < idx && 0 <= i1 < i2 < 9 ==> #[trigger] grid_block_cell(board@, g, i1)
                    != #[trigger] grid_block_cell(board@, g, i2),
        decreases 9 - idx,
    {
        let digits = block_digits(board, idx);
        proof {
            assert forall|i: int| 0 <= i < 9 implies digits@[i] == #[trigger] grid_block_cell(
                board@,
                idx as int,
                i,
            ) by {
            }
        }
        if !nine_distinct(&digits) {
            proof {
                let (i1, i2) = choose|i1: int, i2: int|
                    0 <= i1 < i2 < 9 && digits@[i1] == digits@[i2];
                assert(grid_block_cell(board@, idx as int, i1) == grid_block_cell(
                    board@,
                    idx as int,
                    i2,
                ));
            }
            return false;
        }
        idx += 1;
    }
    true
}

/// Checks whether two grids hold the same digit in every cell.
pub fn boards_equal(a: &Board, b: &Board) -> (r: bool)
    requires
        a.wf(),
        b.wf(),
    ensures
        r == (a@ == b@),
{
    let mut row_idx: usize = 0;
    while row_idx < 9
        invariant
            row_idx <= 9,
            a.wf(),
            b.wf(),
            forall|i: int| 0 <= i < row_idx * 9 ==> #[trigger] a@[i] == b@[i],
        decreases 9 - row_idx,
    {
        let mut col_idx: usize = 0;
        while col_idx < 9
            invariant
                row_idx < 9,
                col_idx <= 9,
                a.wf(),
                b.wf(),
                forall|i: int| 0 <= i < row_idx * 9 + col_idx ==> #[trigger] a@[i] == b@[i],
            decreases 9 - col_idx,
        {
            if a.get(col_idx, row_idx) != b.get(col_idx, row_idx) {
                return false;
            }
            col_idx += 1;
        }
        row_idx += 1;
    }
    proof {
        assert(a@ =~= b@);
    }
    true
}

/// Checks that every non-empty cell of `seed` holds the same digit in
/// `board`.
pub fn board_preserves_seed(seed: &Board, board: &Board) -> (r: bool)
    requires
        seed.wf(),
        board.wf(),
    ensures
        r == seed_preserved(seed@, board@),
{
    let mut row_idx: usize = 0;
    while row_idx < 9
        invariant
            row_idx <= 9,
            seed.wf(),
            board.wf(),
            forall|i: int| 0 <= i < row_idx * 9 && seed@[i] != 0 ==> #[trigger] board@[i] == seed@[i],
        decreases 9 - row_idx,
    {
        let mut col_idx: usize = 0;
        while col_idx < 9
            invariant
                row_idx < 9,
                col_idx <= 9,
                seed.wf(),
                board.wf(),
                forall|i: int|
                    0 <= i < row_idx * 9 + col_idx && seed@[i] != 0 ==> #[trigger] board@[i]
                        == seed@[i],
            decreases 9 - col_idx,
        {
            let s = seed.get(col_idx, row_idx);
            if s != 0 && board.get(col_idx, row_idx) != s {
                return false;
            }
            col_idx += 1;
        }
        row_idx += 1;
    }
    true
}

} // verus!
