use vstd::prelude::*;
use vstd::arithmetic::div_mod::{
    lemma_fundamental_div_mod, lemma_fundamental_div_mod_converse_div,
    lemma_fundamental_div_mod_converse_mod,
};
use vstd::set_lib::lemma_len_subset;

use crate::constraints::{
    block_of_cell, choice_block, choice_col, choice_index, choice_row, choice_val, grid_block_cell,
    grid_cell, is_canonical_table, lemma_block_cell_decompose, lemma_choice_fields,
    lemma_choice_parts,
};
use std::collections::HashSet;

use crate::board::Board;
use crate::codec::seed_choices;
use crate::search::{
    backtrack, col_satisfied, find_satisfying_rows, find_unsatisfied_constraint,
    get_conflicting_rows, pick_row, popped_selected, sel_set, Decision, DecisionStrategy,
    SolveError,
};
use crate::validity::{
    board_full_and_valid, board_is_complete_and_valid, board_preserves_seed, boards_equal,
    has_completion, lemma_no_duplicate_seed, lemma_pattern_grid_valid, seed_preserved,
    seed_row_duplicate,
};

verus! {

/// The digits a Sudoku cell may hold once filled.
pub open spec fn digit_set() -> Set<i32> {
    Set::new(|x: i32| 1 <= x <= 9)
}

proof fn lemma_digit_set_len()
    ensures
        digit_set().finite(),
        digit_set().len() == 9,
{
    let s = Set::empty().insert(1i32).insert(2i32).insert(3i32).insert(4i32).insert(5i32).insert(
        6i32,
    ).insert(7i32).insert(8i32).insert(9i32);
    assert(digit_set() =~= s);
    assert(s.len() == 9);
}

/// Nine pairwise distinct digits drawn from 1 through 9 must include every
/// digit: there is no room to leave one out.
proof fn lemma_nine_distinct_digits_cover(vals: Seq<i32>, d: i32)
    requires
        vals.len() == 9,
        forall|i: int| 0 <= i < 9 ==> 1 <= #[trigger] vals[i] <= 9,
        forall|i: int, j: int| 0 <= i < j < 9 ==> vals[i] != vals[j],
        1 <= d <= 9,
    ensures
        exists|i: int| 0 <= i < 9 && vals[i] == d,
{
    if !(exists|i: int| 0 <= i < 9 && vals[i] == d) {
        assert(vals.no_duplicates());
        vals.unique_seq_to_set();
        lemma_digit_set_len();
        let ds = digit_set().remove(d);
        assert(digit_set().contains(d));
        assert(ds.len() == 8);
        assert forall|x: i32| vals.to_set().contains(x) implies ds.contains(x) by {
            let i = choose|i: int| 0 <= i < vals.len() && vals[i] == x;
            assert(1 <= x <= 9);
            assert(x != d);
        }
        lemma_len_subset(vals.to_set(), ds);
    }
}

/// A completely solved, valid grid satisfies every constraint column
/// through its own choices: each row, column and subgrid supplies every
/// digit, and every cell is filled.
pub proof fn lemma_full_valid_covers(t: Seq<Vec<bool>>, b: Seq<i32>)
    requires
        is_canonical_table(t),
        board_full_and_valid(b),
    ensures
        forall|k: int| 0 <= k < 324 ==> col_satisfied(t, seed_choices(b), k),
{
    assert forall|k: int| 0 <= k < 324 implies col_satisfied(t, seed_choices(b), k) by {
        if k < 81 {
            let r = k / 9;
            let d = k % 9 + 1;
            lemma_fundamental_div_mod(k, 9);
            let vals = Seq::new(9, |c: int| grid_cell(b, r, c));
            lemma_nine_distinct_digits_cover(vals, d as i32);
            let c = choose|c: int| 0 <= c < 9 && vals[c] == d;
            let ch = choice_index(r, c, d);
            lemma_choice_fields(r, c, d);
            assert(grid_cell(b, choice_row(ch), choice_col(ch)) == choice_val(ch));
            assert(seed_choices(b).contains(ch as usize));
            assert(t[ch]@[k]);
        } else if k < 162 {
            let c = (k - 81) / 9;
            let d = (k - 81) % 9 + 1;
            lemma_fundamental_div_mod(k - 81, 9);
            let vals = Seq::new(9, |r: int| grid_cell(b, r, c));
            lemma_nine_distinct_digits_cover(vals, d as i32);
            let r = choose|r: int| 0 <= r < 9 && vals[r] == d;
            let ch = choice_index(r, c, d);
            lemma_choice_fields(r, c, d);
            assert(grid_cell(b, choice_row(ch), choice_col(ch)) == choice_val(ch));
            assert(seed_choices(b).contains(ch as usize));
            assert(t[ch]@[k]);
        } else if k < 243 {
            let g = (k - 162) / 9;
            let d = (k - 162) % 9 + 1;
            lemma_fundamental_div_mod(k - 162, 9);
            let vals = Seq::new(9, |i: int| grid_block_cell(b, g, i));
            assert forall|i: int| 0 <= i < 9 implies 1 <= #[trigger] vals[i] <= 9 by {
                lemma_block_cell_decompose(g, i);
            }
            lemma_nine_distinct_digits_cover(vals, d as i32);
            let i = choose|i: int| 0 <= i < 9 && vals[i] == d;
            lemma_block_cell_decompose(g, i);
            let r = (g / 3) * 3 + i / 3;
            let c = (g % 3) * 3 + i % 3;
            let ch = choice_index(r, c, d);
            lemma_choice_fields(r, c, d);
            assert(grid_cell(b, r, c) == d);
            assert(grid_cell(b, choice_row(ch), choice_col(ch)) == choice_val(ch));
            assert(seed_choices(b).contains(ch as usize));
            assert(choice_block(ch) == block_of_cell(r, c));
            assert(t[ch]@[k]);
        } else {
            let cell = k - 243;
            let r = cell / 9;
            let c = cell % 9;
            lemma_fundamental_div_mod(cell, 9);
            let d = b[cell] as int;
            assert(grid_cell(b, r, c) == b[cell]);
            let ch = choice_index(r, c, d);
            lemma_choice_fields(r, c, d);
            assert(grid_cell(b, choice_row(ch), choice_col(ch)) == choice_val(ch));
            assert(seed_choices(b).contains(ch as usize));
            assert(t[ch]@[k]);
        }
    }
}

/// An exclusive choice set: no two members share a satisfied column.
pub open spec fn set_exclusive(t: Seq<Vec<bool>>, w: Set<usize>) -> bool {
    forall|a: usize, b: usize|
        w.contains(a) && w.contains(b) && a != b ==> !#[trigger] crate::search::rows_conflict(
            t,
            a as int,
            b as int,
        )
}

/// A full exact cover: choices below 729 that satisfy every constraint
/// column and never conflict with one another.
pub open spec fn full_cover(t: Seq<Vec<bool>>, w: Set<usize>) -> bool {
    &&& (forall|ch: usize| w.contains(ch) ==> ch < 729)
    &&& (forall|k: int| 0 <= k < 324 ==> col_satisfied(t, w, k))
    &&& set_exclusive(t, w)
}

/// Over the canonical table, two rows conflict exactly when the two
/// choices conflict geometrically.
proof fn lemma_rows_conflict_canonical(t: Seq<Vec<bool>>, a: int, b: int)
    requires
        is_canonical_table(t),
        0 <= a < 729,
        0 <= b < 729,
    ensures
        crate::search::rows_conflict(t, a, b) == crate::constraints::choices_conflict(a, b),
{
    if crate::search::rows_conflict(t, a, b) {
        let k = choose|k: int| 0 <= k < 324 && #[trigger] t[a]@[k] && #[trigger] t[b]@[k];
        assert(crate::constraints::constraint_entry(a, k) && crate::constraints::constraint_entry(
            b,
            k,
        ));
    }
    if crate::constraints::choices_conflict(a, b) {
        let k = choose|k: int|
            0 <= k < 324 && #[trigger] crate::constraints::constraint_entry(a, k)
                && #[trigger] crate::constraints::constraint_entry(b, k);
        assert(t[a]@[k] && t[b]@[k]);
    }
}

/// The choice set of a completely solved valid grid is a full exact
/// cover.
pub proof fn lemma_full_valid_is_cover(t: Seq<Vec<bool>>, sol: Seq<i32>)
    requires
        is_canonical_table(t),
        board_full_and_valid(sol),
    ensures
        full_cover(t, seed_choices(sol)),
{
    lemma_full_valid_covers(t, sol);
    let w = seed_choices(sol);
    assert forall|a: usize, b: usize|
        w.contains(a) && w.contains(b) && a != b implies !#[trigger] crate::search::rows_conflict(
        t,
        a as int,
        b as int,
    ) by {
        if crate::search::rows_conflict(t, a as int, b as int) {
            lemma_rows_conflict_canonical(t, a as int, b as int);
            crate::constraints::lemma_choices_conflict_iff(a as int, b as int);
            lemma_choice_parts(a as int);
            lemma_choice_parts(b as int);
            let ra = choice_row(a as int);
            let ca = choice_col(a as int);
            let va = choice_val(a as int);
            let rb = choice_row(b as int);
            let cb = choice_col(b as int);
            let vb = choice_val(b as int);
            assert(grid_cell(sol, ra, ca) == va && grid_cell(sol, rb, cb) == vb);
            if ra == rb && ca == cb {
                assert(va == vb);
                assert(a as int == choice_index(ra, ca, va));
            } else if ra == rb && va == vb {
                assert(ca != cb);
            } else if ca == cb && va == vb {
                assert(ra != rb);
            } else {
                assert(choice_block(a as int) == choice_block(b as int) && va == vb);
                let g = choice_block(a as int);
                crate::constraints::lemma_block_slot(ra, ca);
                crate::constraints::lemma_block_slot(rb, cb);
                let sa = (ra % 3) * 3 + ca % 3;
                let sb = (rb % 3) * 3 + cb % 3;
                assert(grid_block_cell(sol, g, sa) == grid_cell(sol, ra, ca));
                assert(grid_block_cell(sol, g, sb) == grid_cell(sol, rb, cb));
                assert(sa != sb) by {
                    if sa == sb {
                        assert(ra * 9 + ca == rb * 9 + cb);
                    }
                }
            }
        }
    }
}

/// A grid that preserves the seed carries every seeded choice in its own
/// choice set.
pub proof fn lemma_preserving_includes_seed(seed: Seq<i32>, sol: Seq<i32>)
    requires
        seed.len() == 81,
        sol.len() == 81,
        seed_preserved(seed, sol),
    ensures
        seed_choices(seed).subset_of(seed_choices(sol)),
{
    assert forall|ch: usize| seed_choices(seed).contains(ch) implies seed_choices(sol).contains(
        ch,
    ) by {
        lemma_choice_parts(ch as int);
        let r = choice_row(ch as int);
        let c = choice_col(ch as int);
        assert(seed[r * 9 + c] == choice_val(ch as int));
        assert(sol[r * 9 + c] == seed[r * 9 + c]);
    }
}

/// Decoding an exclusive cover of all 324 constraint columns gives a
/// completely solved valid grid.
#[verifier::rlimit(60)]
pub proof fn lemma_cover_board_valid(t: Seq<Vec<bool>>, sol_set: Set<usize>, board: Seq<i32>)
    requires
        is_canonical_table(t),
        forall|ch: usize| sol_set.contains(ch) ==> ch < 729,
        forall|k: int| 0 <= k < 324 ==> col_satisfied(t, sol_set, k),
        set_exclusive(t, sol_set),
        board.len() == 81,
        forall|i: int| 0 <= i < 81 ==> 0 <= #[trigger] board[i] <= 9,
        forall|i: int|
            0 <= i < 81 ==> ((board[i] == 0) <==> !crate::codec::covers_cell(sol_set, i)),
        forall|i: int|
            0 <= i < 81 && board[i] != 0 ==> sol_set.contains(
                (i * 9 + (board[i] as int) - 1) as usize,
            ),
    ensures
        board_full_and_valid(board),
{
    assert forall|i: int| 0 <= i < 81 implies 1 <= #[trigger] board[i] <= 9 by {
        assert(col_satisfied(t, sol_set, 243 + i));
        let w = choose|w: usize|
            #[trigger] sol_set.contains(w) && w < 729 && t[w as int]@[243 + i];
        lemma_choice_parts(w as int);
        assert(choice_row(w as int) * 9 + choice_col(w as int) == i);
        assert(crate::codec::covers_cell(sol_set, i));
    }
    assert forall|r: int, c1: int, c2: int|
        0 <= r < 9 && 0 <= c1 < c2 < 9 implies #[trigger] grid_cell(board, r, c1)
        != #[trigger] grid_cell(board, r, c2) by {
        if grid_cell(board, r, c1) == grid_cell(board, r, c2) {
            let v = board[r * 9 + c1] as int;
            let ch1 = ((r * 9 + c1) * 9 + v - 1) as usize;
            let ch2 = ((r * 9 + c2) * 9 + v - 1) as usize;
            assert(sol_set.contains(ch1) && sol_set.contains(ch2));
            lemma_choice_fields(r, c1, v);
            lemma_choice_fields(r, c2, v);
            assert(ch1 as int == choice_index(r, c1, v));
            assert(ch2 as int == choice_index(r, c2, v));
            let k = r * 9 + (v - 1);
            lemma_fundamental_div_mod_converse_div(k, 9, r, v - 1);
            lemma_fundamental_div_mod_converse_mod(k, 9, r, v - 1);
            assert(t[ch1 as int]@[k] && t[ch2 as int]@[k]);
            assert(crate::search::rows_conflict(t, ch1 as int, ch2 as int));
        }
    }
    assert forall|c: int, r1: int, r2: int|
        0 <= c < 9 && 0 <= r1 < r2 < 9 implies #[trigger] grid_cell(board, r1, c)
        != #[trigger] grid_cell(board, r2, c) by {
        if grid_cell(board, r1, c) == grid_cell(board, r2, c) {
            let v = board[r1 * 9 + c] as int;
            let ch1 = ((r1 * 9 + c) * 9 + v - 1) as usize;
            let ch2 = ((r2 * 9 + c) * 9 + v - 1) as usize;
            assert(sol_set.contains(ch1) && sol_set.contains(ch2));
            lemma_choice_fields(r1, c, v);
            lemma_choice_fields(r2, c, v);
            assert(ch1 as int == choice_index(r1, c, v));
            assert(ch2 as int == choice_index(r2, c, v));
            let k = 81 + c * 9 + (v - 1);
            lemma_fundamental_div_mod_converse_div(k - 81, 9, c, v - 1);
            lemma_fundamental_div_mod_converse_mod(k - 81, 9, c, v - 1);
            assert(t[ch1 as int]@[k] && t[ch2 as int]@[k]);
            assert(crate::search::rows_conflict(t, ch1 as int, ch2 as int));
        }
    }
    assert forall|g: int, i1: int, i2: int|
        0 <= g < 9 && 0 <= i1 < i2 < 9 implies #[trigger] grid_block_cell(board, g, i1)
        != #[trigger] grid_block_cell(board, g, i2) by {
        if grid_block_cell(board, g, i1) == grid_block_cell(board, g, i2) {
            lemma_block_cell_decompose(g, i1);
            lemma_block_cell_decompose(g, i2);
            let r1 = (g / 3) * 3 + i1 / 3;
            let c1 = (g % 3) * 3 + i1 % 3;
            let r2 = (g / 3) * 3 + i2 / 3;
            let c2 = (g % 3) * 3 + i2 % 3;
            let v = board[r1 * 9 + c1] as int;
            assert(grid_cell(board, r1, c1) == grid_cell(board, r2, c2));
            let ch1 = ((r1 * 9 + c1) * 9 + v - 1) as usize;
            let ch2 = ((r2 * 9 + c2) * 9 + v - 1) as usize;
            assert(sol_set.contains(ch1) && sol_set.contains(ch2));
            lemma_choice_fields(r1, c1, v);
            lemma_choice_fields(r2, c2, v);
            assert(ch1 as int == choice_index(r1, c1, v));
            assert(ch2 as int == choice_index(r2, c2, v));
            assert(ch1 != ch2) by {
                assert(r1 * 9 + c1 != r2 * 9 + c2);
            }
            let k = 162 + g * 9 + (v - 1);
            lemma_fundamental_div_mod_converse_div(k - 162, 9, g, v - 1);
            lemma_fundamental_div_mod_converse_mod(k - 162, 9, g, v - 1);
            assert(choice_block(ch1 as int) == block_of_cell(r1, c1) == g);
            assert(choice_block(ch2 as int) == block_of_cell(r2, c2) == g);
            assert(t[ch1 as int]@[k] && t[ch2 as int]@[k]);
            assert(crate::search::rows_conflict(t, ch1 as int, ch2 as int));
        }
    }
}

/// Decoding an exclusive cover that contains every seeded choice gives a
/// grid that preserves the seed.
pub proof fn lemma_cover_board_preserves(
    t: Seq<Vec<bool>>,
    seed: Seq<i32>,
    sol_set: Set<usize>,
    board: Seq<i32>,
)
    requires
        is_canonical_table(t),
        seed.len() == 81,
        forall|i: int| 0 <= i < 81 ==> 0 <= #[trigger] seed[i] <= 9,
        forall|ch: usize| sol_set.contains(ch) ==> ch < 729,
        set_exclusive(t, sol_set),
        seed_choices(seed).subset_of(sol_set),
        board.len() == 81,
        forall|i: int| 0 <= i < 81 ==> 0 <= #[trigger] board[i] <= 9,
        forall|i: int|
            0 <= i < 81 ==> ((board[i] == 0) <==> !crate::codec::covers_cell(sol_set, i)),
        forall|i: int|
            0 <= i < 81 && board[i] != 0 ==> sol_set.contains(
                (i * 9 + (board[i] as int) - 1) as usize,
            ),
    ensures
        seed_preserved(seed, board),
{
    assert forall|i: int| 0 <= i < 81 && seed[i] != 0 implies #[trigger] board[i] == seed[i] by {
        let r = i / 9;
        let c = i % 9;
        lemma_fundamental_div_mod(i, 9);
        let v0 = seed[i] as int;
        let ch_s = choice_index(r, c, v0) as usize;
        lemma_choice_fields(r, c, v0);
        assert(grid_cell(seed, r, c) == seed[i]);
        assert(seed_choices(seed).contains(ch_s));
        assert(sol_set.contains(ch_s));
        assert(crate::codec::covers_cell(sol_set, i));
        assert(board[i] != 0);
        let ch_b = (i * 9 + (board[i] as int) - 1) as usize;
        assert(sol_set.contains(ch_b));
        lemma_choice_parts(ch_b as int);
        assert(ch_b as int == 9 * (choice_row(ch_b as int) * 9 + choice_col(ch_b as int)) + (
        choice_val(ch_b as int) - 1));
        lemma_fundamental_div_mod_converse_div(
            ch_b as int,
            9,
            choice_row(ch_b as int) * 9 + choice_col(ch_b as int),
            choice_val(ch_b as int) - 1,
        );
        lemma_fundamental_div_mod_converse_mod(
            ch_b as int,
            9,
            choice_row(ch_b as int) * 9 + choice_col(ch_b as int),
            choice_val(ch_b as int) - 1,
        );
        lemma_fundamental_div_mod_converse_div(ch_b as int, 9, i, (board[i] as int) - 1);
        lemma_fundamental_div_mod_converse_mod(ch_b as int, 9, i, (board[i] as int) - 1);
        assert(choice_row(ch_b as int) * 9 + choice_col(ch_b as int) == i);
        if ch_b != ch_s {
            let k = 243 + i;
            assert(choice_row(ch_s as int) * 9 + choice_col(ch_s as int) == i);
            assert(t[ch_s as int]@[k] && t[ch_b as int]@[k]);
            assert(crate::search::rows_conflict(t, ch_s as int, ch_b as int));
        }
        assert(ch_b == ch_s);
        assert(choice_val(ch_b as int) == v0);
    }
}

/// A justifying constraint column for one decision: the decision's
/// selection and every remaining alternative satisfy it, and nothing chosen
/// before the decision does.
pub open spec fn decision_covers(t: Seq<Vec<bool>>, d: Decision, k: int) -> bool {
    &&& d.selected_row < 729
    &&& t[d.selected_row as int]@[k]
    &&& forall|a: usize| d.potential_rows@.contains(a) ==> a < 729 && t[a as int]@[k]
}

/// The decision at stack index `l` was made against a constraint column
/// that the solution state before it left unsatisfied. This is what makes
/// a selection fresh: a choice that satisfies an unsatisfied column cannot
/// already be part of the solution.
pub open spec fn decision_justified(
    t: Seq<Vec<bool>>,
    s0: Set<usize>,
    ds: Seq<Decision>,
    l: int,
) -> bool {
    exists|k: int|
        0 <= k < 324 && !#[trigger] col_satisfied(t, s0.union(sel_set(ds.subrange(0, l))), k)
            && decision_covers(t, ds[l], k)
}

/// A decision's justification depends only on the stack up to and
/// including it, so it survives any change deeper in the stack.
proof fn lemma_justified_prefix(
    t: Seq<Vec<bool>>,
    s0: Set<usize>,
    ds1: Seq<Decision>,
    ds2: Seq<Decision>,
    l: int,
)
    requires
        0 <= l < ds1.len(),
        l < ds2.len(),
        ds1.subrange(0, l) == ds2.subrange(0, l),
        ds1[l] == ds2[l],
        decision_justified(t, s0, ds1, l),
    ensures
        decision_justified(t, s0, ds2, l),
{
    let k = choose|k: int|
        0 <= k < 324 && !#[trigger] col_satisfied(t, s0.union(sel_set(ds1.subrange(0, l))), k)
            && decision_covers(t, ds1[l], k);
    assert(!col_satisfied(t, s0.union(sel_set(ds2.subrange(0, l))), k));
    assert(decision_covers(t, ds2[l], k));
}

/// Pushing a decision adds exactly its selection to the stack's selection
/// set.
proof fn lemma_sel_set_push(ds: Seq<Decision>, d: Decision)
    ensures
        sel_set(ds.push(d)) == sel_set(ds).insert(d.selected_row),
{
    assert forall|ch: usize| sel_set(ds.push(d)).contains(ch) implies sel_set(ds).insert(
        d.selected_row,
    ).contains(ch) by {
        let l = choose|l: int|
            0 <= l < ds.push(d).len() && (#[trigger] ds.push(d)[l]).selected_row == ch;
        if l < ds.len() {
            assert(ds[l].selected_row == ch);
        }
    }
    assert forall|ch: usize| sel_set(ds).insert(d.selected_row).contains(ch) implies sel_set(
        ds.push(d),
    ).contains(ch) by {
        if ch == d.selected_row {
            assert(ds.push(d)[ds.len() as int].selected_row == ch);
        } else {
            let l = choose|l: int| 0 <= l < ds.len() && (#[trigger] ds[l]).selected_row == ch;
            assert(ds.push(d)[l].selected_row == ch);
        }
    }
    assert(sel_set(ds.push(d)) =~= sel_set(ds).insert(d.selected_row));
}

/// Undoing the decisions at index `j` and deeper removes exactly their
/// selections from the solution set, since selections are pairwise
/// distinct and no selection repeats a seeded choice.
proof fn lemma_solution_after_pop(s0: Set<usize>, ds: Seq<Decision>, j: int)
    requires
        0 <= j <= ds.len(),
        forall|l1: int, l2: int|
            0 <= l1 < l2 < ds.len() ==> (#[trigger] ds[l1]).selected_row != (
            #[trigger] ds[l2]).selected_row,
        forall|l: int| 0 <= l < ds.len() ==> !s0.contains((#[trigger] ds[l]).selected_row),
    ensures
        s0.union(sel_set(ds)).difference(crate::search::popped_selected(ds, j)) == s0.union(
            sel_set(ds.subrange(0, j)),
        ),
{
    let lhs = s0.union(sel_set(ds)).difference(crate::search::popped_selected(ds, j));
    let rhs = s0.union(sel_set(ds.subrange(0, j)));
    assert forall|ch: usize| lhs.contains(ch) implies rhs.contains(ch) by {
        if !s0.contains(ch) {
            let l = choose|l: int| 0 <= l < ds.len() && (#[trigger] ds[l]).selected_row == ch;
            assert(l < j);
            assert(ds.subrange(0, j)[l].selected_row == ch);
        }
    }
    assert forall|ch: usize| rhs.contains(ch) implies lhs.contains(ch) by {
        if s0.contains(ch) {
            if crate::search::popped_selected(ds, j).contains(ch) {
                let l = choose|l: int|
                    j <= l < ds.len() && (#[trigger] ds[l]).selected_row == ch;
            }
            assert(!crate::search::popped_selected(ds, j).contains(ch));
        } else {
            let l = choose|l: int|
                0 <= l < ds.subrange(0, j).len() && (#[trigger] ds.subrange(0, j)[l]).selected_row
                    == ch;
            assert(ds[l].selected_row == ch);
            assert(sel_set(ds).contains(ch));
            if crate::search::popped_selected(ds, j).contains(ch) {
                let l2 = choose|l2: int|
                    j <= l2 < ds.len() && (#[trigger] ds[l2]).selected_row == ch;
                assert(ds[l].selected_row != ds[l2].selected_row);
            }
            assert(!crate::search::popped_selected(ds, j).contains(ch));
        }
    }
    assert(lhs =~= rhs);
}

/// Conflicting is symmetric: a shared column is shared both ways.
proof fn lemma_rows_conflict_symmetric(t: Seq<Vec<bool>>, a: int, b: int)
    ensures
        crate::search::rows_conflict(t, a, b) == crate::search::rows_conflict(t, b, a),
{
    if crate::search::rows_conflict(t, a, b) {
        let k = choose|k: int| 0 <= k < 324 && #[trigger] t[a]@[k] && #[trigger] t[b]@[k];
        assert(t[b]@[k] && t[a]@[k]);
    }
    if crate::search::rows_conflict(t, b, a) {
        let k = choose|k: int| 0 <= k < 324 && #[trigger] t[b]@[k] && #[trigger] t[a]@[k];
        assert(t[a]@[k] && t[b]@[k]);
    }
}

/// Removing one position by swap keeps every other value present.
proof fn lemma_swap_remove_keeps(s: Seq<usize>, idx: int, a: usize)
    requires
        0 <= idx < s.len(),
        s.contains(a),
        a != s[idx],
    ensures
        s.update(idx, s.last()).drop_last().contains(a),
{
    let m = choose|m: int| 0 <= m < s.len() && s[m] == a;
    let out = s.update(idx, s.last()).drop_last();
    if m < s.len() - 1 {
        assert(out[m] == a);
    } else {
        assert(out[idx] == a);
    }
}

/// The set of choices hidden after the first `j` decisions: the choices
/// conflicting with the seed, plus each decision's recorded conflict
/// list.
pub open spec fn hidden_model(base: Set<usize>, ds: Seq<Decision>, j: int) -> Set<usize>
    decreases j,
{
    if j <= 0 {
        base
    } else {
        hidden_model(base, ds, j - 1).union(
            ds[j - 1].rows_conflicting_with_selected_row@.to_set(),
        )
    }
}

proof fn lemma_hidden_model_members(base: Set<usize>, ds: Seq<Decision>, j: int)
    requires
        0 <= j <= ds.len(),
    ensures
        forall|x: usize|
            hidden_model(base, ds, j).contains(x) <==> (base.contains(x) || exists|l: int|
                0 <= l < j && (#[trigger] ds[l]).rows_conflicting_with_selected_row@.contains(x)),
    decreases j,
{
    if j > 0 {
        lemma_hidden_model_members(base, ds, j - 1);
        assert forall|x: usize| hidden_model(base, ds, j).contains(x) implies (base.contains(x)
            || exists|l: int|
            0 <= l < j && (#[trigger] ds[l]).rows_conflicting_with_selected_row@.contains(x)) by {
            if !base.contains(x) && !ds[j - 1].rows_conflicting_with_selected_row@.contains(x) {
                let l = choose|l: int|
                    0 <= l < j - 1 && (
                    #[trigger] ds[l]).rows_conflicting_with_selected_row@.contains(x);
            }
        }
        assert forall|x: usize|
            (base.contains(x) || exists|l: int|
                0 <= l < j && (#[trigger] ds[l]).rows_conflicting_with_selected_row@.contains(
                    x,
                )) implies hidden_model(base, ds, j).contains(x) by {
            if !base.contains(x) {
                let l = choose|l: int|
                    0 <= l < j && (
                    #[trigger] ds[l]).rows_conflicting_with_selected_row@.contains(x);
                if l < j - 1 {
                    assert(hidden_model(base, ds, j - 1).contains(x));
                }
            }
        }
    }
}

proof fn lemma_hidden_model_mono(base: Set<usize>, ds: Seq<Decision>, j1: int, j2: int)
    requires
        j1 <= j2,
    ensures
        hidden_model(base, ds, j1).subset_of(hidden_model(base, ds, j2)),
    decreases j2 - j1,
{
    if j1 < j2 {
        lemma_hidden_model_mono(base, ds, j1, j2 - 1);
    }
}

proof fn lemma_hidden_model_prefix(base: Set<usize>, ds1: Seq<Decision>, ds2: Seq<Decision>, j: int)
    requires
        0 <= j <= ds1.len(),
        j <= ds2.len(),
        ds1.subrange(0, j) == ds2.subrange(0, j),
    ensures
        hidden_model(base, ds1, j) == hidden_model(base, ds2, j),
    decreases j,
{
    if j > 0 {
        assert(ds1.subrange(0, j - 1) =~= ds2.subrange(0, j - 1)) by {
            assert forall|x: int|
                0 <= x < j - 1 implies #[trigger] ds1.subrange(0, j - 1)[x] == ds2.subrange(
                0,
                j - 1,
            )[x] by {
                assert(ds1.subrange(0, j)[x] == ds2.subrange(0, j)[x]);
            }
        }
        lemma_hidden_model_prefix(base, ds1, ds2, j - 1);
        assert(ds1.subrange(0, j)[j - 1] == ds1[j - 1]);
        assert(ds2.subrange(0, j)[j - 1] == ds2[j - 1]);
        assert(ds1[j - 1] == ds2[j - 1]);
    }
}

/// The per-decision freshness conditions that make undoing exact: the
/// decision's conflict list, selection and alternatives were all
/// selectable when it was made.
pub open spec fn level_fresh(base: Set<usize>, ds: Seq<Decision>, l: int) -> bool {
    &&& (forall|x: usize|
        (#[trigger] ds[l].rows_conflicting_with_selected_row@.contains(x)) ==> !hidden_model(
            base,
            ds,
            l,
        ).contains(x))
    &&& !hidden_model(base, ds, l).contains(ds[l].selected_row)
    &&& (forall|a: usize|
        (#[trigger] ds[l].potential_rows@.contains(a)) ==> !hidden_model(base, ds, l).contains(a))
}

/// After `j` decisions, every selectable choice in conflict with a chosen
/// one is hidden: nothing conflicting with the solution state can be
/// selected later.
pub open spec fn level_covered(
    t: Seq<Vec<bool>>,
    s0: Set<usize>,
    base: Set<usize>,
    ds: Seq<Decision>,
    j: int,
) -> bool {
    forall|s: usize, r: usize|
        s0.union(sel_set(ds.subrange(0, j))).contains(s) && r < 729 && !s0.union(
            sel_set(ds.subrange(0, j)),
        ).contains(r) && #[trigger] crate::search::rows_conflict(t, r as int, s as int)
            ==> hidden_model(base, ds, j).contains(r)
}

/// The hidden set's bookkeeping invariant: the live hidden set is exactly
/// the model of the stack, every decision's entries were fresh when made,
/// and every level's hidden set covers the conflicts of its solution
/// state.
pub open spec fn hidden_state_ok(
    t: Seq<Vec<bool>>,
    s0: Set<usize>,
    base: Set<usize>,
    ds: Seq<Decision>,
    hidden: Set<usize>,
) -> bool {
    &&& hidden == hidden_model(base, ds, ds.len() as int)
    &&& (forall|l: int| 0 <= l < ds.len() ==> level_fresh(base, ds, l))
    &&& (forall|j: int| 0 <= j <= ds.len() ==> level_covered(t, s0, base, ds, j))
}

/// Undoing the decisions at index `j` and deeper restores the hidden set
/// to exactly the model of the remaining stack.
proof fn lemma_hidden_rollback(base: Set<usize>, ds: Seq<Decision>, j: int)
    requires
        0 <= j <= ds.len(),
        forall|l: int| 0 <= l < ds.len() ==> level_fresh(base, ds, l),
    ensures
        hidden_model(base, ds, ds.len() as int).difference(
            crate::search::popped_conflicts(ds, j),
        ).difference(popped_selected(ds, j)) == hidden_model(base, ds, j),
{
    let full = hidden_model(base, ds, ds.len() as int);
    let lhs = full.difference(crate::search::popped_conflicts(ds, j)).difference(
        popped_selected(ds, j),
    );
    let rhs = hidden_model(base, ds, j);
    lemma_hidden_model_members(base, ds, ds.len() as int);
    lemma_hidden_model_members(base, ds, j);
    assert forall|x: usize| lhs.contains(x) implies rhs.contains(x) by {
        if !base.contains(x) {
            let l = choose|l: int|
                0 <= l < ds.len() && (
                #[trigger] ds[l]).rows_conflicting_with_selected_row@.contains(x);
            if l >= j {
                assert(crate::search::popped_conflicts(ds, j).contains(x));
            }
        }
    }
    assert forall|x: usize| rhs.contains(x) implies lhs.contains(x) by {
        assert(full.contains(x)) by {
            lemma_hidden_model_mono(base, ds, j, ds.len() as int);
        }
        if crate::search::popped_conflicts(ds, j).contains(x) {
            let l = choose|l: int|
                j <= l < ds.len() && (
                #[trigger] ds[l]).rows_conflicting_with_selected_row@.contains(x);
            assert(level_fresh(base, ds, l));
            lemma_hidden_model_mono(base, ds, j, l);
        }
        if popped_selected(ds, j).contains(x) {
            let l = choose|l: int| j <= l < ds.len() && (#[trigger] ds[l]).selected_row == x;
            assert(level_fresh(base, ds, l));
            lemma_hidden_model_mono(base, ds, j, l);
        }
    }
    assert(lhs =~= rhs);
}

/// Truncating the stack to its first `j` decisions and rolling the hidden
/// set back accordingly preserves the bookkeeping invariant.
proof fn lemma_hidden_state_truncate(
    t: Seq<Vec<bool>>,
    s0: Set<usize>,
    base: Set<usize>,
    ds: Seq<Decision>,
    hidden: Set<usize>,
    j: int,
)
    requires
        hidden_state_ok(t, s0, base, ds, hidden),
        0 <= j <= ds.len(),
    ensures
        hidden.difference(crate::search::popped_conflicts(ds, j)).difference(
            popped_selected(ds, j),
        ) == hidden_model(base, ds, j),
        hidden_state_ok(
            t,
            s0,
            base,
            ds.subrange(0, j),
            hidden.difference(crate::search::popped_conflicts(ds, j)).difference(
                popped_selected(ds, j),
            ),
        ),
{
    lemma_hidden_rollback(base, ds, j);
    let tr = ds.subrange(0, j);
    assert(ds.subrange(0, j) =~= tr.subrange(0, j));
    lemma_hidden_model_prefix(base, ds, tr, j);
    assert forall|l: int| 0 <= l < tr.len() implies level_fresh(base, tr, l) by {
        assert(ds.subrange(0, l) =~= tr.subrange(0, l));
        lemma_hidden_model_prefix(base, ds, tr, l);
        assert(tr[l] == ds[l]);
        assert(level_fresh(base, ds, l));
    }
    assert forall|j2: int| 0 <= j2 <= tr.len() implies level_covered(t, s0, base, tr, j2) by {
        assert(ds.subrange(0, j2) =~= tr.subrange(0, j2));
        lemma_hidden_model_prefix(base, ds, tr, j2);
        assert(level_covered(t, s0, base, ds, j2));
    }
}

/// A full cover that agrees with the solution state after `j` decisions:
/// it extends the seed and the chosen selections, and avoids everything
/// hidden there.
pub open spec fn compatible_state(
    t: Seq<Vec<bool>>,
    s0: Set<usize>,
    base: Set<usize>,
    ds: Seq<Decision>,
    j: int,
    w: Set<usize>,
) -> bool {
    &&& full_cover(t, w)
    &&& s0.subset_of(w)
    &&& s0.union(sel_set(ds.subrange(0, j))).subset_of(w)
    &&& hidden_model(base, ds, j).disjoint(w)
}

/// Some full cover is still reachable: either the current state agrees
/// with one, or an untried alternative of some decision does.
pub open spec fn witness_reachable(
    t: Seq<Vec<bool>>,
    s0: Set<usize>,
    base: Set<usize>,
    ds: Seq<Decision>,
) -> bool {
    ||| exists|w: Set<usize>| #[trigger] compatible_state(t, s0, base, ds, ds.len() as int, w)
    ||| exists|j: int, a: usize, w: Set<usize>|
        0 <= j < ds.len() && #[trigger] ds[j].potential_rows@.contains(a) && w.contains(a)
            && #[trigger] compatible_state(t, s0, base, ds, j, w)
}

/// The well-formedness of the search state: the solution set is the seeded
/// choices plus the stack's selections, selections are pairwise distinct
/// choices that were not seeded, alternatives are bounded, and every
/// decision is justified by a constraint column that was unsatisfied when
/// it was made.
pub open spec fn search_state_ok(
    t: Seq<Vec<bool>>,
    s0: Set<usize>,
    sol: Set<usize>,
    ds: Seq<Decision>,
) -> bool {
    &&& (forall|ch: usize| s0.contains(ch) ==> ch < 729)
    &&& (forall|ch: usize| sol.contains(ch) ==> ch < 729)
    &&& sol == s0.union(sel_set(ds))
    &&& (forall|l1: int, l2: int|
        0 <= l1 < l2 < ds.len() ==> (#[trigger] ds[l1]).selected_row != (
        #[trigger] ds[l2]).selected_row)
    &&& (forall|l: int| 0 <= l < ds.len() ==> !s0.contains((#[trigger] ds[l]).selected_row))
    &&& (forall|l: int| 0 <= l < ds.len() ==> (#[trigger] ds[l]).selected_row < 729)
    &&& (forall|l: int| 0 <= l < ds.len() ==> (#[trigger] ds[l]).potential_rows@.len() <= 729)
    &&& (forall|l: int| 0 <= l < ds.len() ==> decision_justified(t, s0, ds, l))
}

/// Commits one choice: inserts it into the solution set, hides every
/// selectable choice that conflicts with it, and pushes the undo record.
/// The choice must satisfy a constraint column `jk` that the current
/// solution leaves unsatisfied, which guarantees it is fresh.
fn commit_choice(
    constraint_table: &Vec<Vec<bool>>,
    solution_set: &mut HashSet<usize>,
    hidden_rows: &mut HashSet<usize>,
    decisions: &mut Vec<Decision>,
    selected_row: usize,
    potential_rows: Vec<usize>,
    Ghost(s0): Ghost<Set<usize>>,
    Ghost(base): Ghost<Set<usize>>,
    Ghost(jk): Ghost<int>,
)
    requires
        crate::constraints::table_wf(constraint_table@),
        search_state_ok(constraint_table@, s0, old(solution_set)@, old(decisions)@),
        hidden_state_ok(
            constraint_table@,
            s0,
            base,
            old(decisions)@,
            old(hidden_rows)@,
        ),
        0 <= jk < 324,
        !col_satisfied(constraint_table@, old(solution_set)@, jk),
        selected_row < 729,
        constraint_table@[selected_row as int]@[jk],
        !old(hidden_rows)@.contains(selected_row),
        forall|a: usize|
            #[trigger] potential_rows@.contains(a) ==> a < 729 && constraint_table@[a as int]@[jk]
                && !old(hidden_rows)@.contains(a),
        potential_rows@.len() <= 729,
    ensures
        search_state_ok(constraint_table@, s0, final(solution_set)@, final(decisions)@),
        hidden_state_ok(
            constraint_table@,
            s0,
            base,
            final(decisions)@,
            final(hidden_rows)@,
        ),
        final(decisions)@.len() == old(decisions)@.len() + 1,
        final(decisions)@.subrange(0, old(decisions)@.len() as int) == old(decisions)@,
        final(decisions)@.last().potential_rows@ == potential_rows@,
        final(decisions)@.last().selected_row == selected_row,
        final(solution_set)@ == old(solution_set)@.insert(selected_row),
        !old(solution_set)@.contains(selected_row),
        final(hidden_rows)@ == old(hidden_rows)@.union(
            final(decisions)@.last().rows_conflicting_with_selected_row@.to_set(),
        ),
        forall|x: usize|
            final(decisions)@.last().rows_conflicting_with_selected_row@.contains(x) ==> x
                != selected_row && !old(hidden_rows)@.contains(x)
                && crate::search::rows_conflict(constraint_table@, x as int, selected_row as int),
        set_exclusive(constraint_table@, old(solution_set)@) ==> set_exclusive(
            constraint_table@,
            final(solution_set)@,
        ),
{
    proof {
        if old(solution_set)@.contains(selected_row) {
            assert(col_satisfied(constraint_table@, old(solution_set)@, jk));
        }
    }
    solution_set.insert(selected_row);
    let conflicting_rows = get_conflicting_rows(constraint_table, hidden_rows, selected_row);
    let ghost hid0 = hidden_rows@;
    let mut ci: usize = 0;
    while ci < conflicting_rows.len()
        invariant
            ci <= conflicting_rows@.len(),
            hidden_rows@ == hid0.union(conflicting_rows@.take(ci as int).to_set()),
        decreases conflicting_rows@.len() - ci,
    {
        let ghost pre = hidden_rows@;
        let c = conflicting_rows[ci];
        hidden_rows.insert(c);
        proof {
            let confs = conflicting_rows@;
            assert forall|ch: usize| confs.take(ci + 1).contains(ch) implies (confs.take(
                ci as int,
            ).contains(ch) || ch == c) by {
                let x = choose|x: int| 0 <= x < ci + 1 && #[trigger] confs.take(ci + 1)[x] == ch;
                if x < ci {
                    assert(confs.take(ci as int)[x] == ch);
                }
            }
            assert forall|ch: usize|
                confs.take(ci as int).contains(ch) implies confs.take(ci + 1).contains(ch) by {
                let x = choose|x: int| 0 <= x < ci && #[trigger] confs.take(ci as int)[x] == ch;
                assert(confs.take(ci + 1)[x] == ch);
            }
            assert(confs.take(ci + 1)[ci as int] == confs[ci as int]);
            assert(hidden_rows@ =~= hid0.union(confs.take(ci + 1).to_set()));
        }
        ci += 1;
    }
    proof {
        assert(conflicting_rows@.take(conflicting_rows@.len() as int) =~= conflicting_rows@);
    }
    let decision = Decision {
        selected_row,
        potential_rows,
        rows_conflicting_with_selected_row: conflicting_rows,
    };
    let ghost ds0 = decisions@;
    let ghost sol0 = old(solution_set)@;
    decisions.push(decision);
    proof {
        let t = constraint_table@;
        let ds1 = decisions@;
        let n0 = ds0.len() as int;
        lemma_sel_set_push(ds0, decision);
        assert(ds1.subrange(0, ds0.len() as int) =~= ds0);
        assert(ds0.subrange(0, ds0.len() as int) =~= ds0);
        assert(solution_set@ =~= s0.union(sel_set(ds1)));
        assert forall|l: int| 0 <= l < ds1.len() implies decision_justified(t, s0, ds1, l) by {
            if l < ds0.len() {
                assert(ds1.subrange(0, l) =~= ds0.subrange(0, l));
                assert(decision_justified(t, s0, ds0, l));
                lemma_justified_prefix(t, s0, ds0, ds1, l);
            } else {
                assert(ds1[l] == decision);
                assert(ds1.subrange(0, l) =~= ds0);
                assert(!col_satisfied(t, s0.union(sel_set(ds1.subrange(0, l))), jk));
                assert(decision_covers(t, decision, jk));
            }
        }
        assert forall|l1: int, l2: int| 0 <= l1 < l2 < ds1.len() implies (
        #[trigger] ds1[l1]).selected_row != (#[trigger] ds1[l2]).selected_row by {
            if l2 == ds0.len() as int {
                assert(sel_set(ds0).contains(ds0[l1].selected_row));
                assert(sol0.contains(ds0[l1].selected_row));
            }
        }
        assert forall|l: int| 0 <= l < ds1.len() implies !s0.contains(
            (#[trigger] ds1[l]).selected_row,
        ) by {
            if l == ds0.len() as int {
                if s0.contains(selected_row) {
                    assert(sol0.contains(selected_row));
                }
            }
        }
        // hidden bookkeeping: the model grows by exactly the new conflict list
        let confs_set = decision.rows_conflicting_with_selected_row@.to_set();
        assert(hidden_model(base, ds1, n0) == hidden_model(base, ds0, n0)) by {
            lemma_hidden_model_prefix(base, ds1, ds0, n0);
        }
        assert(hidden_model(base, ds1, n0 + 1) =~= hid0.union(confs_set));
        assert(hidden_rows@ =~= hidden_model(base, ds1, ds1.len() as int));
        assert forall|l: int| 0 <= l < ds1.len() implies level_fresh(base, ds1, l) by {
            if l < n0 {
                assert(ds1.subrange(0, l) =~= ds0.subrange(0, l));
                lemma_hidden_model_prefix(base, ds1, ds0, l);
                assert(ds1[l] == ds0[l]);
                assert(level_fresh(base, ds0, l));
            } else {
                assert(hidden_model(base, ds1, l) == hid0);
            }
        }
        assert forall|j: int| 0 <= j <= ds1.len() implies level_covered(t, s0, base, ds1, j) by {
            if j <= n0 {
                assert(ds1.subrange(0, j) =~= ds0.subrange(0, j));
                lemma_hidden_model_prefix(base, ds1, ds0, j);
                assert(level_covered(t, s0, base, ds0, j));
                assert forall|s: usize, r: usize|
                    s0.union(sel_set(ds1.subrange(0, j))).contains(s) && r < 729 && !s0.union(
                        sel_set(ds1.subrange(0, j)),
                    ).contains(r) && #[trigger] crate::search::rows_conflict(
                        t,
                        r as int,
                        s as int,
                    ) implies hidden_model(base, ds1, j).contains(r) by {
                    assert(hidden_model(base, ds0, j).contains(r));
                }
            } else {
                let psol1 = s0.union(sel_set(ds1.subrange(0, j)));
                assert(ds1.subrange(0, j) =~= ds1);
                assert(psol1 == sol0.insert(selected_row)) by {
                    assert(psol1 =~= sol0.insert(selected_row));
                }
                assert forall|s: usize, r: usize|
                    psol1.contains(s) && r < 729 && !psol1.contains(r)
                        && #[trigger] crate::search::rows_conflict(
                        t,
                        r as int,
                        s as int,
                    ) implies hidden_model(base, ds1, j).contains(r) by {
                    if s == selected_row {
                        if !hid0.contains(r) {
                            assert(decision.rows_conflicting_with_selected_row@.contains(r));
                            assert(confs_set.contains(r));
                        }
                    } else {
                        assert(sol0.contains(s));
                        assert(level_covered(t, s0, base, ds0, n0));
                        assert(ds0.subrange(0, n0) =~= ds0);
                        assert(hidden_model(base, ds0, n0).contains(r));
                    }
                }
            }
        }
        // exclusivity is preserved: the fresh selection conflicts with no
        // chosen choice, else the coverage invariant would have hidden it
        if set_exclusive(t, sol0) {
            assert forall|a: usize, b: usize|
                solution_set@.contains(a) && solution_set@.contains(b) && a
                    != b implies !#[trigger] crate::search::rows_conflict(
                t,
                a as int,
                b as int,
            ) by {
                lemma_rows_conflict_symmetric(t, a as int, b as int);
                assert(ds0.subrange(0, n0) =~= ds0);
                if a == selected_row && sol0.contains(b) {
                    if crate::search::rows_conflict(t, a as int, b as int) {
                        assert(level_covered(t, s0, base, ds0, n0));
                        assert(hidden_model(base, ds0, n0).contains(a));
                    }
                } else if b == selected_row && sol0.contains(a) {
                    if crate::search::rows_conflict(t, b as int, a as int) {
                        assert(level_covered(t, s0, base, ds0, n0));
                        assert(hidden_model(base, ds0, n0).contains(b));
                    }
                }
            }
        }
    }
}

/// The choices that conflict with a seeded choice below `n`: what the
/// seeding pass hides.
pub open spec fn seed_conflicts(t: Seq<Vec<bool>>, s0: Set<usize>, n: int) -> Set<usize> {
    Set::new(
        |r: usize|
            r < 729 && exists|s: usize|
                #[trigger] s0.contains(s) && s < n && s != r && crate::search::rows_conflict(
                    t,
                    r as int,
                    s as int,
                ),
    )
}

/// A seed with a completion has no conflicts among its own choices, so
/// none of its choices is hidden by the seeding pass.
proof fn lemma_seed_conflicts_avoid_cover(t: Seq<Vec<bool>>, s0: Set<usize>, w: Set<usize>)
    requires
        full_cover(t, w),
        s0.subset_of(w),
    ensures
        seed_conflicts(t, s0, 729).disjoint(w),
{
    assert forall|r: usize| seed_conflicts(t, s0, 729).contains(r) implies !w.contains(r) by {
        let s = choose|s: usize|
            #[trigger] s0.contains(s) && s < 729 && s != r && crate::search::rows_conflict(
                t,
                r as int,
                s as int,
            );
        if w.contains(r) {
            assert(!crate::search::rows_conflict(t, r as int, s as int));
        }
    }
}

/// Whatever full cover the seed admits makes the seed's own choice set
/// exclusive.
proof fn lemma_cover_seed_exclusive(t: Seq<Vec<bool>>, s0: Set<usize>, w: Set<usize>)
    requires
        full_cover(t, w),
        s0.subset_of(w),
    ensures
        set_exclusive(t, s0),
{
    assert forall|a: usize, b: usize|
        s0.contains(a) && s0.contains(b) && a != b implies !#[trigger] crate::search::rows_conflict(
        t,
        a as int,
        b as int,
    ) by {
        assert(w.contains(a) && w.contains(b));
    }
}

/// What must hold just before a choice is committed for a full cover to
/// stay reachable afterwards: a compatible cover contains the selection,
/// or hangs off an alternative of an already-stacked decision, or off one
/// of the remaining alternatives being recorded with this commit.
spec fn commit_witness_ok(
    t: Seq<Vec<bool>>,
    s0: Set<usize>,
    base: Set<usize>,
    stack: Seq<Decision>,
    sel: usize,
    alts: Seq<usize>,
) -> bool {
    ||| exists|w: Set<usize>|
        #[trigger] compatible_state(t, s0, base, stack, stack.len() as int, w) && w.contains(sel)
    ||| exists|j: int, a: usize, w: Set<usize>|
        0 <= j < stack.len() && #[trigger] stack[j].potential_rows@.contains(a) && w.contains(a)
            && #[trigger] compatible_state(t, s0, base, stack, j, w)
    ||| exists|a: usize, w: Set<usize>|
        #[trigger] alts.contains(a) && w.contains(a) && #[trigger] compatible_state(
            t,
            s0,
            base,
            stack,
            stack.len() as int,
            w,
        )
}

/// Committing a choice keeps a full cover reachable, provided one was
/// reachable in one of the three ways above.
proof fn lemma_witness_after_commit(
    t: Seq<Vec<bool>>,
    s0: Set<usize>,
    base: Set<usize>,
    stack: Seq<Decision>,
    d: Decision,
)
    requires
        commit_witness_ok(t, s0, base, stack, d.selected_row, d.potential_rows@),
        forall|x: usize|
            d.rows_conflicting_with_selected_row@.contains(x) ==> x != d.selected_row
                && crate::search::rows_conflict(t, x as int, d.selected_row as int),
    ensures
        witness_reachable(t, s0, base, stack.push(d)),
{
    let stack1 = stack.push(d);
    let n = stack.len() as int;
    assert(stack1.subrange(0, n) =~= stack);
    assert(stack.subrange(0, n) =~= stack);
    if exists|w: Set<usize>|
        #[trigger] compatible_state(t, s0, base, stack, n, w) && w.contains(d.selected_row) {
        let w = choose|w: Set<usize>|
            #[trigger] compatible_state(t, s0, base, stack, n, w) && w.contains(d.selected_row);
        lemma_sel_set_push(stack, d);
        assert(stack1.subrange(0, n + 1) =~= stack1);
        lemma_hidden_model_prefix(base, stack1, stack, n);
        assert(s0.union(sel_set(stack1)).subset_of(w)) by {
            assert(s0.union(sel_set(stack1)) =~= s0.union(sel_set(stack)).insert(d.selected_row));
        }
        assert(hidden_model(base, stack1, n + 1).disjoint(w)) by {
            assert forall|x: usize|
                hidden_model(base, stack1, n + 1).contains(x) implies !w.contains(x) by {
                if !hidden_model(base, stack1, n).contains(x) {
                    assert(d.rows_conflicting_with_selected_row@.contains(x));
                    if w.contains(x) {
                        assert(!crate::search::rows_conflict(
                            t,
                            x as int,
                            d.selected_row as int,
                        ));
                    }
                }
            }
        }
        assert(compatible_state(t, s0, base, stack1, n + 1, w));
    } else if exists|j: int, a: usize, w: Set<usize>|
        0 <= j < stack.len() && #[trigger] stack[j].potential_rows@.contains(a) && w.contains(a)
            && #[trigger] compatible_state(t, s0, base, stack, j, w) {
        let (j, a, w) = choose|j: int, a: usize, w: Set<usize>|
            0 <= j < stack.len() && #[trigger] stack[j].potential_rows@.contains(a) && w.contains(
                a,
            ) && #[trigger] compatible_state(t, s0, base, stack, j, w);
        assert(stack1[j] == stack[j]);
        assert(stack.subrange(0, j) =~= stack1.subrange(0, j));
        lemma_hidden_model_prefix(base, stack, stack1, j);
        assert(compatible_state(t, s0, base, stack1, j, w));
        assert(stack1[j].potential_rows@.contains(a));
    } else {
        let (a, w) = choose|a: usize, w: Set<usize>|
            #[trigger] d.potential_rows@.contains(a) && w.contains(a)
                && #[trigger] compatible_state(t, s0, base, stack, n, w);
        lemma_hidden_model_prefix(base, stack, stack1, n);
        assert(compatible_state(t, s0, base, stack1, n, w));
        assert(stack1[n] == d);
        assert(stack1[n].potential_rows@.contains(a));
    }
}

/// Runs the exact-cover search: builds the constraint table, seeds the
/// state from the optional starting grid, and repeats constraint
/// selection, candidate gathering and backtracking until it has gathered
/// `solution_count` solutions or exhausted every alternative.
///
/// Every returned grid is completely filled, has no digit repeated in any
/// row, column or 3-by-3 subgrid, and keeps every non-empty seed cell. A
/// completely solved valid seed comes back as the sole solution without a
/// single decision. Whenever the seed admits any valid completion — and
/// always without a seed — the search succeeds; `Unsolvable` is raised
/// only when backtracking exhausts the whole decision stack, which proves
/// no completion exists. When the alternatives run out after at least one
/// solution was found, the solutions found so far are returned, and
/// they are pairwise distinct: a cover that repeats an already recorded
/// grid is treated as a dead end.
///
/// Each completed cover is held against the grid rules and the seed
/// before it is recorded; a cover that fails either check — possible only
/// when the seed itself carries a conflict — is never returned as a
/// result.
#[verifier::rlimit(100)]
pub fn solve_boards(
    starting_board: Option<&Board>,
    strategy: DecisionStrategy,
    solution_count: usize,
) -> (r: Result<Vec<Board>, SolveError>)
    requires
        solution_count >= 1,
        (starting_board matches Some(b) ==> b.wf()),
    ensures
        (r matches Ok(sols) ==> {
            &&& 1 <= sols@.len() <= solution_count
            &&& (forall|i: int|
                0 <= i < sols@.len() ==> (#[trigger] sols@[i]).wf() && board_full_and_valid(
                    sols@[i]@,
                ))
            &&& (forall|i1: int, i2: int|
                0 <= i1 < i2 < sols@.len() ==> (#[trigger] sols@[i1])@ != (#[trigger] sols@[i2])@)
            &&& (match starting_board {
                Some(b) => forall|i: int|
                    0 <= i < sols@.len() ==> seed_preserved(b@, (#[trigger] sols@[i])@),
                None => true,
            })
        }),
        (match starting_board {
            Some(b) => {
                &&& (seed_row_duplicate(b@) ==> r is Err)
                &&& (board_full_and_valid(b@) ==> r is Ok)
                &&& (has_completion(b@) ==> r is Ok)
            },
            None => r is Ok,
        }),
{
    let table = crate::constraints::generate_constraint_table();
    let constraint_table = table.table;
    let mut solution_set: HashSet<usize> = match starting_board {
        Some(b) => crate::codec::map_board_to_solution_set(b),
        None => HashSet::new(),
    };
    let ghost s0 = solution_set@;
    let ghost hwc: bool = match starting_board {
        Some(b) => has_completion(b@),
        None => true,
    };

    let mut hidden_rows: HashSet<usize> = HashSet::new();
    proof {
        assert(hidden_rows@ =~= seed_conflicts(constraint_table@, s0, 0));
    }
    let mut seed_scan: usize = 0;
    while seed_scan < 729
        invariant
            crate::constraints::table_wf(constraint_table@),
            forall|ch: usize| solution_set@.contains(ch) ==> ch < 729,
            solution_set@ == s0,
            hidden_rows@ == seed_conflicts(constraint_table@, s0, seed_scan as int),
        decreases 729 - seed_scan,
    {
        let ghost t = constraint_table@;
        let ghost n = seed_scan as int;
        if solution_set.contains(&seed_scan) {
            let confs = get_conflicting_rows(&constraint_table, &hidden_rows, seed_scan);
            let ghost hid0 = hidden_rows@;
            let mut ci: usize = 0;
            while ci < confs.len()
                invariant
                    ci <= confs@.len(),
                    hidden_rows@ == hid0.union(confs@.take(ci as int).to_set()),
                decreases confs@.len() - ci,
            {
                let c = confs[ci];
                hidden_rows.insert(c);
                proof {
                    assert forall|ch: usize| confs@.take(ci + 1).contains(ch) implies (confs@.take(
                        ci as int,
                    ).contains(ch) || ch == c) by {
                        let x = choose|x: int|
                            0 <= x < ci + 1 && #[trigger] confs@.take(ci + 1)[x] == ch;
                        if x < ci {
                            assert(confs@.take(ci as int)[x] == ch);
                        }
                    }
                    assert forall|ch: usize|
                        confs@.take(ci as int).contains(ch) implies confs@.take(ci + 1).contains(
                        ch,
                    ) by {
                        let x = choose|x: int|
                            0 <= x < ci && #[trigger] confs@.take(ci as int)[x] == ch;
                        assert(confs@.take(ci + 1)[x] == ch);
                    }
                    assert(confs@.take(ci + 1)[ci as int] == confs@[ci as int]);
                    assert(hidden_rows@ =~= hid0.union(confs@.take(ci + 1).to_set()));
                }
                ci += 1;
            }
            proof {
                assert(confs@.take(confs@.len() as int) =~= confs@);
                assert forall|x: usize|
                    seed_conflicts(t, s0, n + 1).contains(x) implies hidden_rows@.contains(x) by {
                    let s = choose|s: usize|
                        #[trigger] s0.contains(s) && s < n + 1 && s != x
                            && crate::search::rows_conflict(t, x as int, s as int);
                    if s < n {
                        assert(seed_conflicts(t, s0, n).contains(x));
                    } else {
                        if !hid0.contains(x) {
                            assert(confs@.contains(x));
                        }
                    }
                }
                assert forall|x: usize|
                    hidden_rows@.contains(x) implies seed_conflicts(t, s0, n + 1).contains(x) by {
                    if hid0.contains(x) {
                        let s = choose|s: usize|
                            #[trigger] s0.contains(s) && s < n && s != x
                                && crate::search::rows_conflict(t, x as int, s as int);
                    } else {
                        assert(confs@.contains(x));
                    }
                }
                assert(hidden_rows@ =~= seed_conflicts(t, s0, n + 1));
            }
        } else {
            proof {
                assert forall|x: usize|
                    seed_conflicts(t, s0, n + 1).contains(x) implies seed_conflicts(
                    t,
                    s0,
                    n,
                ).contains(x) by {
                    let s = choose|s: usize|
                        #[trigger] s0.contains(s) && s < n + 1 && s != x
                            && crate::search::rows_conflict(t, x as int, s as int);
                    assert(s != seed_scan);
                }
                assert(seed_conflicts(t, s0, n + 1) =~= seed_conflicts(t, s0, n));
            }
        }
        seed_scan += 1;
    }
    let ghost base = hidden_rows@;

    let mut decisions: Vec<Decision> = Vec::new();
    let mut solutions: Vec<Board> = Vec::new();
    proof {
        let t = constraint_table@;
        assert forall|ch: usize| !sel_set(decisions@).contains(ch) by {}
        assert(sel_set(decisions@) =~= Set::<usize>::empty());
        assert(solution_set@ =~= s0.union(sel_set(decisions@)));
        assert(decisions@.subrange(0, 0) =~= decisions@);
        assert forall|j: int| 0 <= j <= decisions@.len() implies level_covered(
            t,
            s0,
            base,
            decisions@,
            j,
        ) by {
            assert forall|s: usize, rr: usize|
                s0.union(sel_set(decisions@.subrange(0, j))).contains(s) && rr < 729 && !s0.union(
                    sel_set(decisions@.subrange(0, j)),
                ).contains(rr) && #[trigger] crate::search::rows_conflict(
                    t,
                    rr as int,
                    s as int,
                ) implies hidden_model(base, decisions@, j).contains(rr) by {
                assert(s0.contains(s) && s < 729);
                assert(rr != s);
                assert(seed_conflicts(t, s0, 729).contains(rr));
            }
        }
        assert(hidden_state_ok(t, s0, base, decisions@, hidden_rows@));
        if hwc {
            match starting_board {
                Some(b) => {
                    let sol = choose|sol: Seq<i32>|
                        #[trigger] board_full_and_valid(sol) && seed_preserved(b@, sol);
                    lemma_full_valid_is_cover(t, sol);
                    lemma_preserving_includes_seed(b@, sol);
                    let w = seed_choices(sol);
                    lemma_cover_seed_exclusive(t, s0, w);
                    lemma_seed_conflicts_avoid_cover(t, s0, w);
                    assert(compatible_state(t, s0, base, decisions@, 0, w));
                },
                None => {
                    lemma_pattern_grid_valid();
                    let sol = crate::validity::pattern_grid();
                    lemma_full_valid_is_cover(t, sol);
                    let w = seed_choices(sol);
                    assert(s0.subset_of(w));
                    lemma_cover_seed_exclusive(t, s0, w);
                    lemma_seed_conflicts_avoid_cover(t, s0, w);
                    assert(compatible_state(t, s0, base, decisions@, 0, w));
                },
            }
            assert(witness_reachable(t, s0, base, decisions@));
        }
        match starting_board {
            Some(b) => {
                if board_full_and_valid(b@) {
                    assert(seed_preserved(b@, b@));
                    assert(has_completion(b@));
                }
            },
            None => {},
        }
    }

    loop
        invariant
            is_canonical_table(constraint_table@),
            solution_count >= 1,
            (match starting_board {
                Some(b) => b.wf() && s0 == seed_choices(b@),
                None => s0 == Set::<usize>::empty(),
            }),
            hwc == (match starting_board {
                Some(b) => has_completion(b@),
                None => true,
            }),
            (match starting_board {
                Some(b) => board_full_and_valid(b@) ==> hwc,
                None => true,
            }),
            search_state_ok(constraint_table@, s0, solution_set@, decisions@),
            hidden_state_ok(constraint_table@, s0, base, decisions@, hidden_rows@),
            (hwc ==> set_exclusive(constraint_table@, s0)),
            (set_exclusive(constraint_table@, s0) ==> set_exclusive(
                constraint_table@,
                solution_set@,
            )),
            (hwc && solutions@.len() == 0 ==> witness_reachable(
                constraint_table@,
                s0,
                base,
                decisions@,
            )),
            solutions@.len() < solution_count,
            forall|i: int|
                0 <= i < solutions@.len() ==> (#[trigger] solutions@[i]).wf()
                    && board_full_and_valid(solutions@[i]@),
            forall|i1: int, i2: int|
                0 <= i1 < i2 < solutions@.len() ==> (#[trigger] solutions@[i1])@ != (
                #[trigger] solutions@[i2])@,
            (match starting_board {
                Some(b) => forall|i: int|
                    0 <= i < solutions@.len() ==> seed_preserved(b@, (#[trigger] solutions@[i])@),
                None => true,
            }),
        decreases crate::termination::search_measure(decisions@),
    {
        let ghost pre_ds = decisions@;
        let ghost pre_sol = solution_set@;
        let ghost pre_hidden = hidden_rows@;
        proof {
            crate::termination::lemma_sel_set_len(pre_ds);
            crate::termination::lemma_bounded_set_len(pre_sol, 729);
            assert(sel_set(pre_ds).subset_of(pre_sol));
            lemma_len_subset(sel_set(pre_ds), pre_sol);
            assert(pre_ds.len() <= 729);
        }

        let picked: (usize, Vec<usize>);
        let ghost mut i0: int = 0;
        let ghost mut jk: int = 0;

        match find_unsatisfied_constraint(&constraint_table, &solution_set) {
            None => {
                let board = crate::codec::map_solution_set_to_board(&solution_set);
                proof {
                    let t = constraint_table@;
                    if set_exclusive(t, s0) {
                        lemma_cover_board_valid(t, solution_set@, board@);
                        match starting_board {
                            Some(b) => {
                                assert(seed_choices(b@).subset_of(solution_set@));
                                lemma_cover_board_preserves(t, b@, solution_set@, board@);
                            },
                            None => {},
                        }
                    }
                }
                let valid_ok = board_is_complete_and_valid(&board);
                let preserved_ok = match starting_board {
                    Some(b) => board_preserves_seed(b, &board),
                    None => true,
                };
                if valid_ok && preserved_ok {
                    let mut already_recorded = false;
                    let mut si: usize = 0;
                    while si < solutions.len()
                        invariant
                            si <= solutions@.len(),
                            board.wf(),
                            forall|i: int|
                                0 <= i < solutions@.len() ==> (#[trigger] solutions@[i]).wf(),
                            already_recorded ==> exists|i: int|
                                0 <= i < solutions@.len() && (#[trigger] solutions@[i])@ == board@,
                            !already_recorded ==> forall|i: int|
                                0 <= i < si ==> (#[trigger] solutions@[i])@ != board@,
                        decreases solutions@.len() - si,
                    {
                        if boards_equal(&solutions[si], &board) {
                            already_recorded = true;
                        }
                        si += 1;
                    }
                    if !already_recorded {
                        solutions.push(board);
                        if solutions.len() >= solution_count {
                            proof {
                                match starting_board {
                                    Some(b) => {
                                        lemma_no_duplicate_seed(b@, solutions@[0]@);
                                    },
                                    None => {},
                                }
                            }
                            return Ok(solutions);
                        }
                    }
                    proof {
                        assert(solutions@.len() > 0);
                    }
                    match backtrack(&mut decisions, &mut hidden_rows, &mut solution_set, strategy)
                    {
                        Ok(pair) => {
                            proof {
                                let t = constraint_table@;
                                let j = crate::search::deepest_alternative(pre_ds);
                                crate::search::lemma_deepest_alternative(pre_ds);
                                lemma_solution_after_pop(s0, pre_ds, j);
                                assert(solution_set@ == s0.union(sel_set(pre_ds.subrange(0, j))));
                                assert(decisions@ == pre_ds.subrange(0, j));
                                lemma_hidden_state_truncate(t, s0, base, pre_ds, pre_hidden, j);
                                assert(hidden_rows@ == hidden_model(base, pre_ds, j));
                                assert(level_fresh(base, pre_ds, j));
                                assert(decision_justified(t, s0, pre_ds, j));
                                jk = choose|k: int|
                                    0 <= k < 324 && !#[trigger] col_satisfied(
                                        t,
                                        s0.union(sel_set(pre_ds.subrange(0, j))),
                                        k,
                                    ) && decision_covers(t, pre_ds[j], k);
                                i0 = j;
                                assert(!hidden_rows@.contains(pair.0));
                                assert(solutions@.len() > 0);
                            }
                            picked = pair;
                            proof {
                                let j = crate::search::deepest_alternative(pre_ds);
                                assert forall|a: usize| #[trigger] picked.1@.contains(a) implies a
                                    < 729
                                    && constraint_table@[a as int]@[jk] && !hidden_rows@.contains(
                                    a,
                                ) by {
                                    assert(pair.1@.contains(a));
                                    assert(pre_ds[j].potential_rows@.contains(a));
                                }
                            }
                        },
                        Err(_) => {
                            proof {
                                match starting_board {
                                    Some(b) => {
                                        lemma_no_duplicate_seed(b@, solutions@[0]@);
                                    },
                                    None => {},
                                }
                            }
                            return Ok(solutions);
                        },
                    }
                } else {
                    if solutions.len() > 0 {
                        proof {
                            match starting_board {
                                Some(b) => {
                                    lemma_no_duplicate_seed(b@, solutions@[0]@);
                                },
                                None => {},
                            }
                        }
                        return Ok(solutions);
                    }
                    proof {
                        assert(!hwc);
                    }
                    return Err(SolveError::Unsolvable);
                }
            },
            Some(k) => {
                let satisfying_rows = find_satisfying_rows(&constraint_table, &hidden_rows, k);
                if satisfying_rows.len() > 0 {
                    let ghost cand = satisfying_rows@;
                    proof {
                        assert forall|i: int|
                            0 <= i < cand.len() implies (#[trigger] cand[i] as nat) < 729 by {
                            assert(cand.contains(cand[i]));
                        }
                        crate::termination::lemma_ascending_seq_len(cand, 729);
                    }
                    let pr = pick_row(satisfying_rows, strategy);
                    proof {
                        let t = constraint_table@;
                        i0 = pre_ds.len() as int;
                        jk = k as int;
                        assert(decisions@ =~= pre_ds.subrange(0, i0));
                        assert(cand.contains(pr.0));
                        assert(!hidden_rows@.contains(pr.0));
                        if hwc && solutions@.len() == 0 {
                            assert(witness_reachable(t, s0, base, pre_ds));
                            if exists|w: Set<usize>|
                                #[trigger] compatible_state(
                                    t,
                                    s0,
                                    base,
                                    pre_ds,
                                    pre_ds.len() as int,
                                    w,
                                ) {
                                let w = choose|w: Set<usize>|
                                    #[trigger] compatible_state(
                                        t,
                                        s0,
                                        base,
                                        pre_ds,
                                        pre_ds.len() as int,
                                        w,
                                    );
                                assert(col_satisfied(t, w, k as int));
                                let wc = choose|wc: usize|
                                    #[trigger] w.contains(wc) && wc < 729 && t[wc as int]@[k as int];
                                assert(!hidden_rows@.contains(wc));
                                assert(cand.contains(wc));
                                if w.contains(pr.0) {
                                    assert(commit_witness_ok(t, s0, base, decisions@, pr.0, pr.1@));
                                } else {
                                    let idx = choose|idx: int|
                                        0 <= idx < cand.len() && pr.0 == cand[idx] && pr.1@
                                            == cand.update(idx, cand.last()).drop_last();
                                    lemma_swap_remove_keeps(cand, idx, wc);
                                    assert(pr.1@.contains(wc));
                                    assert(commit_witness_ok(t, s0, base, decisions@, pr.0, pr.1@));
                                }
                            } else {
                                let (jb, a, w) = choose|jb: int, a: usize, w: Set<usize>|
                                    0 <= jb < pre_ds.len()
                                        && #[trigger] pre_ds[jb].potential_rows@.contains(a)
                                        && w.contains(a) && #[trigger] compatible_state(
                                        t,
                                        s0,
                                        base,
                                        pre_ds,
                                        jb,
                                        w,
                                    );
                                assert(decisions@[jb] == pre_ds[jb]);
                                assert(commit_witness_ok(t, s0, base, decisions@, pr.0, pr.1@));
                            }
                        }
                    }
                    picked = pr;
                    proof {
                        assert forall|a: usize| #[trigger] picked.1@.contains(a) implies a < 729
                            && constraint_table@[a as int]@[jk] && !hidden_rows@.contains(a) by {
                            assert(pr.1@.contains(a));
                            assert(cand.contains(a));
                        }
                    }
                } else {
                    match backtrack(&mut decisions, &mut hidden_rows, &mut solution_set, strategy)
                    {
                        Ok(pair) => {
                            proof {
                                let t = constraint_table@;
                                let j = crate::search::deepest_alternative(pre_ds);
                                crate::search::lemma_deepest_alternative(pre_ds);
                                lemma_solution_after_pop(s0, pre_ds, j);
                                assert(solution_set@ == s0.union(sel_set(pre_ds.subrange(0, j))));
                                assert(decisions@ == pre_ds.subrange(0, j));
                                lemma_hidden_state_truncate(t, s0, base, pre_ds, pre_hidden, j);
                                assert(hidden_rows@ == hidden_model(base, pre_ds, j));
                                assert(level_fresh(base, pre_ds, j));
                                assert(decision_justified(t, s0, pre_ds, j));
                                jk = choose|k2: int|
                                    0 <= k2 < 324 && !#[trigger] col_satisfied(
                                        t,
                                        s0.union(sel_set(pre_ds.subrange(0, j))),
                                        k2,
                                    ) && decision_covers(t, pre_ds[j], k2);
                                i0 = j;
                                assert(!hidden_rows@.contains(pair.0));
                                if hwc && solutions@.len() == 0 {
                                    assert(witness_reachable(t, s0, base, pre_ds));
                                    if exists|w: Set<usize>|
                                        #[trigger] compatible_state(
                                            t,
                                            s0,
                                            base,
                                            pre_ds,
                                            pre_ds.len() as int,
                                            w,
                                        ) {
                                        let w = choose|w: Set<usize>|
                                            #[trigger] compatible_state(
                                                t,
                                                s0,
                                                base,
                                                pre_ds,
                                                pre_ds.len() as int,
                                                w,
                                            );
                                        assert(col_satisfied(t, w, k as int));
                                        let wc = choose|wc: usize|
                                            #[trigger] w.contains(wc) && wc < 729
                                                && t[wc as int]@[k as int];
                                        assert(!pre_hidden.contains(wc));
                                        assert(satisfying_rows@.contains(wc));
                                        assert(false);
                                    }
                                    let (jb, a, w) = choose|jb: int, a: usize, w: Set<usize>|
                                        0 <= jb < pre_ds.len()
                                            && #[trigger] pre_ds[jb].potential_rows@.contains(a)
                                            && w.contains(a) && #[trigger] compatible_state(
                                            t,
                                            s0,
                                            base,
                                            pre_ds,
                                            jb,
                                            w,
                                        );
                                    assert(jb <= j) by {
                                        if jb > j {
                                            assert(pre_ds[jb].potential_rows@.len() == 0);
                                        }
                                    }
                                    if jb < j {
                                        assert(decisions@[jb] == pre_ds[jb]);
                                        assert(pre_ds.subrange(0, jb) =~= decisions@.subrange(
                                            0,
                                            jb,
                                        ));
                                        lemma_hidden_model_prefix(base, pre_ds, decisions@, jb);
                                        assert(compatible_state(t, s0, base, decisions@, jb, w));
                                        assert(commit_witness_ok(
                                            t,
                                            s0,
                                            base,
                                            decisions@,
                                            pair.0,
                                            pair.1@,
                                        ));
                                    } else {
                                        assert(pre_ds.subrange(0, j) =~= decisions@.subrange(0, j));
                                        lemma_hidden_model_prefix(base, pre_ds, decisions@, j);
                                        assert(decisions@.subrange(0, decisions@.len() as int)
                                            =~= decisions@);
                                        assert(compatible_state(
                                            t,
                                            s0,
                                            base,
                                            decisions@,
                                            decisions@.len() as int,
                                            w,
                                        ));
                                        if w.contains(pair.0) {
                                            assert(commit_witness_ok(
                                                t,
                                                s0,
                                                base,
                                                decisions@,
                                                pair.0,
                                                pair.1@,
                                            ));
                                        } else {
                                            let alts0 = pre_ds[j].potential_rows@;
                                            let idx = choose|idx: int|
                                                0 <= idx < alts0.len() && pair.0 == alts0[idx]
                                                    && pair.1@ == alts0.update(
                                                    idx,
                                                    alts0.last(),
                                                ).drop_last();
                                            lemma_swap_remove_keeps(alts0, idx, a);
                                            assert(pair.1@.contains(a));
                                            assert(commit_witness_ok(
                                                t,
                                                s0,
                                                base,
                                                decisions@,
                                                pair.0,
                                                pair.1@,
                                            ));
                                        }
                                    }
                                }
                            }
                            picked = pair;
                            proof {
                                let j = crate::search::deepest_alternative(pre_ds);
                                assert forall|a: usize| #[trigger] picked.1@.contains(a) implies a
                                    < 729
                                    && constraint_table@[a as int]@[jk] && !hidden_rows@.contains(
                                    a,
                                ) by {
                                    assert(pair.1@.contains(a));
                                    assert(pre_ds[j].potential_rows@.contains(a));
                                }
                            }
                        },
                        Err(e) => {
                            if solutions.len() > 0 {
                                proof {
                                    match starting_board {
                                        Some(b) => {
                                            lemma_no_duplicate_seed(b@, solutions@[0]@);
                                        },
                                        None => {},
                                    }
                                }
                                return Ok(solutions);
                            }
                            proof {
                                let t = constraint_table@;
                                if hwc {
                                    assert(witness_reachable(t, s0, base, pre_ds));
                                    if exists|w: Set<usize>|
                                        #[trigger] compatible_state(
                                            t,
                                            s0,
                                            base,
                                            pre_ds,
                                            pre_ds.len() as int,
                                            w,
                                        ) {
                                        let w = choose|w: Set<usize>|
                                            #[trigger] compatible_state(
                                                t,
                                                s0,
                                                base,
                                                pre_ds,
                                                pre_ds.len() as int,
                                                w,
                                            );
                                        assert(col_satisfied(t, w, k as int));
                                        let wc = choose|wc: usize|
                                            #[trigger] w.contains(wc) && wc < 729
                                                && t[wc as int]@[k as int];
                                        assert(!pre_hidden.contains(wc));
                                        assert(satisfying_rows@.contains(wc));
                                        assert(false);
                                    }
                                    let (jb, a, w) = choose|jb: int, a: usize, w: Set<usize>|
                                        0 <= jb < pre_ds.len()
                                            && #[trigger] pre_ds[jb].potential_rows@.contains(a)
                                            && w.contains(a) && #[trigger] compatible_state(
                                            t,
                                            s0,
                                            base,
                                            pre_ds,
                                            jb,
                                            w,
                                        );
                                    crate::search::lemma_deepest_alternative(pre_ds);
                                    assert(pre_ds[jb].potential_rows@.len() == 0);
                                    assert(false);
                                }
                            }
                            return Err(e);
                        },
                    }
                }
            },
        }

        let ghost stack_before_commit = decisions@;
        proof {
            let t = constraint_table@;
            assert(decisions@ == pre_ds.subrange(0, i0));
            assert(search_state_ok(t, s0, solution_set@, decisions@)) by {
                if i0 < pre_ds.len() {
                    let cur = decisions@;
                    assert forall|l: int| 0 <= l < cur.len() implies decision_justified(
                        t,
                        s0,
                        cur,
                        l,
                    ) by {
                        assert(cur.subrange(0, l) =~= pre_ds.subrange(0, l));
                        assert(cur[l] == pre_ds[l]);
                        assert(decision_justified(t, s0, pre_ds, l));
                        lemma_justified_prefix(t, s0, pre_ds, cur, l);
                    }
                    assert forall|l1: int, l2: int| 0 <= l1 < l2 < cur.len() implies (
                    #[trigger] cur[l1]).selected_row != (#[trigger] cur[l2]).selected_row by {
                        assert(cur[l1] == pre_ds[l1] && cur[l2] == pre_ds[l2]);
                    }
                    assert forall|l: int| 0 <= l < cur.len() implies !s0.contains(
                        (#[trigger] cur[l]).selected_row,
                    ) && cur[l].selected_row < 729 && cur[l].potential_rows@.len() <= 729 by {
                        assert(cur[l] == pre_ds[l]);
                    }
                } else {
                    assert(decisions@ =~= pre_ds);
                }
            }
        }

        commit_choice(
            &constraint_table,
            &mut solution_set,
            &mut hidden_rows,
            &mut decisions,
            picked.0,
            picked.1,
            Ghost(s0),
            Ghost(base),
            Ghost(jk),
        );

        proof {
            let ds_new = decisions@;
            let stack_base = pre_ds.subrange(0, i0);
            assert(ds_new.len() == i0 + 1);
            assert forall|x: int| 0 <= x < i0 implies crate::termination::stack_digit(ds_new, x)
                == crate::termination::stack_digit(pre_ds, x) by {
                assert(ds_new.subrange(0, i0) == stack_base);
                assert(ds_new[x] == stack_base[x]);
                assert(stack_base[x] == pre_ds[x]);
            }
            assert(crate::termination::stack_digit(ds_new, i0) < crate::termination::stack_digit(
                pre_ds,
                i0,
            ));
            assert(crate::termination::stack_alternatives_bounded(ds_new));
            assert(crate::termination::stack_alternatives_bounded(pre_ds));
            crate::termination::lemma_search_measure_lt(ds_new, pre_ds, i0);
            if hwc && solutions@.len() == 0 {
                let t = constraint_table@;
                let d = ds_new.last();
                assert(d.selected_row == picked.0 && d.potential_rows@ == picked.1@);
                assert(commit_witness_ok(
                    t,
                    s0,
                    base,
                    stack_before_commit,
                    d.selected_row,
                    d.potential_rows@,
                ));
                lemma_witness_after_commit(t, s0, base, stack_before_commit, d);
                assert(stack_before_commit.push(d) =~= ds_new);
            }
        }
    }
}

/// Solves one Sudoku by exact cover: an optional seed grid of clues and an
/// optional decision strategy (lowest index when none is given). Returns a
/// completely filled valid grid that keeps every non-empty seed cell.
/// Whenever the seed admits any valid completion — and always without a
/// seed — the call succeeds; `Unsolvable` therefore proves that no
/// completion exists. A completely solved valid seed is returned
/// unchanged, without one decision being made.
pub fn launch_algorithm_x(
    starting_board: Option<&Board>,
    strategy: Option<DecisionStrategy>,
) -> (r: Result<Board, SolveError>)
    requires
        (starting_board matches Some(b) ==> b.wf()),
    ensures
        (r matches Ok(solution) ==> {
            &&& solution.wf()
            &&& board_full_and_valid(solution@)
            &&& (starting_board matches Some(b) ==> seed_preserved(b@, solution@))
        }),
        (match starting_board {
            Some(b) => {
                &&& (seed_row_duplicate(b@) ==> r is Err)
                &&& (board_full_and_valid(b@) ==> (r matches Ok(solution) && solution@ == b@))
                &&& (has_completion(b@) ==> r is Ok)
            },
            None => r is Ok,
        }),
{
    let chosen_strategy = match strategy {
        Some(s) => s,
        None => DecisionStrategy::First,
    };
    match solve_boards(starting_board, chosen_strategy, 1) {
        Ok(mut solutions) => {
            let solution = solutions.pop().unwrap();
            proof {
                match starting_board {
                    Some(b) => {
                        if board_full_and_valid(b@) {
                            crate::validity::lemma_preserved_of_complete(b@, solution@);
                        }
                    },
                    None => {},
                }
            }
            Ok(solution)
        },
        Err(e) => Err(e),
    }
}

} // verus!
