use vstd::prelude::*;
use std::collections::HashSet;
use rand::Rng;

verus! {

broadcast use vstd::std_specs::hash::group_hash_axioms;

/// How the search picks one choice out of the current candidates.
#[derive(Copy, Clone, Debug)]
pub enum DecisionStrategy {
    /// Always take the candidate with the lowest index: deterministic.
    First,
    /// Take a candidate at a uniformly random position.
    Random,
}

/// The terminal failure of a search call.
#[derive(Copy, Clone, Debug, PartialEq, Eq)]
pub enum SolveError {
    /// Backtracking exhausted the decision stack: no completion of the seed
    /// exists among the choices the search could still reach.
    Unsolvable,
}

/// An undo record: the choice committed at one step of the search, the
/// candidates not yet tried at that step, and the choices this commit
/// hid from future selection.
#[derive(Debug, Clone, PartialEq)]
pub struct Decision {
    pub selected_row: usize,
    pub potential_rows: Vec<usize>,
    pub rows_conflicting_with_selected_row: Vec<usize>,
}

/// Relies on rand::Rng::gen_range over `0..bound`: returns a value drawn
/// from that range. It panics only on an empty range, which the
/// precondition rules out.
#[verifier::external_body]
fn random_index(bound: usize) -> (r: usize)
    requires
        bound > 0,
    ensures
        r < bound,
{
    rand::thread_rng().gen_range(0..bound)
}

/// Whether constraint column `k` is satisfied by some choice in `s`.
pub open spec fn col_satisfied(t: Seq<Vec<bool>>, s: Set<usize>, k: int) -> bool {
    exists|ch: usize| #[trigger] s.contains(ch) && ch < 729 && t[ch as int]@[k]
}

/// Whether table rows `a` and `b` share a true entry in some constraint
/// column: the two choices cannot both be part of one solution.
pub open spec fn rows_conflict(t: Seq<Vec<bool>>, a: int, b: int) -> bool {
    exists|k: int| 0 <= k < 324 && #[trigger] t[a]@[k] && #[trigger] t[b]@[k]
}

/// Scans constraint columns in ascending order and returns the first one
/// not satisfied by any choice in the solution set, or `None` when every
/// column is satisfied, meaning the solution set is complete.
pub fn find_unsatisfied_constraint(
    constraint_table: &Vec<Vec<bool>>,
    solution_set: &HashSet<usize>,
) -> (r: Option<usize>)
    requires
        crate::constraints::table_wf(constraint_table@),
        forall|ch: usize| solution_set@.contains(ch) ==> ch < 729,
    ensures
        match r {
            Some(k) => {
                &&& k < 324
                &&& !col_satisfied(constraint_table@, solution_set@, k as int)
                &&& forall|j: int|
                    0 <= j < k ==> col_satisfied(constraint_table@, solution_set@, j)
            },
            None => forall|j: int|
                0 <= j < 324 ==> col_satisfied(constraint_table@, solution_set@, j),
        },
{
    let mut col_idx: usize = 0;
    while col_idx < 324
        invariant
            col_idx <= 324,
            crate::constraints::table_wf(constraint_table@),
            forall|ch: usize| solution_set@.contains(ch) ==> ch < 729,
            forall|j: int| 0 <= j < col_idx ==> col_satisfied(constraint_table@, solution_set@, j),
        decreases 324 - col_idx,
    {
        let mut row: usize = 0;
        let mut column_satisfied = false;
        while row < 729 && !column_satisfied
            invariant
                col_idx < 324,
                row <= 729,
                crate::constraints::table_wf(constraint_table@),
                forall|ch: usize| solution_set@.contains(ch) ==> ch < 729,
                column_satisfied ==> col_satisfied(
                    constraint_table@,
                    solution_set@,
                    col_idx as int,
                ),
                !column_satisfied ==> forall|ch: usize|
                    solution_set@.contains(ch) && ch < row ==> !constraint_table@[ch as int]@[col_idx as int],
            decreases 729 - row,
        {
            if solution_set.contains(&row) && constraint_table[row][col_idx] {
                column_satisfied = true;
            }
            row += 1;
        }
        if !column_satisfied {
            return Some(col_idx);
        }
        col_idx += 1;
    }
    None
}

/// Collects, in ascending index order, every choice not hidden whose table
/// row satisfies the given constraint column.
pub fn find_satisfying_rows(
    ct: &Vec<Vec<bool>>,
    hidden_rows: &HashSet<usize>,
    column_to_satisfy: usize,
) -> (r: Vec<usize>)
    requires
        crate::constraints::table_wf(ct@),
        column_to_satisfy < 324,
    ensures
        forall|i: int, j: int| 0 <= i < j < r@.len() ==> r@[i] < r@[j],
        forall|ch: usize|
            r@.contains(ch) <==> (ch < 729 && !hidden_rows@.contains(ch) && ct@[ch as int]@[column_to_satisfy as int]),
{
    let mut rows: Vec<usize> = Vec::new();
    let mut row_index: usize = 0;
    while row_index < 729
        invariant
            row_index <= 729,
            crate::constraints::table_wf(ct@),
            column_to_satisfy < 324,
            forall|i: int, j: int| 0 <= i < j < rows@.len() ==> rows@[i] < rows@[j],
            forall|i: int| 0 <= i < rows@.len() ==> rows@[i] < row_index,
            forall|ch: usize|
                rows@.contains(ch) <==> (ch < row_index && !hidden_rows@.contains(ch)
                    && ct@[ch as int]@[column_to_satisfy as int]),
        decreases 729 - row_index,
    {
        let ghost prev = rows@;
        if !hidden_rows.contains(&row_index) && ct[row_index][column_to_satisfy] {
            rows.push(row_index);
            proof {
                assert forall|ch: usize| rows@.contains(ch) implies (ch < row_index + 1
                    && !hidden_rows@.contains(ch)
                    && ct@[ch as int]@[column_to_satisfy as int]) by {
                    let i = choose|i: int| 0 <= i < rows@.len() && rows@[i] == ch;
                    if i < prev.len() {
                        assert(prev[i] == ch);
                        assert(prev.contains(ch));
                    }
                }
                assert forall|ch: usize|
                    (ch < row_index + 1 && !hidden_rows@.contains(ch)
                        && ct@[ch as int]@[column_to_satisfy as int]) implies rows@.contains(
                    ch,
                ) by {
                    if ch < row_index {
                        assert(prev.contains(ch));
                        let i = choose|i: int| 0 <= i < prev.len() && prev[i] == ch;
                        assert(rows@[i] == ch);
                    } else {
                        assert(rows@[prev.len() as int] == ch);
                    }
                }
            }
        } else {
            proof {
                assert forall|ch: usize|
                    (ch < row_index + 1 && !hidden_rows@.contains(ch)
                        && ct@[ch as int]@[column_to_satisfy as int]) implies rows@.contains(
                    ch,
                ) by {
                    assert(ch != row_index);
                }
            }
        }
        row_index += 1;
    }
    rows
}

/// Collects, in ascending index order, every choice other than the selected
/// one that is not hidden and shares a satisfied constraint column with the
/// selected choice.
pub fn get_conflicting_rows(
    ct: &Vec<Vec<bool>>,
    hidden_row_indexes: &HashSet<usize>,
    selected_row_index: usize,
) -> (r: Vec<usize>)
    requires
        crate::constraints::table_wf(ct@),
        selected_row_index < 729,
    ensures
        forall|i: int, j: int| 0 <= i < j < r@.len() ==> r@[i] < r@[j],
        forall|ch: usize|
            r@.contains(ch) <==> (ch < 729 && ch != selected_row_index
                && !hidden_row_indexes@.contains(ch) && rows_conflict(
                ct@,
                ch as int,
                selected_row_index as int,
            )),
{
    let mut conflicting_rows: Vec<usize> = Vec::new();
    let mut row_index: usize = 0;
    while row_index < 729
        invariant
            row_index <= 729,
            crate::constraints::table_wf(ct@),
            selected_row_index < 729,
            forall|i: int, j: int|
                0 <= i < j < conflicting_rows@.len() ==> conflicting_rows@[i]
                    < conflicting_rows@[j],
            forall|i: int| 0 <= i < conflicting_rows@.len() ==> conflicting_rows@[i] < row_index,
            forall|ch: usize|
                conflicting_rows@.contains(ch) <==> (ch < row_index && ch != selected_row_index
                    && !hidden_row_indexes@.contains(ch) && rows_conflict(
                    ct@,
                    ch as int,
                    selected_row_index as int,
                )),
        decreases 729 - row_index,
    {
        let ghost prev = conflicting_rows@;
        if row_index != selected_row_index && !hidden_row_indexes.contains(&row_index) {
            let mut column_index: usize = 0;
            let mut found = false;
            while column_index < 324 && !found
                invariant
                    row_index < 729,
                    column_index <= 324,
                    crate::constraints::table_wf(ct@),
                    selected_row_index < 729,
                    found ==> rows_conflict(ct@, row_index as int, selected_row_index as int),
                    !found ==> forall|k: int|
                        0 <= k < column_index ==> !(ct@[row_index as int]@[k]
                            && ct@[selected_row_index as int]@[k]),
                decreases 324 - column_index,
            {
                if ct[row_index][column_index] && ct[selected_row_index][column_index] {
                    found = true;
                }
                column_index += 1;
            }
            if found {
                conflicting_rows.push(row_index);
                proof {
                    assert forall|ch: usize| conflicting_rows@.contains(ch) implies (ch < row_index
                        + 1 && ch != selected_row_index && !hidden_row_indexes@.contains(ch)
                        && rows_conflict(ct@, ch as int, selected_row_index as int)) by {
                        let i = choose|i: int|
                            0 <= i < conflicting_rows@.len() && conflicting_rows@[i] == ch;
                        if i < prev.len() {
                            assert(prev[i] == ch);
                            assert(prev.contains(ch));
                        }
                    }
                    assert forall|ch: usize|
                        (ch < row_index + 1 && ch != selected_row_index
                            && !hidden_row_indexes@.contains(ch) && rows_conflict(
                            ct@,
                            ch as int,
                            selected_row_index as int,
                        )) implies conflicting_rows@.contains(ch) by {
                        if ch < row_index {
                            assert(prev.contains(ch));
                            let i = choose|i: int| 0 <= i < prev.len() && prev[i] == ch;
                            assert(conflicting_rows@[i] == ch);
                        } else {
                            assert(conflicting_rows@[prev.len() as int] == ch);
                        }
                    }
                }
            } else {
                proof {
                    assert forall|ch: usize|
                        (ch < row_index + 1 && ch != selected_row_index
                            && !hidden_row_indexes@.contains(ch) && rows_conflict(
                            ct@,
                            ch as int,
                            selected_row_index as int,
                        )) implies conflicting_rows@.contains(ch) by {
                        assert(ch != row_index);
                    }
                }
            }
        } else {
            proof {
                assert forall|ch: usize|
                    (ch < row_index + 1 && ch != selected_row_index
                        && !hidden_row_indexes@.contains(ch) && rows_conflict(
                        ct@,
                        ch as int,
                        selected_row_index as int,
                    )) implies conflicting_rows@.contains(ch) by {
                    assert(ch != row_index);
                }
            }
        }
        row_index += 1;
    }
    conflicting_rows
}

/// Removes one choice from the candidate list according to the strategy and
/// returns it together with the remaining candidates. Under `First` the
/// lowest-indexed candidate is taken and the last one moves into its slot;
/// under `Random` the position is uniformly random.
pub fn pick_row(possible_rows: Vec<usize>, strategy: DecisionStrategy) -> (r: (usize, Vec<usize>))
    requires
        possible_rows@.len() > 0,
    ensures
        r.1@.len() == possible_rows@.len() - 1,
        possible_rows@.contains(r.0),
        forall|ch: usize| r.1@.contains(ch) ==> possible_rows@.contains(ch),
        exists|idx: int|
            0 <= idx < possible_rows@.len() && r.0 == possible_rows@[idx] && r.1@
                == possible_rows@.update(idx, possible_rows@.last()).drop_last(),
        strategy is First ==> r.0 == possible_rows@[0] && r.1@ == possible_rows@.update(
            0,
            possible_rows@.last(),
        ).drop_last(),
{
    let mut possible_rows = possible_rows;
    let ghost orig = possible_rows@;
    let selected_row_index: usize = match strategy {
        DecisionStrategy::First => 0,
        DecisionStrategy::Random => random_index(possible_rows.len()),
    };
    let selected_row = possible_rows.swap_remove(selected_row_index);
    proof {
        assert(orig[selected_row_index as int] == selected_row);
        assert(orig.contains(selected_row));
        assert forall|ch: usize| possible_rows@.contains(ch) implies orig.contains(ch) by {
            let i = choose|i: int| 0 <= i < possible_rows@.len() && possible_rows@[i] == ch;
            if i == selected_row_index as int {
                assert(orig[orig.len() - 1] == ch);
            } else {
                assert(orig[i] == ch);
            }
        }
    }
    (selected_row, possible_rows)
}

/// The selected choices of the decisions at stack index `j` and deeper.
pub open spec fn popped_selected(ds: Seq<Decision>, j: int) -> Set<usize> {
    Set::new(
        |ch: usize| exists|l: int| j <= l < ds.len() && (#[trigger] ds[l]).selected_row == ch,
    )
}

/// The selected choices of all decisions on the stack.
pub open spec fn sel_set(ds: Seq<Decision>) -> Set<usize> {
    popped_selected(ds, 0)
}

/// The choices hidden by the decisions at stack index `j` and deeper.
pub open spec fn popped_conflicts(ds: Seq<Decision>, j: int) -> Set<usize> {
    Set::new(
        |ch: usize|
            exists|l: int|
                j <= l < ds.len() && (#[trigger] ds[l]).rows_conflicting_with_selected_row@.contains(
                    ch,
                ),
    )
}

/// The index of the deepest decision that still has an untried alternative,
/// or -1 when none has.
pub open spec fn deepest_alternative(ds: Seq<Decision>) -> int
    decreases ds.len(),
{
    if ds.len() == 0 {
        -1
    } else if ds.last().potential_rows@.len() > 0 {
        ds.len() - 1
    } else {
        deepest_alternative(ds.drop_last())
    }
}

/// Basic facts about `deepest_alternative`: it is a valid index or -1, it
/// points at a decision with alternatives, and everything deeper has none.
pub proof fn lemma_deepest_alternative(ds: Seq<Decision>)
    ensures
        -1 <= deepest_alternative(ds) < ds.len(),
        deepest_alternative(ds) >= 0 ==> ds[deepest_alternative(ds)].potential_rows@.len() > 0,
        forall|l: int|
            deepest_alternative(ds) < l < ds.len() ==> (#[trigger] ds[l]).potential_rows@.len()
                == 0,
    decreases ds.len(),
{
    if ds.len() > 0 && !(ds.last().potential_rows@.len() > 0) {
        lemma_deepest_alternative(ds.drop_last());
        assert forall|l: int|
            deepest_alternative(ds) < l < ds.len() implies (#[trigger] ds[l]).potential_rows@.len()
            == 0 by {
            if l < ds.len() - 1 {
                assert(ds.drop_last()[l] == ds[l]);
            }
        }
    }
}

/// Shifting the boundary of the popped suffix by one decision adds exactly
/// that decision's selection and conflict list.
proof fn lemma_popped_step(ds: Seq<Decision>, n: int)
    requires
        0 <= n < ds.len(),
    ensures
        popped_selected(ds, n) == popped_selected(ds, n + 1).insert(ds[n].selected_row),
        popped_conflicts(ds, n) == popped_conflicts(ds, n + 1).union(
            ds[n].rows_conflicting_with_selected_row@.to_set(),
        ),
{
    assert forall|ch: usize| popped_selected(ds, n).contains(ch) implies popped_selected(
        ds,
        n + 1,
    ).insert(ds[n].selected_row).contains(ch) by {
        let l = choose|l: int| n <= l < ds.len() && (#[trigger] ds[l]).selected_row == ch;
        if l > n {
            assert(popped_selected(ds, n + 1).contains(ch));
        }
    }
    assert(popped_selected(ds, n) =~= popped_selected(ds, n + 1).insert(ds[n].selected_row));
    assert forall|ch: usize| popped_conflicts(ds, n).contains(ch) implies popped_conflicts(
        ds,
        n + 1,
    ).union(ds[n].rows_conflicting_with_selected_row@.to_set()).contains(ch) by {
        let l = choose|l: int|
            n <= l < ds.len() && (#[trigger] ds[l]).rows_conflicting_with_selected_row@.contains(
                ch,
            );
        if l > n {
            assert(popped_conflicts(ds, n + 1).contains(ch));
        }
    }
    assert(popped_conflicts(ds, n) =~= popped_conflicts(ds, n + 1).union(
        ds[n].rows_conflicting_with_selected_row@.to_set(),
    ));
}

/// Pops decisions whose alternatives are exhausted, undoing each: its
/// selection leaves the solution set and the choices it hid become
/// selectable again. At the deepest decision that still has an untried
/// alternative, one alternative is picked by the strategy and returned as
/// the next selection. If the stack empties first, the search is
/// unsolvable.
pub fn backtrack(
    decisions: &mut Vec<Decision>,
    hidden_rows: &mut HashSet<usize>,
    solution_set: &mut HashSet<usize>,
    strategy: DecisionStrategy,
) -> (r: Result<(usize, Vec<usize>), SolveError>)
    ensures
        ({
            let ds0 = old(decisions)@;
            let j = deepest_alternative(ds0);
            &&& (r is Ok <==> j >= 0)
            &&& (r matches Ok(pair) ==> {
                &&& final(decisions)@ == ds0.subrange(0, j)
                &&& final(solution_set)@ == old(solution_set)@.difference(popped_selected(ds0, j))
                &&& final(hidden_rows)@ == old(hidden_rows)@.difference(
                    popped_conflicts(ds0, j),
                ).difference(popped_selected(ds0, j))
                &&& ds0[j].potential_rows@.contains(pair.0)
                &&& pair.1@.len() == ds0[j].potential_rows@.len() - 1
                &&& (forall|ch: usize|
                    pair.1@.contains(ch) ==> ds0[j].potential_rows@.contains(ch))
                &&& (exists|idx: int|
                    0 <= idx < ds0[j].potential_rows@.len() && pair.0
                        == ds0[j].potential_rows@[idx] && pair.1@
                        == ds0[j].potential_rows@.update(
                        idx,
                        ds0[j].potential_rows@.last(),
                    ).drop_last())
                &&& (strategy is First ==> pair.0 == ds0[j].potential_rows@[0] && pair.1@
                    == ds0[j].potential_rows@.update(
                    0,
                    ds0[j].potential_rows@.last(),
                ).drop_last())
            })
            &&& (r is Err ==> {
                &&& j < 0
                &&& final(decisions)@ == ds0.subrange(0, 0)
                &&& final(solution_set)@ == old(solution_set)@.difference(popped_selected(ds0, 0))
                &&& final(hidden_rows)@ == old(hidden_rows)@.difference(
                    popped_conflicts(ds0, 0),
                ).difference(popped_selected(ds0, 0))
            })
        }),
{
    let ghost ds0 = decisions@;
    let ghost sol0 = solution_set@;
    let ghost hid0 = hidden_rows@;
    proof {
        lemma_deepest_alternative(ds0);
        assert(decisions@ =~= ds0.subrange(0, decisions@.len() as int));
        assert(sol0.difference(popped_selected(ds0, ds0.len() as int)) =~= sol0);
        assert(hid0.difference(popped_conflicts(ds0, ds0.len() as int)).difference(
            popped_selected(ds0, ds0.len() as int),
        ) =~= hid0);
    }
    loop
        invariant
            ds0 == old(decisions)@,
            sol0 == old(solution_set)@,
            hid0 == old(hidden_rows)@,
            decisions@.len() <= ds0.len(),
            decisions@ == ds0.subrange(0, decisions@.len() as int),
            deepest_alternative(decisions@) == deepest_alternative(ds0),
            solution_set@ == sol0.difference(popped_selected(ds0, decisions@.len() as int)),
            hidden_rows@ == hid0.difference(
                popped_conflicts(ds0, decisions@.len() as int),
            ).difference(popped_selected(ds0, decisions@.len() as int)),
        decreases decisions@.len(),
    {
        let ghost n = decisions@.len() as int - 1;
        if decisions.len() == 0 {
            proof {
                assert(deepest_alternative(ds0) == -1);
            }
            return Err(SolveError::Unsolvable);
        }
        let d = decisions.pop().unwrap();
        proof {
            assert(ds0.subrange(0, n + 1).last() == ds0[n]);
            assert(ds0.subrange(0, n + 1).drop_last() =~= ds0.subrange(0, n));
            assert(decisions@ =~= ds0.subrange(0, n));
            lemma_popped_step(ds0, n);
        }
        let ghost sol_before = solution_set@;
        let ghost hid_before = hidden_rows@;
        solution_set.remove(&d.selected_row);
        hidden_rows.remove(&d.selected_row);
        proof {
            assert(solution_set@ =~= sol0.difference(popped_selected(ds0, n)));
        }
        let ghost hid_start = hidden_rows@;
        let mut i: usize = 0;
        while i < d.rows_conflicting_with_selected_row.len()
            invariant
                i <= d.rows_conflicting_with_selected_row@.len(),
                hidden_rows@ == hid_start.difference(
                    d.rows_conflicting_with_selected_row@.take(i as int).to_set(),
                ),
            decreases d.rows_conflicting_with_selected_row@.len() - i,
        {
            let ghost pre = hidden_rows@;
            let c = d.rows_conflicting_with_selected_row[i];
            hidden_rows.remove(&c);
            proof {
                let confs = d.rows_conflicting_with_selected_row@;
                assert forall|ch: usize| confs.take(i + 1).contains(ch) implies (confs.take(
                    i as int,
                ).contains(ch) || ch == c) by {
                    let x = choose|x: int| 0 <= x < i + 1 && #[trigger] confs.take(i + 1)[x] == ch;
                    if x < i {
                        assert(confs.take(i as int)[x] == ch);
                    }
                }
                assert forall|ch: usize|
                    confs.take(i as int).contains(ch) implies confs.take(i + 1).contains(ch) by {
                    let x = choose|x: int| 0 <= x < i && confs.take(i as int)[x] == ch;
                    assert(confs.take(i + 1)[x] == ch);
                }
                assert(confs.take(i + 1)[i as int] == confs[i as int]);
                assert(hidden_rows@ =~= hid_start.difference(confs.take(i + 1).to_set()));
            }
            i += 1;
        }
        proof {
            let confs = d.rows_conflicting_with_selected_row@;
            assert(confs.take(confs.len() as int) =~= confs);
            assert(hidden_rows@ =~= hid0.difference(popped_conflicts(ds0, n)).difference(
                popped_selected(ds0, n),
            ));
        }
        if d.potential_rows.len() > 0 {
            proof {
                assert(ds0.subrange(0, n + 1).last().potential_rows@.len() > 0);
                assert(deepest_alternative(ds0.subrange(0, n + 1)) == n);
                assert(deepest_alternative(ds0) == n);
            }
            let (selected_row, remaining) = pick_row(d.potential_rows, strategy);
            return Ok((selected_row, remaining));
        }
        proof {
            assert(deepest_alternative(ds0.subrange(0, n + 1)) == deepest_alternative(
                ds0.subrange(0, n),
            ));
        }
    }
}

} // verus!
