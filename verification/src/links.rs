use vstd::prelude::*;

use crate::constraints::{constraint_entry, is_canonical_table, table_wf, ConstraintTable};

verus! {

/// One cell of the sparse linked representation of the constraint table:
/// its position and the indices of its four neighbours.
#[derive(Clone, Copy, Debug, PartialEq, Eq)]
pub struct Cell {
    pub column_index: usize,
    pub row_index: usize,
    pub up: Option<usize>,
    pub down: Option<usize>,
    pub left: Option<usize>,
    pub right: Option<usize>,
}

/// The header of one constraint column: how many cells the column holds,
/// and the indices of its four neighbours.
#[derive(Clone, Copy, Debug, PartialEq, Eq)]
pub struct ColumnHeader {
    pub cell_count: i32,
    pub up: Option<usize>,
    pub down: Option<usize>,
    pub left: Option<usize>,
    pub right: Option<usize>,
}

/// One slot of the linked table: a column header in the header row, a cell
/// where the constraint table holds a true entry, and an empty link
/// elsewhere.
#[derive(Clone, Copy, Debug, PartialEq, Eq)]
pub enum Link {
    ColumnHeader(ColumnHeader),
    Cell(Cell),
    EmptyLink,
}

/// The sparse linked form of the constraint table: a header row followed
/// by one row per choice.
pub struct LinkedTable {
    pub table: Vec<Vec<Link>>,
}

/// How many of the first `n` rows of the constraint table are true in
/// column `k`.
pub open spec fn col_true_count(t: Seq<Vec<bool>>, k: int, n: int) -> nat
    decreases n,
{
    if n <= 0 {
        0
    } else {
        col_true_count(t, k, n - 1) + (if t[n - 1]@[k] {
            1nat
        } else {
            0nat
        })
    }
}

/// Counting the true entries of a column of the canonical table gives the
/// size of the set of choices satisfying that constraint: nine.
pub proof fn lemma_canonical_col_count(t: Seq<Vec<bool>>, k: int)
    requires
        is_canonical_table(t),
        0 <= k < 324,
    ensures
        col_true_count(t, k, 729) == 9,
{
    assert forall|n: int| 0 <= n <= 729 implies col_true_count(t, k, n) == Set::new(
        |ci: int| 0 <= ci < n && constraint_entry(ci, k),
    ).len() && Set::new(|ci: int| 0 <= ci < n && constraint_entry(ci, k)).finite() by {
        lemma_count_is_card(t, k, n);
    }
    crate::constraints::lemma_column_true_choices(k);
    assert(Set::new(|ci: int| 0 <= ci < 729 && constraint_entry(ci, k))
        =~= crate::constraints::column_true_choices(k));
}

proof fn lemma_count_is_card(t: Seq<Vec<bool>>, k: int, n: int)
    requires
        is_canonical_table(t),
        0 <= k < 324,
        0 <= n <= 729,
    ensures
        Set::new(|ci: int| 0 <= ci < n && constraint_entry(ci, k)).finite(),
        col_true_count(t, k, n) == Set::new(
            |ci: int| 0 <= ci < n && constraint_entry(ci, k),
        ).len(),
    decreases n,
{
    let s = Set::new(|ci: int| 0 <= ci < n && constraint_entry(ci, k));
    if n == 0 {
        assert(s =~= Set::empty());
    } else {
        lemma_count_is_card(t, k, n - 1);
        let sp = Set::new(|ci: int| 0 <= ci < n - 1 && constraint_entry(ci, k));
        if constraint_entry(n - 1, k) {
            assert(s =~= sp.insert(n - 1));
            assert(!sp.contains(n - 1));
            assert(t[n - 1]@[k]);
        } else {
            assert(s =~= sp);
            assert(!t[n - 1]@[k]);
        }
    }
}

/// Generates the row of column headers with the correct cell counts. The
/// up, down, left and right pointers are left unset; `link_linked_table`
/// wires them.
pub fn generate_column_headers(constraint_table: &ConstraintTable) -> (r: Vec<Link>)
    requires
        table_wf(constraint_table.table@),
    ensures
        r@.len() == 324,
        forall|k: int|
            0 <= k < 324 ==> r@[k] == (Link::ColumnHeader(ColumnHeader {
                cell_count: col_true_count(constraint_table.table@, k, 729) as i32,
                up: None,
                down: None,
                left: None,
                right: None,
            })),
{
    let mut headers: Vec<Link> = Vec::new();
    let mut k: usize = 0;
    while k < 324
        invariant
            k <= 324,
            table_wf(constraint_table.table@),
            headers@.len() == k,
            forall|k2: int|
                0 <= k2 < k ==> headers@[k2] == (Link::ColumnHeader(ColumnHeader {
                    cell_count: col_true_count(constraint_table.table@, k2, 729) as i32,
                    up: None,
                    down: None,
                    left: None,
                    right: None,
                })),
        decreases 324 - k,
    {
        let mut count: i32 = 0;
        let mut i: usize = 0;
        while i < 729
            invariant
                i <= 729,
                k < 324,
                table_wf(constraint_table.table@),
                0 <= count <= i,
                count as int == col_true_count(constraint_table.table@, k as int, i as int),
            decreases 729 - i,
        {
            if constraint_table.table[i][k] {
                count = count + 1;
            }
            i += 1;
        }
        headers.push(Link::ColumnHeader(ColumnHeader {
            cell_count: count,
            up: None,
            down: None,
            left: None,
            right: None,
        }));
        k += 1;
    }
    headers
}

/// Generates one linked row per choice: a cell wherever the constraint
/// table holds a true entry and an empty link elsewhere. Pointers are left
/// unset; `link_linked_table` wires them.
pub fn generate_linked_rows(constraint_table: &ConstraintTable) -> (r: Vec<Vec<Link>>)
    requires
        table_wf(constraint_table.table@),
    ensures
        r@.len() == 729,
        forall|i: int| 0 <= i < 729 ==> (#[trigger] r@[i])@.len() == 324,
        forall|i: int, k: int|
            0 <= i < 729 && 0 <= k < 324 ==> (#[trigger] r@[i]@[k]) == (
            if constraint_table.table@[i]@[k] {
                Link::Cell(Cell {
                    column_index: k as usize,
                    row_index: i as usize,
                    up: None,
                    down: None,
                    left: None,
                    right: None,
                })
            } else {
                Link::EmptyLink
            }),
{
    let mut linked_rows: Vec<Vec<Link>> = Vec::new();
    let mut i: usize = 0;
    while i < 729
        invariant
            i <= 729,
            table_wf(constraint_table.table@),
            linked_rows@.len() == i,
            forall|i2: int| 0 <= i2 < i ==> (#[trigger] linked_rows@[i2])@.len() == 324,
            forall|i2: int, k: int|
                0 <= i2 < i && 0 <= k < 324 ==> (#[trigger] linked_rows@[i2]@[k]) == (
                if constraint_table.table@[i2]@[k] {
                    Link::Cell(Cell {
                        column_index: k as usize,
                        row_index: i2 as usize,
                        up: None,
                        down: None,
                        left: None,
                        right: None,
                    })
                } else {
                    Link::EmptyLink
                }),
        decreases 729 - i,
    {
        let mut current_linked: Vec<Link> = Vec::new();
        let mut k: usize = 0;
        while k < 324
            invariant
                i < 729,
                k <= 324,
                table_wf(constraint_table.table@),
                current_linked@.len() == k,
                forall|k2: int|
                    0 <= k2 < k ==> current_linked@[k2] == (
                    if constraint_table.table@[i as int]@[k2] {
                        Link::Cell(Cell {
                            column_index: k2 as usize,
                            row_index: i as usize,
                            up: None,
                            down: None,
                            left: None,
                            right: None,
                        })
                    } else {
                        Link::EmptyLink
                    }),
            decreases 324 - k,
        {
            if constraint_table.table[i][k] {
                current_linked.push(Link::Cell(Cell {
                    column_index: k,
                    row_index: i,
                    up: None,
                    down: None,
                    left: None,
                    right: None,
                }));
            } else {
                current_linked.push(Link::EmptyLink);
            }
            k += 1;
        }
        linked_rows.push(current_linked);
        i += 1;
    }
    linked_rows
}

/// The first non-empty slot of the row at index `k` or later, if any.
pub open spec fn find_occupied_from(row: Seq<Link>, k: int) -> Option<int>
    decreases row.len() - k,
{
    if k < 0 || k >= row.len() {
        None
    } else if !(row[k] is EmptyLink) {
        Some(k)
    } else {
        find_occupied_from(row, k + 1)
    }
}

/// The last non-empty slot of the row strictly before index `k`, if any.
pub open spec fn find_occupied_before(row: Seq<Link>, k: int) -> Option<int>
    decreases k,
{
    if k <= 0 || k > row.len() {
        None
    } else if !(row[k - 1] is EmptyLink) {
        Some(k - 1)
    } else {
        find_occupied_before(row, k - 1)
    }
}

/// The next non-empty slot after `k`, wrapping around to the row's start.
pub open spec fn cyclic_next(row: Seq<Link>, k: int) -> int {
    match find_occupied_from(row, k + 1) {
        Some(j) => j,
        None => match find_occupied_from(row, 0) {
            Some(j) => j,
            None => k,
        },
    }
}

/// The previous non-empty slot before `k`, wrapping around to the row's
/// end.
pub open spec fn cyclic_prev(row: Seq<Link>, k: int) -> int {
    match find_occupied_before(row, k) {
        Some(j) => j,
        None => match find_occupied_before(row, row.len() as int) {
            Some(j) => j,
            None => k,
        },
    }
}

proof fn lemma_find_occupied_from_props(row: Seq<Link>, j: int)
    ensures
        match find_occupied_from(row, j) {
            Some(x) => j <= x < row.len() && !(row[x] is EmptyLink),
            None => true,
        },
    decreases row.len() - j,
{
    if 0 <= j < row.len() && row[j] is EmptyLink {
        lemma_find_occupied_from_props(row, j + 1);
    }
}

proof fn lemma_find_occupied_before_props(row: Seq<Link>, j: int)
    ensures
        match find_occupied_before(row, j) {
            Some(x) => 0 <= x < j && x < row.len() && !(row[x] is EmptyLink),
            None => true,
        },
    decreases j,
{
    if 0 < j <= row.len() && row[j - 1] is EmptyLink {
        lemma_find_occupied_before_props(row, j - 1);
    }
}

proof fn lemma_find_occupied_from_some(row: Seq<Link>, j: int, k: int)
    requires
        0 <= j <= k < row.len(),
        !(row[k] is EmptyLink),
    ensures
        find_occupied_from(row, j) is Some,
    decreases k - j,
{
    if j < k && row[j] is EmptyLink {
        lemma_find_occupied_from_some(row, j + 1, k);
    }
}

proof fn lemma_find_occupied_before_some(row: Seq<Link>, j: int, k: int)
    requires
        0 <= k < j <= row.len(),
        !(row[k] is EmptyLink),
    ensures
        find_occupied_before(row, j) is Some,
    decreases j,
{
    if k < j - 1 && row[j - 1] is EmptyLink {
        lemma_find_occupied_before_some(row, j - 1, k);
    }
}

/// Scans the row from `start` towards its end for the first non-empty
/// slot.
fn find_occupied_right(row: &Vec<Link>, start: usize) -> (r: Option<usize>)
    requires
        start <= row@.len(),
    ensures
        match find_occupied_from(row@, start as int) {
            Some(x) => r == Some(x as usize),
            None => r is None,
        },
{
    let mut cur: usize = start;
    while cur < row.len()
        invariant
            start <= cur <= row@.len(),
            find_occupied_from(row@, start as int) == find_occupied_from(row@, cur as int),
        decreases row@.len() - cur,
    {
        match row[cur] {
            Link::EmptyLink => {},
            _ => {
                return Some(cur);
            },
        }
        cur += 1;
    }
    None
}

/// Scans the row from just below `before` towards its start for the last
/// non-empty slot.
fn find_occupied_left(row: &Vec<Link>, before: usize) -> (r: Option<usize>)
    requires
        before <= row@.len(),
    ensures
        match find_occupied_before(row@, before as int) {
            Some(x) => r == Some(x as usize),
            None => r is None,
        },
{
    let mut cur: usize = before;
    while cur > 0
        invariant
            cur <= before <= row@.len(),
            find_occupied_before(row@, before as int) == find_occupied_before(row@, cur as int),
        decreases cur,
    {
        match row[cur - 1] {
            Link::EmptyLink => {},
            _ => {
                return Some(cur - 1);
            },
        }
        cur -= 1;
    }
    None
}

/// The next non-empty slot after `k`, wrapping around; `k` itself must be
/// occupied, so the search cannot come up empty.
fn cyclic_next_in_row(row: &Vec<Link>, k: usize) -> (r: usize)
    requires
        k < row@.len(),
        !(row@[k as int] is EmptyLink),
    ensures
        r as int == cyclic_next(row@, k as int),
        r < row@.len(),
{
    let n = row.len();
    proof {
        lemma_find_occupied_from_props(row@, k as int + 1);
        lemma_find_occupied_from_props(row@, 0);
        lemma_find_occupied_from_some(row@, 0, k as int);
    }
    match find_occupied_right(row, k + 1) {
        Some(x) => x,
        None => find_occupied_right(row, 0).unwrap(),
    }
}

/// The previous non-empty slot before `k`, wrapping around; `k` itself
/// must be occupied, so the search cannot come up empty.
fn cyclic_prev_in_row(row: &Vec<Link>, k: usize) -> (r: usize)
    requires
        k < row@.len(),
        !(row@[k as int] is EmptyLink),
    ensures
        r as int == cyclic_prev(row@, k as int),
        r < row@.len(),
{
    proof {
        lemma_find_occupied_before_props(row@, k as int);
        lemma_find_occupied_before_props(row@, row@.len() as int);
        lemma_find_occupied_before_some(row@, row@.len() as int, k as int);
    }
    match find_occupied_left(row, k) {
        Some(x) => x,
        None => find_occupied_left(row, row.len()).unwrap(),
    }
}

/// What linking does to slot `k` of one row: empty slots stay empty, and
/// every occupied slot keeps its payload and vertical pointers while its
/// left and right pointers become its cyclic neighbours among the row's
/// occupied slots.
pub open spec fn row_linked(orig: Seq<Link>, out: Seq<Link>, k: int) -> bool {
    match orig[k] {
        Link::EmptyLink => out[k] == Link::EmptyLink,
        Link::ColumnHeader(h) => out[k] == (Link::ColumnHeader(ColumnHeader {
            cell_count: h.cell_count,
            up: h.up,
            down: h.down,
            left: Some(cyclic_prev(orig, k) as usize),
            right: Some(cyclic_next(orig, k) as usize),
        })),
        Link::Cell(c) => out[k] == (Link::Cell(Cell {
            column_index: c.column_index,
            row_index: c.row_index,
            up: c.up,
            down: c.down,
            left: Some(cyclic_prev(orig, k) as usize),
            right: Some(cyclic_next(orig, k) as usize),
        })),
    }
}

/// Wires each row of the linked table into a circular doubly linked list:
/// every non-empty link's left and right pointers are set to its cyclic
/// neighbours among the row's non-empty links. Payloads and vertical
/// pointers are untouched.
pub fn link_linked_table(linked_table: LinkedTable) -> (r: LinkedTable)
    ensures
        r.table@.len() == linked_table.table@.len(),
        forall|i: int|
            0 <= i < linked_table.table@.len() ==> (#[trigger] r.table@[i])@.len()
                == linked_table.table@[i]@.len(),
        forall|i: int, k: int|
            0 <= i < linked_table.table@.len() && 0 <= k < linked_table.table@[i]@.len()
                ==> #[trigger] row_linked(linked_table.table@[i]@, r.table@[i]@, k),
{
    let nrows = linked_table.table.len();
    let mut out: Vec<Vec<Link>> = Vec::new();
    let mut i: usize = 0;
    while i < nrows
        invariant
            i <= nrows,
            nrows == linked_table.table@.len(),
            out@.len() == i,
            forall|i2: int|
                0 <= i2 < i ==> (#[trigger] out@[i2])@.len() == linked_table.table@[i2]@.len(),
            forall|i2: int, k: int|
                0 <= i2 < i && 0 <= k < linked_table.table@[i2]@.len() ==> #[trigger] row_linked(
                    linked_table.table@[i2]@,
                    out@[i2]@,
                    k,
                ),
        decreases nrows - i,
    {
        let row = &linked_table.table[i];
        let ncols = row.len();
        let mut new_row: Vec<Link> = Vec::new();
        let mut k: usize = 0;
        while k < ncols
            invariant
                k <= ncols,
                ncols == row@.len(),
                row@ == linked_table.table@[i as int]@,
                i < linked_table.table@.len(),
                new_row@.len() == k,
                forall|k2: int| 0 <= k2 < k ==> row_linked(row@, new_row@, k2),
            decreases ncols - k,
        {
            let l = row[k];
            let nl = match l {
                Link::EmptyLink => Link::EmptyLink,
                Link::ColumnHeader(h) => {
                    let prv = cyclic_prev_in_row(row, k);
                    let nxt = cyclic_next_in_row(row, k);
                    Link::ColumnHeader(ColumnHeader {
                        cell_count: h.cell_count,
                        up: h.up,
                        down: h.down,
                        left: Some(prv),
                        right: Some(nxt),
                    })
                },
                Link::Cell(c) => {
                    let prv = cyclic_prev_in_row(row, k);
                    let nxt = cyclic_next_in_row(row, k);
                    Link::Cell(Cell {
                        column_index: c.column_index,
                        row_index: c.row_index,
                        up: c.up,
                        down: c.down,
                        left: Some(prv),
                        right: Some(nxt),
                    })
                },
            };
            let ghost prev_row = new_row@;
            new_row.push(nl);
            proof {
                assert forall|k2: int| 0 <= k2 < k + 1 implies row_linked(row@, new_row@, k2) by {
                    if k2 < k {
                        assert(new_row@[k2] == prev_row[k2]);
                        assert(row_linked(row@, prev_row, k2));
                    } else {
                        assert(new_row@[k2] == nl);
                    }
                }
            }
            k += 1;
        }
        out.push(new_row);
        i += 1;
    }
    LinkedTable { table: out }
}

/// The linked table before wiring: a header row of 324 column headers,
/// each counting its column's nine cells, followed by one row per choice
/// with a cell at every constraint that choice satisfies.
pub open spec fn unlinked_table_link(i: int, k: int) -> Link {
    if i == 0 {
        Link::ColumnHeader(ColumnHeader {
            cell_count: 9,
            up: None,
            down: None,
            left: None,
            right: None,
        })
    } else if constraint_entry(i - 1, k) {
        Link::Cell(Cell {
            column_index: k as usize,
            row_index: (i - 1) as usize,
            up: None,
            down: None,
            left: None,
            right: None,
        })
    } else {
        Link::EmptyLink
    }
}

/// Row `i` of the linked table before wiring.
pub open spec fn unlinked_row(i: int) -> Seq<Link> {
    Seq::new(324, |k: int| unlinked_table_link(i, k))
}

/// Builds the full linked table: the header row and the 729 choice rows,
/// each wired into a circular doubly linked list.
pub fn generate_linked_table() -> (r: LinkedTable)
    ensures
        r.table@.len() == 730,
        forall|i: int| 0 <= i < 730 ==> (#[trigger] r.table@[i])@.len() == 324,
        forall|i: int, k: int|
            0 <= i < 730 && 0 <= k < 324 ==> #[trigger] row_linked(unlinked_row(i), r.table@[i]@, k),
{
    let constraint_table = crate::constraints::generate_constraint_table();
    let mut table: Vec<Vec<Link>> = Vec::new();
    let headers = generate_column_headers(&constraint_table);
    proof {
        assert forall|k: int| 0 <= k < 324 implies headers@[k] == unlinked_row(0)[k] by {
            lemma_canonical_col_count(constraint_table.table@, k);
        }
        assert(headers@ =~= unlinked_row(0));
    }
    table.push(headers);
    let mut rows = generate_linked_rows(&constraint_table);
    table.append(&mut rows);
    proof {
        assert forall|i: int| 0 <= i < 730 implies (#[trigger] table@[i])@ == unlinked_row(i) by {
            if i > 0 {
                assert forall|k: int| 0 <= k < 324 implies table@[i]@[k] == unlinked_row(i)[k] by {
                    assert(table@[i]@[k] == (if constraint_table.table@[i - 1]@[k] {
                        Link::Cell(Cell {
                            column_index: k as usize,
                            row_index: (i - 1) as usize,
                            up: None,
                            down: None,
                            left: None,
                            right: None,
                        })
                    } else {
                        Link::EmptyLink
                    }));
                }
                assert(table@[i]@ =~= unlinked_row(i));
            }
        }
    }
    let unlinked = LinkedTable { table };
    let ghost input = unlinked.table@;
    let linked = link_linked_table(unlinked);
    proof {
        assert forall|i: int, k: int| 0 <= i < 730 && 0 <= k < 324 implies #[trigger] row_linked(
            unlinked_row(i),
            linked.table@[i]@,
            k,
        ) by {
            assert(row_linked(input[i]@, linked.table@[i]@, k));
            assert(input[i]@ == unlinked_row(i));
        }
    }
    linked
}

/// Builds the sparse linked representation of the Sudoku exact-cover
/// problem and returns it.
pub fn launch_dancing_links() -> (r: LinkedTable)
    ensures
        r.table@.len() == 730,
        forall|i: int| 0 <= i < 730 ==> (#[trigger] r.table@[i])@.len() == 324,
        forall|i: int, k: int|
            0 <= i < 730 && 0 <= k < 324 ==> #[trigger] row_linked(unlinked_row(i), r.table@[i]@, k),
{
    generate_linked_table()
}

} // verus!
