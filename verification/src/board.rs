use vstd::prelude::*;

verus! {

/// Adds two numbers, provided the sum stays within the machine range.
pub fn add(a: i32, b: i32) -> (r: i32)
    requires
        i32::MIN <= a + b <= i32::MAX,
    ensures
        r == a + b,
{
    a + b
}

/// A plain 9-by-9 grid of digits, stored row by row. A cell holds 0 when it
/// is empty and a digit 1 through 9 otherwise.
pub struct Board {
    cells: Vec<i32>,
}

impl View for Board {
    type V = Seq<i32>;

    closed spec fn view(&self) -> Seq<i32> {
        self.cells@
    }
}

impl Default for Board {
    /// An empty grid: all 81 cells hold 0.
    fn default() -> (r: Board)
        ensures
            r.wf(),
            forall|i: int| 0 <= i < 81 ==> #[trigger] r@[i] == 0,
    {
        Board { cells: vec![0i32; 81] }
    }
}

impl Board {
    /// The grid holds exactly 81 cells, each a digit 0 through 9.
    pub open spec fn wf(&self) -> bool {
        &&& self@.len() == 81
        &&& forall|i: int| 0 <= i < 81 ==> 0 <= #[trigger] self@[i] <= 9
    }

    /// The digit at column `x`, row `y`.
    pub open spec fn cell(&self, x: int, y: int) -> i32 {
        self@[y * 9 + x]
    }

    /// An empty grid.
    pub fn new() -> (r: Board)
        ensures
            r.wf(),
            forall|i: int| 0 <= i < 81 ==> #[trigger] r@[i] == 0,
    {
        Board { cells: vec![0i32; 81] }
    }

    /// A copy of the given grid.
    pub fn from_board(board: &Board) -> (r: Board)
        requires
            board.wf(),
        ensures
            r.wf(),
            r@ == board@,
    {
        let mut cells: Vec<i32> = Vec::new();
        let mut i: usize = 0;
        while i < 81
            invariant
                i <= 81,
                board.wf(),
                cells@.len() == i,
                forall|j: int| 0 <= j < i ==> cells@[j] == board@[j],
            decreases 81 - i,
        {
            cells.push(board.cells[i]);
            i += 1;
        }
        let r = Board { cells };
        assert(r@ =~= board@);
        r
    }

    /// Writes `value` at column `x`, row `y`.
    pub fn set(&mut self, x: usize, y: usize, value: i32)
        requires
            old(self).wf(),
            x < 9,
            y < 9,
            0 <= value <= 9,
        ensures
            final(self).wf(),
            final(self)@ == old(self)@.update(y * 9 + x, value),
    {
        let idx: usize = y * 9 + x;
        self.cells[idx] = value;
    }

    /// Reads the digit at column `x`, row `y`.
    pub fn get(&self, x: usize, y: usize) -> (r: i32)
        requires
            self.wf(),
            x < 9,
            y < 9,
        ensures
            r == self.cell(x as int, y as int),
    {
        self.cells[y * 9 + x]
    }

    /// The nine digits of row `row_idx`, left to right.
    pub fn get_row(&self, row_idx: usize) -> (r: Vec<i32>)
        requires
            self.wf(),
            row_idx < 9,
        ensures
            r@ == self@.subrange(row_idx * 9, row_idx * 9 + 9),
    {
        let mut r: Vec<i32> = Vec::new();
        let mut c: usize = 0;
        while c < 9
            invariant
                c <= 9,
                self.wf(),
                row_idx < 9,
                r@.len() == c,
                forall|j: int| 0 <= j < c ==> r@[j] == self@[row_idx * 9 + j],
            decreases 9 - c,
        {
            r.push(self.cells[row_idx * 9 + c]);
            c += 1;
        }
        assert(r@ =~= self@.subrange(row_idx * 9, row_idx * 9 + 9));
        r
    }

    /// The nine digits of column `col_idx`, top to bottom.
    pub fn get_column(&self, col_idx: usize) -> (r: Vec<i32>)
        requires
            self.wf(),
            col_idx < 9,
        ensures
            r@.len() == 9,
            forall|j: int| 0 <= j < 9 ==> r@[j] == self@[j * 9 + col_idx],
    {
        let mut r: Vec<i32> = Vec::new();
        let mut row: usize = 0;
        while row < 9
            invariant
                row <= 9,
                self.wf(),
                col_idx < 9,
                r@.len() == row,
                forall|j: int| 0 <= j < row ==> r@[j] == self@[j * 9 + col_idx],
            decreases 9 - row,
        {
            r.push(self.cells[row * 9 + col_idx]);
            row += 1;
        }
        r
    }
}

} // verus!
