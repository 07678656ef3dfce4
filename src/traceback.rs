//! The traceback matrix: one banded row of scored cells per graph node, plus a
//! virtual root row, and the walk that reads an alignment back out of it.
use vstd::prelude::*;

verus! {

/// Score of an unreachable cell, with room below it for many further gaps.
pub const MIN_SCORE: i32 = -858_993_459;

/// One step of an alignment against the graph. `Match` and `Del` remember the
/// predecessor node and the node itself; `None` marks the boundary of the matrix.
#[derive(Copy, Clone, PartialEq, Eq, PartialOrd, Ord, Hash, Debug)]
pub enum AlignmentOperation {
    Match(Option<(usize, usize)>),
    Del(Option<(usize, usize)>),
    Ins(Option<usize>),
    Xclip(usize),
    /// (to, from)
    Yclip(usize, usize),
}

/// The score of an alignment and its operations from start to end.
#[derive(Default, Clone, PartialEq, Eq, PartialOrd, Ord, Hash, Debug)]
pub struct Alignment {
    pub score: i32,
    pub operations: Vec<AlignmentOperation>,
}

impl Alignment {
    /// The operations, from start to end.
    pub fn operations(&self) -> (r: &Vec<AlignmentOperation>)
        ensures
            r@ == self.operations@,
    {
        &self.operations
    }
}

/// The best score of a cell and the operation that reached it.
#[derive(Copy, Clone, Debug)]
pub struct TracebackCell {
    pub score: i32,
    pub op: AlignmentOperation,
}

/// A row: its stored cells, and the window [start, end) of columns they cover.
pub type RowModel = (Seq<TracebackCell>, usize, usize);

/// One row per graph node after the root row 0; `last` is the node visited last.
#[derive(Default, Clone, Debug)]
pub struct Traceback {
    pub rows: usize,
    pub cols: usize,
    pub last: usize,
    pub matrix: Vec<(Vec<TracebackCell>, usize, usize)>,
}

pub open spec fn cell(score: i32, op: AlignmentOperation) -> TracebackCell {
    TracebackCell { score, op }
}

/// `x`, clamped to the range of `i32`.
pub open spec fn sat(x: int) -> i32 {
    if x > i32::MAX {
        i32::MAX
    } else if x < i32::MIN {
        i32::MIN
    } else {
        x as i32
    }
}

/// Saturating addition.
pub fn sat_add(a: i32, b: i32) -> (r: i32)
    ensures
        r == sat(a + b),
{
    let s: i64 = a as i64 + b as i64;
    if s > i32::MAX as i64 {
        i32::MAX
    } else if s < i32::MIN as i64 {
        i32::MIN
    } else {
        s as i32
    }
}

/// Saturating product of a count and a score.
pub fn sat_mul(k: usize, g: i32) -> (r: i32)
    ensures
        r == sat(k * g),
{
    proof {
        let (a, b) = (k as int, g as int);
        assert(-0x1_0000_0000_0000_0000_0000_0000 <= a * b <= 0x1_0000_0000_0000_0000_0000_0000) by (nonlinear_arith)
            requires
                0 <= a <= 0x1_0000_0000_0000_0000,
                -0x8000_0000 <= b <= 0x8000_0000,
        ;
    }
    let p: i128 = (k as i128) * (g as i128);
    if p > i32::MAX as i128 {
        i32::MAX
    } else if p < i32::MIN as i128 {
        i32::MIN
    } else {
        p as i32
    }
}

/// Whether column `j` lies in the stored part of row `r`.
pub open spec fn in_band(r: RowModel, j: int) -> bool {
    !(r.1 > j || r.2 <= j || r.0.len() == 0) && j - r.1 < r.0.len()
}

/// The cell at (i, j): the stored one inside the band, else an unreachable
/// sentinel: `Ins(None)` at or after the window, `Del(None)` before it or at
/// column 0.
pub open spec fn cell_at(rows: Seq<RowModel>, i: int, j: int) -> TracebackCell {
    let r = rows[i];
    if in_band(r, j) {
        r.0[j - r.1]
    } else if j == 0 {
        cell(MIN_SCORE, AlignmentOperation::Del(None))
    } else if j >= r.2 {
        cell(MIN_SCORE, AlignmentOperation::Ins(None))
    } else {
        cell(MIN_SCORE, AlignmentOperation::Del(None))
    }
}

/// Where the walk goes from (i, j) after reading `op`; `None` where the move
/// would leave the matrix.
pub open spec fn step_from(op: AlignmentOperation, i: int, j: int) -> Option<(int, int)> {
    match op {
        AlignmentOperation::Match(Some((p, _))) => if j > 0 { Some((p + 1, j - 1)) } else { None },
        AlignmentOperation::Del(Some((p, _))) => Some((p + 1, j)),
        AlignmentOperation::Ins(Some(p)) => if j > 0 { Some((p + 1, j - 1)) } else { None },
        AlignmentOperation::Match(None) => if j > 0 { Some((0, j - 1)) } else { None },
        AlignmentOperation::Del(None) => if i > 0 { Some((i - 1, j)) } else { None },
        AlignmentOperation::Ins(None) => if j > 0 { Some((i, j - 1)) } else { None },
        AlignmentOperation::Xclip(r) => Some((r as int, j)),
        AlignmentOperation::Yclip(r, _) => Some((i, r as int)),
    }
}

/// The operations read from (i, j) back to (0, 0), end first, for at most
/// `fuel` steps; the walk stops where a move would leave the matrix.
pub open spec fn trace_back(rows: Seq<RowModel>, i: int, j: int, fuel: nat) -> Seq<AlignmentOperation>
    decreases fuel,
{
    if fuel == 0 || (i == 0 && j == 0) || !(0 <= i < rows.len()) {
        seq![]
    } else {
        let op = cell_at(rows, i, j).op;
        match step_from(op, i, j) {
            Some((i2, j2)) => seq![op] + trace_back(rows, i2, j2, (fuel - 1) as nat),
            None => seq![],
        }
    }
}

/// More steps than any walk through a filled matrix takes.
pub open spec fn walk_fuel(rows: Seq<RowModel>, cols: int) -> nat {
    (2 * rows.len() + cols + 1) as nat
}

/// `s` from end to start.
pub open spec fn reversed<A>(s: Seq<A>) -> Seq<A> {
    Seq::new(s.len(), |k: int| s[s.len() - 1 - k])
}

/// The alignment read out of a matrix: the walk from the cell of the last node
/// and the last column, and that cell's score.
pub open spec fn alignment_of(rows: Seq<RowModel>, last: int, cols: int) -> (i32, Seq<AlignmentOperation>) {
    let score = if last + 1 < rows.len() { cell_at(rows, last + 1, cols).score } else { MIN_SCORE };
    (score, reversed(trace_back(rows, last + 1, cols, walk_fuel(rows, cols))))
}

/// The initial matrix: `m + 1` empty rows, each with the window [0, n + 1).
pub open spec fn empty_rows(m: int, n: int) -> Seq<RowModel> {
    Seq::new((m + 1) as nat, |k: int| (Seq::<TracebackCell>::empty(), 0usize, (n + 1) as usize))
}

/// The root row: (0, 0) scores 0 as `Match(None)`; (0, j) costs `j` gaps as `Ins(None)`.
pub open spec fn root_cells(n: int, gap_open: i32) -> Seq<TracebackCell> {
    Seq::new(
        (n + 1) as nat,
        |j: int|
            if j == 0 {
                cell(0, AlignmentOperation::Match(None))
            } else {
                cell(sat(j * gap_open), AlignmentOperation::Ins(None))
            },
    )
}

/// The cells a fresh row gets: column 0 is `row` gaps as `Del(None)` when the
/// window starts at the edge, and unreachable otherwise; the rest are unreachable.
pub open spec fn fresh_cells(row: int, size: int, gap_open: i32, start: int) -> Seq<TracebackCell> {
    Seq::new(
        (size + 1) as nat,
        |k: int|
            if k == 0 && start == 0 {
                cell(sat(row * gap_open), AlignmentOperation::Del(None))
            } else {
                cell(MIN_SCORE, AlignmentOperation::Match(None))
            },
    )
}

/// The rows after `set(i, j, c)`: the cell is stored where the window holds it.
pub open spec fn set_rows(rows: Seq<RowModel>, i: int, j: int, c: TracebackCell) -> Seq<RowModel> {
    let r = rows[i];
    if !(r.1 > j || r.2 < j) && j - r.1 < r.0.len() {
        rows.update(i, (r.0.update(j - r.1, c), r.1, r.2))
    } else {
        rows
    }
}

/// A copy of a row's cells.
fn copy_cells(v: &Vec<TracebackCell>) -> (r: Vec<TracebackCell>)
    ensures
        r@ == v@,
{
    let mut r: Vec<TracebackCell> = Vec::new();
    let mut k: usize = 0;
    while k < v.len()
        invariant
            k <= v@.len(),
            r@ =~= v@.take(k as int),
        decreases v@.len() - k,
    {
        r.push(v[k]);
        k = k + 1;
    }
    assert(r@ =~= v@);
    r
}

impl Traceback {
    /// The rows of the matrix as values.
    pub open spec fn model(&self) -> Seq<RowModel> {
        self.matrix@.map_values(|r: (Vec<TracebackCell>, usize, usize)| (r.0@, r.1, r.2))
    }

    /// A matrix for `m` graph nodes and a query of length `n`.
    pub fn with_capacity(m: usize, n: usize) -> (r: Self)
        requires
            m < usize::MAX,
            n < usize::MAX,
        ensures
            r.rows == m,
            r.cols == n,
            r.last == 0,
            r.matrix@.len() == m + 1,
            r.model() == empty_rows(m as int, n as int),
    {
        let mut matrix: Vec<(Vec<TracebackCell>, usize, usize)> = Vec::new();
        let mut k: usize = 0;
        while k <= m
            invariant
                k <= m + 1,
                m < usize::MAX,
                n < usize::MAX,
                matrix@.len() == k,
                forall|t: int|
                    0 <= t < k ==> (#[trigger] matrix@[t]).0@ == Seq::<TracebackCell>::empty()
                        && matrix@[t].1 == 0 && matrix@[t].2 == n + 1,
            decreases m + 1 - k,
        {
            matrix.push((Vec::new(), 0, n + 1));
            k = k + 1;
        }
        let r = Traceback { rows: m, cols: n, last: 0, matrix };
        assert(r.model() =~= empty_rows(m as int, n as int));
        r
    }

    /// An empty matrix.
    pub fn new() -> (r: Self)
        ensures
            r.rows == 0,
            r.cols == 0,
            r.last == 0,
            r.model() == Seq::<RowModel>::empty(),
    {
        let r = Traceback { rows: 0, cols: 0, last: 0, matrix: Vec::new() };
        assert(r.model() =~= Seq::<RowModel>::empty());
        r
    }

    /// Fill the root row with the cost of inserting each query prefix.
    pub fn initialize_scores(&mut self, gap_open: i32)
        requires
            old(self).matrix@.len() > 0,
            old(self).model()[0].0.len() == 0,
            old(self).cols < usize::MAX,
        ensures
            final(self).rows == old(self).rows,
            final(self).cols == old(self).cols,
            final(self).last == old(self).last,
            final(self).matrix@.len() == old(self).matrix@.len(),
            final(self).model() == old(self).model().update(
                0,
                (root_cells(old(self).cols as int, gap_open), old(self).model()[0].1, old(self).model()[0].2),
            ),
    {
        let n = self.cols;
        let mut cells: Vec<TracebackCell> = Vec::new();
        let mut j: usize = 0;
        while j <= n
            invariant
                j <= n + 1,
                n < usize::MAX,
                cells@ =~= root_cells(n as int, gap_open).take(j as int),
            decreases n + 1 - j,
        {
            let c = if j == 0 {
                TracebackCell { score: 0, op: AlignmentOperation::Match(None) }
            } else {
                TracebackCell { score: sat_mul(j, gap_open), op: AlignmentOperation::Ins(None) }
            };
            cells.push(c);
            j = j + 1;
        }
        assert(cells@ =~= root_cells(n as int, gap_open));
        let ghost before = self.model();
        let start = self.matrix[0].1;
        let end = self.matrix[0].2;
        self.matrix.set(0, (cells, start, end));
        assert(self.model() =~= before.update(0, (root_cells(n as int, gap_open), start, end)));
    }

    /// Open row `row` on the window [start, end) with `size + 1` cells after what
    /// it already holds.
    pub fn new_row(&mut self, row: usize, size: usize, gap_open: i32, start: usize, end: usize)
        requires
            row < old(self).matrix@.len(),
            size < usize::MAX,
        ensures
            final(self).rows == old(self).rows,
            final(self).cols == old(self).cols,
            final(self).last == old(self).last,
            final(self).matrix@.len() == old(self).matrix@.len(),
            final(self).model() == old(self).model().update(
                row as int,
                (
                    old(self).model()[row as int].0 + fresh_cells(row as int, size as int, gap_open, start as int),
                    start,
                    end,
                ),
            ),
    {
        let ghost before = self.model();
        let mut cells = copy_cells(&self.matrix[row].0);
        let ghost old_cells = cells@;
        assert(old_cells == before[row as int].0);
        let mut k: usize = 0;
        while k <= size
            invariant
                k <= size + 1,
                size < usize::MAX,
                cells@ =~= old_cells + fresh_cells(row as int, size as int, gap_open, start as int).take(
                    k as int,
                ),
            decreases size + 1 - k,
        {
            let c = if k == 0 && start == 0 {
                TracebackCell { score: sat_mul(row, gap_open), op: AlignmentOperation::Del(None) }
            } else {
                TracebackCell { score: MIN_SCORE, op: AlignmentOperation::Match(None) }
            };
            cells.push(c);
            k = k + 1;
        }
        assert(cells@ =~= old_cells + fresh_cells(row as int, size as int, gap_open, start as int));
        self.matrix.set(row, (cells, start, end));
        assert(self.model() =~= before.update(
            row as int,
            (old_cells + fresh_cells(row as int, size as int, gap_open, start as int), start, end),
        ));
    }

    /// Store `c` at (i, j) when the window of row `i` holds column `j`.
    pub fn set(&mut self, i: usize, j: usize, c: TracebackCell)
        requires
            i < old(self).matrix@.len(),
        ensures
            final(self).rows == old(self).rows,
            final(self).cols == old(self).cols,
            final(self).last == old(self).last,
            final(self).matrix@.len() == old(self).matrix@.len(),
            final(self).model() == set_rows(old(self).model(), i as int, j as int, c),
    {
        let ghost before = self.model();
        let start = self.matrix[i].1;
        let end = self.matrix[i].2;
        if !(start > j || end < j) && j - start < self.matrix[i].0.len() {
            let mut cells = copy_cells(&self.matrix[i].0);
            assert(cells@ == before[i as int].0);
            cells.set(j - start, c);
            self.matrix.set(i, (cells, start, end));
            assert(self.model() =~= set_rows(before, i as int, j as int, c));
        }
    }

    /// The cell at (i, j), or the sentinel for a column outside the window.
    pub fn get(&self, i: usize, j: usize) -> (r: TracebackCell)
        requires
            i < self.matrix@.len(),
        ensures
            r == cell_at(self.model(), i as int, j as int),
    {
        let row = &self.matrix[i];
        if !(row.1 > j || row.2 <= j || row.0.len() == 0) && j - row.1 < row.0.len() {
            row.0[j - row.1]
        } else if j == 0 {
            TracebackCell { score: MIN_SCORE, op: AlignmentOperation::Del(None) }
        } else if j >= row.2 {
            TracebackCell { score: MIN_SCORE, op: AlignmentOperation::Ins(None) }
        } else {
            TracebackCell { score: MIN_SCORE, op: AlignmentOperation::Del(None) }
        }
    }

    /// Backtrack from the last node's cell in the last column to (0, 0).
    pub fn alignment(&self) -> (r: Alignment)
        ensures
            (r.score, r.operations@) == alignment_of(self.model(), self.last as int, self.cols as int),
    {
        let ghost rows = self.model();
        let len = self.matrix.len();
        let fuel0: u128 = 2 * (len as u128) + (self.cols as u128) + 1;
        let mut fuel: u128 = fuel0;
        let mut back: Vec<AlignmentOperation> = Vec::new();
        let mut i: usize = if self.last < len { self.last + 1 } else { len };
        let mut j: usize = self.cols;
        let ghost i0 = i as int;
        assert(i0 == self.last + 1 || i0 >= rows.len());
        proof {
            if i0 != self.last + 1 {
                assert(trace_back(rows, i0, j as int, fuel as nat) == Seq::<AlignmentOperation>::empty());
                assert(trace_back(rows, self.last + 1, j as int, fuel as nat)
                    == Seq::<AlignmentOperation>::empty());
            }
        }
        while fuel > 0 && (i > 0 || j > 0) && i < len
            invariant
                len == self.matrix@.len(),
                rows == self.model(),
                rows.len() == len,
                back@ + trace_back(rows, i as int, j as int, fuel as nat) == trace_back(
                    rows,
                    self.last + 1,
                    self.cols as int,
                    fuel0 as nat,
                ),
            decreases fuel,
        {
            let op = self.get(i, j).op;
            let next: Option<(usize, usize)> = match op {
                AlignmentOperation::Match(Some((p, _))) => if j > 0 {
                    Some((if p < len { p + 1 } else { len }, j - 1))
                } else {
                    None
                },
                AlignmentOperation::Del(Some((p, _))) => Some((if p < len { p + 1 } else { len }, j)),
                AlignmentOperation::Ins(Some(p)) => if j > 0 {
                    Some((if p < len { p + 1 } else { len }, j - 1))
                } else {
                    None
                },
                AlignmentOperation::Match(None) => if j > 0 { Some((0, j - 1)) } else { None },
                AlignmentOperation::Del(None) => if i > 0 { Some((i - 1, j)) } else { None },
                AlignmentOperation::Ins(None) => if j > 0 { Some((i, j - 1)) } else { None },
                AlignmentOperation::Xclip(r) => Some((r, j)),
                AlignmentOperation::Yclip(r, _) => Some((i, r)),
            };
            match next {
                Some((i2, j2)) => {
                    proof {
                        let (si, sj) = step_from(op, i as int, j as int).unwrap();
                        let t = trace_back(rows, si, sj, (fuel - 1) as nat);
                        assert(trace_back(rows, i as int, j as int, fuel as nat) == seq![op] + t);
                        if si != i2 {
                            assert(t == Seq::<AlignmentOperation>::empty());
                            assert(trace_back(rows, i2 as int, j2 as int, (fuel - 1) as nat)
                                == Seq::<AlignmentOperation>::empty());
                        }
                        assert(back@.push(op) + t =~= back@ + (seq![op] + t));
                    }
                    back.push(op);
                    i = i2;
                    j = j2;
                    fuel = fuel - 1;
                },
                None => {
                    assert(trace_back(rows, i as int, j as int, fuel as nat) =~= Seq::<AlignmentOperation>::empty());
                    fuel = 0;
                },
            }
        }
        assert(trace_back(rows, i as int, j as int, fuel as nat) == Seq::<AlignmentOperation>::empty());
        assert(back@ == trace_back(rows, self.last + 1, self.cols as int, fuel0 as nat));
        let mut ops: Vec<AlignmentOperation> = Vec::new();
        let mut k: usize = back.len();
        while k > 0
            invariant
                k <= back@.len(),
                ops@.len() == back@.len() - k,
                forall|t: int| 0 <= t < ops@.len() ==> ops@[t] == back@[back@.len() - 1 - t],
            decreases k,
        {
            k = k - 1;
            ops.push(back[k]);
        }
        assert(ops@ =~= reversed(back@));
        let score = if self.last < len && self.last + 1 < len {
            self.get(self.last + 1, self.cols).score
        } else {
            MIN_SCORE
        };
        Alignment { score, operations: ops }
    }
}

} // verus!
