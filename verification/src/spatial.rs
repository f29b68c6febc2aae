//! Buckets of the spatial grid that finds stops near a point.
//!
//! The grid's geometry works in floating point and lives with its callers;
//! this module holds the integer part: where in the grid's buffer the stops
//! of a cell lie.

use vstd::prelude::*;

verus! {

/// The stops of one grid cell: `count` entries of the grid's buffer from `start` on.
#[derive(Debug, Clone, Copy, PartialEq, Eq, Structural)]
pub struct CellSlice {
    pub start: u32,
    pub count: u32,
}

impl CellSlice {
    pub fn new(start: u32, count: u32) -> (r: CellSlice)
        ensures
            r == (CellSlice { start, count }),
    {
        CellSlice { start, count }
    }

    /// The buffer positions of the cell's stops.
    pub fn range(self) -> (r: core::ops::Range<usize>)
        requires
            self.start + self.count <= usize::MAX,
        ensures
            r.start == self.start,
            r.end == self.start + self.count,
    {
        let start = self.start as usize;
        let end = start + self.count as usize;
        start..end
    }
}

/// The positions, in order, among the first `k` of `cells` whose cell is `c`.
pub open spec fn members(cells: Seq<usize>, c: int, k: int) -> Seq<usize>
    decreases k,
{
    if k <= 0 {
        Seq::empty()
    } else if cells[k - 1] == c {
        members(cells, c, k - 1).push((k - 1) as usize)
    } else {
        members(cells, c, k - 1)
    }
}

/// The positions of `cells`, cell by cell for the first `m` cells, each
/// cell's in their order.
pub open spec fn bucketed(cells: Seq<usize>, m: int) -> Seq<usize>
    decreases m,
{
    if m <= 0 {
        Seq::empty()
    } else {
        bucketed(cells, m - 1) + members(cells, m - 1, cells.len() as int)
    }
}

/// Where the positions of cell `c` lie in [`bucketed`]: none for an empty
/// cell.
pub open spec fn cell_slice(cells: Seq<usize>, c: int) -> Option<CellSlice> {
    let count = members(cells, c, cells.len() as int).len();
    if count == 0 {
        None
    } else {
        Some(CellSlice { start: bucketed(cells, c).len() as u32, count: count as u32 })
    }
}

/// Groups positions by cell: `cell_of[i]` is the cell of position `i`, one
/// of `n_cells`. Returns each cell's slice of the buffer (`None` for a cell
/// with no position) and the buffer: the positions of the first cell, then
/// of the second, and so on, each cell's in increasing order.
pub fn bucket_by_cell(cell_of: &Vec<usize>, n_cells: usize) -> (r: (Vec<Option<CellSlice>>, Vec<usize>))
    requires
        forall|i: int| 0 <= i < cell_of@.len() ==> #[trigger] cell_of@[i] < n_cells,
    ensures
        r.1@ == bucketed(cell_of@, n_cells as int),
        r.0@.len() == n_cells,
        forall|c: int| 0 <= c < n_cells ==> #[trigger] r.0@[c] == cell_slice(cell_of@, c),
{
    let n = cell_of.len();
    let mut lists: Vec<Vec<usize>> = Vec::new();
    let mut c: usize = 0;
    while c < n_cells
        invariant
            c <= n_cells,
            lists@.len() == c,
            forall|j: int| 0 <= j < c ==> (#[trigger] lists@[j])@ == Seq::<usize>::empty(),
        decreases n_cells - c,
    {
        lists.push(Vec::new());
        c += 1;
    }
    let mut i: usize = 0;
    while i < n
        invariant
            n == cell_of@.len(),
            i <= n,
            lists@.len() == n_cells,
            forall|k: int| 0 <= k < cell_of@.len() ==> #[trigger] cell_of@[k] < n_cells,
            forall|j: int| 0 <= j < n_cells ==> (#[trigger] lists@[j])@ == members(cell_of@, j, i as int),
        decreases n - i,
    {
        let cell = cell_of[i];
        lists[cell].push(i);
        i += 1;
    }
    let mut cells: Vec<Option<CellSlice>> = Vec::new();
    let mut buffer: Vec<usize> = Vec::new();
    let mut c: usize = 0;
    while c < n_cells
        invariant
            n == cell_of@.len(),
            c <= n_cells,
            lists@.len() == n_cells,
            forall|j: int| 0 <= j < n_cells ==> (#[trigger] lists@[j])@ == members(cell_of@, j, n as int),
            buffer@ == bucketed(cell_of@, c as int),
            cells@.len() == c,
            forall|j: int| 0 <= j < c ==> #[trigger] cells@[j] == cell_slice(cell_of@, j),
        decreases n_cells - c,
    {
        let count = lists[c].len();
        if count == 0 {
            cells.push(None);
        } else {
            cells.push(Some(CellSlice::new(buffer.len() as u32, count as u32)));
        }
        let mut k: usize = 0;
        let ghost before = buffer@;
        while k < count
            invariant
                c < n_cells,
                lists@.len() == n_cells,
                count == lists@[c as int]@.len(),
                k <= count,
                buffer@ == before + lists@[c as int]@.subrange(0, k as int),
            decreases count - k,
        {
            buffer.push(lists[c][k]);
            k += 1;
            proof {
                assert(buffer@ =~= before + lists@[c as int]@.subrange(0, k as int));
            }
        }
        proof {
            assert(lists@[c as int]@.subrange(0, count as int) =~= lists@[c as int]@);
        }
        c += 1;
    }
    (cells, buffer)
}

} // verus!
