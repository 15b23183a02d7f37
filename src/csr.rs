//! Compressed sparse-row patterns and the 1-hop adjacency they induce.
use vstd::prelude::*;

verus! {

/// Why an input pattern was refused.
#[derive(Debug, Clone, Copy, PartialEq, Eq, Structural)]
pub enum ArgumentProblem {
    /// `row_ptr` does not hold `n_dofs + 1` offsets.
    RowPtrLength,
    /// Some row's offsets are negative, decreasing, or past the end of `col_idx`.
    RowOffsets,
    /// Some column index lies outside `[0, n_dofs)`.
    ColumnIndex,
}

/// The one error kind of the coloring entry point.
#[derive(Debug, Clone, Copy, PartialEq, Eq, Structural)]
pub enum ColoringError {
    InvalidArgument(ArgumentProblem),
}

/// Row `i` spans a valid, non-decreasing range of `col_idx`.
pub open spec fn row_range_ok(row_ptr: Seq<i64>, n_cols: int, i: int) -> bool {
    0 <= row_ptr[i] && row_ptr[i] <= row_ptr[i + 1] && row_ptr[i + 1] <= n_cols
}

/// Every row's offsets are valid.
pub open spec fn offsets_ok(row_ptr: Seq<i64>, n_cols: int, n: nat) -> bool {
    forall|i: int| 0 <= i < n ==> #[trigger] row_range_ok(row_ptr, n_cols, i)
}

/// Every column index names a DOF.
pub open spec fn columns_ok(col_idx: Seq<i64>, n: nat) -> bool {
    forall|k: int| 0 <= k < col_idx.len() ==> 0 <= #[trigger] col_idx[k] < n
}

/// A pattern the coloring accepts.
pub open spec fn csr_valid(row_ptr: Seq<i64>, col_idx: Seq<i64>, n: nat) -> bool {
    &&& row_ptr.len() == n + 1
    &&& offsets_ok(row_ptr, col_idx.len() as int, n)
    &&& columns_ok(col_idx, n)
}

/// The error a pattern gets, checked in this order.
pub open spec fn csr_problem(row_ptr: Seq<i64>, col_idx: Seq<i64>, n: nat) -> Option<ArgumentProblem> {
    if row_ptr.len() != n + 1 {
        Some(ArgumentProblem::RowPtrLength)
    } else if !offsets_ok(row_ptr, col_idx.len() as int, n) {
        Some(ArgumentProblem::RowOffsets)
    } else if !columns_ok(col_idx, n) {
        Some(ArgumentProblem::ColumnIndex)
    } else {
        None
    }
}

/// The columns of row `i`, in their stored order.
pub open spec fn row_columns(row_ptr: Seq<i64>, col_idx: Seq<i64>, i: int) -> Seq<usize> {
    col_idx.subrange(row_ptr[i] as int, row_ptr[i + 1] as int).map_values(|c: i64| c as usize)
}

/// The 1-hop adjacency of a pattern: row `i` lists the columns of row `i`.
pub open spec fn csr_adjacency(row_ptr: Seq<i64>, col_idx: Seq<i64>, n: nat) -> Seq<Seq<usize>> {
    Seq::new(n, |i: int| row_columns(row_ptr, col_idx, i))
}

/// The contents of a list of index lists.
pub open spec fn lists_view(v: Seq<Vec<usize>>) -> Seq<Seq<usize>> {
    v.map_values(|r: Vec<usize>| r@)
}

/// Every listed neighbour is a DOF.
pub open spec fn adjacency_in_range(adj: Seq<Seq<usize>>) -> bool {
    forall|a: int, p: int|
        0 <= a < adj.len() && 0 <= p < adj[a].len() ==> (#[trigger] adj[a][p] as int) < adj.len()
}

pub proof fn lemma_csr_adjacency_in_range(row_ptr: Seq<i64>, col_idx: Seq<i64>, n: nat)
    requires
        csr_valid(row_ptr, col_idx, n),
    ensures
        adjacency_in_range(csr_adjacency(row_ptr, col_idx, n)),
{
    let adj = csr_adjacency(row_ptr, col_idx, n);
    assert forall|a: int, p: int| 0 <= a < adj.len() && 0 <= p < adj[a].len() implies (
    #[trigger] adj[a][p] as int) < adj.len() by {
        assert(0 <= a < n);
        assert(row_range_ok(row_ptr, col_idx.len() as int, a));
        assert(adj[a] == row_columns(row_ptr, col_idx, a));
        assert(0 <= row_ptr[a] + p < col_idx.len());
        assert(0 <= col_idx[row_ptr[a] + p] < n);
    }
}

/// Checks the pattern and returns the first problem found, if any.
pub fn check_csr(row_ptr: &Vec<i64>, col_idx: &Vec<i64>, n_dofs: usize) -> (r: Result<(), ColoringError>)
    ensures
        r == (match csr_problem(row_ptr@, col_idx@, n_dofs as nat) {
            Some(p) => Err(ColoringError::InvalidArgument(p)),
            None => Ok(()),
        }),
        r is Ok ==> n_dofs < usize::MAX,
{
    let n_offsets = row_ptr.len();
    if n_dofs == usize::MAX || n_offsets != n_dofs + 1 {
        return Err(ColoringError::InvalidArgument(ArgumentProblem::RowPtrLength));
    }
    let n_cols = col_idx.len();
    for i in 0..n_dofs
        invariant
            row_ptr@.len() == n_dofs + 1,
            n_cols == col_idx@.len(),
            forall|j: int| 0 <= j < i ==> #[trigger] row_range_ok(row_ptr@, n_cols as int, j),
    {
        let lo = row_ptr[i];
        let hi = row_ptr[i + 1];
        if lo < 0 || lo > hi || hi as u64 > n_cols as u64 {
            assert(!row_range_ok(row_ptr@, n_cols as int, i as int));
            return Err(ColoringError::InvalidArgument(ArgumentProblem::RowOffsets));
        }
    }
    for k in 0..n_cols
        invariant
            n_cols == col_idx@.len(),
            row_ptr@.len() == n_dofs + 1,
            offsets_ok(row_ptr@, n_cols as int, n_dofs as nat),
            forall|j: int| 0 <= j < k ==> 0 <= #[trigger] col_idx@[j] < n_dofs,
    {
        let c = col_idx[k];
        if c < 0 || c as u64 >= n_dofs as u64 {
            return Err(ColoringError::InvalidArgument(ArgumentProblem::ColumnIndex));
        }
    }
    Ok(())
}

/// Checks the pattern and lists, for each DOF, the columns of its row in
/// their stored order (duplicates kept).
pub fn build_adjacency(row_ptr: &Vec<i64>, col_idx: &Vec<i64>, n_dofs: usize) -> (r: Result<
    Vec<Vec<usize>>,
    ColoringError,
>)
    ensures
        match csr_problem(row_ptr@, col_idx@, n_dofs as nat) {
            Some(p) => r == Err::<Vec<Vec<usize>>, ColoringError>(ColoringError::InvalidArgument(p)),
            None => r is Ok && lists_view(r->Ok_0@) == csr_adjacency(row_ptr@, col_idx@, n_dofs as nat),
        },
        r is Ok ==> n_dofs < usize::MAX,
{
    check_csr(row_ptr, col_idx, n_dofs)?;
    let ghost adj = csr_adjacency(row_ptr@, col_idx@, n_dofs as nat);
    let n_cols = col_idx.len();
    let mut adjacency: Vec<Vec<usize>> = Vec::new();
    for i in 0..n_dofs
        invariant
            n_cols == col_idx@.len(),
            csr_valid(row_ptr@, col_idx@, n_dofs as nat),
            adj == csr_adjacency(row_ptr@, col_idx@, n_dofs as nat),
            adjacency@.len() == i,
            forall|j: int| 0 <= j < i ==> (#[trigger] adjacency@[j])@ == adj[j],
    {
        assert(row_range_ok(row_ptr@, col_idx@.len() as int, i as int));
        let start = row_ptr[i] as usize;
        let end = row_ptr[i + 1] as usize;
        let mut row: Vec<usize> = Vec::new();
        for k in start..end
            invariant
                csr_valid(row_ptr@, col_idx@, n_dofs as nat),
                start <= end <= col_idx@.len(),
                row@ == col_idx@.subrange(start as int, k as int).map_values(|c: i64| c as usize),
        {
            assert(0 <= col_idx@[k as int] < n_dofs);
            row.push(col_idx[k] as usize);
            assert(col_idx@.subrange(start as int, k + 1).map_values(|c: i64| c as usize)
                =~= col_idx@.subrange(start as int, k as int).map_values(|c: i64| c as usize).push(
                col_idx@[k as int] as usize));
        }
        assert(row@ == adj[i as int]);
        let ghost before = adjacency@;
        adjacency.push(row);
        assert(adjacency@ == before.push(row));

    }
    assert(lists_view(adjacency@) =~= adj);
    Ok(adjacency)
}

} // verus!
