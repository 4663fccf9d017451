//! The persistence decomposer: lophat's lock-free R = DV decomposition, run on
//! the anti-transpose of a sparse boundary matrix.
use vstd::prelude::*;

use lophat::algorithms::{Decomposition, DecompositionAlgo, LockFreeAlgorithm};
use lophat::columns::VecColumn;
use lophat::options::LoPhatOptions;
use lophat::utils::{anti_transpose, PersistenceDiagram};

verus! {

#[verifier::external_type_specification]
#[verifier::external_body]
pub struct ExVecColumn(VecColumn);

#[verifier::external_type_specification]
#[verifier::external_body]
pub struct ExPersistenceDiagram(PersistenceDiagram);

/// The entries of a lophat column, in its order.
pub uninterp spec fn vec_column_entries(c: VecColumn) -> Seq<usize>;

/// The dimension of a lophat column.
pub uninterp spec fn vec_column_dimension(c: VecColumn) -> usize;

/// The pairs `(birth, death)` of a persistence diagram.
pub uninterp spec fn diagram_paired(d: PersistenceDiagram) -> Set<(usize, usize)>;

/// The unpaired column positions of a persistence diagram.
pub uninterp spec fn diagram_unpaired(d: PersistenceDiagram) -> Set<usize>;

/// Every entry of every column is a column position.
pub open spec fn entries_within(m: Seq<VecColumn>) -> bool {
    forall|i: int, x: usize| 0 <= i < m.len() && #[trigger] vec_column_entries(m[i]).contains(x) ==> x < m.len()
}

/// Every column lists its entries in strictly increasing order.
pub open spec fn entries_increasing(m: Seq<VecColumn>) -> bool {
    forall|k: int, a: int, b: int|
        0 <= k < m.len() && 0 <= a < b < vec_column_entries(m[k]).len() ==> #[trigger] vec_column_entries(m[k])[a]
            < #[trigger] vec_column_entries(m[k])[b]
}

/// Each entry of a column of dimension `d` is a column of dimension `d - 1`.
pub open spec fn entries_graded(m: Seq<VecColumn>) -> bool {
    forall|k: int, x: usize|
        0 <= k < m.len() && #[trigger] vec_column_entries(m[k]).contains(x) ==> (x as int) < m.len()
            && vec_column_dimension(m[x as int]) + 1 == vec_column_dimension(m[k])
}

/// The largest dimension among the columns of a sparse matrix (0 if none).
pub open spec fn max_column_dimension(cols: Seq<(usize, Vec<usize>)>) -> usize
    decreases cols.len(),
{
    if cols.len() == 0 {
        0
    } else if cols.last().0 > max_column_dimension(cols.drop_last()) {
        cols.last().0
    } else {
        max_column_dimension(cols.drop_last())
    }
}

/// No column is of larger dimension than the largest.
pub proof fn lemma_max_column_dimension(cols: Seq<(usize, Vec<usize>)>, i: int)
    requires
        0 <= i < cols.len(),
    ensures
        cols[i].0 <= max_column_dimension(cols),
    decreases cols.len(),
{
    if i < cols.len() - 1 {
        lemma_max_column_dimension(cols.drop_last(), i);
        assert(cols.drop_last()[i] == cols[i]);
    }
}

/// Every position that the diagram mentions is below `size`.
pub open spec fn diagram_within(d: PersistenceDiagram, size: usize) -> bool {
    &&& forall|p: (usize, usize)| #[trigger] diagram_paired(d).contains(p) ==> p.0 < size && p.1 < size
    &&& forall|x: usize| #[trigger] diagram_unpaired(d).contains(x) ==> x < size
}

/// Relies on `lophat::utils::anti_transpose` (after `VecColumn::from` on each
/// column). With `w` columns and `M` the largest dimension, column `w - 1 - i`
/// of the result has dimension `M - dim(i)` and starts empty; for each column
/// `j` and each entry `i` of it, `w - 1 - j` is added to column `w - 1 - i` by
/// `add_entry`, which keeps the entries strictly increasing and removes an
/// entry that is already there. So every entry `w - 1 - j` of column
/// `w - 1 - i` comes from a column `j` that holds `i`, and when no column
/// repeats an entry that is exactly when. An input entry must be a position, or
/// the indexing panics.
#[verifier::external_body]
pub(crate) fn anti_transpose_matrix(cols: Vec<(usize, Vec<usize>)>) -> (r: Vec<VecColumn>)
    requires
        forall|j: int, n: int|
            0 <= j < cols@.len() && 0 <= n < cols@[j].1@.len() ==> (#[trigger] cols@[j].1@[n]) < cols@.len(),
    ensures
        r@.len() == cols@.len(),
        entries_within(r@),
        entries_increasing(r@),
        forall|i: int|
            0 <= i < cols@.len() ==> #[trigger] vec_column_dimension(r@[cols@.len() - 1 - i])
                == max_column_dimension(cols@) - cols@[i].0,
        forall|i: int, j: int|
            0 <= i < cols@.len() && 0 <= j < cols@.len() && #[trigger] vec_column_entries(
                r@[cols@.len() - 1 - i],
            ).contains((cols@.len() - 1 - j) as usize) ==> #[trigger] cols@[j].1@.contains(i as usize),
        (forall|j: int, n1: int, n2: int|
            0 <= j < cols@.len() && 0 <= n1 < n2 < cols@[j].1@.len() ==> #[trigger] cols@[j].1@[n1]
                != #[trigger] cols@[j].1@[n2]) ==> forall|i: int, j: int|
            0 <= i < cols@.len() && 0 <= j < cols@.len() ==> (#[trigger] vec_column_entries(
                r@[cols@.len() - 1 - i],
            ).contains((cols@.len() - 1 - j) as usize) <==> #[trigger] cols@[j].1@.contains(i as usize)),
{
    let matrix: Vec<VecColumn> = cols.into_iter().map(VecColumn::from).collect();
    anti_transpose(&matrix)
}

/// Relies on lophat's `LockFreeAlgorithm` (`init`, `add_cols`, `decompose`)
/// and `Decomposition::diagram`: pairs are `(pivot, column)` and unpaired
/// entries are columns, all positions of the matrix. The matrix must be a
/// graded boundary matrix with sorted columns: the pivot table has one slot per
/// column, column addition assumes sorted entries, and the default clearing
/// step (which empties, after each dimension, the columns that its pivots
/// name) only leaves the reduction of the next dimension undisturbed when
/// every entry of a column of dimension `d` is a column of dimension `d - 1`.
#[verifier::external_body]
pub(crate) fn lock_free_diagram(matrix: Vec<VecColumn>, min_chunk_len: usize) -> (r: PersistenceDiagram)
    requires
        entries_within(matrix@),
        entries_increasing(matrix@),
        entries_graded(matrix@),
    ensures
        diagram_within(r, matrix@.len() as usize),
{
    let mut options = LoPhatOptions::default();
    options.min_chunk_len = min_chunk_len;
    LockFreeAlgorithm::init(Some(options)).add_cols(matrix.into_iter()).decompose().diagram()
}

/// Relies on `PersistenceDiagram::anti_transpose`: each pair `(b, d)` becomes
/// `(size - 1 - d, size - 1 - b)` and each unpaired `x` becomes `size - 1 - x`.
#[verifier::external_body]
pub(crate) fn anti_transpose_diagram(d: PersistenceDiagram, size: usize) -> (r: PersistenceDiagram)
    requires
        diagram_within(d, size),
    ensures
        diagram_paired(r) == diagram_paired(d).map(
            |p: (usize, usize)| ((size - 1 - p.1) as usize, (size - 1 - p.0) as usize),
        ),
        diagram_unpaired(r) == diagram_unpaired(d).map(|x: usize| (size - 1 - x) as usize),
{
    d.anti_transpose(size)
}

} // verus!
