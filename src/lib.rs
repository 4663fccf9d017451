//! Regular path homology (RPH) 2-cells of a filtered directed graph, the chain
//! map induced on them by a vertex map, and the sparse boundary matrix that a
//! persistence decomposer consumes.
//!
//! Filtration times are carried as `u64` keys whose order is the order of the
//! times; [`NEVER`] stands for a time that is never reached (+∞).
use vstd::prelude::*;

use crate::columns::GrpphatiRsColumn;
use crate::persistence::{
    anti_transpose_diagram, anti_transpose_matrix, diagram_paired, diagram_unpaired, diagram_within,
    lemma_max_column_dimension, lock_free_diagram, max_column_dimension, vec_column_dimension,
    vec_column_entries,
};
use crate::sparsifiers::{boundaries_precede, lemma_wave_sparsified_graded, RustParallelListSparsifier};
use lophat::utils::PersistenceDiagram;

pub mod columns;
pub mod compute_mapping;
pub mod homology;
pub mod persistence;
pub mod sparsifiers;
pub mod tables;

verus! {

/// A vertex of a graph: a dense index into its vertex set.
pub type NodeIndex = u32;

/// A filtration time, as an order-preserving key.
pub type FiltrationTime = u64;

/// The filtration time of what never enters the filtration (+∞).
pub const NEVER: FiltrationTime = 0xffff_ffff_ffff_ffff;

/// The decomposer does not split its work into chunks of fewer columns.
pub const MIN_CHUNK_LEN: usize = 10000;

/// The persistence diagram of a sorted basis: its sparse boundary matrix is
/// anti-transposed, decomposed by lophat's lock-free algorithm, and the pairs
/// are mapped back to positions of the basis.
pub fn sparsify_and_decompose(cols: &Vec<GrpphatiRsColumn>) -> (r: PersistenceDiagram)
    requires
        boundaries_precede(cols@),
    ensures
        diagram_within(r, cols@.len() as usize),
{
    let mut sparsifier = RustParallelListSparsifier::new(2);
    let sparse_cols = sparsifier.sparsify(cols);
    let width = sparse_cols.len();
    proof {
        lemma_wave_sparsified_graded(cols@, sparse_cols@);
    }
    let ghost sparse = sparse_cols@;
    let at = anti_transpose_matrix(sparse_cols);
    proof {
        let w = width as int;
        let top = max_column_dimension(sparse);
        assert forall|k: int, x: usize| 0 <= k < at@.len() && #[trigger] vec_column_entries(at@[k]).contains(x)
            implies (x as int) < at@.len() && vec_column_dimension(at@[x as int]) + 1 == vec_column_dimension(
            at@[k],
        ) by {
            let i = w - 1 - k;
            let j = w - 1 - x;
            assert(k == w - 1 - i);
            assert(x == (w - 1 - j) as usize);
            assert(sparse[j].1@.contains(i as usize));
            let n = choose|n: int| 0 <= n < sparse[j].1@.len() && sparse[j].1@[n] == i as usize;
            assert(sparse[sparse[j].1@[n] as int].0 + 1 == sparse[j].0);
            lemma_max_column_dimension(sparse, i);
            lemma_max_column_dimension(sparse, j);
            assert(vec_column_dimension(at@[w - 1 - i]) == top - sparse[i].0);
            assert(vec_column_dimension(at@[w - 1 - j]) == top - sparse[j].0);
        }
    }
    let diagram = lock_free_diagram(at, MIN_CHUNK_LEN);
    let r = anti_transpose_diagram(diagram, width);
    proof {
        assert forall|p: (usize, usize)| #[trigger] diagram_paired(r).contains(p)
            implies p.0 < width && p.1 < width by {
            let q = choose|q: (usize, usize)| diagram_paired(diagram).contains(q)
                && p == ((width - 1 - q.1) as usize, (width - 1 - q.0) as usize);
        }
        assert forall|x: usize| #[trigger] diagram_unpaired(r).contains(x)
            implies x < width by {
            let y = choose|y: usize| diagram_unpaired(diagram).contains(y)
                && x == (width - 1 - y) as usize;
        }
    }
    r
}

} // verus!
