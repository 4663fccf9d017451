//! Sparse boundary matrices of a sorted basis: for each cell, its dimension and
//! the sorted positions of the cells of its boundary.
use vstd::multiset::Multiset;
use vstd::prelude::*;

use crate::columns::{boundary_of, dim_of, ColumnType, GrpphatiRsColumn};
use crate::tables::{
    new_node_table, new_pair_table, node_entries, node_table_get, node_table_insert, pair_entries,
    pair_table_get, pair_table_insert, NodeTable, PairTable,
};

verus! {

/// Non-decreasing.
pub open spec fn is_sorted(v: Seq<usize>) -> bool {
    forall|i: int, j: int| 0 <= i < j < v.len() ==> #[trigger] v[i] <= #[trigger] v[j]
}

/// The positions of `v`, sorted, with the same multiplicities.
fn sort_positions(v: Vec<usize>) -> (r: Vec<usize>)
    ensures
        is_sorted(r@),
        r@.to_multiset() == v@.to_multiset(),
{
    let ghost orig = v@;
    let mut rest = v;
    let mut out: Vec<usize> = Vec::new();
    proof {
        out@.to_multiset_ensures();
        assert(out@.to_multiset() =~= Multiset::empty());
        assert(out@.to_multiset().add(rest@.to_multiset()) =~= orig.to_multiset());
    }
    while rest.len() > 0
        invariant
            is_sorted(out@),
            out@.to_multiset().add(rest@.to_multiset()) == orig.to_multiset(),
            forall|p: int, q: int| 0 <= p < out@.len() && 0 <= q < rest@.len() ==> out@[p] <= rest@[q],
        decreases rest@.len(),
    {
        let mut mi: usize = 0;
        let mut k: usize = 1;
        while k < rest.len()
            invariant
                0 <= mi < rest@.len(),
                1 <= k <= rest@.len(),
                forall|q: int| 0 <= q < k ==> rest@[mi as int] <= rest@[q],
            decreases rest@.len() - k,
        {
            if rest[k] < rest[mi] {
                mi = k;
            }
            k += 1;
        }
        let ghost old_rest = rest@;
        let ghost old_out = out@;
        let x = rest.remove(mi);
        out.push(x);
        proof {
            old_rest.to_multiset_ensures();
            old_out.to_multiset_ensures();
            assert(rest@ == old_rest.remove(mi as int));
            assert(old_rest.to_multiset().count(x) > 0) by {
                assert(old_rest.contains(x)) by {
                    assert(old_rest[mi as int] == x);
                }
            }
            assert(out@.to_multiset().add(rest@.to_multiset()) =~= old_out.to_multiset().add(
                old_rest.to_multiset(),
            ));
            assert forall|p: int, q: int| 0 <= p < out@.len() && 0 <= q < rest@.len() implies out@[p]
                <= rest@[q] by {
                if q < mi {
                    assert(rest@[q] == old_rest[q]);
                } else {
                    assert(rest@[q] == old_rest[q + 1]);
                }
            }
        }
    }
    proof {
        rest@.to_multiset_ensures();
        assert(rest@.to_multiset() =~= Multiset::empty());
        assert(out@.to_multiset() =~= orig.to_multiset());
    }
    out
}

/// The last position before `upto` that holds the cell `c` (0 if none does).
pub open spec fn last_position(cols: Seq<GrpphatiRsColumn>, upto: int, c: ColumnType) -> usize
    decreases upto,
{
    if upto <= 0 {
        0
    } else if cols[upto - 1].col_type == c {
        (upto - 1) as usize
    } else {
        last_position(cols, upto - 1, c)
    }
}

/// Some position before `upto` holds the cell `c`.
pub open spec fn occurs_before(cols: Seq<GrpphatiRsColumn>, upto: int, c: ColumnType) -> bool {
    exists|j: int| 0 <= j < upto && (#[trigger] cols[j]).col_type == c
}

/// Each cell of the boundary of each cell occurs earlier in the sequence.
pub open spec fn boundaries_precede(cols: Seq<GrpphatiRsColumn>) -> bool {
    forall|i: int, n: int|
        0 <= i < cols.len() && 0 <= n < boundary_of(cols[i].col_type).len() ==> occurs_before(
            cols,
            i,
            #[trigger] boundary_of(cols[i].col_type)[n],
        )
}

/// The positions of the boundary cells of `c`, each the last before `upto`.
pub open spec fn boundary_positions(cols: Seq<GrpphatiRsColumn>, upto: int, c: ColumnType) -> Seq<usize> {
    boundary_of(c).map_values(|b: ColumnType| last_position(cols, upto, b))
}

/// `entry` is the sparse column of `c`, looking up boundary cells before `upto`.
pub open spec fn is_sparse_column(
    entry: (usize, Vec<usize>),
    cols: Seq<GrpphatiRsColumn>,
    upto: int,
    c: ColumnType,
) -> bool {
    &&& entry.0 == dim_of(c)
    &&& is_sorted(entry.1@)
    &&& entry.1@.to_multiset() == boundary_positions(cols, upto, c).to_multiset()
}

/// `out` is the sparse matrix of `cols`, each boundary cell looked up among
/// the cells before its column.
pub open spec fn is_list_sparsified(cols: Seq<GrpphatiRsColumn>, out: Seq<(usize, Vec<usize>)>) -> bool {
    &&& out.len() == cols.len()
    &&& forall|i: int| 0 <= i < cols.len() ==> is_sparse_column(#[trigger] out[i], cols, i, cols[i].col_type)
}

/// `out` is the sparse matrix of `cols` up to dimension `max_dim`, each
/// boundary cell looked up among all cells of lower dimension; a cell above
/// `max_dim` gives `(0, [])`.
pub open spec fn is_wave_sparsified(cols: Seq<GrpphatiRsColumn>, max_dim: usize, out: Seq<(usize, Vec<usize>)>) -> bool {
    &&& out.len() == cols.len()
    &&& forall|i: int|
        0 <= i < cols.len() ==> if dim_of(cols[i].col_type) <= max_dim {
            is_sparse_column(#[trigger] out[i], cols, cols.len() as int, cols[i].col_type)
        } else {
            out[i].0 == 0 && out[i].1@.len() == 0
        }
}

proof fn lemma_last_position(cols: Seq<GrpphatiRsColumn>, upto: int, c: ColumnType)
    requires
        upto <= cols.len(),
        cols.len() <= usize::MAX,
        occurs_before(cols, upto, c),
    ensures
        0 <= last_position(cols, upto, c) < upto,
        cols[last_position(cols, upto, c) as int].col_type == c,
    decreases upto,
{
    if cols[upto - 1].col_type != c {
        let j = choose|j: int| 0 <= j < upto && (#[trigger] cols[j]).col_type == c;
        assert(j < upto - 1);
        assert(occurs_before(cols, upto - 1, c));
        lemma_last_position(cols, upto - 1, c);
    }
}

/// Positions of the vertices and edges seen so far.
struct CellPositions {
    nodes: NodeTable,
    edges: PairTable,
}

impl CellPositions {
    /// The node table holds the vertices before `node_upto`, the edge table
    /// the edges before `edge_upto`, each at its last position.
    spec fn holds(&self, cols: Seq<GrpphatiRsColumn>, node_upto: int, edge_upto: int) -> bool {
        &&& forall|v: crate::NodeIndex|
            #[trigger] node_entries(self.nodes).contains_key(v) <==> occurs_before(
                cols,
                node_upto,
                ColumnType::Node(v),
            )
        &&& forall|v: crate::NodeIndex|
            #[trigger] node_entries(self.nodes).contains_key(v) ==> node_entries(self.nodes)[v]
                == last_position(cols, node_upto, ColumnType::Node(v))
        &&& forall|k: (crate::NodeIndex, crate::NodeIndex)|
            #[trigger] pair_entries(self.edges).contains_key(k) <==> occurs_before(
                cols,
                edge_upto,
                ColumnType::Edge(k.0, k.1),
            )
        &&& forall|k: (crate::NodeIndex, crate::NodeIndex)|
            #[trigger] pair_entries(self.edges).contains_key(k) ==> pair_entries(self.edges)[k]
                == last_position(cols, edge_upto, ColumnType::Edge(k.0, k.1))
    }

    fn new(Ghost(cols): Ghost<Seq<GrpphatiRsColumn>>) -> (r: CellPositions)
        ensures
            r.holds(cols, 0, 0),
    {
        CellPositions { nodes: new_node_table(), edges: new_pair_table() }
    }

    /// Enters the cell at `idx` if it is a vertex.
    fn record_node(&mut self, cols: &Vec<GrpphatiRsColumn>, idx: usize, Ghost(edge_upto): Ghost<int>)
        requires
            idx < cols@.len(),
            old(self).holds(cols@, idx as int, edge_upto),
        ensures
            final(self).holds(cols@, idx + 1, edge_upto),
            final(self).edges == old(self).edges,
    {
        let ghost old_nodes = node_entries(self.nodes);
        if let ColumnType::Node(v) = cols[idx].col_type {
            node_table_insert(&mut self.nodes, v, idx);
        }
        proof {
            assert forall|w: crate::NodeIndex| #[trigger] node_entries(self.nodes).contains_key(w) <==> occurs_before(
                cols@,
                idx + 1,
                ColumnType::Node(w),
            ) by {
                if occurs_before(cols@, idx + 1, ColumnType::Node(w)) && cols@[idx as int].col_type
                    != ColumnType::Node(w) {
                    let j = choose|j: int| 0 <= j < idx + 1 && (#[trigger] cols@[j]).col_type == ColumnType::Node(w);
                    assert(occurs_before(cols@, idx as int, ColumnType::Node(w)));
                }
                if cols@[idx as int].col_type == ColumnType::Node(w) {
                    assert(occurs_before(cols@, idx + 1, ColumnType::Node(w)));
                }
                if occurs_before(cols@, idx as int, ColumnType::Node(w)) {
                    let j = choose|j: int| 0 <= j < idx && (#[trigger] cols@[j]).col_type == ColumnType::Node(w);
                    assert(occurs_before(cols@, idx + 1, ColumnType::Node(w)));
                }
            }
        }
    }

    /// Enters the cell at `idx` if it is an edge.
    fn record_edge(&mut self, cols: &Vec<GrpphatiRsColumn>, idx: usize, Ghost(node_upto): Ghost<int>)
        requires
            idx < cols@.len(),
            old(self).holds(cols@, node_upto, idx as int),
        ensures
            final(self).holds(cols@, node_upto, idx + 1),
            final(self).nodes == old(self).nodes,
    {
        if let ColumnType::Edge(s, t) = cols[idx].col_type {
            pair_table_insert(&mut self.edges, (s, t), idx);
        }
        proof {
            assert forall|k: (crate::NodeIndex, crate::NodeIndex)| #[trigger] pair_entries(self.edges).contains_key(k)
                <==> occurs_before(cols@, idx + 1, ColumnType::Edge(k.0, k.1)) by {
                let c = ColumnType::Edge(k.0, k.1);
                if occurs_before(cols@, idx + 1, c) && cols@[idx as int].col_type != c {
                    let j = choose|j: int| 0 <= j < idx + 1 && (#[trigger] cols@[j]).col_type == c;
                    assert(occurs_before(cols@, idx as int, c));
                }
                if cols@[idx as int].col_type == c {
                    assert(occurs_before(cols@, idx + 1, c));
                }
                if occurs_before(cols@, idx as int, c) {
                    let j = choose|j: int| 0 <= j < idx && (#[trigger] cols@[j]).col_type == c;
                    assert(occurs_before(cols@, idx + 1, c));
                }
            }
        }
    }

    /// Whether the tables hold a vertex or an edge.
    fn holds_cell(&self, c: ColumnType, Ghost(cols): Ghost<Seq<GrpphatiRsColumn>>, Ghost(upto): Ghost<int>) -> (r: bool)
        requires
            self.holds(cols, upto, upto),
            match c {
                ColumnType::Node(_) => true,
                ColumnType::Edge(_, _) => true,
                _ => false,
            },
        ensures
            r == occurs_before(cols, upto, c),
    {
        match c {
            ColumnType::Node(v) => node_table_get(&self.nodes, v).is_some(),
            ColumnType::Edge(s, t) => pair_table_get(&self.edges, (s, t)).is_some(),
            _ => false,
        }
    }

    /// The position of a boundary cell: a vertex or an edge that the tables hold.
    fn lookup(&self, c: ColumnType, Ghost(cols): Ghost<Seq<GrpphatiRsColumn>>, Ghost(node_upto): Ghost<int>, Ghost(edge_upto): Ghost<int>) -> (r: usize)
        requires
            self.holds(cols, node_upto, edge_upto),
            match c {
                ColumnType::Node(_) => occurs_before(cols, node_upto, c),
                ColumnType::Edge(_, _) => occurs_before(cols, edge_upto, c),
                _ => false,
            },
        ensures
            r == match c {
                ColumnType::Node(_) => last_position(cols, node_upto, c),
                _ => last_position(cols, edge_upto, c),
            },
    {
        match c {
            ColumnType::Node(v) => {
                match node_table_get(&self.nodes, v) {
                    Some(idx) => idx,
                    None => {
                        proof {
                            assert(false);
                        }
                        0
                    },
                }
            },
            ColumnType::Edge(s, t) => {
                match pair_table_get(&self.edges, (s, t)) {
                    Some(idx) => idx,
                    None => {
                        proof {
                            assert(pair_entries(self.edges).contains_key((s, t)));
                        }
                        0
                    },
                }
            },
            _ => 0,
        }
    }

    /// The sparse column of `col`: its dimension and the sorted positions of
    /// its boundary cells.
    fn sparse_column(&self, col: &GrpphatiRsColumn, Ghost(cols): Ghost<Seq<GrpphatiRsColumn>>, Ghost(upto): Ghost<int>) -> (r: (usize, Vec<usize>))
        requires
            self.holds(cols, upto, upto),
            forall|n: int| 0 <= n < boundary_of(col.col_type).len() ==> occurs_before(
                cols,
                upto,
                #[trigger] boundary_of(col.col_type)[n],
            ),
        ensures
            is_sparse_column(r, cols, upto, col.col_type),
    {
        let bdry = col.boundary();
        let mut sparse_bdry: Vec<usize> = Vec::new();
        let mut n: usize = 0;
        while n < bdry.len()
            invariant
                self.holds(cols, upto, upto),
                forall|n: int| 0 <= n < boundary_of(col.col_type).len() ==> occurs_before(
                    cols,
                    upto,
                    #[trigger] boundary_of(col.col_type)[n],
                ),
                bdry@.len() == boundary_of(col.col_type).len(),
                forall|q: int|
                    0 <= q < bdry@.len() ==> (#[trigger] bdry@[q]).col_type == boundary_of(col.col_type)[q],
                0 <= n <= bdry@.len(),
                sparse_bdry@ == boundary_positions(cols, upto, col.col_type).take(n as int),
            decreases bdry@.len() - n,
        {
            let b = bdry[n].col_type;
            proof {
                assert(b == boundary_of(col.col_type)[n as int]);
                assert(occurs_before(cols, upto, b));
                lemma_boundary_is_cell(col.col_type, n as int);
            }
            let idx = self.lookup(b, Ghost(cols), Ghost(upto), Ghost(upto));
            sparse_bdry.push(idx);
            proof {
                assert(sparse_bdry@ =~= boundary_positions(cols, upto, col.col_type).take(n + 1));
            }
            n += 1;
        }
        proof {
            assert(sparse_bdry@ =~= boundary_positions(cols, upto, col.col_type));
        }
        (col.dimension(), sort_positions(sparse_bdry))
    }
}

/// The cells of a boundary are vertices and edges.
proof fn lemma_boundary_is_cell(c: ColumnType, n: int)
    requires
        0 <= n < boundary_of(c).len(),
    ensures
        match boundary_of(c)[n] {
            ColumnType::Node(_) => true,
            ColumnType::Edge(_, _) => true,
            _ => false,
        },
{
}

/// Sparsifies a sorted basis one cell at a time.
pub struct RustListSparsifier {}

impl RustListSparsifier {
    pub fn new() -> RustListSparsifier {
        RustListSparsifier {}
    }

    /// The sparse column of each cell, in order; each boundary cell is looked
    /// up among the cells before its column.
    pub fn sparsify(&mut self, cols: &Vec<GrpphatiRsColumn>) -> (r: Vec<(usize, Vec<usize>)>)
        requires
            boundaries_precede(cols@),
        ensures
            is_list_sparsified(cols@, r@),
    {
        let mut sparse_cols: Vec<(usize, Vec<usize>)> = Vec::new();
        let mut positions = CellPositions::new(Ghost(cols@));
        let mut i: usize = 0;
        while i < cols.len()
            invariant
                boundaries_precede(cols@),
                0 <= i <= cols@.len(),
                positions.holds(cols@, i as int, i as int),
                sparse_cols@.len() == i,
                forall|q: int| 0 <= q < i ==> is_sparse_column(#[trigger] sparse_cols@[q], cols@, q, cols@[q].col_type),
            decreases cols@.len() - i,
        {
            proof {
                assert forall|n: int| 0 <= n < boundary_of(cols@[i as int].col_type).len() implies occurs_before(
                    cols@,
                    i as int,
                    #[trigger] boundary_of(cols@[i as int].col_type)[n],
                ) by {}
            }
            let entry = positions.sparse_column(&cols[i], Ghost(cols@), Ghost(i as int));
            sparse_cols.push(entry);
            positions.record_node(cols, i, Ghost(i as int));
            positions.record_edge(cols, i, Ghost(i + 1));
            i += 1;
        }
        sparse_cols
    }
}

/// Sparsifies a sorted basis dimension by dimension, up to a largest dimension.
pub struct RustParallelListSparsifier {
    pub max_dim: usize,
}

impl RustParallelListSparsifier {
    pub fn new(max_dim: usize) -> (r: RustParallelListSparsifier)
        ensures
            r.max_dim == max_dim,
    {
        RustParallelListSparsifier { max_dim }
    }

    /// The sparse column of each cell of dimension at most `max_dim`, in
    /// order; each boundary cell is looked up among all cells of the dimension
    /// below (its last position). Cells above `max_dim` give `(0, [])`.
    pub fn sparsify(&mut self, cols: &Vec<GrpphatiRsColumn>) -> (r: Vec<(usize, Vec<usize>)>)
        requires
            boundaries_precede(cols@),
        ensures
            is_wave_sparsified(cols@, old(self).max_dim, r@),
            final(self).max_dim == old(self).max_dim,
    {
        let mut sparse_cols: Vec<(usize, Vec<usize>)> = Vec::new();
        let mut i: usize = 0;
        while i < cols.len()
            invariant
                0 <= i <= cols@.len(),
                sparse_cols@.len() == i,
                forall|q: int| 0 <= q < i ==> (#[trigger] sparse_cols@[q]).0 == 0 && sparse_cols@[q].1@.len() == 0,
            decreases cols@.len() - i,
        {
            sparse_cols.push((0, Vec::new()));
            i += 1;
        }
        let ghost len = cols@.len() as int;
        let mut positions = CellPositions::new(Ghost(cols@));
        let mut working_dim: usize = 0;
        while working_dim <= self.max_dim && working_dim <= 2
            invariant
                boundaries_precede(cols@),
                len == cols@.len(),
                sparse_cols@.len() == len,
                0 <= working_dim <= 3,
                working_dim <= self.max_dim + 1,
                working_dim <= self.max_dim ==> positions.holds(
                    cols@,
                    if working_dim >= 1 { len } else { 0 },
                    if working_dim >= 2 { len } else { 0 },
                ),
                forall|q: int|
                    0 <= q < len ==> if dim_of(cols@[q].col_type) < working_dim {
                        is_sparse_column(#[trigger] sparse_cols@[q], cols@, len, cols@[q].col_type)
                    } else {
                        sparse_cols@[q].0 == 0 && sparse_cols@[q].1@.len() == 0
                    },
            decreases 3 - working_dim,
        {
            let ghost upto = if working_dim >= 1 { len } else { 0 };
            let ghost edge_upto = if working_dim >= 2 { len } else { 0 };
            let mut i: usize = 0;
            while i < cols.len()
                invariant
                    boundaries_precede(cols@),
                    len == cols@.len(),
                    sparse_cols@.len() == len,
                    0 <= working_dim <= 2,
                    upto == if working_dim >= 1 { len } else { 0 },
                    edge_upto == if working_dim >= 2 { len } else { 0 },
                    positions.holds(cols@, upto, edge_upto),
                    0 <= i <= len,
                    forall|q: int|
                        0 <= q < len ==> if dim_of(cols@[q].col_type) < working_dim || (dim_of(cols@[q].col_type)
                            == working_dim && q < i) {
                            is_sparse_column(#[trigger] sparse_cols@[q], cols@, len, cols@[q].col_type)
                        } else {
                            sparse_cols@[q].0 == 0 && sparse_cols@[q].1@.len() == 0
                        },
                decreases len - i,
            {
                if cols[i].dimension() == working_dim {
                    let entry = self.wave_column(&positions, &cols[i], Ghost(cols@), Ghost(i as int), Ghost(upto), Ghost(edge_upto));
                    sparse_cols.set(i, entry);
                }
                i += 1;
            }
            if working_dim < self.max_dim {
                let mut i: usize = 0;
                while i < cols.len()
                    invariant
                        len == cols@.len(),
                        0 <= working_dim <= 2,
                        0 <= i <= len,
                        working_dim == 0 ==> positions.holds(cols@, i as int, 0),
                        working_dim == 1 ==> positions.holds(cols@, len, i as int),
                        working_dim == 2 ==> positions.holds(cols@, len, len),
                    decreases len - i,
                {
                    if working_dim == 0 {
                        positions.record_node(cols, i, Ghost(0));
                    } else if working_dim == 1 {
                        positions.record_edge(cols, i, Ghost(len));
                    }
                    i += 1;
                }
            }
            working_dim += 1;
        }
        sparse_cols
    }

    /// The sparse column of a cell in its dimension's wave.
    fn wave_column(
        &self,
        positions: &CellPositions,
        col: &GrpphatiRsColumn,
        Ghost(cols): Ghost<Seq<GrpphatiRsColumn>>,
        Ghost(i): Ghost<int>,
        Ghost(upto): Ghost<int>,
        Ghost(edge_upto): Ghost<int>,
    ) -> (r: (usize, Vec<usize>))
        requires
            boundaries_precede(cols),
            0 <= i < cols.len(),
            *col == cols[i],
            positions.holds(cols, upto, edge_upto),
            dim_of(col.col_type) >= 1 ==> upto == cols.len(),
            dim_of(col.col_type) >= 2 ==> edge_upto == cols.len(),
        ensures
            is_sparse_column(r, cols, cols.len() as int, col.col_type),
    {
        let bdry = col.boundary();
        let mut sparse_bdry: Vec<usize> = Vec::new();
        let mut n: usize = 0;
        while n < bdry.len()
            invariant
                boundaries_precede(cols),
                0 <= i < cols.len(),
                *col == cols[i],
                positions.holds(cols, upto, edge_upto),
                dim_of(col.col_type) >= 1 ==> upto == cols.len(),
                dim_of(col.col_type) >= 2 ==> edge_upto == cols.len(),
                bdry@.len() == boundary_of(col.col_type).len(),
                forall|q: int|
                    0 <= q < bdry@.len() ==> (#[trigger] bdry@[q]).col_type == boundary_of(col.col_type)[q],
                0 <= n <= bdry@.len(),
                sparse_bdry@ == boundary_positions(cols, cols.len() as int, col.col_type).take(n as int),
            decreases bdry@.len() - n,
        {
            let b = bdry[n].col_type;
            proof {
                assert(b == boundary_of(cols[i].col_type)[n as int]);
                assert(occurs_before(cols, i, b));
                let j = choose|j: int| 0 <= j < i && (#[trigger] cols[j]).col_type == b;
                assert(occurs_before(cols, cols.len() as int, b));
                lemma_boundary_is_cell(col.col_type, n as int);
            }
            let idx = positions.lookup(b, Ghost(cols), Ghost(upto), Ghost(edge_upto));
            sparse_bdry.push(idx);
            proof {
                assert(sparse_bdry@ =~= boundary_positions(cols, cols.len() as int, col.col_type).take(n + 1));
            }
            n += 1;
        }
        proof {
            assert(sparse_bdry@ =~= boundary_positions(cols, cols.len() as int, col.col_type));
        }
        (col.dimension(), sort_positions(sparse_bdry))
    }
}

/// Sparsifies a sorted basis one cell per call.
pub struct RustIteratorSparsifier {
    col2idx_map: CellPositions,
    current_idx: usize,
    cols: Vec<GrpphatiRsColumn>,
}

impl RustIteratorSparsifier {
    pub closed spec fn wf(&self) -> bool {
        &&& self.current_idx <= self.cols@.len()
        &&& boundaries_precede(self.cols@)
        &&& self.col2idx_map.holds(self.cols@, self.current_idx as int, self.current_idx as int)
    }

    /// The cells being sparsified.
    pub closed spec fn columns(&self) -> Seq<GrpphatiRsColumn> {
        self.cols@
    }

    /// How many cells have been handed out.
    pub closed spec fn position(&self) -> int {
        self.current_idx as int
    }

    pub fn new(cols: Vec<GrpphatiRsColumn>) -> (r: RustIteratorSparsifier)
        requires
            boundaries_precede(cols@),
        ensures
            r.wf(),
            r.columns() == cols@,
            r.position() == 0,
    {
        RustIteratorSparsifier {
            col2idx_map: CellPositions::new(Ghost(cols@)),
            current_idx: 0,
            cols,
        }
    }

    /// The sparse column of the next cell, each boundary cell looked up among
    /// the cells before it; `None` once every cell has been handed out.
    pub fn get_next(&mut self) -> (r: Option<(usize, Vec<usize>)>)
        requires
            old(self).wf(),
        ensures
            final(self).wf(),
            final(self).columns() == old(self).columns(),
            old(self).position() < old(self).columns().len() ==> r is Some && is_sparse_column(
                r->Some_0,
                old(self).columns(),
                old(self).position(),
                old(self).columns()[old(self).position()].col_type,
            ) && final(self).position() == old(self).position() + 1,
            old(self).position() >= old(self).columns().len() ==> r is None && final(self).position()
                == old(self).position(),
    {
        if self.current_idx >= self.cols.len() {
            return None;
        }
        let i = self.current_idx;
        proof {
            assert forall|n: int| 0 <= n < boundary_of(self.cols@[i as int].col_type).len() implies occurs_before(
                self.cols@,
                i as int,
                #[trigger] boundary_of(self.cols@[i as int].col_type)[n],
            ) by {}
        }
        let entry = self.col2idx_map.sparse_column(&self.cols[i], Ghost(self.cols@), Ghost(i as int));
        self.col2idx_map.record_node(&self.cols, i, Ghost(i as int));
        self.col2idx_map.record_edge(&self.cols, i, Ghost(i + 1));
        self.current_idx = i + 1;
        Some(entry)
    }
}

/// Each entry of a sparse column is the position of one of the cell's
/// boundary cells.
proof fn lemma_sparse_entry_source(
    entry: (usize, Vec<usize>),
    cols: Seq<GrpphatiRsColumn>,
    upto: int,
    c: ColumnType,
    n: int,
) -> (m: int)
    requires
        is_sparse_column(entry, cols, upto, c),
        0 <= n < entry.1@.len(),
    ensures
        0 <= m < boundary_of(c).len(),
        entry.1@[n] == last_position(cols, upto, boundary_of(c)[m]),
{
    let x = entry.1@[n];
    let bp = boundary_positions(cols, upto, c);
    entry.1@.to_multiset_ensures();
    bp.to_multiset_ensures();
    assert(entry.1@.contains(x));
    assert(entry.1@.to_multiset().count(x) > 0);
    assert(bp.to_multiset().count(x) > 0);
    assert(bp.contains(x));
    choose|m: int| 0 <= m < bp.len() && bp[m] == x
}

/// Each boundary position in a sparsified basis is below the position of its
/// own column.
pub proof fn lemma_sparsifier_order(cols: Seq<GrpphatiRsColumn>, out: Seq<(usize, Vec<usize>)>)
    requires
        cols.len() <= usize::MAX,
        boundaries_precede(cols),
        is_list_sparsified(cols, out),
    ensures
        forall|i: int, n: int| 0 <= i < cols.len() && 0 <= n < out[i].1@.len() ==> (#[trigger] out[i].1@[n]) < i,
{
    assert forall|i: int, n: int| 0 <= i < cols.len() && 0 <= n < out[i].1@.len() implies (
    #[trigger] out[i].1@[n]) < i by {
        assert(is_sparse_column(out[i], cols, i, cols[i].col_type));
        let m = lemma_sparse_entry_source(out[i], cols, i, cols[i].col_type, n);
        let b = boundary_of(cols[i].col_type)[m];
        assert(occurs_before(cols, i, b));
        lemma_last_position(cols, i, b);
    }
}

/// A sparse matrix built by dimension waves up to dimension 2 is graded: each
/// entry of a column is a position of the basis whose column has dimension one
/// less.
pub proof fn lemma_wave_sparsified_graded(cols: Seq<GrpphatiRsColumn>, out: Seq<(usize, Vec<usize>)>)
    requires
        cols.len() <= usize::MAX,
        boundaries_precede(cols),
        is_wave_sparsified(cols, 2, out),
    ensures
        forall|i: int, n: int|
            0 <= i < out.len() && 0 <= n < out[i].1@.len() ==> (#[trigger] out[i].1@[n]) < cols.len()
                && out[out[i].1@[n] as int].0 + 1 == out[i].0,
{
    assert forall|i: int, n: int| 0 <= i < out.len() && 0 <= n < out[i].1@.len() implies (
    #[trigger] out[i].1@[n]) < cols.len() && out[out[i].1@[n] as int].0 + 1 == out[i].0 by {
        let len = cols.len() as int;
        assert(dim_of(cols[i].col_type) <= 2);
        assert(is_sparse_column(out[i], cols, len, cols[i].col_type));
        let m = lemma_sparse_entry_source(out[i], cols, len, cols[i].col_type, n);
        let b = boundary_of(cols[i].col_type)[m];
        assert(occurs_before(cols, i, b));
        let j = choose|j: int| 0 <= j < i && (#[trigger] cols[j]).col_type == b;
        assert(occurs_before(cols, len, b));
        lemma_last_position(cols, len, b);
        let x = last_position(cols, len, b) as int;
        crate::columns::lemma_boundary_dimension(cols[i].col_type);
        assert(dim_of(cols[x].col_type) <= 2);
        assert(is_sparse_column(out[x], cols, len, cols[x].col_type));
    }
}

/// Whether each cell of the boundary of each cell occurs earlier in `cols`:
/// what the sparsifiers ask of their input.
pub fn check_boundaries_precede(cols: &Vec<GrpphatiRsColumn>) -> (r: bool)
    ensures
        r == boundaries_precede(cols@),
{
    let mut positions = CellPositions::new(Ghost(cols@));
    let mut i: usize = 0;
    while i < cols.len()
        invariant
            0 <= i <= cols@.len(),
            positions.holds(cols@, i as int, i as int),
            forall|q: int, n: int|
                0 <= q < i && 0 <= n < boundary_of(cols@[q].col_type).len() ==> occurs_before(
                    cols@,
                    q,
                    #[trigger] boundary_of(cols@[q].col_type)[n],
                ),
        decreases cols@.len() - i,
    {
        let bdry = cols[i].boundary();
        let mut n: usize = 0;
        while n < bdry.len()
            invariant
                0 <= i < cols@.len(),
                positions.holds(cols@, i as int, i as int),
                bdry@.len() == boundary_of(cols@[i as int].col_type).len(),
                forall|q: int|
                    0 <= q < bdry@.len() ==> (#[trigger] bdry@[q]).col_type == boundary_of(cols@[i as int].col_type)[q],
                0 <= n <= bdry@.len(),
                forall|m: int| 0 <= m < n ==> occurs_before(cols@, i as int, #[trigger] boundary_of(cols@[i as int].col_type)[m]),
            decreases bdry@.len() - n,
        {
            proof {
                lemma_boundary_is_cell(cols@[i as int].col_type, n as int);
            }
            if !positions.holds_cell(bdry[n].col_type, Ghost(cols@), Ghost(i as int)) {
                proof {
                    assert(!occurs_before(cols@, i as int, boundary_of(cols@[i as int].col_type)[n as int]));
                }
                return false;
            }
            n += 1;
        }
        positions.record_node(cols, i, Ghost(i as int));
        positions.record_edge(cols, i, Ghost(i + 1));
        proof {
            assert forall|q: int, n: int|
                0 <= q < i + 1 && 0 <= n < boundary_of(cols@[q].col_type).len() implies occurs_before(
                    cols@,
                    q,
                    #[trigger] boundary_of(cols@[q].col_type)[n],
                ) by {}
        }
        i += 1;
    }
    true
}

/// In a basis where no cell occurs twice, each boundary position of the sparse
/// matrix built by dimension waves is below the position of its own column.
pub proof fn lemma_wave_sparsifier_order(cols: Seq<GrpphatiRsColumn>, max_dim: usize, out: Seq<(usize, Vec<usize>)>)
    requires
        cols.len() <= usize::MAX,
        boundaries_precede(cols),
        forall|i: int, j: int| 0 <= i < j < cols.len() ==> (#[trigger] cols[i]).col_type != (#[trigger] cols[j]).col_type,
        is_wave_sparsified(cols, max_dim, out),
    ensures
        forall|i: int, n: int| 0 <= i < cols.len() && 0 <= n < out[i].1@.len() ==> (#[trigger] out[i].1@[n]) < i,
{
    assert forall|i: int, n: int| 0 <= i < cols.len() && 0 <= n < out[i].1@.len() implies (
    #[trigger] out[i].1@[n]) < i by {
        let len = cols.len() as int;
        assert(dim_of(cols[i].col_type) <= max_dim);
        assert(is_sparse_column(out[i], cols, len, cols[i].col_type));
        let m = lemma_sparse_entry_source(out[i], cols, len, cols[i].col_type, n);
        let b = boundary_of(cols[i].col_type)[m];
        assert(occurs_before(cols, i, b));
        let j = choose|j: int| 0 <= j < i && (#[trigger] cols[j]).col_type == b;
        assert(occurs_before(cols, len, b));
        lemma_last_position(cols, len, b);
        let lp = last_position(cols, len, b) as int;
        if lp != j {
            if lp < j {
                assert(cols[lp].col_type != cols[j].col_type);
            } else {
                assert(cols[j].col_type != cols[lp].col_type);
            }
        }
    }
}

/// Two sorted sequences with the same multiset are equal.
proof fn lemma_sorted_same_multiset_equal(a: Seq<usize>, b: Seq<usize>)
    requires
        is_sorted(a),
        is_sorted(b),
        a.to_multiset() == b.to_multiset(),
    ensures
        a == b,
    decreases a.len(),
{
    a.to_multiset_ensures();
    b.to_multiset_ensures();
    if a.len() == 0 {
        assert(a =~= b);
    } else {
        assert(a.contains(a[0]));
        assert(a.to_multiset().count(a[0]) > 0);
        assert(b.to_multiset().count(a[0]) > 0);
        assert(b.contains(a[0]));
        assert(b.contains(b[0]));
        assert(b.to_multiset().count(b[0]) > 0);
        assert(a.to_multiset().count(b[0]) > 0);
        assert(a.contains(b[0]));
        let j = choose|j: int| 0 <= j < b.len() && b[j] == a[0];
        let i = choose|i: int| 0 <= i < a.len() && a[i] == b[0];
        if j > 0 {
            assert(b[0] <= b[j]);
        }
        if i > 0 {
            assert(a[0] <= a[i]);
        }
        assert(a[0] == b[0]);
        let ta = a.drop_first();
        let tb = b.drop_first();
        assert(a.remove(0) =~= ta);
        assert(b.remove(0) =~= tb);
        assert(ta.to_multiset() == tb.to_multiset());
        assert(is_sorted(ta)) by {
            assert forall|x: int, y: int| 0 <= x < y < ta.len() implies #[trigger] ta[x] <= #[trigger] ta[y] by {
                assert(ta[x] == a[x + 1] && ta[y] == a[y + 1]);
            }
        }
        assert(is_sorted(tb)) by {
            assert forall|x: int, y: int| 0 <= x < y < tb.len() implies #[trigger] tb[x] <= #[trigger] tb[y] by {
                assert(tb[x] == b[x + 1] && tb[y] == b[y + 1]);
            }
        }
        lemma_sorted_same_multiset_equal(ta, tb);
        assert(a =~= b) by {
            assert forall|x: int| 0 <= x < a.len() implies a[x] == b[x] by {
                if x > 0 {
                    assert(a[x] == ta[x - 1] && b[x] == tb[x - 1]);
                }
            }
        }
    }
}

/// Two sparse matrices built by dimension waves from the same basis and the
/// same largest dimension are the same.
pub proof fn lemma_wave_sparsifier_deterministic(
    cols: Seq<GrpphatiRsColumn>,
    max_dim: usize,
    r1: Seq<(usize, Vec<usize>)>,
    r2: Seq<(usize, Vec<usize>)>,
)
    requires
        is_wave_sparsified(cols, max_dim, r1),
        is_wave_sparsified(cols, max_dim, r2),
    ensures
        r1.len() == r2.len(),
        forall|i: int| 0 <= i < r1.len() ==> (#[trigger] r1[i]).0 == r2[i].0 && r1[i].1@ == r2[i].1@,
{
    assert forall|i: int| 0 <= i < r1.len() implies (#[trigger] r1[i]).0 == r2[i].0 && r1[i].1@ == r2[i].1@ by {
        if dim_of(cols[i].col_type) <= max_dim {
            lemma_sorted_same_multiset_equal(r1[i].1@, r2[i].1@);
        } else {
            assert(r1[i].1@ =~= r2[i].1@);
        }
    }
}

/// Two sparse matrices built one cell at a time from the same basis are the
/// same.
pub proof fn lemma_list_sparsifier_deterministic(
    cols: Seq<GrpphatiRsColumn>,
    r1: Seq<(usize, Vec<usize>)>,
    r2: Seq<(usize, Vec<usize>)>,
)
    requires
        is_list_sparsified(cols, r1),
        is_list_sparsified(cols, r2),
    ensures
        r1.len() == r2.len(),
        forall|i: int| 0 <= i < r1.len() ==> (#[trigger] r1[i]).0 == r2[i].0 && r1[i].1@ == r2[i].1@,
{
    assert forall|i: int| 0 <= i < r1.len() implies (#[trigger] r1[i]).0 == r2[i].0 && r1[i].1@ == r2[i].1@ by {
        assert(is_sparse_column(r1[i], cols, i, cols[i].col_type));
        assert(is_sparse_column(r2[i], cols, i, cols[i].col_type));
        lemma_sorted_same_multiset_equal(r1[i].1@, r2[i].1@);
    }
}

} // verus!
