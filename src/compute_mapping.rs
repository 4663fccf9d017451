//! The chain map induced on RPH bases by a vertex map.
use vstd::prelude::*;

use crate::columns::{ColumnType, GrpphatiError, GrpphatiRsColumn};
use crate::tables::{
    new_node_table, new_pair_table, new_triple_table, node_entries, node_table_get, node_table_insert,
    pair_entries, pair_table_get, pair_table_insert, triple_entries, triple_table_get,
    triple_table_insert, NodeTable, PairTable, TripleTable,
};
use crate::homology::{
    etime, is_base, is_bridge, is_rph_basis_of, is_rph_cell, lemma_push_contains, lemma_rph_basis_no_duplicates,
    path_time, rph_time,
};
use crate::NodeIndex;
use std::collections::HashMap;

verus! {

broadcast use vstd::std_specs::hash::group_hash_axioms;

/// A map from the vertices of one graph to those of another.
pub type NodeMapping = HashMap<NodeIndex, NodeIndex>;

/// Where each cell of a codomain basis stands, by kind.
pub struct IndexModel {
    pub nodes: Map<NodeIndex, usize>,
    pub edges: Map<(NodeIndex, NodeIndex), usize>,
    pub double_edges: Map<(NodeIndex, NodeIndex), usize>,
    /// For ends `(i, k)`, the base midpoint of the long squares between them.
    pub bases: Map<(NodeIndex, NodeIndex), NodeIndex>,
    /// For `(i, w, k)`, the long square through the non-base midpoint `w`.
    pub long_squares: Map<(NodeIndex, NodeIndex, NodeIndex), usize>,
    pub triangles: Map<(NodeIndex, NodeIndex, NodeIndex), usize>,
}

pub open spec fn empty_index() -> IndexModel {
    IndexModel {
        nodes: Map::empty(),
        edges: Map::empty(),
        double_edges: Map::empty(),
        bases: Map::empty(),
        long_squares: Map::empty(),
        triangles: Map::empty(),
    }
}

/// The index after the cell `c` at position `idx` is entered.
pub open spec fn index_add(m: IndexModel, c: ColumnType, idx: usize) -> IndexModel {
    match c {
        ColumnType::Edge(i, j) => IndexModel { edges: m.edges.insert((i, j), idx), ..m },
        ColumnType::Node(v) => IndexModel { nodes: m.nodes.insert(v, idx), ..m },
        ColumnType::DoubleEdge(i, j) => IndexModel {
            double_edges: m.double_edges.insert((i, j), idx),
            ..m
        },
        ColumnType::Triangle(i, j, k) => IndexModel {
            triangles: m.triangles.insert((i, j, k), idx),
            ..m
        },
        ColumnType::LongSquare(s, (u, w), t) => IndexModel {
            bases: m.bases.insert((s, t), u),
            long_squares: m.long_squares.insert((s, w, t), idx),
            ..m
        },
    }
}

/// The index of a codomain basis, its cells entered in order (a later cell
/// with the same key wins).
pub open spec fn index_of(cells: Seq<GrpphatiRsColumn>) -> IndexModel
    decreases cells.len(),
{
    if cells.len() == 0 {
        empty_index()
    } else {
        index_add(index_of(cells.drop_last()), cells.last().col_type, (cells.len() - 1) as usize)
    }
}

/// The image of the two-path `a → b → c` as a set of codomain positions.
pub open spec fn image_of_two_path(m: IndexModel, a: NodeIndex, b: NodeIndex, c: NodeIndex) -> Result<
    Set<usize>,
    GrpphatiError,
> {
    if a == c {
        if a == b {
            Ok(Set::empty())
        } else if m.double_edges.contains_key((a, b)) {
            Ok(Set::empty().insert(m.double_edges[(a, b)]))
        } else {
            Err(GrpphatiError::MalformedCodomainBasis)
        }
    } else if a == b || b == c {
        Ok(Set::empty())
    } else if m.triangles.contains_key((a, b, c)) {
        Ok(Set::empty().insert(m.triangles[(a, b, c)]))
    } else if m.long_squares.contains_key((a, b, c)) && m.bases.contains_key((a, c))
        && m.triangles.contains_key((a, m.bases[(a, c)], c)) {
        Ok(
            Set::empty().insert(m.long_squares[(a, b, c)]).insert(
                m.triangles[(a, m.bases[(a, c)], c)],
            ),
        )
    } else {
        Err(GrpphatiError::MalformedCodomainBasis)
    }
}

/// Sum over F2 of two sets of positions.
pub open spec fn symmetric_difference_of(a: Set<usize>, b: Set<usize>) -> Set<usize> {
    a.difference(b).union(b.difference(a))
}

/// The image of a domain cell under the vertex map `f`, as a set of codomain
/// positions.
pub open spec fn cell_image(m: IndexModel, f: Map<NodeIndex, NodeIndex>, c: ColumnType) -> Result<
    Set<usize>,
    GrpphatiError,
> {
    match c {
        ColumnType::Node(i) => {
            if !f.contains_key(i) {
                Err(GrpphatiError::MalformedVertexMap)
            } else if m.nodes.contains_key(f[i]) {
                Ok(Set::empty().insert(m.nodes[f[i]]))
            } else {
                Err(GrpphatiError::MalformedCodomainBasis)
            }
        },
        ColumnType::Edge(i, j) => {
            if !(f.contains_key(i) && f.contains_key(j)) {
                Err(GrpphatiError::MalformedVertexMap)
            } else if f[i] == f[j] {
                Ok(Set::empty())
            } else if m.edges.contains_key((f[i], f[j])) {
                Ok(Set::empty().insert(m.edges[(f[i], f[j])]))
            } else {
                Err(GrpphatiError::MalformedCodomainBasis)
            }
        },
        ColumnType::DoubleEdge(i, j) => {
            if !(f.contains_key(i) && f.contains_key(j)) {
                Err(GrpphatiError::MalformedVertexMap)
            } else {
                image_of_two_path(m, f[i], f[j], f[i])
            }
        },
        ColumnType::Triangle(i, j, k) => {
            if !(f.contains_key(i) && f.contains_key(j) && f.contains_key(k)) {
                Err(GrpphatiError::MalformedVertexMap)
            } else {
                image_of_two_path(m, f[i], f[j], f[k])
            }
        },
        ColumnType::LongSquare(s, (u, w), t) => {
            if !(f.contains_key(s) && f.contains_key(u) && f.contains_key(w) && f.contains_key(t)) {
                Err(GrpphatiError::MalformedVertexMap)
            } else {
                match image_of_two_path(m, f[s], f[u], f[t]) {
                    Err(e) => Err(e),
                    Ok(a) => match image_of_two_path(m, f[s], f[w], f[t]) {
                        Err(e) => Err(e),
                        Ok(b) => Ok(symmetric_difference_of(a, b)),
                    },
                }
            }
        },
    }
}

/// `v` lists the set `s` in increasing order.
pub open spec fn is_sorted_set_of(v: Seq<usize>, s: Set<usize>) -> bool {
    &&& forall|i: int, j: int| 0 <= i < j < v.len() ==> #[trigger] v[i] < #[trigger] v[j]
    &&& forall|x: usize| #[trigger] v.contains(x) <==> s.contains(x)
}

/// `out` is the chain map on `domain`: for each domain cell, in order, the
/// sorted positions of its image.
pub open spec fn is_chain_map_of(
    m: IndexModel,
    f: Map<NodeIndex, NodeIndex>,
    domain: Seq<GrpphatiRsColumn>,
    out: Seq<Vec<usize>>,
) -> bool {
    &&& out.len() == domain.len()
    &&& forall|n: int|
        0 <= n < domain.len() ==> (#[trigger] cell_image(m, f, domain[n].col_type)) is Ok
            && is_sorted_set_of(out[n]@, cell_image(m, f, domain[n].col_type)->Ok_0)
}

/// The codomain index: positions of the cells of a codomain basis by key.
pub struct CodomainIndex {
    nodes: NodeTable,
    edges: PairTable,
    double_edges: PairTable,
    bases: PairTable,
    long_squares: TripleTable,
    triangles: TripleTable,
    model: Ghost<IndexModel>,
}

impl View for CodomainIndex {
    type V = IndexModel;

    closed spec fn view(&self) -> IndexModel {
        self.model@
    }
}

impl CodomainIndex {
    /// The tables hold what the model says.
    pub closed spec fn wf(&self) -> bool {
        &&& node_entries(self.nodes) == self.model@.nodes
        &&& pair_entries(self.edges) == self.model@.edges
        &&& pair_entries(self.double_edges) == self.model@.double_edges
        &&& pair_entries(self.bases).dom() == self.model@.bases.dom()
        &&& forall|k: (NodeIndex, NodeIndex)|
            #[trigger] self.model@.bases.contains_key(k) ==> pair_entries(self.bases)[k]
                == self.model@.bases[k] as usize
        &&& triple_entries(self.long_squares) == self.model@.long_squares
        &&& triple_entries(self.triangles) == self.model@.triangles
    }

    fn base_of(&self, ends: (NodeIndex, NodeIndex)) -> (r: Option<NodeIndex>)
        requires
            self.wf(),
        ensures
            r == (if self@.bases.contains_key(ends) {
                Some(self@.bases[ends])
            } else {
                None
            }),
    {
        match pair_table_get(&self.bases, ends) {
            Some(v) => {
                proof {
                    assert(self@.bases.contains_key(ends));
                }
                Some(v as NodeIndex)
            },
            None => None,
        }
    }

    /// Enters the cell `c` at position `idx`.
    fn add(&mut self, c: ColumnType, idx: usize)
        requires
            old(self).wf(),
        ensures
            final(self).wf(),
            final(self)@ == index_add(old(self)@, c, idx),
    {
        let ghost m = self.model@;
        match c {
            ColumnType::Edge(i, j) => {
                pair_table_insert(&mut self.edges, (i, j), idx);
            },
            ColumnType::Node(v) => {
                node_table_insert(&mut self.nodes, v, idx);
            },
            ColumnType::DoubleEdge(i, j) => {
                pair_table_insert(&mut self.double_edges, (i, j), idx);
            },
            ColumnType::Triangle(i, j, k) => {
                triple_table_insert(&mut self.triangles, (i, j, k), idx);
            },
            ColumnType::LongSquare(s, mid, t) => {
                pair_table_insert(&mut self.bases, (s, t), mid.0 as usize);
                triple_table_insert(&mut self.long_squares, (s, mid.1, t), idx);
            },
        }
        self.model = Ghost(index_add(m, c, idx));
        proof {
            assert(pair_entries(self.bases).dom() =~= self.model@.bases.dom());
        }
    }
}

/// Builds the index of a codomain basis.
pub fn build_index(codomain_cells: &Vec<GrpphatiRsColumn>) -> (r: CodomainIndex)
    ensures
        r.wf(),
        r@ == index_of(codomain_cells@),
{
    let mut index = CodomainIndex {
        nodes: new_node_table(),
        edges: new_pair_table(),
        double_edges: new_pair_table(),
        bases: new_pair_table(),
        long_squares: new_triple_table(),
        triangles: new_triple_table(),
        model: Ghost(empty_index()),
    };
    proof {
        assert(node_entries(index.nodes) =~= Map::empty());
        assert(pair_entries(index.edges) =~= Map::empty());
        assert(pair_entries(index.double_edges) =~= Map::empty());
        assert(pair_entries(index.bases).dom() =~= Set::empty());
        assert(triple_entries(index.long_squares) =~= Map::empty());
        assert(triple_entries(index.triangles) =~= Map::empty());
        assert(codomain_cells@.take(0) =~= Seq::<GrpphatiRsColumn>::empty());
    }
    let mut n: usize = 0;
    while n < codomain_cells.len()
        invariant
            0 <= n <= codomain_cells@.len(),
            index.wf(),
            index@ == index_of(codomain_cells@.take(n as int)),
        decreases codomain_cells@.len() - n,
    {
        index.add(codomain_cells[n].col_type, n);
        proof {
            let next = codomain_cells@.take(n + 1);
            assert(next.drop_last() =~= codomain_cells@.take(n as int));
            assert(next.last() == codomain_cells@[n as int]);
        }
        n += 1;
    }
    proof {
        assert(codomain_cells@.take(n as int) =~= codomain_cells@);
    }
    index
}

/// The image of a vertex under the vertex map.
fn map_vertex(vertex_map: &NodeMapping, v: NodeIndex) -> (r: Result<NodeIndex, GrpphatiError>)
    ensures
        r == (if vertex_map@.contains_key(v) {
            Ok::<NodeIndex, GrpphatiError>(vertex_map@[v])
        } else {
            Err::<NodeIndex, GrpphatiError>(GrpphatiError::MalformedVertexMap)
        }),
{
    match vertex_map.get(&v) {
        Some(fv) => Ok(*fv),
        None => Err(GrpphatiError::MalformedVertexMap),
    }
}

/// Whether `v` holds `x`.
fn contains_index(v: &Vec<usize>, x: usize) -> (r: bool)
    ensures
        r == v@.contains(x),
{
    let mut n: usize = 0;
    while n < v.len()
        invariant
            0 <= n <= v@.len(),
            forall|q: int| 0 <= q < n ==> v@[q] != x,
        decreases v@.len() - n,
    {
        if v[n] == x {
            proof {
                assert(v@[n as int] == x);
            }
            return true;
        }
        n += 1;
    }
    false
}

/// The positions in exactly one of `a` and `b`.
fn symmetric_difference(a: &Vec<usize>, b: &Vec<usize>) -> (r: Vec<usize>)
    ensures
        forall|x: usize| #[trigger] r@.contains(x) <==> (a@.contains(x) && !b@.contains(x)) || (b@.contains(x)
            && !a@.contains(x)),
{
    let mut out: Vec<usize> = Vec::new();
    let mut n: usize = 0;
    while n < a.len()
        invariant
            0 <= n <= a@.len(),
            forall|x: usize|
                #[trigger] out@.contains(x) <==> (exists|q: int| 0 <= q < n && a@[q] == x) && !b@.contains(x),
        decreases a@.len() - n,
    {
        let x = a[n];
        if !contains_index(b, x) {
            let ghost before = out@;
            out.push(x);
            proof {
                assert forall|y: usize| #[trigger] out@.contains(y) <==> (exists|q: int| 0 <= q < n + 1 && a@[q] == y)
                    && !b@.contains(y) by {
                    lemma_push_contains(before, x, y);
                    if y == x {
                        assert(a@[n as int] == y);
                    }
                }
            }
        } else {
            proof {
                assert forall|y: usize| #[trigger] out@.contains(y) <==> (exists|q: int| 0 <= q < n + 1 && a@[q] == y)
                    && !b@.contains(y) by {
                    if (exists|q: int| 0 <= q < n + 1 && a@[q] == y) && !b@.contains(y) {
                        let q = choose|q: int| 0 <= q < n + 1 && a@[q] == y;
                        assert(q != n);
                    }
                }
            }
        }
        n += 1;
    }
    let ghost from_a = out@;
    let mut n: usize = 0;
    while n < b.len()
        invariant
            0 <= n <= b@.len(),
            forall|x: usize|
                #[trigger] out@.contains(x) <==> from_a.contains(x) || ((exists|q: int| 0 <= q < n && b@[q] == x)
                    && !a@.contains(x)),
        decreases b@.len() - n,
    {
        let x = b[n];
        if !contains_index(a, x) {
            let ghost before = out@;
            out.push(x);
            proof {
                assert forall|y: usize| #[trigger] out@.contains(y) <==> from_a.contains(y) || ((exists|q: int|
                    0 <= q < n + 1 && b@[q] == y) && !a@.contains(y)) by {
                    lemma_push_contains(before, x, y);
                    if y == x {
                        assert(b@[n as int] == y);
                    }
                }
            }
        } else {
            proof {
                assert forall|y: usize| #[trigger] out@.contains(y) <==> from_a.contains(y) || ((exists|q: int|
                    0 <= q < n + 1 && b@[q] == y) && !a@.contains(y)) by {
                    if (exists|q: int| 0 <= q < n + 1 && b@[q] == y) && !a@.contains(y) {
                        let q = choose|q: int| 0 <= q < n + 1 && b@[q] == y;
                        assert(q != n);
                    }
                }
            }
        }
        n += 1;
    }
    proof {
        assert forall|x: usize| #[trigger] out@.contains(x) <==> (a@.contains(x) && !b@.contains(x)) || (
        b@.contains(x) && !a@.contains(x)) by {
            if a@.contains(x) {
                let q = choose|q: int| 0 <= q < a@.len() && a@[q] == x;
                assert(a@[q] == x);
            }
            if b@.contains(x) {
                let q = choose|q: int| 0 <= q < b@.len() && b@[q] == x;
                assert(b@[q] == x);
            }
        }
    }
    out
}

/// The positions of `v` in increasing order, each once.
fn sorted_positions(v: &Vec<usize>) -> (r: Vec<usize>)
    ensures
        forall|i: int, j: int| 0 <= i < j < r@.len() ==> #[trigger] r@[i] < #[trigger] r@[j],
        forall|x: usize| #[trigger] r@.contains(x) <==> v@.contains(x),
{
    let mut out: Vec<usize> = Vec::new();
    let mut n: usize = 0;
    while n < v.len()
        invariant
            0 <= n <= v@.len(),
            forall|i: int, j: int| 0 <= i < j < out@.len() ==> #[trigger] out@[i] < #[trigger] out@[j],
            forall|x: usize| #[trigger] out@.contains(x) <==> exists|q: int| 0 <= q < n && v@[q] == x,
        decreases v@.len() - n,
    {
        let x = v[n];
        let mut pos: usize = 0;
        while pos < out.len() && out[pos] < x
            invariant
                0 <= pos <= out@.len(),
                forall|q: int| 0 <= q < pos ==> out@[q] < x,
            decreases out@.len() - pos,
        {
            pos += 1;
        }
        let ghost before = out@;
        if pos < out.len() && out[pos] == x {
            proof {
                assert forall|y: usize| #[trigger] out@.contains(y) <==> exists|q: int| 0 <= q < n + 1 && v@[q] == y by {
                    if y == x {
                        assert(out@[pos as int] == y);
                        assert(v@[n as int] == y);
                    }
                    if exists|q: int| 0 <= q < n + 1 && v@[q] == y {
                        let q = choose|q: int| 0 <= q < n + 1 && v@[q] == y;
                        if q < n {
                            assert(exists|q: int| 0 <= q < n && v@[q] == y);
                        }
                    }
                }
            }
        } else {
            out.insert(pos, x);
            proof {
                before.insert_ensures(pos as int, x);
                assert forall|i: int, j: int| 0 <= i < j < out@.len() implies #[trigger] out@[i] < #[trigger] out@[j] by {
                    if i < pos && j > pos {
                        assert(out@[i] == before[i]);
                    }
                }
                assert forall|y: usize| #[trigger] out@.contains(y) <==> exists|q: int| 0 <= q < n + 1 && v@[q] == y by {
                    if out@.contains(y) {
                        let i = choose|i: int| 0 <= i < out@.len() && out@[i] == y;
                        if i < pos {
                            assert(before[i] == y);
                            assert(before.contains(y));
                        } else if i > pos {
                            assert(before[i - 1] == y);
                            assert(before.contains(y));
                        } else {
                            assert(v@[n as int] == y);
                        }
                    }
                    if exists|q: int| 0 <= q < n + 1 && v@[q] == y {
                        let q = choose|q: int| 0 <= q < n + 1 && v@[q] == y;
                        if q < n {
                            assert(exists|q: int| 0 <= q < n && v@[q] == y);
                            assert(before.contains(y));
                            let i = choose|i: int| 0 <= i < before.len() && before[i] == y;
                            if i < pos {
                                assert(out@[i] == y);
                            } else {
                                assert(out@[i + 1] == y);
                            }
                        } else {
                            assert(out@[pos as int] == y);
                        }
                    }
                }
            }
        }
        n += 1;
    }
    proof {
        assert forall|x: usize| #[trigger] out@.contains(x) <==> v@.contains(x) by {
            if v@.contains(x) {
                let q = choose|q: int| 0 <= q < v@.len() && v@[q] == x;
                assert(v@[q] == x);
            }
        }
    }
    out
}

/// The image of the two-path `a → b → c`, as positions in the codomain.
fn compute_two_path_image(index: &CodomainIndex, image_path: (NodeIndex, NodeIndex, NodeIndex)) -> (r: Result<
    Vec<usize>,
    GrpphatiError,
>)
    requires
        index.wf(),
    ensures
        match image_of_two_path(index@, image_path.0, image_path.1, image_path.2) {
            Ok(set) => r is Ok && forall|x: usize| #[trigger] r->Ok_0@.contains(x) <==> set.contains(x),
            Err(e) => r == Err::<Vec<usize>, GrpphatiError>(e),
        },
{
    let (a, b, c) = image_path;
    if a == c {
        if a == b {
            return Ok(Vec::new());
        }
        return match pair_table_get(&index.double_edges, (a, b)) {
            Some(im_idx) => {
                let r = vec![im_idx];
                proof {
                    assert forall|x: usize| #[trigger] r@.contains(x) <==> x == im_idx by {
                        if x == im_idx {
                            assert(r@[0] == x);
                        }
                    }
                }
                Ok(r)
            },
            None => Err(GrpphatiError::MalformedCodomainBasis),
        };
    }
    if a == b || b == c {
        return Ok(Vec::new());
    }
    if let Some(im_idx) = triple_table_get(&index.triangles, image_path) {
        let r = vec![im_idx];
        proof {
            assert forall|x: usize| #[trigger] r@.contains(x) <==> x == im_idx by {
                if x == im_idx {
                    assert(r@[0] == x);
                }
            }
        }
        return Ok(r);
    }
    let ls_idx = match triple_table_get(&index.long_squares, image_path) {
        Some(i) => i,
        None => {
            return Err(GrpphatiError::MalformedCodomainBasis);
        },
    };
    let base_node = match index.base_of((a, c)) {
        Some(u) => u,
        None => {
            return Err(GrpphatiError::MalformedCodomainBasis);
        },
    };
    let base_idx = match triple_table_get(&index.triangles, (a, base_node, c)) {
        Some(i) => i,
        None => {
            return Err(GrpphatiError::MalformedCodomainBasis);
        },
    };
    let r = vec![ls_idx, base_idx];
    proof {
        assert forall|x: usize| #[trigger] r@.contains(x) <==> x == ls_idx || x == base_idx by {
            if x == ls_idx {
                assert(r@[0] == x);
            }
            if x == base_idx {
                assert(r@[1] == x);
            }
        }
    }
    Ok(r)
}

/// The image of one domain cell: its codomain positions in increasing order.
pub fn map_cell(index: &CodomainIndex, vertex_map: &NodeMapping, col: &GrpphatiRsColumn) -> (r: Result<
    Vec<usize>,
    GrpphatiError,
>)
    requires
        index.wf(),
    ensures
        match cell_image(index@, vertex_map@, col.col_type) {
            Ok(set) => r is Ok && is_sorted_set_of(r->Ok_0@, set),
            Err(e) => r == Err::<Vec<usize>, GrpphatiError>(e),
        },
{
    let unsorted: Vec<usize> = match col.col_type {
        ColumnType::Triangle(i, j, k) => {
            let fi = map_vertex(vertex_map, i)?;
            let fj = map_vertex(vertex_map, j)?;
            let fk = map_vertex(vertex_map, k)?;
            compute_two_path_image(index, (fi, fj, fk))?
        },
        ColumnType::LongSquare(s, mids, t) => {
            let fs = map_vertex(vertex_map, s)?;
            let fu = map_vertex(vertex_map, mids.0)?;
            let fv = map_vertex(vertex_map, mids.1)?;
            let ft = map_vertex(vertex_map, t)?;
            let im_1 = compute_two_path_image(index, (fs, fu, ft))?;
            let im_2 = compute_two_path_image(index, (fs, fv, ft))?;
            symmetric_difference(&im_1, &im_2)
        },
        ColumnType::DoubleEdge(i, j) => {
            let fi = map_vertex(vertex_map, i)?;
            let fj = map_vertex(vertex_map, j)?;
            compute_two_path_image(index, (fi, fj, fi))?
        },
        ColumnType::Edge(i, j) => {
            let fi = map_vertex(vertex_map, i)?;
            let fj = map_vertex(vertex_map, j)?;
            if fi == fj {
                Vec::new()
            } else {
                match pair_table_get(&index.edges, (fi, fj)) {
                    Some(im_idx) => vec![im_idx],
                    None => {
                        return Err(GrpphatiError::MalformedCodomainBasis);
                    },
                }
            }
        },
        ColumnType::Node(i) => {
            let fi = map_vertex(vertex_map, i)?;
            match node_table_get(&index.nodes, fi) {
                Some(im_idx) => vec![im_idx],
                None => {
                    return Err(GrpphatiError::MalformedCodomainBasis);
                },
            }
        },
    };
    let r = sorted_positions(&unsorted);
    proof {
        let set = cell_image(index@, vertex_map@, col.col_type)->Ok_0;
        assert forall|x: usize| #[trigger] r@.contains(x) <==> set.contains(x) by {
            assert(r@.contains(x) <==> unsorted@.contains(x));
            match col.col_type {
                ColumnType::Edge(i, j) => {
                    if unsorted@.len() == 1 {
                        if x == unsorted@[0] {
                            assert(unsorted@.contains(x));
                        }
                    }
                },
                ColumnType::Node(i) => {
                    if x == unsorted@[0] {
                        assert(unsorted@.contains(x));
                    }
                },
                _ => {},
            }
        }
    }
    Ok(r)
}

/// For each domain cell, in order, the sorted codomain positions of its image
/// under the vertex map. Fails with the error of the first domain cell whose
/// image cannot be formed.
pub fn compute_map(
    domain_cells: &Vec<GrpphatiRsColumn>,
    codomain_cells: &Vec<GrpphatiRsColumn>,
    vertex_map: &NodeMapping,
) -> (r: Result<Vec<Vec<usize>>, GrpphatiError>)
    ensures
        match r {
            Ok(out) => is_chain_map_of(index_of(codomain_cells@), vertex_map@, domain_cells@, out@),
            Err(e) => exists|n: int|
                0 <= n < domain_cells@.len() && cell_image(
                    index_of(codomain_cells@),
                    vertex_map@,
                    #[trigger] domain_cells@[n].col_type,
                ) == Err::<Set<usize>, GrpphatiError>(e) && forall|q: int|
                    0 <= q < n ==> (#[trigger] cell_image(
                        index_of(codomain_cells@),
                        vertex_map@,
                        domain_cells@[q].col_type,
                    )) is Ok,
        },
{
    let index = build_index(codomain_cells);
    let mut out: Vec<Vec<usize>> = Vec::new();
    let mut n: usize = 0;
    while n < domain_cells.len()
        invariant
            index.wf(),
            index@ == index_of(codomain_cells@),
            0 <= n <= domain_cells@.len(),
            is_chain_map_of(index@, vertex_map@, domain_cells@.take(n as int), out@),
        decreases domain_cells@.len() - n,
    {
        let ghost before = out@;
        match map_cell(&index, vertex_map, &domain_cells[n]) {
            Ok(image) => {
                out.push(image);
            },
            Err(e) => {
                proof {
                    assert forall|q: int| 0 <= q < n implies (#[trigger] cell_image(
                        index_of(codomain_cells@),
                        vertex_map@,
                        domain_cells@[q].col_type,
                    )) is Ok by {
                        assert(domain_cells@.take(n as int)[q] == domain_cells@[q]);
                    }
                }
                return Err(e);
            },
        }
        proof {
            assert forall|q: int| 0 <= q < n + 1 implies (#[trigger] cell_image(
                index@,
                vertex_map@,
                domain_cells@.take(n + 1)[q].col_type,
            )) is Ok && is_sorted_set_of(
                out@[q]@,
                cell_image(index@, vertex_map@, domain_cells@.take(n + 1)[q].col_type)->Ok_0,
            ) by {
                if q < n {
                    assert(domain_cells@.take(n + 1)[q] == domain_cells@.take(n as int)[q]);
                    assert(out@[q] == before[q]);
                }
            }
        }
        n += 1;
    }
    proof {
        assert(domain_cells@.take(n as int) =~= domain_cells@);
    }
    Ok(out)
}

/// Where the index puts a triangle key: some position holding that triangle,
/// and it has one exactly when the cells hold that triangle.
proof fn lemma_index_triangle(cells: Seq<GrpphatiRsColumn>, i: NodeIndex, j: NodeIndex, k: NodeIndex)
    requires
        cells.len() <= usize::MAX,
    ensures
        index_of(cells).triangles.contains_key((i, j, k)) <==> exists|q: int|
            0 <= q < cells.len() && (#[trigger] cells[q]).col_type == ColumnType::Triangle(i, j, k),
        index_of(cells).triangles.contains_key((i, j, k)) ==> {
            let p = index_of(cells).triangles[(i, j, k)] as int;
            0 <= p < cells.len() && cells[p].col_type == ColumnType::Triangle(i, j, k)
        },
    decreases cells.len(),
{
    if cells.len() > 0 {
        let init = cells.drop_last();
        lemma_index_triangle(init, i, j, k);
        if exists|q: int| 0 <= q < init.len() && (#[trigger] init[q]).col_type == ColumnType::Triangle(i, j, k) {
            let q = choose|q: int| 0 <= q < init.len() && (#[trigger] init[q]).col_type == ColumnType::Triangle(i, j, k);
            assert(cells[q] == init[q]);
        }
        if exists|q: int| 0 <= q < cells.len() && (#[trigger] cells[q]).col_type == ColumnType::Triangle(i, j, k) {
            let q = choose|q: int| 0 <= q < cells.len() && (#[trigger] cells[q]).col_type == ColumnType::Triangle(i, j, k);
            if q < init.len() {
                assert(init[q] == cells[q]);
            }
        }
    }
}

/// Where the index puts a vertex key.
proof fn lemma_index_node(cells: Seq<GrpphatiRsColumn>, v: NodeIndex)
    requires
        cells.len() <= usize::MAX,
    ensures
        (exists|q: int| 0 <= q < cells.len() && (#[trigger] cells[q]).col_type == ColumnType::Node(v))
            ==> index_of(cells).nodes.contains_key(v),
        index_of(cells).nodes.contains_key(v) ==> {
            let p = index_of(cells).nodes[v] as int;
            0 <= p < cells.len() && cells[p].col_type == ColumnType::Node(v)
        },
    decreases cells.len(),
{
    if cells.len() > 0 {
        let init = cells.drop_last();
        lemma_index_node(init, v);
        if exists|q: int| 0 <= q < cells.len() && (#[trigger] cells[q]).col_type == ColumnType::Node(v) {
            let q = choose|q: int| 0 <= q < cells.len() && (#[trigger] cells[q]).col_type == ColumnType::Node(v);
            if q < init.len() {
                assert(init[q] == cells[q]);
            }
        }
    }
}

/// Where the index puts an edge key.
proof fn lemma_index_edge(cells: Seq<GrpphatiRsColumn>, i: NodeIndex, j: NodeIndex)
    requires
        cells.len() <= usize::MAX,
    ensures
        (exists|q: int| 0 <= q < cells.len() && (#[trigger] cells[q]).col_type == ColumnType::Edge(i, j))
            ==> index_of(cells).edges.contains_key((i, j)),
        index_of(cells).edges.contains_key((i, j)) ==> {
            let p = index_of(cells).edges[(i, j)] as int;
            0 <= p < cells.len() && cells[p].col_type == ColumnType::Edge(i, j)
        },
    decreases cells.len(),
{
    if cells.len() > 0 {
        let init = cells.drop_last();
        lemma_index_edge(init, i, j);
        if exists|q: int| 0 <= q < cells.len() && (#[trigger] cells[q]).col_type == ColumnType::Edge(i, j) {
            let q = choose|q: int| 0 <= q < cells.len() && (#[trigger] cells[q]).col_type == ColumnType::Edge(i, j);
            if q < init.len() {
                assert(init[q] == cells[q]);
            }
        }
    }
}

/// Where the index puts a double edge key.
proof fn lemma_index_double_edge(cells: Seq<GrpphatiRsColumn>, i: NodeIndex, j: NodeIndex)
    requires
        cells.len() <= usize::MAX,
    ensures
        (exists|q: int| 0 <= q < cells.len() && (#[trigger] cells[q]).col_type == ColumnType::DoubleEdge(i, j))
            ==> index_of(cells).double_edges.contains_key((i, j)),
        index_of(cells).double_edges.contains_key((i, j)) ==> {
            let p = index_of(cells).double_edges[(i, j)] as int;
            0 <= p < cells.len() && cells[p].col_type == ColumnType::DoubleEdge(i, j)
        },
    decreases cells.len(),
{
    if cells.len() > 0 {
        let init = cells.drop_last();
        lemma_index_double_edge(init, i, j);
        if exists|q: int| 0 <= q < cells.len() && (#[trigger] cells[q]).col_type == ColumnType::DoubleEdge(i, j) {
            let q = choose|q: int| 0 <= q < cells.len() && (#[trigger] cells[q]).col_type == ColumnType::DoubleEdge(i, j);
            if q < init.len() {
                assert(init[q] == cells[q]);
            }
        }
    }
}

/// `c` is a long square from `i` to `k` with base midpoint `u`.
pub open spec fn is_long_square_on(c: ColumnType, i: NodeIndex, u: NodeIndex, k: NodeIndex) -> bool {
    match c {
        ColumnType::LongSquare(s, (x, _), t) => s == i && x == u && t == k,
        _ => false,
    }
}

/// Where the index puts a long square key, and which base it records for its ends.
proof fn lemma_index_long_square(cells: Seq<GrpphatiRsColumn>, i: NodeIndex, u: NodeIndex, w: NodeIndex, k: NodeIndex)
    requires
        cells.len() <= usize::MAX,
    ensures
        (exists|q: int| 0 <= q < cells.len() && (#[trigger] cells[q]).col_type == ColumnType::LongSquare(i, (u, w), k))
            ==> index_of(cells).long_squares.contains_key((i, w, k)) && index_of(cells).bases.contains_key((i, k)),
        index_of(cells).long_squares.contains_key((i, w, k)) ==> {
            let p = index_of(cells).long_squares[(i, w, k)] as int;
            0 <= p < cells.len() && exists|x: NodeIndex| cells[p].col_type == ColumnType::LongSquare(i, (x, w), k)
        },
        index_of(cells).bases.contains_key((i, k)) ==> exists|q: int|
            0 <= q < cells.len() && is_long_square_on(
                #[trigger] cells[q].col_type,
                i,
                index_of(cells).bases[(i, k)],
                k,
            ),
    decreases cells.len(),
{
    if cells.len() > 0 {
        let init = cells.drop_last();
        lemma_index_long_square(init, i, u, w, k);
        if exists|q: int| 0 <= q < cells.len() && (#[trigger] cells[q]).col_type == ColumnType::LongSquare(i, (u, w), k) {
            let q = choose|q: int| 0 <= q < cells.len() && (#[trigger] cells[q]).col_type == ColumnType::LongSquare(i, (u, w), k);
            if q < init.len() {
                assert(init[q] == cells[q]);
            }
        }
        if index_of(init).long_squares.contains_key((i, w, k)) {
            let p = index_of(init).long_squares[(i, w, k)] as int;
            assert(init[p] == cells[p]);
        }
        if index_of(init).bases.contains_key((i, k)) {
            let q = choose|q: int|
                0 <= q < init.len() && is_long_square_on(
                    #[trigger] init[q].col_type,
                    i,
                    index_of(init).bases[(i, k)],
                    k,
                );
            assert(cells[q] == init[q]);
        }
        match cells.last().col_type {
            ColumnType::LongSquare(s, (x, y), t) => {
                if s == i && t == k {
                    assert(cells[cells.len() - 1] == cells.last());
                }
            },
            _ => {},
        }
    }
}

/// Collapse: an edge whose ends the vertex map identifies maps to nothing, and
/// so does a triangle whose three vertices it identifies.
pub proof fn lemma_chain_map_collapse(
    m: IndexModel,
    f: Map<NodeIndex, NodeIndex>,
    domain: Seq<GrpphatiRsColumn>,
    out: Seq<Vec<usize>>,
    n: int,
)
    requires
        is_chain_map_of(m, f, domain, out),
        0 <= n < domain.len(),
    ensures
        match domain[n].col_type {
            ColumnType::Edge(i, j) => f.contains_key(i) && f.contains_key(j) && f[i] == f[j] ==> out[n]@.len() == 0,
            ColumnType::Triangle(i, j, k) => f.contains_key(i) && f.contains_key(j) && f.contains_key(k) && f[i]
                == f[j] && f[j] == f[k] ==> out[n]@.len() == 0,
            _ => true,
        },
{
    let set = cell_image(m, f, domain[n].col_type)->Ok_0;
    assert(is_sorted_set_of(out[n]@, set));
    if out[n]@.len() > 0 {
        assert(out[n]@.contains(out[n]@[0]));
    }
}

/// Swapping the two midpoints of a long square leaves its image unchanged.
pub proof fn lemma_long_square_swap(
    m: IndexModel,
    f: Map<NodeIndex, NodeIndex>,
    i: NodeIndex,
    u: NodeIndex,
    w: NodeIndex,
    k: NodeIndex,
)
    ensures
        cell_image(m, f, ColumnType::LongSquare(i, (u, w), k)) == cell_image(
            m,
            f,
            ColumnType::LongSquare(i, (w, u), k),
        ),
{
    if f.contains_key(i) && f.contains_key(u) && f.contains_key(w) && f.contains_key(k) {
        let a = image_of_two_path(m, f[i], f[u], f[k]);
        let b = image_of_two_path(m, f[i], f[w], f[k]);
        if a is Ok && b is Ok {
            assert(symmetric_difference_of(a->Ok_0, b->Ok_0) =~= symmetric_difference_of(b->Ok_0, a->Ok_0));
        }
    }
}

/// A complete RPH basis of `e`: its 2-cells are the RPH cells of `e` with
/// their entrance times, its edges are edges of `e`, any vertices may stand in
/// it, and no cell occurs twice.
pub open spec fn is_complete_rph_basis(e: Map<(NodeIndex, NodeIndex), crate::FiltrationTime>, b: Seq<GrpphatiRsColumn>) -> bool {
    &&& forall|c: GrpphatiRsColumn| #[trigger] b.contains(c) ==> match c.col_type {
        ColumnType::Node(_) => true,
        ColumnType::Edge(s, t) => e.contains_key((s, t)),
        _ => is_rph_cell(e, c),
    }
    &&& forall|c: GrpphatiRsColumn| #[trigger] is_rph_cell(e, c) ==> b.contains(c)
    &&& forall|i: int, j: int| 0 <= i < j < b.len() ==> (#[trigger] b[i]).col_type != (#[trigger] b[j]).col_type
}

/// The RPH 2-cells of a graph, as produced, form a complete basis by themselves.
pub proof fn lemma_rph_basis_is_complete(e: Map<(NodeIndex, NodeIndex), crate::FiltrationTime>, b: Seq<GrpphatiRsColumn>)
    requires
        is_rph_basis_of(e, b),
    ensures
        is_complete_rph_basis(e, b),
{
    lemma_rph_basis_no_duplicates(e, b);
}

/// Identity: mapping a complete RPH basis into itself by the identity on its
/// vertices sends each cell to its own position. Graphs with a loop `v → v`
/// are left out: a two-path through a loop collapses, and so does the loop.
pub proof fn lemma_identity_chain_map(
    e: Map<(NodeIndex, NodeIndex), crate::FiltrationTime>,
    b: Seq<GrpphatiRsColumn>,
    f: Map<NodeIndex, NodeIndex>,
    n: int,
)
    requires
        is_complete_rph_basis(e, b),
        b.len() <= usize::MAX,
        forall|v: NodeIndex| #[trigger] f.contains_key(v) ==> f[v] == v,
        forall|s: NodeIndex, t: NodeIndex| #[trigger] e.contains_key((s, t)) ==> f.contains_key(s) && f.contains_key(t),
        forall|q: int|
            0 <= q < b.len() ==> match (#[trigger] b[q]).col_type {
                ColumnType::Node(v) => f.contains_key(v),
                _ => true,
            },
        forall|v: NodeIndex| !e.contains_key((v, v)),
        0 <= n < b.len(),
    ensures
        cell_image(index_of(b), f, b[n].col_type) == Ok::<Set<usize>, GrpphatiError>(
            Set::empty().insert(n as usize),
        ),
{
    let m = index_of(b);
    assert(b.contains(b[n]));
    match b[n].col_type {
        ColumnType::Node(v) => {
            lemma_index_node(b, v);
            let p = m.nodes[v] as int;
            assert(p == n);
        },
        ColumnType::Edge(i, j) => {
            assert(e.contains_key((i, j)));
            lemma_index_edge(b, i, j);
            let p = m.edges[(i, j)] as int;
            assert(p == n);
        },
        _ => {},
    }
    match b[n].col_type {
        ColumnType::DoubleEdge(i, j) => {
            assert(e.contains_key((i, j)));
            lemma_index_double_edge(b, i, j);
            let p = m.double_edges[(i, j)] as int;
            assert(p == n);
            assert(image_of_two_path(m, i, j, i) == Ok::<Set<usize>, GrpphatiError>(
                Set::empty().insert(n as usize),
            ));
        },
        ColumnType::Triangle(i, j, k) => {
            assert(e.contains_key((i, j)) && e.contains_key((j, k)));
            lemma_index_triangle(b, i, j, k);
            let p = m.triangles[(i, j, k)] as int;
            assert(p == n);
        },
        ColumnType::LongSquare(i, (u, w), k) => {
            assert(is_base(e, i, u, k));
            assert(is_bridge(e, i, w, k));
            assert(e.contains_key((i, u)) && e.contains_key((u, k)) && e.contains_key((i, w)) && e.contains_key((w, k)));
            let tri = GrpphatiRsColumn {
                col_type: ColumnType::Triangle(i, u, k),
                entrance_time: Some(rph_time(e, ColumnType::Triangle(i, u, k))),
            };
            assert(is_rph_cell(e, tri));
            assert(b.contains(tri));
            let pt = choose|q: int| 0 <= q < b.len() && b[q] == tri;
            assert(b.contains(b[pt]));
            assert(b[pt].col_type == ColumnType::Triangle(i, u, k));
            lemma_index_triangle(b, i, u, k);
            let p = m.triangles[(i, u, k)] as int;
            assert(p == pt);
            lemma_index_triangle(b, i, w, k);
            if m.triangles.contains_key((i, w, k)) {
                let q = choose|q: int| 0 <= q < b.len() && (#[trigger] b[q]).col_type == ColumnType::Triangle(i, w, k);
                assert(b.contains(b[q]));
                assert(is_rph_cell(e, b[q]));
                if is_base(e, i, w, k) {
                    assert(is_bridge(e, i, u, k));
                    assert(is_bridge(e, i, w, k));
                }
                assert(false);
            }
            lemma_index_long_square(b, i, u, w, k);
            assert(b[n].col_type == ColumnType::LongSquare(i, (u, w), k));
            let pl = m.long_squares[(i, w, k)] as int;
            let x = choose|x: NodeIndex| b[pl].col_type == ColumnType::LongSquare(i, (x, w), k);
            assert(b.contains(b[pl]));
            assert(is_rph_cell(e, b[pl]));
            assert(is_base(e, i, x, k));
            assert(is_bridge(e, i, x, k) && is_bridge(e, i, u, k));
            assert(x == u);
            assert(pl == n);
            let q = choose|q: int| 0 <= q < b.len() && is_long_square_on(#[trigger] b[q].col_type, i, m.bases[(i, k)], k);
            assert(b.contains(b[q]));
            assert(is_rph_cell(e, b[q]));
            let base = m.bases[(i, k)];
            assert(is_base(e, i, base, k));
            assert(is_bridge(e, i, base, k));
            assert(base == u);
            assert(pt != n);
            let im1 = Set::<usize>::empty().insert(pt as usize);
            let im2 = Set::<usize>::empty().insert(n as usize).insert(pt as usize);
            assert(image_of_two_path(m, i, u, k) == Ok::<Set<usize>, GrpphatiError>(im1));
            assert(image_of_two_path(m, i, w, k) == Ok::<Set<usize>, GrpphatiError>(im2));
            assert(symmetric_difference_of(im1, im2) =~= Set::empty().insert(n as usize));
        },
        _ => {},
    }
}

} // verus!
