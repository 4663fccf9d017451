use grpphati_rs::columns::{ColumnType, GrpphatiError, GrpphatiRsColumn};
use grpphati_rs::compute_mapping::{compute_map, NodeMapping};
use grpphati_rs::homology::{get_dflag_two_cells, get_rph_two_cells, EdgeMap, TwoPathType};
use grpphati_rs::sparsifiers::{RustIteratorSparsifier, RustListSparsifier, RustParallelListSparsifier};
use grpphati_rs::NEVER;

fn edge_map(edges: &[(u32, u32, u64)]) -> EdgeMap {
    let mut e = EdgeMap::new();
    for &(s, t, time) in edges {
        e.insert(s, t, time);
    }
    e
}

fn col(col_type: ColumnType, t: u64) -> GrpphatiRsColumn {
    GrpphatiRsColumn { col_type, entrance_time: Some(t) }
}

fn types(cols: &[GrpphatiRsColumn]) -> Vec<(ColumnType, Option<u64>)> {
    cols.iter().map(|c| (c.col_type, c.entrance_time)).collect()
}

fn s1() -> EdgeMap {
    edge_map(&[(0, 1, 1), (0, 2, 3), (1, 2, 2)])
}

fn s3() -> EdgeMap {
    edge_map(&[(0, 1, 1), (0, 2, 1), (0, 3, 10), (1, 3, 1), (2, 3, 1)])
}

fn identity(n: u32) -> NodeMapping {
    (0..n).map(|v| (v, v)).collect()
}

/// Vertices, then edges by time, then the given 2-cells.
fn full_basis(n: u32, edges: &[(u32, u32, u64)], two_cells: &[GrpphatiRsColumn]) -> Vec<GrpphatiRsColumn> {
    let mut cols: Vec<GrpphatiRsColumn> = (0..n).map(|v| col(ColumnType::Node(v), 0)).collect();
    let mut sorted_edges = edges.to_vec();
    sorted_edges.sort_by_key(|&(s, t, time)| (time, s, t));
    cols.extend(sorted_edges.iter().map(|&(s, t, time)| col(ColumnType::Edge(s, t), time)));
    cols.extend_from_slice(two_cells);
    cols
}

#[test]
fn s1_triangle() {
    let cells = get_rph_two_cells(&s1());
    assert_eq!(types(&cells), vec![(ColumnType::Triangle(0, 1, 2), Some(3))]);
}

#[test]
fn s2_double_edge() {
    let cells = get_rph_two_cells(&edge_map(&[(0, 1, 1), (1, 0, 2)]));
    assert_eq!(
        types(&cells),
        vec![(ColumnType::DoubleEdge(0, 1), Some(2)), (ColumnType::DoubleEdge(1, 0), Some(2))]
    );
}

#[test]
fn s3_long_square_family() {
    let cells = get_rph_two_cells(&s3());
    assert_eq!(
        types(&cells),
        vec![
            (ColumnType::LongSquare(0, (1, 2), 3), Some(1)),
            (ColumnType::Triangle(0, 1, 3), Some(10)),
        ]
    );
}

#[test]
fn s4_identity_chain_map() {
    let basis = get_rph_two_cells(&s3());
    let image = compute_map(&basis, &basis, &identity(4)).unwrap();
    let ls_idx = basis.iter().position(|c| c.col_type == ColumnType::LongSquare(0, (1, 2), 3)).unwrap();
    assert_eq!(image[ls_idx], vec![ls_idx]);
    assert_eq!(image, vec![vec![0], vec![1]]);
}

#[test]
fn s5_vertex_collapse() {
    let edges = [(0, 1, 1), (0, 2, 1), (0, 3, 10), (1, 3, 1), (2, 3, 1)];
    let basis = full_basis(4, &edges, &get_rph_two_cells(&s3()));
    let collapse: NodeMapping = (0..4).map(|v| (v, 0)).collect();
    let image = compute_map(&basis, &basis, &collapse).unwrap();
    let node0 = basis.iter().position(|c| c.col_type == ColumnType::Node(0)).unwrap();
    for (c, im) in basis.iter().zip(image.iter()) {
        match c.col_type {
            ColumnType::Node(_) => assert_eq!(im, &vec![node0]),
            _ => assert!(im.is_empty()),
        }
    }
}

#[test]
fn s6_sparse_boundary() {
    let edges = [(0, 1, 1), (0, 2, 3), (1, 2, 2)];
    let basis = full_basis(3, &edges, &get_rph_two_cells(&s1()));
    let sparse = RustListSparsifier::new().sparsify(&basis);
    let idx = |c: ColumnType| basis.iter().position(|x| x.col_type == c).unwrap();
    let mut expected = vec![idx(ColumnType::Edge(0, 1)), idx(ColumnType::Edge(0, 2)), idx(ColumnType::Edge(1, 2))];
    expected.sort();
    assert_eq!(sparse[6], (2, expected));
    assert_eq!(sparse[6], (2, vec![3, 4, 5]));
    assert_eq!(sparse[3], (1, vec![0, 1]));
    assert_eq!(sparse[0], (0, vec![]));
}

#[test]
fn basis_sorted_by_time() {
    let e = edge_map(&[
        (0, 1, 5),
        (1, 2, 1),
        (2, 0, 2),
        (0, 2, 7),
        (1, 0, 3),
        (2, 3, 4),
        (3, 0, 1),
        (1, 3, 6),
    ]);
    let cells = get_rph_two_cells(&e);
    assert!(!cells.is_empty());
    for pair in cells.windows(2) {
        assert!(pair[0].entrance_time.unwrap() <= pair[1].entrance_time.unwrap());
    }
}

#[test]
fn basis_has_no_duplicates() {
    let e = edge_map(&[(0, 1, 1), (1, 0, 1), (1, 2, 2), (2, 1, 2), (0, 2, 3), (2, 0, 4)]);
    let cells = get_rph_two_cells(&e);
    for i in 0..cells.len() {
        for j in (i + 1)..cells.len() {
            assert_ne!(cells[i].col_type, cells[j].col_type);
        }
    }
}

#[test]
fn boundary_drops_dimension() {
    for c in get_rph_two_cells(&s3()) {
        for b in c.boundary() {
            assert_eq!(b.dimension() + 1, c.dimension());
            assert_eq!(b.entrance_time, None);
        }
    }
    let ls = GrpphatiRsColumn::key(ColumnType::LongSquare(0, (1, 2), 3));
    assert_eq!(
        ls.boundary().iter().map(|b| b.col_type).collect::<Vec<_>>(),
        vec![ColumnType::Edge(0, 1), ColumnType::Edge(0, 2), ColumnType::Edge(1, 3), ColumnType::Edge(2, 3)]
    );
    assert!(GrpphatiRsColumn::key(ColumnType::Node(4)).boundary().is_empty());
}

#[test]
fn sparse_indices_precede_column() {
    let edges = [(0, 1, 1), (0, 2, 1), (0, 3, 10), (1, 3, 1), (2, 3, 1)];
    let basis = full_basis(4, &edges, &get_rph_two_cells(&s3()));
    let sparse = RustListSparsifier::new().sparsify(&basis);
    for (i, (_, bdry)) in sparse.iter().enumerate() {
        for &x in bdry {
            assert!(x < i);
        }
    }
}

#[test]
fn collapse_of_edge_and_triangle() {
    let domain = vec![
        GrpphatiRsColumn::key(ColumnType::Edge(0, 1)),
        GrpphatiRsColumn::key(ColumnType::Triangle(0, 1, 2)),
    ];
    let codomain = vec![col(ColumnType::Node(7), 0)];
    let phi: NodeMapping = [(0, 7), (1, 7), (2, 7)].into_iter().collect();
    assert_eq!(compute_map(&domain, &codomain, &phi), Ok(vec![vec![], vec![]]));
}

#[test]
fn long_square_midpoint_swap() {
    let basis = get_rph_two_cells(&s3());
    let domain = vec![
        GrpphatiRsColumn::key(ColumnType::LongSquare(0, (1, 2), 3)),
        GrpphatiRsColumn::key(ColumnType::LongSquare(0, (2, 1), 3)),
    ];
    let image = compute_map(&domain, &basis, &identity(4)).unwrap();
    assert_eq!(image[0], image[1]);
    assert_eq!(image[0], vec![0]);
}

#[test]
fn runs_are_deterministic() {
    let e = edge_map(&[(0, 1, 2), (0, 2, 2), (0, 3, 9), (1, 3, 2), (2, 3, 2), (3, 0, 1)]);
    assert_eq!(types(&get_rph_two_cells(&e)), types(&get_rph_two_cells(&e)));
}

#[test]
fn bridge_base_prefers_earlier_time() {
    let e = edge_map(&[(0, 1, 5), (0, 2, 1), (0, 3, 10), (1, 3, 1), (2, 3, 2)]);
    assert_eq!(
        types(&get_rph_two_cells(&e)),
        vec![
            (ColumnType::LongSquare(0, (2, 1), 3), Some(5)),
            (ColumnType::Triangle(0, 2, 3), Some(10)),
        ]
    );
}

#[test]
fn collapsing_triangle_without_chord_enters_never() {
    let e = edge_map(&[(0, 1, 1), (1, 2, 1), (3, 4, 2), (4, 3, 2)]);
    assert_eq!(
        types(&get_rph_two_cells(&e)),
        vec![
            (ColumnType::DoubleEdge(3, 4), Some(2)),
            (ColumnType::DoubleEdge(4, 3), Some(2)),
            (ColumnType::Triangle(0, 1, 2), Some(NEVER)),
        ]
    );
}

#[test]
fn empty_graph_has_no_cells() {
    assert!(get_rph_two_cells(&EdgeMap::new()).is_empty());
    assert!(get_dflag_two_cells(&EdgeMap::new()).is_empty());
}

#[test]
fn dflag_cells() {
    assert_eq!(types(&get_dflag_two_cells(&s1())), vec![(ColumnType::Triangle(0, 1, 2), Some(3))]);
    assert_eq!(
        types(&get_dflag_two_cells(&s3())),
        vec![(ColumnType::Triangle(0, 1, 3), Some(10)), (ColumnType::Triangle(0, 2, 3), Some(10))]
    );
    let no_chord = edge_map(&[(0, 1, 1), (1, 2, 1), (1, 0, 1)]);
    assert!(get_dflag_two_cells(&no_chord).is_empty());
}

#[test]
fn edge_map_insert_replaces() {
    let mut e = EdgeMap::new();
    e.insert(2, 5, 4);
    e.insert(2, 5, 9);
    assert_eq!(e.edge_time(2, 5), 9);
    assert_eq!(e.edge_time(5, 2), NEVER);
    assert_eq!(e.edge_time(0, 1), NEVER);
}

#[test]
fn missing_vertex_in_map() {
    let basis = get_rph_two_cells(&s3());
    let phi: NodeMapping = [(0, 0), (1, 1), (3, 3)].into_iter().collect();
    assert_eq!(compute_map(&basis, &basis, &phi), Err(GrpphatiError::MalformedVertexMap));
}

#[test]
fn missing_codomain_cell() {
    let domain = vec![GrpphatiRsColumn::key(ColumnType::Edge(0, 1))];
    let codomain = vec![col(ColumnType::Node(0), 0), col(ColumnType::Node(1), 0)];
    assert_eq!(compute_map(&domain, &codomain, &identity(2)), Err(GrpphatiError::MalformedCodomainBasis));
}

#[test]
fn double_edge_and_node_images() {
    let codomain = vec![
        col(ColumnType::Node(0), 0),
        col(ColumnType::Node(1), 0),
        col(ColumnType::Edge(0, 1), 1),
        col(ColumnType::Edge(1, 0), 1),
        col(ColumnType::DoubleEdge(0, 1), 1),
    ];
    let domain = vec![
        GrpphatiRsColumn::key(ColumnType::Node(5)),
        GrpphatiRsColumn::key(ColumnType::Edge(5, 6)),
        GrpphatiRsColumn::key(ColumnType::DoubleEdge(5, 6)),
        GrpphatiRsColumn::key(ColumnType::Triangle(5, 6, 5)),
    ];
    let phi: NodeMapping = [(5, 0), (6, 1)].into_iter().collect();
    assert_eq!(compute_map(&domain, &codomain, &phi), Ok(vec![vec![0], vec![2], vec![4], vec![4]]));
}

#[test]
fn two_path_onto_long_square() {
    // The triangle 0 → 2 → 3 of the domain lands on the non-base half of a long square.
    let codomain = get_rph_two_cells(&s3());
    let domain = vec![GrpphatiRsColumn::key(ColumnType::Triangle(0, 2, 3))];
    assert_eq!(compute_map(&domain, &codomain, &identity(4)), Ok(vec![vec![0, 1]]));
}

#[test]
fn missing_entrance_time() {
    assert_eq!(
        GrpphatiRsColumn::key(ColumnType::Node(0)).get_entrance_time(),
        Err(GrpphatiError::MissingEntranceTime)
    );
    assert_eq!(col(ColumnType::Node(0), 4).get_entrance_time(), Ok(4));
}

#[test]
fn bridge_is_not_a_cell() {
    assert_eq!(ColumnType::try_from(TwoPathType::Bridge((0, 2), 1)), Err(GrpphatiError::BridgeTagInBasis));
    assert_eq!(ColumnType::try_from(TwoPathType::Triangle(0, 1, 2)), Ok(ColumnType::Triangle(0, 1, 2)));
}

#[test]
fn column_from_tag() {
    let c = GrpphatiRsColumn::new("LongSquare", &vec![0, 1, 2, 3], Some(5)).unwrap();
    assert_eq!(c.col_type, ColumnType::LongSquare(0, (1, 2), 3));
    assert_eq!(c.entrance_time, Some(5));
    assert_eq!(c.dimension(), 2);
    assert_eq!(GrpphatiRsColumn::new("Node", &vec![4], None).unwrap().col_type, ColumnType::Node(4));
    assert_eq!(GrpphatiRsColumn::new("Edge", &vec![4, 1], None).unwrap().dimension(), 1);
    assert!(matches!(GrpphatiRsColumn::new("Square", &vec![0, 1], None), Err(GrpphatiError::MalformedInput)));
    assert!(matches!(GrpphatiRsColumn::new("Triangle", &vec![0, 1], None), Err(GrpphatiError::MalformedInput)));
}

#[test]
fn sparsifiers_agree_on_a_sorted_basis() {
    let edges = [(0, 1, 1), (0, 2, 1), (0, 3, 10), (1, 3, 1), (2, 3, 1)];
    let basis = full_basis(4, &edges, &get_rph_two_cells(&s3()));
    let listed = RustListSparsifier::new().sparsify(&basis);
    let waved = RustParallelListSparsifier::new(2).sparsify(&basis);
    let mut iter = RustIteratorSparsifier::new(basis.clone());
    let mut stepped = vec![];
    while let Some(entry) = iter.get_next() {
        stepped.push(entry);
    }
    assert_eq!(listed, waved);
    assert_eq!(listed, stepped);
    assert_eq!(iter.get_next(), None);
    let ls = basis.iter().position(|c| c.col_type == ColumnType::LongSquare(0, (1, 2), 3)).unwrap();
    assert_eq!(listed[ls], (2, vec![4, 5, 6, 7]));
}

#[test]
fn wave_sparsifier_stops_at_max_dim() {
    let edges = [(0, 1, 1), (0, 2, 3), (1, 2, 2)];
    let basis = full_basis(3, &edges, &get_rph_two_cells(&s1()));
    let sparse = RustParallelListSparsifier::new(1).sparsify(&basis);
    assert_eq!(sparse[6], (0, vec![]));
    assert_eq!(sparse[5], (1, vec![0, 2]));
}

#[test]
fn sparse_boundary_keeps_repeats() {
    let basis = vec![col(ColumnType::Node(0), 0), col(ColumnType::Edge(0, 0), 1)];
    assert_eq!(RustListSparsifier::new().sparsify(&basis)[1], (1, vec![0, 0]));
}

#[test]
fn identity_on_complete_basis() {
    let edges = [(0, 1, 1), (0, 2, 1), (0, 3, 10), (1, 3, 1), (2, 3, 1)];
    let basis = full_basis(4, &edges, &get_rph_two_cells(&s3()));
    let image = compute_map(&basis, &basis, &identity(4)).unwrap();
    let expected: Vec<Vec<usize>> = (0..basis.len()).map(|p| vec![p]).collect();
    assert_eq!(image, expected);
}

#[test]
fn sparsifier_runs_agree() {
    let edges = [(0, 1, 1), (0, 2, 3), (1, 2, 2)];
    let basis = full_basis(3, &edges, &get_rph_two_cells(&s1()));
    let mut sparsifier = RustParallelListSparsifier::new(2);
    assert_eq!(sparsifier.sparsify(&basis), sparsifier.sparsify(&basis));
    assert_eq!(RustListSparsifier::new().sparsify(&basis), RustListSparsifier::new().sparsify(&basis));
}
