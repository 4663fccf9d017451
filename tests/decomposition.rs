use grpphati_rs::columns::{ColumnType, GrpphatiRsColumn};
use grpphati_rs::homology::{get_rph_two_cells, EdgeMap};
use grpphati_rs::sparsifiers::check_boundaries_precede;
use grpphati_rs::sparsify_and_decompose;

fn col(col_type: ColumnType, t: u64) -> GrpphatiRsColumn {
    GrpphatiRsColumn { col_type, entrance_time: Some(t) }
}

fn triangle_basis() -> Vec<GrpphatiRsColumn> {
    let mut e = EdgeMap::new();
    e.insert(0, 1, 1);
    e.insert(0, 2, 3);
    e.insert(1, 2, 2);
    let mut cols = vec![
        col(ColumnType::Node(0), 0),
        col(ColumnType::Node(1), 0),
        col(ColumnType::Node(2), 0),
        col(ColumnType::Edge(0, 1), 1),
        col(ColumnType::Edge(1, 2), 2),
        col(ColumnType::Edge(0, 2), 3),
    ];
    cols.extend(get_rph_two_cells(&e));
    cols
}

#[test]
fn boundaries_precede_in_sorted_basis() {
    assert!(check_boundaries_precede(&triangle_basis()));
    assert!(check_boundaries_precede(&vec![]));
}

#[test]
fn boundary_after_its_cell_is_caught() {
    let mut cols = triangle_basis();
    cols.swap(3, 6);
    assert!(!check_boundaries_precede(&cols));
    let lone_edge = vec![col(ColumnType::Node(0), 0), col(ColumnType::Edge(0, 1), 1)];
    assert!(!check_boundaries_precede(&lone_edge));
}

#[test]
fn triangle_diagram() {
    let diagram = sparsify_and_decompose(&triangle_basis());
    let mut paired: Vec<(usize, usize)> = diagram.paired.iter().copied().collect();
    paired.sort();
    let mut unpaired: Vec<usize> = diagram.unpaired.iter().copied().collect();
    unpaired.sort();
    assert_eq!(paired, vec![(1, 3), (2, 4), (5, 6)]);
    assert_eq!(unpaired, vec![0]);
}

#[test]
fn empty_basis_diagram() {
    let diagram = sparsify_and_decompose(&vec![]);
    assert!(diagram.paired.is_empty());
    assert!(diagram.unpaired.is_empty());
}
