//! The cells of the RPH complex, their dimension and their boundary.
use vstd::prelude::*;

use crate::homology::TwoPathType;
use crate::{FiltrationTime, NodeIndex};

verus! {

/// The kind of a cell, with the vertices that determine it.
#[derive(Copy, Clone, PartialEq, Eq, Hash, Debug)]
pub enum ColumnType {
    /// `i → j → i`.
    DoubleEdge(NodeIndex, NodeIndex),
    /// `i → j → k` together with the chord `i → k`.
    Triangle(NodeIndex, NodeIndex, NodeIndex),
    /// `i → u → k` plus `i → w → k` where `u` is the base midpoint.
    LongSquare(NodeIndex, (NodeIndex, NodeIndex), NodeIndex),
    /// The directed edge `s → t`.
    Edge(NodeIndex, NodeIndex),
    /// A vertex.
    Node(NodeIndex),
}

/// What can go wrong in the operations of this library.
#[derive(Copy, Clone, PartialEq, Eq, Structural, Debug)]
pub enum GrpphatiError {
    /// A cell without an entrance time was asked for one.
    MissingEntranceTime,
    /// The vertex map has no image for a vertex of the domain basis.
    MalformedVertexMap,
    /// The codomain basis lacks a cell that an image needs.
    MalformedCodomainBasis,
    /// An input breaks an invariant of the classifier.
    MalformedInput,
    /// A bridge two-path was taken for a basis cell.
    BridgeTagInBasis,
}

/// A cell together with the time at which it enters the filtration, if any.
/// Equality of cells as keys goes by `col_type` alone.
#[derive(Copy, Clone, Debug)]
pub struct GrpphatiRsColumn {
    pub col_type: ColumnType,
    pub entrance_time: Option<FiltrationTime>,
}

pub open spec fn dim_of(c: ColumnType) -> nat {
    match c {
        ColumnType::DoubleEdge(_, _) => 2,
        ColumnType::Triangle(_, _, _) => 2,
        ColumnType::LongSquare(_, _, _) => 2,
        ColumnType::Edge(_, _) => 1,
        ColumnType::Node(_) => 0,
    }
}

/// The boundary of a cell, in canonical order.
pub open spec fn boundary_of(c: ColumnType) -> Seq<ColumnType> {
    match c {
        ColumnType::DoubleEdge(i, j) => seq![ColumnType::Edge(i, j), ColumnType::Edge(j, i)],
        ColumnType::Triangle(i, j, k) => seq![
            ColumnType::Edge(i, j),
            ColumnType::Edge(j, k),
            ColumnType::Edge(i, k),
        ],
        ColumnType::LongSquare(i, (u, w), k) => seq![
            ColumnType::Edge(i, u),
            ColumnType::Edge(i, w),
            ColumnType::Edge(u, k),
            ColumnType::Edge(w, k),
        ],
        ColumnType::Edge(i, j) => seq![ColumnType::Node(i), ColumnType::Node(j)],
        ColumnType::Node(_) => seq![],
    }
}

impl ColumnType {
    /// The cell that a two-path is, unless it is a bridge.
    pub fn try_from(value: TwoPathType) -> (r: Result<ColumnType, GrpphatiError>)
        ensures
            match value {
                TwoPathType::DoubleEdge(i, j) => r == Ok::<ColumnType, GrpphatiError>(
                    ColumnType::DoubleEdge(i, j),
                ),
                TwoPathType::Triangle(i, j, k) => r == Ok::<ColumnType, GrpphatiError>(
                    ColumnType::Triangle(i, j, k),
                ),
                TwoPathType::Bridge(_, _) => r == Err::<ColumnType, GrpphatiError>(
                    GrpphatiError::BridgeTagInBasis,
                ),
            },
    {
        match value {
            TwoPathType::DoubleEdge(i, j) => Ok(ColumnType::DoubleEdge(i, j)),
            TwoPathType::Triangle(i, j, k) => Ok(ColumnType::Triangle(i, j, k)),
            TwoPathType::Bridge(_, _) => Err(GrpphatiError::BridgeTagInBasis),
        }
    }
}

/// The cell named by a kind tag and its vertices, if the tag is known and
/// enough vertices are given.
pub open spec fn column_type_of(tag: Seq<char>, data: Seq<NodeIndex>) -> Option<ColumnType> {
    if tag == "DoubleEdge"@ && data.len() >= 2 {
        Some(ColumnType::DoubleEdge(data[0], data[1]))
    } else if tag == "Triangle"@ && data.len() >= 3 {
        Some(ColumnType::Triangle(data[0], data[1], data[2]))
    } else if tag == "LongSquare"@ && data.len() >= 4 {
        Some(ColumnType::LongSquare(data[0], (data[1], data[2]), data[3]))
    } else if tag == "Edge"@ && data.len() >= 2 {
        Some(ColumnType::Edge(data[0], data[1]))
    } else if tag == "Node"@ && data.len() >= 1 {
        Some(ColumnType::Node(data[0]))
    } else {
        None
    }
}

impl GrpphatiRsColumn {
    /// The cell named by a kind tag (`DoubleEdge`, `Triangle`, `LongSquare`,
    /// `Edge` or `Node`) and its vertices in order.
    pub fn new(col_type_str: &str, data: &Vec<NodeIndex>, entrance_time: Option<FiltrationTime>) -> (r: Result<
        GrpphatiRsColumn,
        GrpphatiError,
    >)
        ensures
            match column_type_of(col_type_str@, data@) {
                Some(c) => r == Ok::<GrpphatiRsColumn, GrpphatiError>(
                    GrpphatiRsColumn { col_type: c, entrance_time },
                ),
                None => r == Err::<GrpphatiRsColumn, GrpphatiError>(GrpphatiError::MalformedInput),
            },
    {
        let tag = col_type_str.to_owned();
        let col_type = if tag == "DoubleEdge".to_owned() && data.len() >= 2 {
            ColumnType::DoubleEdge(data[0], data[1])
        } else if tag == "Triangle".to_owned() && data.len() >= 3 {
            ColumnType::Triangle(data[0], data[1], data[2])
        } else if tag == "LongSquare".to_owned() && data.len() >= 4 {
            ColumnType::LongSquare(data[0], (data[1], data[2]), data[3])
        } else if tag == "Edge".to_owned() && data.len() >= 2 {
            ColumnType::Edge(data[0], data[1])
        } else if tag == "Node".to_owned() && data.len() >= 1 {
            ColumnType::Node(data[0])
        } else {
            return Err(GrpphatiError::MalformedInput);
        };
        Ok(GrpphatiRsColumn { col_type, entrance_time })
    }

    /// A cell as a key: no entrance time.
    pub fn key(col_type: ColumnType) -> (r: GrpphatiRsColumn)
        ensures
            r.col_type == col_type,
            r.entrance_time is None,
    {
        GrpphatiRsColumn { col_type, entrance_time: None }
    }

    pub fn dimension(&self) -> (r: usize)
        ensures
            r == dim_of(self.col_type),
    {
        match self.col_type {
            ColumnType::DoubleEdge(_, _) => 2,
            ColumnType::Triangle(_, _, _) => 2,
            ColumnType::LongSquare(_, _, _) => 2,
            ColumnType::Edge(_, _) => 1,
            ColumnType::Node(_) => 0,
        }
    }

    pub fn get_entrance_time(&self) -> (r: Result<FiltrationTime, GrpphatiError>)
        ensures
            match self.entrance_time {
                Some(t) => r == Ok::<FiltrationTime, GrpphatiError>(t),
                None => r == Err::<FiltrationTime, GrpphatiError>(
                    GrpphatiError::MissingEntranceTime,
                ),
            },
    {
        match self.entrance_time {
            Some(t) => Ok(t),
            None => Err(GrpphatiError::MissingEntranceTime),
        }
    }

    /// The cells of the boundary, in canonical order, without entrance times.
    pub fn boundary(&self) -> (r: Vec<GrpphatiRsColumn>)
        ensures
            r@.len() == boundary_of(self.col_type).len(),
            forall|n: int|
                0 <= n < r@.len() ==> (#[trigger] r@[n]).col_type == boundary_of(self.col_type)[n]
                    && r@[n].entrance_time is None,
    {
        match self.col_type {
            ColumnType::DoubleEdge(i, j) => vec![
                GrpphatiRsColumn::key(ColumnType::Edge(i, j)),
                GrpphatiRsColumn::key(ColumnType::Edge(j, i)),
            ],
            ColumnType::Triangle(i, j, k) => vec![
                GrpphatiRsColumn::key(ColumnType::Edge(i, j)),
                GrpphatiRsColumn::key(ColumnType::Edge(j, k)),
                GrpphatiRsColumn::key(ColumnType::Edge(i, k)),
            ],
            ColumnType::LongSquare(start, midpoints, end) => vec![
                GrpphatiRsColumn::key(ColumnType::Edge(start, midpoints.0)),
                GrpphatiRsColumn::key(ColumnType::Edge(start, midpoints.1)),
                GrpphatiRsColumn::key(ColumnType::Edge(midpoints.0, end)),
                GrpphatiRsColumn::key(ColumnType::Edge(midpoints.1, end)),
            ],
            ColumnType::Edge(i, j) => vec![
                GrpphatiRsColumn::key(ColumnType::Node(i)),
                GrpphatiRsColumn::key(ColumnType::Node(j)),
            ],
            ColumnType::Node(_) => vec![],
        }
    }
}

/// Every cell of the boundary of a cell has dimension one less.
pub proof fn lemma_boundary_dimension(c: ColumnType)
    ensures
        forall|n: int|
            0 <= n < boundary_of(c).len() ==> dim_of(#[trigger] boundary_of(c)[n]) + 1 == dim_of(c),
{
}

} // verus!
