//! Lookup tables from cell keys to positions, backed by `dashmap::DashMap`.
//!
//! Verus sees a `DashMap` as an opaque value; what it holds is named by one
//! spec function per key type, and each wrapper states what it does to that.
use vstd::prelude::*;

use crate::NodeIndex;
use dashmap::DashMap;

verus! {

#[verifier::external_type_specification]
#[verifier::external_body]
#[verifier::reject_recursive_types(K)]
#[verifier::reject_recursive_types(V)]
#[verifier::reject_recursive_types(S)]
pub struct ExDashMap<K, V, S>(DashMap<K, V, S>);

/// A table from vertices to positions.
pub type NodeTable = DashMap<NodeIndex, usize>;

/// A table from pairs of vertices to positions.
pub type PairTable = DashMap<(NodeIndex, NodeIndex), usize>;

/// A table from triples of vertices to positions.
pub type TripleTable = DashMap<(NodeIndex, NodeIndex, NodeIndex), usize>;

/// What a table keyed by vertex holds.
pub uninterp spec fn node_entries(m: NodeTable) -> Map<NodeIndex, usize>;

/// What a table keyed by a pair of vertices holds.
pub uninterp spec fn pair_entries(m: PairTable) -> Map<
    (NodeIndex, NodeIndex),
    usize,
>;

/// What a table keyed by a triple of vertices holds.
pub uninterp spec fn triple_entries(m: TripleTable) -> Map<
    (NodeIndex, NodeIndex, NodeIndex),
    usize,
>;

/// Relies on `DashMap::new`: a map with no entries.
#[verifier::external_body]
pub(crate) fn new_node_table() -> (r: NodeTable)
    ensures
        node_entries(r).dom().is_empty(),
{
    DashMap::new()
}

/// Relies on `DashMap::insert`: afterwards the key maps to the value, and no
/// other entry changes.
#[verifier::external_body]
pub(crate) fn node_table_insert(m: &mut NodeTable, key: NodeIndex, value: usize)
    ensures
        node_entries(*final(m)) == node_entries(*old(m)).insert(key, value),
{
    m.insert(key, value);
}

/// Relies on `DashMap::get`: the value of the key, if the map holds it.
#[verifier::external_body]
pub(crate) fn node_table_get(m: &NodeTable, key: NodeIndex) -> (r: Option<usize>)
    ensures
        r == (if node_entries(*m).contains_key(key) {
            Some(node_entries(*m)[key])
        } else {
            None
        }),
{
    m.get(&key).map(|entry| *entry.value())
}

/// Relies on `DashMap::new`: a map with no entries.
#[verifier::external_body]
pub(crate) fn new_pair_table() -> (r: PairTable)
    ensures
        pair_entries(r).dom().is_empty(),
{
    DashMap::new()
}

/// Relies on `DashMap::insert`: afterwards the key maps to the value, and no
/// other entry changes.
#[verifier::external_body]
pub(crate) fn pair_table_insert(
    m: &mut PairTable,
    key: (NodeIndex, NodeIndex),
    value: usize,
)
    ensures
        pair_entries(*final(m)) == pair_entries(*old(m)).insert(key, value),
{
    m.insert(key, value);
}

/// Relies on `DashMap::get`: the value of the key, if the map holds it.
#[verifier::external_body]
pub(crate) fn pair_table_get(m: &PairTable, key: (NodeIndex, NodeIndex)) -> (r:
    Option<usize>)
    ensures
        r == (if pair_entries(*m).contains_key(key) {
            Some(pair_entries(*m)[key])
        } else {
            None
        }),
{
    m.get(&key).map(|entry| *entry.value())
}

/// Relies on `DashMap::new`: a map with no entries.
#[verifier::external_body]
pub(crate) fn new_triple_table() -> (r: TripleTable)
    ensures
        triple_entries(r).dom().is_empty(),
{
    DashMap::new()
}

/// Relies on `DashMap::insert`: afterwards the key maps to the value, and no
/// other entry changes.
#[verifier::external_body]
pub(crate) fn triple_table_insert(
    m: &mut TripleTable,
    key: (NodeIndex, NodeIndex, NodeIndex),
    value: usize,
)
    ensures
        triple_entries(*final(m)) == triple_entries(*old(m)).insert(key, value),
{
    m.insert(key, value);
}

/// Relies on `DashMap::get`: the value of the key, if the map holds it.
#[verifier::external_body]
pub(crate) fn triple_table_get(
    m: &TripleTable,
    key: (NodeIndex, NodeIndex, NodeIndex),
) -> (r: Option<usize>)
    ensures
        r == (if triple_entries(*m).contains_key(key) {
            Some(triple_entries(*m)[key])
        } else {
            None
        }),
{
    m.get(&key).map(|entry| *entry.value())
}

} // verus!
