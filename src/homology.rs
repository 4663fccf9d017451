//! Enumeration and classification of the two-paths of a filtered digraph, and
//! the sorted RPH 2-cell basis built from them.
use vstd::prelude::*;

use crate::columns::{ColumnType, GrpphatiRsColumn};
use std::cmp::Ordering;
use crate::{FiltrationTime, NodeIndex, NEVER};

verus! {

/// The filtered edges of a digraph: for each source, its targets with the time
/// at which each edge enters. An absent edge enters at [`NEVER`].
pub struct EdgeMap {
    rows: Vec<Vec<(NodeIndex, FiltrationTime)>>,
    times: Ghost<Map<(NodeIndex, NodeIndex), FiltrationTime>>,
}

impl View for EdgeMap {
    type V = Map<(NodeIndex, NodeIndex), FiltrationTime>;

    closed spec fn view(&self) -> Self::V {
        self.times@
    }
}

/// The time at which the edge `s → t` enters.
pub open spec fn etime(e: Map<(NodeIndex, NodeIndex), FiltrationTime>, s: NodeIndex, t: NodeIndex) -> FiltrationTime {
    if e.contains_key((s, t)) {
        e[(s, t)]
    } else {
        NEVER
    }
}

/// `s → m → t` is a two-path of the graph.
pub open spec fn is_two_path(e: Map<(NodeIndex, NodeIndex), FiltrationTime>, s: NodeIndex, m: NodeIndex, t: NodeIndex) -> bool {
    e.contains_key((s, m)) && e.contains_key((m, t))
}

pub open spec fn max_time(a: FiltrationTime, b: FiltrationTime) -> FiltrationTime {
    if a >= b {
        a
    } else {
        b
    }
}

/// The time at which the two-path `s → m → t` enters.
pub open spec fn path_time(e: Map<(NodeIndex, NodeIndex), FiltrationTime>, s: NodeIndex, m: NodeIndex, t: NodeIndex) -> FiltrationTime {
    max_time(etime(e, s, m), etime(e, m, t))
}

/// An enumerated two-path with its path time.
pub type TimedTwoPath = ((NodeIndex, NodeIndex, NodeIndex), FiltrationTime);

/// `p` is a two-path of `e` carrying its path time.
pub open spec fn is_timed_two_path(e: Map<(NodeIndex, NodeIndex), FiltrationTime>, p: TimedTwoPath) -> bool {
    is_two_path(e, p.0.0, p.0.1, p.0.2) && p.1 == path_time(e, p.0.0, p.0.1, p.0.2)
}

/// `s → m → t` is a bridge: a two-path between distinct ends whose chord
/// `s → t` enters strictly later than the path.
pub open spec fn is_bridge(e: Map<(NodeIndex, NodeIndex), FiltrationTime>, s: NodeIndex, m: NodeIndex, t: NodeIndex) -> bool {
    is_two_path(e, s, m, t) && s != t && path_time(e, s, m, t) < etime(e, s, t)
}

/// Within the bridges from `s` to `t`, the one through `m1` comes no later than
/// the one through `m2`: by path time, then by midpoint.
pub open spec fn bridge_precedes(
    e: Map<(NodeIndex, NodeIndex), FiltrationTime>,
    s: NodeIndex,
    m1: NodeIndex,
    m2: NodeIndex,
    t: NodeIndex,
) -> bool {
    path_time(e, s, m1, t) < path_time(e, s, m2, t) || (path_time(e, s, m1, t) == path_time(e, s, m2, t)
        && m1 <= m2)
}

/// `m` is the base midpoint of the bridges from `s` to `t`: the first of them.
pub open spec fn is_base(e: Map<(NodeIndex, NodeIndex), FiltrationTime>, s: NodeIndex, m: NodeIndex, t: NodeIndex) -> bool {
    &&& is_bridge(e, s, m, t)
    &&& forall|m2: NodeIndex| #[trigger] is_bridge(e, s, m2, t) ==> bridge_precedes(e, s, m, m2, t)
}

/// The 2-cells of the RPH basis of `e`.
pub open spec fn in_rph_basis(e: Map<(NodeIndex, NodeIndex), FiltrationTime>, c: ColumnType) -> bool {
    match c {
        ColumnType::DoubleEdge(i, j) => is_two_path(e, i, j, i),
        ColumnType::Triangle(i, j, k) => i != k && is_two_path(e, i, j, k) && (etime(e, i, k)
            <= path_time(e, i, j, k) || is_base(e, i, j, k)),
        ColumnType::LongSquare(i, (u, w), k) => is_base(e, i, u, k) && is_bridge(e, i, w, k) && u != w,
        _ => false,
    }
}

/// The entrance time of a 2-cell of the RPH basis of `e`.
pub open spec fn rph_time(e: Map<(NodeIndex, NodeIndex), FiltrationTime>, c: ColumnType) -> FiltrationTime {
    match c {
        ColumnType::DoubleEdge(i, j) => path_time(e, i, j, i),
        ColumnType::Triangle(i, j, k) => max_time(path_time(e, i, j, k), etime(e, i, k)),
        ColumnType::LongSquare(i, (u, w), k) => path_time(e, i, w, k),
        _ => 0,
    }
}

/// `c` is a cell of the RPH basis of `e`, with its entrance time.
pub open spec fn is_rph_cell(e: Map<(NodeIndex, NodeIndex), FiltrationTime>, c: GrpphatiRsColumn) -> bool {
    in_rph_basis(e, c.col_type) && c.entrance_time == Some(rph_time(e, c.col_type))
}

/// A cell that one two-path gives by itself: a double edge, or a triangle whose
/// chord is there by the time of the path.
pub open spec fn is_immediate_cell(e: Map<(NodeIndex, NodeIndex), FiltrationTime>, c: GrpphatiRsColumn) -> bool {
    is_rph_cell(e, c) && match c.col_type {
        ColumnType::DoubleEdge(_, _) => true,
        ColumnType::Triangle(i, j, k) => etime(e, i, k) <= path_time(e, i, j, k),
        _ => false,
    }
}

/// A cell that a group of bridges gives: its collapsing triangle or a long square.
pub open spec fn is_bridge_cell(e: Map<(NodeIndex, NodeIndex), FiltrationTime>, c: GrpphatiRsColumn) -> bool {
    is_rph_cell(e, c) && match c.col_type {
        ColumnType::Triangle(i, j, k) => is_base(e, i, j, k),
        ColumnType::LongSquare(_, _, _) => true,
        _ => false,
    }
}

/// A bridge: its ends, its midpoint and its path time.
pub type TimedBridge = ((NodeIndex, NodeIndex), (NodeIndex, FiltrationTime));

pub open spec fn is_timed_bridge(e: Map<(NodeIndex, NodeIndex), FiltrationTime>, b: TimedBridge) -> bool {
    is_bridge(e, b.0.0, b.1.0, b.0.1) && b.1.1 == path_time(e, b.0.0, b.1.0, b.0.1)
}

/// The bridge from which a bridge cell is built.
pub open spec fn generating_bridge(e: Map<(NodeIndex, NodeIndex), FiltrationTime>, c: ColumnType) -> TimedBridge {
    match c {
        ColumnType::Triangle(i, j, k) => ((i, k), (j, path_time(e, i, j, k))),
        ColumnType::LongSquare(i, (u, w), k) => ((i, k), (w, path_time(e, i, w, k))),
        _ => ((0, 0), (0, 0)),
    }
}

/// The kind of a two-path.
#[derive(Copy, Clone, Debug)]
pub enum TwoPathType {
    /// `(i, j)`: `i → j → i`.
    DoubleEdge(NodeIndex, NodeIndex),
    /// `(i, j, k)`: `i → j → k` with `i → k` there by the time of the path.
    Triangle(NodeIndex, NodeIndex, NodeIndex),
    /// `((i, k), j)`: `i → j → k` with `i → k` entering strictly later.
    Bridge((NodeIndex, NodeIndex), NodeIndex),
}

/// A classified two-path and the time at which it enters.
pub struct TwoPathWithTime {
    pub two_path: TwoPathType,
    pub entrance_time: FiltrationTime,
}

/// The two-paths split into ready cells and bridges.
pub struct TwoPathFold {
    /// Cells that go to the basis as they are.
    pub cols: Vec<GrpphatiRsColumn>,
    /// Bridges, each with its ends.
    pub bridges: Vec<TimedBridge>,
}

impl EdgeMap {
    /// Row `s` lists exactly the edges out of `s`, each target once.
    pub closed spec fn wf(&self) -> bool {
        &&& self.rows@.len() <= 0x1_0000_0000
        &&& forall|s: int, j: int|
            0 <= s < self.rows@.len() && 0 <= j < self.rows@[s]@.len() ==> {
                let (t, time) = #[trigger] self.rows@[s]@[j];
                self.times@.contains_key((s as NodeIndex, t)) && self.times@[(s as NodeIndex, t)] == time
            }
        &&& forall|s: int, j1: int, j2: int|
            0 <= s < self.rows@.len() && 0 <= j1 < self.rows@[s]@.len() && 0 <= j2
                < self.rows@[s]@.len() && j1 != j2 ==> (#[trigger] self.rows@[s]@[j1]).0
                != (#[trigger] self.rows@[s]@[j2]).0
        &&& forall|k: (NodeIndex, NodeIndex)|
            #![trigger self.times@.contains_key(k)]
            self.times@.contains_key(k) ==> (k.0 as int) < self.rows@.len() && exists|j: int|
                0 <= j < self.rows@[k.0 as int]@.len() && (#[trigger] self.rows@[k.0 as int]@[j]).0
                    == k.1
    }

    /// The graph with no edges.
    pub fn new() -> (r: EdgeMap)
        ensures
            r.wf(),
            r@ == Map::<(NodeIndex, NodeIndex), FiltrationTime>::empty(),
    {
        EdgeMap { rows: Vec::new(), times: Ghost(Map::empty()) }
    }

    /// Sets the entrance time of the edge `s → t`, replacing an earlier one.
    pub fn insert(&mut self, s: NodeIndex, t: NodeIndex, time: FiltrationTime)
        requires
            old(self).wf(),
        ensures
            final(self).wf(),
            final(self)@ == old(self)@.insert((s, t), time),
    {
        while self.rows.len() <= s as usize
            invariant
                self.wf(),
                self@ == old(self)@,
            decreases s as int + 1 - self.rows@.len(),
        {
            let ghost before = self.rows@;
            self.rows.push(Vec::new());
            proof {
                assert forall|k: (NodeIndex, NodeIndex)| self.times@.contains_key(k) implies (k.0 as int)
                    < self.rows@.len() && exists|j: int|
                    0 <= j < self.rows@[k.0 as int]@.len() && (#[trigger] self.rows@[k.0 as int]@[j]).0
                        == k.1 by {
                    let j = choose|j: int|
                        0 <= j < before[k.0 as int]@.len() && (#[trigger] before[k.0 as int]@[j]).0
                            == k.1;
                    assert(self.rows@[k.0 as int] == before[k.0 as int]);
                }
            }
        }
        let si = s as usize;
        let n = self.rows[si].len();
        let mut j: usize = 0;
        while j < n
            invariant
                self.wf(),
                self@ == old(self)@,
                si == s as usize,
                si < self.rows@.len(),
                n == self.rows@[si as int]@.len(),
                0 <= j <= n,
                forall|l: int| 0 <= l < j ==> (#[trigger] self.rows@[si as int]@[l]).0 != t,
            decreases n - j,
        {
            if self.rows[si][j].0 == t {
                let ghost before = self.rows@;
                self.rows[si].set(j, (t, time));
                self.times = Ghost(self.times@.insert((s, t), time));
                proof {
                    assert forall|k: (NodeIndex, NodeIndex)| self.times@.contains_key(k) implies (k.0
                        as int) < self.rows@.len() && exists|l: int|
                        0 <= l < self.rows@[k.0 as int]@.len() && (#[trigger] self.rows@[k.0
                            as int]@[l]).0 == k.1 by {
                        if k == (s, t) {
                            assert(self.rows@[si as int]@[j as int].0 == t);
                        } else {
                            let l = choose|l: int|
                                0 <= l < before[k.0 as int]@.len() && (#[trigger] before[k.0
                                    as int]@[l]).0 == k.1;
                            assert(self.rows@[k.0 as int]@[l].0 == k.1);
                        }
                    }
                }
                return;
            }
            j += 1;
        }
        let ghost before = self.rows@;
        self.rows[si].push((t, time));
        self.times = Ghost(self.times@.insert((s, t), time));
        proof {
            assert forall|k: (NodeIndex, NodeIndex)| self.times@.contains_key(k) implies (k.0 as int)
                < self.rows@.len() && exists|l: int|
                0 <= l < self.rows@[k.0 as int]@.len() && (#[trigger] self.rows@[k.0
                    as int]@[l]).0 == k.1 by {
                if k == (s, t) {
                    assert(self.rows@[si as int]@[n as int].0 == t);
                } else {
                    let l = choose|l: int|
                        0 <= l < before[k.0 as int]@.len() && (#[trigger] before[k.0 as int]@[l]).0
                            == k.1;
                    assert(self.rows@[k.0 as int]@[l].0 == k.1);
                }
            }
        }
    }

    /// The time at which `s → t` enters.
    pub fn edge_time(&self, s: NodeIndex, t: NodeIndex) -> (r: FiltrationTime)
        requires
            self.wf(),
        ensures
            r == etime(self@, s, t),
    {
        let si = s as usize;
        if si >= self.rows.len() {
            return NEVER;
        }
        let row = &self.rows[si];
        let mut j: usize = 0;
        while j < row.len()
            invariant
                self.wf(),
                si < self.rows@.len(),
                si == s as usize,
                row@ == self.rows@[si as int]@,
                0 <= j <= row@.len(),
                forall|l: int| 0 <= l < j ==> (#[trigger] row@[l]).0 != t,
            decreases row@.len() - j,
        {
            if row[j].0 == t {
                return row[j].1;
            }
            j += 1;
        }
        NEVER
    }
}

/// Appends every two-path `s → m → t`, for the edge `s → m` entering at `first_hop`.
fn push_paths_through(
    edge_map: &EdgeMap,
    s: NodeIndex,
    m: NodeIndex,
    first_hop: FiltrationTime,
    out: &mut Vec<TimedTwoPath>,
)
    requires
        edge_map.wf(),
        edge_map@.contains_key((s, m)),
        edge_map@[(s, m)] == first_hop,
        old(out)@.no_duplicates(),
        forall|p: TimedTwoPath| #[trigger] old(out)@.contains(p) ==> !(p.0.0 == s && p.0.1 == m),
    ensures
        forall|p: TimedTwoPath|
            #[trigger] final(out)@.contains(p) <==> old(out)@.contains(p) || (p.0.0 == s && p.0.1 == m
                && is_timed_two_path(edge_map@, p)),
        final(out)@.no_duplicates(),
{
    let mi = m as usize;
    if mi >= edge_map.rows.len() {
        proof {
            assert forall|p: TimedTwoPath| old(out)@.contains(p) || (p.0.0 == s && p.0.1 == m
                && is_timed_two_path(edge_map@, p)) implies #[trigger] out@.contains(p) by {
                if !old(out)@.contains(p) && p.0.1 == m {
                    assert(!edge_map@.contains_key((m, p.0.2)));
                }
            }
        }
        return;
    }
    let row = &edge_map.rows[mi];
    let mut l: usize = 0;
    while l < row.len()
        invariant
            edge_map.wf(),
            edge_map@.contains_key((s, m)),
            edge_map@[(s, m)] == first_hop,
            mi == m as usize,
            mi < edge_map.rows@.len(),
            row@ == edge_map.rows@[mi as int]@,
            0 <= l <= row@.len(),
            forall|p: TimedTwoPath| #[trigger] old(out)@.contains(p) ==> !(p.0.0 == s && p.0.1 == m),
            out@.no_duplicates(),
            forall|p: TimedTwoPath|
                #[trigger] out@.contains(p) <==> old(out)@.contains(p) || (p.0.0 == s && p.0.1 == m
                    && is_timed_two_path(edge_map@, p) && exists|q: int|
                    0 <= q < l && (#[trigger] row@[q]).0 == p.0.2),
        decreases row@.len() - l,
    {
        let (t, second_hop) = row[l];
        let time = if first_hop >= second_hop {
            first_hop
        } else {
            second_hop
        };
        let ghost before = out@;
        let item: TimedTwoPath = ((s, m, t), time);
        proof {
            if out@.contains(item) {
                assert(!old(out)@.contains(item));
                let q = choose|q: int| 0 <= q < l && (#[trigger] row@[q]).0 == item.0.2;
                assert(edge_map.rows@[mi as int]@[q].0 == edge_map.rows@[mi as int]@[l as int].0);
            }
            lemma_push_no_duplicates(out@, item);
        }
        out.push(item);
        proof {
            assert(edge_map@.contains_key((m, t)) && edge_map@[(m, t)] == second_hop);
            assert(is_timed_two_path(edge_map@, item));
            assert forall|p: TimedTwoPath| #[trigger] out@.contains(p) <==> old(out)@.contains(p) || (p.0.0
                == s && p.0.1 == m && is_timed_two_path(edge_map@, p) && exists|q: int|
                0 <= q < l + 1 && (#[trigger] row@[q]).0 == p.0.2) by {
                if out@.contains(p) && p != item {
                    let i = choose|i: int| 0 <= i < out@.len() && out@[i] == p;
                    assert(before[i] == p);
                }
                if before.contains(p) {
                    let i = choose|i: int| 0 <= i < before.len() && before[i] == p;
                    assert(out@[i] == p);
                }
                if p == item {
                    assert(out@[before.len() as int] == p);
                }
                if p.0.0 == s && p.0.1 == m && is_timed_two_path(edge_map@, p) && exists|q: int|
                    0 <= q < l + 1 && (#[trigger] row@[q]).0 == p.0.2 {
                    let q = choose|q: int| 0 <= q < l + 1 && (#[trigger] row@[q]).0 == p.0.2;
                    if q == l {
                        assert(p.0.2 == t);
                        assert(p == item);
                    }
                }
            }
        }
        l += 1;
    }
    proof {
        assert forall|p: TimedTwoPath| p.0.0 == s && p.0.1 == m && is_timed_two_path(edge_map@, p)
            implies #[trigger] out@.contains(p) by {
            assert(edge_map@.contains_key((m, p.0.2)));
            let q = choose|q: int|
                0 <= q < edge_map.rows@[m as int]@.len() && (#[trigger] edge_map.rows@[m as int]@[q]).0
                    == p.0.2;
            assert(row@[q].0 == p.0.2);
        }
    }
}

/// Appends every two-path that starts at `s`.
fn push_paths_from(edge_map: &EdgeMap, s: usize, out: &mut Vec<TimedTwoPath>)
    requires
        edge_map.wf(),
        s < edge_map.rows@.len(),
        old(out)@.no_duplicates(),
        forall|p: TimedTwoPath| #[trigger] old(out)@.contains(p) ==> p.0.0 != s as NodeIndex,
    ensures
        forall|p: TimedTwoPath|
            #[trigger] final(out)@.contains(p) <==> old(out)@.contains(p) || (p.0.0 == s as NodeIndex
                && is_timed_two_path(edge_map@, p)),
        final(out)@.no_duplicates(),
{
    let row = &edge_map.rows[s];
    let mut j: usize = 0;
    while j < row.len()
        invariant
            edge_map.wf(),
            s < edge_map.rows@.len(),
            row@ == edge_map.rows@[s as int]@,
            0 <= j <= row@.len(),
            forall|p: TimedTwoPath| #[trigger] old(out)@.contains(p) ==> p.0.0 != s as NodeIndex,
            out@.no_duplicates(),
            forall|p: TimedTwoPath|
                #[trigger] out@.contains(p) <==> old(out)@.contains(p) || (p.0.0 == s as NodeIndex
                    && is_timed_two_path(edge_map@, p) && exists|q: int|
                    0 <= q < j && (#[trigger] row@[q]).0 == p.0.1),
        decreases row@.len() - j,
    {
        let (m, first_hop) = row[j];
        proof {
            assert(edge_map@.contains_key((s as NodeIndex, m)));
        }
        let ghost before = out@;
        proof {
            assert forall|p: TimedTwoPath| #[trigger] out@.contains(p) implies !(p.0.0 == s as NodeIndex
                && p.0.1 == m) by {
                if !old(out)@.contains(p) {
                    let q = choose|q: int| 0 <= q < j && (#[trigger] row@[q]).0 == p.0.1;
                    if p.0.1 == m {
                        assert(edge_map.rows@[s as int]@[q].0 == edge_map.rows@[s as int]@[j as int].0);
                    }
                }
            }
        }
        push_paths_through(edge_map, s as NodeIndex, m, first_hop, out);
        proof {
            assert forall|p: TimedTwoPath| #[trigger] out@.contains(p) <==> old(out)@.contains(p) || (p.0.0
                == s as NodeIndex && is_timed_two_path(edge_map@, p) && exists|q: int|
                0 <= q < j + 1 && (#[trigger] row@[q]).0 == p.0.1) by {
                if p.0.0 == s as NodeIndex && is_timed_two_path(edge_map@, p) && exists|q: int|
                    0 <= q < j + 1 && (#[trigger] row@[q]).0 == p.0.1 {
                    let q = choose|q: int| 0 <= q < j + 1 && (#[trigger] row@[q]).0 == p.0.1;
                    if q == j {
                        assert(p.0.1 == m);
                    }
                }
            }
        }
        j += 1;
    }
    proof {
        assert forall|p: TimedTwoPath| p.0.0 == s as NodeIndex && is_timed_two_path(edge_map@, p)
            implies #[trigger] out@.contains(p) by {
            assert(edge_map@.contains_key((p.0.0, p.0.1)));
            let q = choose|q: int|
                0 <= q < edge_map.rows@[p.0.0 as int]@.len() && (#[trigger] edge_map.rows@[p.0.0
                    as int]@[q]).0 == p.0.1;
            assert(row@[q].0 == p.0.1);
        }
    }
}

/// Every two-path of the graph with its path time.
pub fn enumerate_two_paths(edge_map: &EdgeMap) -> (r: Vec<TimedTwoPath>)
    requires
        edge_map.wf(),
    ensures
        forall|p: TimedTwoPath| #[trigger] r@.contains(p) <==> is_timed_two_path(edge_map@, p),
        r@.no_duplicates(),
{
    let mut out: Vec<TimedTwoPath> = Vec::new();
    let mut s: usize = 0;
    while s < edge_map.rows.len()
        invariant
            edge_map.wf(),
            0 <= s <= edge_map.rows@.len(),
            forall|p: TimedTwoPath|
                #[trigger] out@.contains(p) <==> (p.0.0 as int) < s && is_timed_two_path(edge_map@, p),
            out@.no_duplicates(),
        decreases edge_map.rows@.len() - s,
    {
        push_paths_from(edge_map, s, &mut out);
        s += 1;
    }
    proof {
        assert forall|p: TimedTwoPath| is_timed_two_path(edge_map@, p) implies #[trigger] out@.contains(
            p) by {
            assert(edge_map@.contains_key((p.0.0, p.0.1)));
        }
    }
    out
}

/// Classifies a two-path of the graph.
pub fn classify_two_path(edge_map: &EdgeMap, p: TimedTwoPath) -> (r: TwoPathWithTime)
    requires
        edge_map.wf(),
    ensures
        r.entrance_time == p.1,
        match r.two_path {
            TwoPathType::DoubleEdge(i, j) => p.0.0 == p.0.2 && i == p.0.0 && j == p.0.1,
            TwoPathType::Triangle(i, j, k) => p.0.0 != p.0.2 && (i, j, k) == p.0 && etime(
                edge_map@,
                i,
                k,
            ) <= p.1,
            TwoPathType::Bridge((i, k), j) => p.0.0 != p.0.2 && (i, j, k) == p.0 && p.1 < etime(
                edge_map@,
                i,
                k,
            ),
        },
{
    let ((s, m, t), time) = p;
    if s == t {
        TwoPathWithTime { two_path: TwoPathType::DoubleEdge(s, m), entrance_time: time }
    } else if edge_map.edge_time(s, t) <= time {
        TwoPathWithTime { two_path: TwoPathType::Triangle(s, m, t), entrance_time: time }
    } else {
        TwoPathWithTime { two_path: TwoPathType::Bridge((s, t), m), entrance_time: time }
    }
}

/// Splits the two-paths of the graph into the cells they give by themselves and
/// the bridges.
fn split_off_bridges(edge_map: &EdgeMap, two_paths: &Vec<TimedTwoPath>) -> (r: TwoPathFold)
    requires
        edge_map.wf(),
        forall|p: TimedTwoPath| #[trigger] two_paths@.contains(p) <==> is_timed_two_path(edge_map@, p),
        two_paths@.no_duplicates(),
    ensures
        forall|c: GrpphatiRsColumn| #[trigger] r.cols@.contains(c) <==> is_immediate_cell(edge_map@, c),
        forall|b: TimedBridge| #[trigger] r.bridges@.contains(b) <==> is_timed_bridge(edge_map@, b),
        r.cols@.no_duplicates(),
        r.bridges@.no_duplicates(),
{
    let mut cols: Vec<GrpphatiRsColumn> = Vec::new();
    let mut bridges: Vec<TimedBridge> = Vec::new();
    let mut n: usize = 0;
    while n < two_paths.len()
        invariant
            edge_map.wf(),
            0 <= n <= two_paths@.len(),
            forall|p: TimedTwoPath| #[trigger] two_paths@.contains(p) <==> is_timed_two_path(edge_map@, p),
            two_paths@.no_duplicates(),
            cols@.no_duplicates(),
            bridges@.no_duplicates(),
            forall|c: GrpphatiRsColumn|
                #[trigger] cols@.contains(c) <==> is_immediate_cell(edge_map@, c) && exists|q: int|
                    0 <= q < n && #[trigger] two_paths@[q] == immediate_source(edge_map@, c),
            forall|b: TimedBridge|
                #[trigger] bridges@.contains(b) <==> is_timed_bridge(edge_map@, b) && exists|q: int|
                    0 <= q < n && #[trigger] two_paths@[q] == bridge_source(b),
        decreases two_paths@.len() - n,
    {
        let p = two_paths[n];
        proof {
            assert(two_paths@.contains(p));
        }
        let classified = classify_two_path(edge_map, p);
        let ghost old_cols = cols@;
        let ghost old_bridges = bridges@;
        match classified.two_path {
            TwoPathType::Bridge(ends, mid) => {
                let b: TimedBridge = (ends, (mid, classified.entrance_time));
                proof {
                    if bridges@.contains(b) {
                        let q = choose|q: int| 0 <= q < n && #[trigger] two_paths@[q] == bridge_source(b);
                        assert(two_paths@[q] == two_paths@[n as int]);
                    }
                    lemma_push_no_duplicates(bridges@, b);
                }
                bridges.push(b);
                proof {
                    assert(bridges@[old_bridges.len() as int] == b);
                    assert forall|c: GrpphatiRsColumn| #[trigger] cols@.contains(c) <==> is_immediate_cell(
                        edge_map@,
                        c,
                    ) && exists|q: int| 0 <= q < n + 1 && #[trigger] two_paths@[q] == immediate_source(
                        edge_map@,
                        c,
                    ) by {
                        if is_immediate_cell(edge_map@, c) && two_paths@[n as int] == immediate_source(
                            edge_map@,
                            c,
                        ) {
                            assert(false);
                        }
                    }
                    assert forall|x: TimedBridge| #[trigger] bridges@.contains(x) <==> is_timed_bridge(
                        edge_map@,
                        x,
                    ) && exists|q: int| 0 <= q < n + 1 && #[trigger] two_paths@[q] == bridge_source(x) by {
                        lemma_push_contains(old_bridges, b, x);
                        if x == b {
                            assert(two_paths@[n as int] == bridge_source(x));
                        }
                        if is_timed_bridge(edge_map@, x) && two_paths@[n as int] == bridge_source(x) {
                            assert(x == b);
                        }
                    }
                }
            },
            other => {
                let col_type = match ColumnType::try_from(other) {
                    Ok(c) => c,
                    Err(_) => {
                        proof {
                            assert(false);
                        }
                        ColumnType::Node(0)
                    },
                };
                let c = GrpphatiRsColumn {
                    col_type,
                    entrance_time: Some(classified.entrance_time),
                };
                proof {
                    if cols@.contains(c) {
                        let q = choose|q: int|
                            0 <= q < n && #[trigger] two_paths@[q] == immediate_source(edge_map@, c);
                        assert(two_paths@[n as int] == immediate_source(edge_map@, c));
                        assert(two_paths@[q] == two_paths@[n as int]);
                    }
                    lemma_push_no_duplicates(cols@, c);
                }
                cols.push(c);
                proof {
                    assert(is_immediate_cell(edge_map@, c));
                    assert(two_paths@[n as int] == immediate_source(edge_map@, c));
                    assert forall|x: GrpphatiRsColumn| #[trigger] cols@.contains(x) <==> is_immediate_cell(
                        edge_map@,
                        x,
                    ) && exists|q: int| 0 <= q < n + 1 && #[trigger] two_paths@[q] == immediate_source(
                        edge_map@,
                        x,
                    ) by {
                        lemma_push_contains(old_cols, c, x);
                        if is_immediate_cell(edge_map@, x) && two_paths@[n as int] == immediate_source(
                            edge_map@,
                            x,
                        ) {
                            lemma_immediate_source_injective(edge_map@, x, c);
                        }
                    }
                    assert forall|x: TimedBridge| #[trigger] bridges@.contains(x) <==> is_timed_bridge(
                        edge_map@,
                        x,
                    ) && exists|q: int| 0 <= q < n + 1 && #[trigger] two_paths@[q] == bridge_source(x) by {
                        if is_timed_bridge(edge_map@, x) && two_paths@[n as int] == bridge_source(x) {
                            assert(false);
                        }
                    }
                }
            },
        }
        n += 1;
    }
    proof {
        assert forall|c: GrpphatiRsColumn| is_immediate_cell(edge_map@, c) implies #[trigger] cols@.contains(
            c,
        ) by {
            let src = immediate_source(edge_map@, c);
            assert(two_paths@.contains(src));
            let q = choose|q: int| 0 <= q < two_paths@.len() && two_paths@[q] == src;
            assert(two_paths@[q] == immediate_source(edge_map@, c));
        }
        assert forall|b: TimedBridge| is_timed_bridge(edge_map@, b) implies #[trigger] bridges@.contains(b) by {
            let src = bridge_source(b);
            assert(two_paths@.contains(src));
            let q = choose|q: int| 0 <= q < two_paths@.len() && two_paths@[q] == src;
            assert(two_paths@[q] == bridge_source(b));
        }
    }
    TwoPathFold { cols, bridges }
}

/// The two-path that an immediate cell comes from.
pub open spec fn immediate_source(e: Map<(NodeIndex, NodeIndex), FiltrationTime>, c: GrpphatiRsColumn) -> TimedTwoPath {
    match c.col_type {
        ColumnType::DoubleEdge(i, j) => ((i, j, i), path_time(e, i, j, i)),
        ColumnType::Triangle(i, j, k) => ((i, j, k), path_time(e, i, j, k)),
        _ => ((0, 0, 0), 0),
    }
}

/// The two-path that a bridge is.
pub open spec fn bridge_source(b: TimedBridge) -> TimedTwoPath {
    ((b.0.0, b.1.0, b.0.1), b.1.1)
}

proof fn lemma_push_no_duplicates<A>(s: Seq<A>, a: A)
    requires
        s.no_duplicates(),
        !s.contains(a),
    ensures
        s.push(a).no_duplicates(),
{
    assert forall|i: int, j: int| 0 <= i < s.push(a).len() && 0 <= j < s.push(a).len() && i != j implies s.push(a)[i]
        != s.push(a)[j] by {
        if i == s.len() as int {
            assert(s[j] == s.push(a)[j]);
        } else if j == s.len() as int {
            assert(s[i] == s.push(a)[i]);
        }
    }
}

pub(crate) proof fn lemma_push_contains<A>(s: Seq<A>, a: A, x: A)
    ensures
        s.push(a).contains(x) <==> s.contains(x) || x == a,
{
    if s.contains(x) {
        let i = choose|i: int| 0 <= i < s.len() && s[i] == x;
        assert(s.push(a)[i] == x);
    }
    if x == a {
        assert(s.push(a)[s.len() as int] == x);
    }
    if s.push(a).contains(x) && x != a {
        let i = choose|i: int| 0 <= i < s.push(a).len() && s.push(a)[i] == x;
        assert(s[i] == x);
    }
}

proof fn lemma_immediate_source_injective(e: Map<(NodeIndex, NodeIndex), FiltrationTime>, a: GrpphatiRsColumn, b: GrpphatiRsColumn)
    requires
        is_immediate_cell(e, a),
        is_immediate_cell(e, b),
        immediate_source(e, a) == immediate_source(e, b),
    ensures
        a == b,
{
}

/// A group of bridges has one base.
proof fn lemma_base_unique(e: Map<(NodeIndex, NodeIndex), FiltrationTime>, s: NodeIndex, m1: NodeIndex, m2: NodeIndex, t: NodeIndex)
    requires
        is_base(e, s, m1, t),
        is_base(e, s, m2, t),
    ensures
        m1 == m2,
{
    assert(is_bridge(e, s, m2, t));
    assert(is_bridge(e, s, m1, t));
}

/// The base midpoint of the group of bridges that `bridges[idx]` belongs to.
fn bridge_base(bridges: &Vec<TimedBridge>, idx: usize, Ghost(e): Ghost<Map<(NodeIndex, NodeIndex), FiltrationTime>>) -> (r: NodeIndex)
    requires
        0 <= idx < bridges@.len(),
        forall|b: TimedBridge| #[trigger] bridges@.contains(b) <==> is_timed_bridge(e, b),
    ensures
        is_base(e, bridges@[idx as int].0.0, r, bridges@[idx as int].0.1),
{
    let ends = bridges[idx].0;
    let mut best = bridges[idx].1;
    proof {
        assert(bridges@.contains(bridges@[idx as int]));
    }
    let mut q: usize = 0;
    while q < bridges.len()
        invariant
            0 <= idx < bridges@.len(),
            ends == bridges@[idx as int].0,
            forall|b: TimedBridge| #[trigger] bridges@.contains(b) <==> is_timed_bridge(e, b),
            0 <= q <= bridges@.len(),
            is_bridge(e, ends.0, best.0, ends.1),
            best.1 == path_time(e, ends.0, best.0, ends.1),
            forall|l: int|
                0 <= l < q && (#[trigger] bridges@[l]).0 == ends ==> bridge_precedes(
                    e,
                    ends.0,
                    best.0,
                    bridges@[l].1.0,
                    ends.1,
                ),
        decreases bridges@.len() - q,
    {
        let other = bridges[q];
        proof {
            assert(bridges@.contains(other));
        }
        if other.0.0 == ends.0 && other.0.1 == ends.1 {
            if other.1.1 < best.1 || (other.1.1 == best.1 && other.1.0 < best.0) {
                best = other.1;
            }
        }
        q += 1;
    }
    proof {
        assert forall|m2: NodeIndex| #[trigger] is_bridge(e, ends.0, m2, ends.1) implies bridge_precedes(
            e,
            ends.0,
            best.0,
            m2,
            ends.1,
        ) by {
            let b: TimedBridge = (ends, (m2, path_time(e, ends.0, m2, ends.1)));
            assert(is_timed_bridge(e, b));
            assert(bridges@.contains(b));
            let l = choose|l: int| 0 <= l < bridges@.len() && bridges@[l] == b;
            assert(bridges@[l].0 == ends);
        }
    }
    best.0
}

/// The cells that the groups of bridges give: for each group, the collapsing
/// triangle through its base, entering with the chord, and a long square for
/// each other bridge, entering with that bridge.
fn build_bridge_columns(edge_map: &EdgeMap, bridges: &Vec<TimedBridge>) -> (r: Vec<GrpphatiRsColumn>)
    requires
        edge_map.wf(),
        forall|b: TimedBridge| #[trigger] bridges@.contains(b) <==> is_timed_bridge(edge_map@, b),
        bridges@.no_duplicates(),
    ensures
        forall|c: GrpphatiRsColumn| #[trigger] r@.contains(c) <==> is_bridge_cell(edge_map@, c),
        r@.no_duplicates(),
{
    let mut out: Vec<GrpphatiRsColumn> = Vec::new();
    let mut q: usize = 0;
    while q < bridges.len()
        invariant
            edge_map.wf(),
            forall|b: TimedBridge| #[trigger] bridges@.contains(b) <==> is_timed_bridge(edge_map@, b),
            bridges@.no_duplicates(),
            out@.no_duplicates(),
            0 <= q <= bridges@.len(),
            forall|c: GrpphatiRsColumn|
                #[trigger] out@.contains(c) <==> is_bridge_cell(edge_map@, c) && exists|l: int|
                    0 <= l < q && #[trigger] bridges@[l] == generating_bridge(edge_map@, c.col_type),
        decreases bridges@.len() - q,
    {
        let ((s, t), (m, time)) = bridges[q];
        proof {
            assert(bridges@.contains(bridges@[q as int]));
        }
        let base = bridge_base(bridges, q, Ghost(edge_map@));
        let c = if base == m {
            GrpphatiRsColumn {
                col_type: ColumnType::Triangle(s, m, t),
                entrance_time: Some(edge_map.edge_time(s, t)),
            }
        } else {
            GrpphatiRsColumn { col_type: ColumnType::LongSquare(s, (base, m), t), entrance_time: Some(time) }
        };
        let ghost before = out@;
        proof {
            assert(is_bridge_cell(edge_map@, c));
            assert(bridges@[q as int] == generating_bridge(edge_map@, c.col_type));
            if out@.contains(c) {
                let l = choose|l: int| 0 <= l < q && #[trigger] bridges@[l] == generating_bridge(
                    edge_map@,
                    c.col_type,
                );
                assert(bridges@[l] == bridges@[q as int]);
            }
            lemma_push_no_duplicates(out@, c);
        }
        out.push(c);
        proof {
            assert(is_bridge_cell(edge_map@, c));
            assert(bridges@[q as int] == generating_bridge(edge_map@, c.col_type));
            assert forall|x: GrpphatiRsColumn| #[trigger] out@.contains(x) <==> is_bridge_cell(edge_map@, x)
                && exists|l: int| 0 <= l < q + 1 && #[trigger] bridges@[l] == generating_bridge(
                    edge_map@,
                    x.col_type,
                ) by {
                lemma_push_contains(before, c, x);
                if is_bridge_cell(edge_map@, x) && bridges@[q as int] == generating_bridge(
                    edge_map@,
                    x.col_type,
                ) {
                    match x.col_type {
                        ColumnType::Triangle(i, j, k) => {
                            lemma_base_unique(edge_map@, i, j, base, k);
                        },
                        ColumnType::LongSquare(i, (u, w), k) => {
                            lemma_base_unique(edge_map@, i, u, base, k);
                        },
                        _ => {},
                    }
                    assert(x == c);
                }
            }
        }
        q += 1;
    }
    proof {
        assert forall|c: GrpphatiRsColumn| is_bridge_cell(edge_map@, c) implies #[trigger] out@.contains(c) by {
            let b = generating_bridge(edge_map@, c.col_type);
            assert(is_timed_bridge(edge_map@, b));
            assert(bridges@.contains(b));
            let l = choose|l: int| 0 <= l < bridges@.len() && bridges@[l] == b;
            assert(bridges@[l] == generating_bridge(edge_map@, c.col_type));
        }
    }
    out
}

/// The entrance time by which a timed cell is sorted.
pub open spec fn time_of(c: GrpphatiRsColumn) -> FiltrationTime {
    c.entrance_time->Some_0
}

/// The identity of a cell as a tuple of integers: a rank for the kind, then the
/// vertices.
pub open spec fn type_key(c: ColumnType) -> (int, int, int, int, int) {
    match c {
        ColumnType::DoubleEdge(i, j) => (0, i as int, j as int, 0, 0),
        ColumnType::Triangle(i, j, k) => (1, i as int, j as int, k as int, 0),
        ColumnType::LongSquare(i, (u, w), k) => (2, i as int, u as int, w as int, k as int),
        ColumnType::Edge(i, j) => (3, i as int, j as int, 0, 0),
        ColumnType::Node(i) => (4, i as int, 0, 0, 0),
    }
}

pub open spec fn key_lt(a: (int, int, int, int, int), b: (int, int, int, int, int)) -> bool {
    a.0 < b.0 || (a.0 == b.0 && (a.1 < b.1 || (a.1 == b.1 && (a.2 < b.2 || (a.2 == b.2 && (a.3
        < b.3 || (a.3 == b.3 && a.4 < b.4)))))))
}

/// The order of a basis: by entrance time, ties broken by the cell's identity.
pub open spec fn column_lt(a: GrpphatiRsColumn, b: GrpphatiRsColumn) -> bool {
    time_of(a) < time_of(b) || (time_of(a) == time_of(b) && key_lt(type_key(a.col_type), type_key(b.col_type)))
}

/// Strictly increasing in the order of a basis.
pub open spec fn sorted_basis(s: Seq<GrpphatiRsColumn>) -> bool {
    forall|i: int, j: int| 0 <= i < j < s.len() ==> column_lt(#[trigger] s[i], #[trigger] s[j])
}

pub open spec fn all_timed(s: Seq<GrpphatiRsColumn>) -> bool {
    forall|i: int| 0 <= i < s.len() ==> (#[trigger] s[i]).entrance_time is Some
}

proof fn lemma_column_lt_transitive(a: GrpphatiRsColumn, b: GrpphatiRsColumn, c: GrpphatiRsColumn)
    requires
        column_lt(a, b),
        column_lt(b, c),
    ensures
        column_lt(a, c),
{
}

/// Two timed cells that neither precedes are the same.
proof fn lemma_column_lt_total(a: GrpphatiRsColumn, b: GrpphatiRsColumn)
    requires
        a.entrance_time is Some,
        b.entrance_time is Some,
        !column_lt(a, b),
        !column_lt(b, a),
    ensures
        a == b,
{
    assert(type_key(a.col_type) == type_key(b.col_type));
    match a.col_type {
        ColumnType::LongSquare(i, (u, w), k) => {
            assert(b.col_type == ColumnType::LongSquare(i, (u, w), k));
        },
        _ => {},
    }
}

fn type_key_of(c: ColumnType) -> (r: (u8, NodeIndex, NodeIndex, NodeIndex, NodeIndex))
    ensures
        (r.0 as int, r.1 as int, r.2 as int, r.3 as int, r.4 as int) == type_key(c),
{
    match c {
        ColumnType::DoubleEdge(i, j) => (0, i, j, 0, 0),
        ColumnType::Triangle(i, j, k) => (1, i, j, k, 0),
        ColumnType::LongSquare(i, (u, w), k) => (2, i, u, w, k),
        ColumnType::Edge(i, j) => (3, i, j, 0, 0),
        ColumnType::Node(i) => (4, i, 0, 0, 0),
    }
}

/// Compares two cells in the order of a basis.
pub fn compare_columns(col_a: &GrpphatiRsColumn, col_b: &GrpphatiRsColumn) -> (r: Ordering)
    requires
        col_a.entrance_time is Some,
        col_b.entrance_time is Some,
    ensures
        (r == Ordering::Less) == column_lt(*col_a, *col_b),
        (r == Ordering::Greater) == column_lt(*col_b, *col_a),
{
    let t_a = col_a.entrance_time.unwrap();
    let t_b = col_b.entrance_time.unwrap();
    if t_a < t_b {
        return Ordering::Less;
    }
    if t_a > t_b {
        return Ordering::Greater;
    }
    let a = type_key_of(col_a.col_type);
    let b = type_key_of(col_b.col_type);
    if a.0 != b.0 {
        return if a.0 < b.0 { Ordering::Less } else { Ordering::Greater };
    }
    if a.1 != b.1 {
        return if a.1 < b.1 { Ordering::Less } else { Ordering::Greater };
    }
    if a.2 != b.2 {
        return if a.2 < b.2 { Ordering::Less } else { Ordering::Greater };
    }
    if a.3 != b.3 {
        return if a.3 < b.3 { Ordering::Less } else { Ordering::Greater };
    }
    if a.4 != b.4 {
        return if a.4 < b.4 { Ordering::Less } else { Ordering::Greater };
    }
    Ordering::Equal
}

/// Puts a timed cell into a sorted basis, unless it is there already.
fn insert_sorted(v: &mut Vec<GrpphatiRsColumn>, x: GrpphatiRsColumn)
    requires
        sorted_basis(old(v)@),
        all_timed(old(v)@),
        x.entrance_time is Some,
    ensures
        sorted_basis(final(v)@),
        all_timed(final(v)@),
        forall|c: GrpphatiRsColumn| #[trigger] final(v)@.contains(c) <==> old(v)@.contains(c) || c == x,
{
    let mut pos: usize = 0;
    let mut stop = false;
    while pos < v.len() && !stop
        invariant
            0 <= pos <= v@.len(),
            all_timed(v@),
            x.entrance_time is Some,
            forall|q: int| 0 <= q < pos ==> column_lt(#[trigger] v@[q], x),
            stop ==> pos < v@.len() && !column_lt(v@[pos as int], x),
        decreases v@.len() - pos, if stop { 0int } else { 1int },
    {
        match compare_columns(&v[pos], &x) {
            Ordering::Less => {
                pos += 1;
            },
            _ => {
                stop = true;
            },
        }
    }
    if pos < v.len() {
        match compare_columns(&x, &v[pos]) {
            Ordering::Less => {},
            _ => {
                proof {
                    lemma_column_lt_total(x, v@[pos as int]);
                    assert(v@.contains(x));
                }
                return;
            },
        }
    }
    let ghost before = v@;
    v.insert(pos, x);
    proof {
        before.insert_ensures(pos as int, x);
        assert forall|i: int, j: int| 0 <= i < j < v@.len() implies column_lt(
            #[trigger] v@[i],
            #[trigger] v@[j],
        ) by {
            if j < pos {
            } else if j == pos {
            } else if i < pos {
                lemma_column_lt_transitive(v@[i], x, before[pos as int]);
                if j > pos + 1 {
                    lemma_column_lt_transitive(v@[i], before[pos as int], v@[j]);
                }
            } else if i == pos {
                if j > pos + 1 {
                    lemma_column_lt_transitive(x, before[pos as int], v@[j]);
                }
            } else {
            }
        }
        assert forall|c: GrpphatiRsColumn| #[trigger] v@.contains(c) <==> before.contains(c) || c == x by {
            if v@.contains(c) {
                let i = choose|i: int| 0 <= i < v@.len() && v@[i] == c;
                if i < pos {
                    assert(before[i] == c);
                } else if i > pos {
                    assert(before[i - 1] == c);
                }
            }
            if before.contains(c) {
                let i = choose|i: int| 0 <= i < before.len() && before[i] == c;
                if i < pos {
                    assert(v@[i] == c);
                } else {
                    assert(v@[i + 1] == c);
                }
            }
            if c == x {
                assert(v@[pos as int] == c);
            }
        }
    }
}

/// The cells of `cols`, sorted in the order of a basis, each once.
fn sort_basis(cols: &Vec<GrpphatiRsColumn>) -> (r: Vec<GrpphatiRsColumn>)
    requires
        all_timed(cols@),
    ensures
        sorted_basis(r@),
        all_timed(r@),
        forall|c: GrpphatiRsColumn| #[trigger] r@.contains(c) <==> cols@.contains(c),
{
    let mut out: Vec<GrpphatiRsColumn> = Vec::new();
    let mut n: usize = 0;
    while n < cols.len()
        invariant
            all_timed(cols@),
            0 <= n <= cols@.len(),
            sorted_basis(out@),
            all_timed(out@),
            forall|c: GrpphatiRsColumn|
                #[trigger] out@.contains(c) <==> exists|q: int| 0 <= q < n && cols@[q] == c,
        decreases cols@.len() - n,
    {
        let ghost before = out@;
        insert_sorted(&mut out, cols[n]);
        proof {
            assert forall|c: GrpphatiRsColumn| #[trigger] out@.contains(c) <==> exists|q: int|
                0 <= q < n + 1 && cols@[q] == c by {
                if c == cols@[n as int] {
                    assert(cols@[n as int] == c);
                }
            }
        }
        n += 1;
    }
    proof {
        assert forall|c: GrpphatiRsColumn| #[trigger] out@.contains(c) <==> cols@.contains(c) by {
            if cols@.contains(c) {
                let q = choose|q: int| 0 <= q < cols@.len() && cols@[q] == c;
                assert(cols@[q] == c);
            }
        }
    }
    out
}

/// The 2-cells of the RPH basis of the graph, with their entrance times,
/// sorted by entrance time (ties broken by the cells' identities).
pub fn get_rph_two_cells(edge_map: &EdgeMap) -> (r: Vec<GrpphatiRsColumn>)
    requires
        edge_map.wf(),
    ensures
        is_rph_basis_of(edge_map@, r@),
{
    let two_paths = enumerate_two_paths(edge_map);
    let fold = split_off_bridges(edge_map, &two_paths);
    let bridge_cols = build_bridge_columns(edge_map, &fold.bridges);
    let mut cols = fold.cols;
    let ghost immediate = cols@;
    let mut n: usize = 0;
    while n < bridge_cols.len()
        invariant
            0 <= n <= bridge_cols@.len(),
            forall|c: GrpphatiRsColumn| #[trigger] immediate.contains(c) <==> is_immediate_cell(edge_map@, c),
            forall|c: GrpphatiRsColumn| #[trigger] bridge_cols@.contains(c) <==> is_bridge_cell(edge_map@, c),
            forall|c: GrpphatiRsColumn|
                #[trigger] cols@.contains(c) <==> immediate.contains(c) || exists|q: int|
                    0 <= q < n && bridge_cols@[q] == c,
        decreases bridge_cols@.len() - n,
    {
        let ghost before = cols@;
        cols.push(bridge_cols[n]);
        proof {
            assert forall|c: GrpphatiRsColumn| #[trigger] cols@.contains(c) <==> immediate.contains(c)
                || exists|q: int| 0 <= q < n + 1 && bridge_cols@[q] == c by {
                lemma_push_contains(before, bridge_cols@[n as int], c);
                if c == bridge_cols@[n as int] {
                    assert(bridge_cols@[n as int] == c);
                }
            }
        }
        n += 1;
    }
    proof {
        assert forall|c: GrpphatiRsColumn| #[trigger] cols@.contains(c) <==> is_rph_cell(edge_map@, c) by {
            if bridge_cols@.contains(c) {
                let q = choose|q: int| 0 <= q < bridge_cols@.len() && bridge_cols@[q] == c;
                assert(bridge_cols@[q] == c);
            }
            if exists|q: int| 0 <= q < bridge_cols@.len() && bridge_cols@[q] == c {
                assert(bridge_cols@.contains(c));
            }
            if is_rph_cell(edge_map@, c) {
                match c.col_type {
                    ColumnType::Triangle(i, j, k) => {
                        if etime(edge_map@, i, k) <= path_time(edge_map@, i, j, k) {
                            assert(is_immediate_cell(edge_map@, c));
                        } else {
                            assert(is_bridge_cell(edge_map@, c));
                        }
                    },
                    _ => {},
                }
            }
        }
        assert forall|i: int| 0 <= i < cols@.len() implies (#[trigger] cols@[i]).entrance_time is Some by {
            assert(cols@.contains(cols@[i]));
        }
    }
    sort_basis(&cols)
}

/// `b` holds each 2-cell of the RPH basis of `e` once, with its entrance time,
/// sorted by entrance time, ties broken by the cells' identities.
pub open spec fn is_rph_basis_of(e: Map<(NodeIndex, NodeIndex), FiltrationTime>, b: Seq<GrpphatiRsColumn>) -> bool {
    &&& sorted_basis(b)
    &&& forall|c: GrpphatiRsColumn| #[trigger] b.contains(c) <==> is_rph_cell(e, c)
}

/// A produced RPH basis is sorted by entrance time, and every cell in it has one.
pub proof fn lemma_rph_basis_sorted(e: Map<(NodeIndex, NodeIndex), FiltrationTime>, b: Seq<GrpphatiRsColumn>)
    requires
        is_rph_basis_of(e, b),
    ensures
        forall|i: int| 0 <= i < b.len() ==> (#[trigger] b[i]).entrance_time is Some,
        forall|i: int, j: int|
            0 <= i < j < b.len() ==> time_of(#[trigger] b[i]) <= time_of(#[trigger] b[j]),
{
    assert forall|i: int| 0 <= i < b.len() implies (#[trigger] b[i]).entrance_time is Some by {
        assert(b.contains(b[i]));
    }
}

/// No cell occurs twice in a produced RPH basis.
pub proof fn lemma_rph_basis_no_duplicates(e: Map<(NodeIndex, NodeIndex), FiltrationTime>, b: Seq<GrpphatiRsColumn>)
    requires
        is_rph_basis_of(e, b),
    ensures
        forall|i: int, j: int|
            0 <= i < j < b.len() ==> (#[trigger] b[i]).col_type != (#[trigger] b[j]).col_type,
{
    assert forall|i: int, j: int| 0 <= i < j < b.len() implies (#[trigger] b[i]).col_type != (
    #[trigger] b[j]).col_type by {
        assert(b.contains(b[i]));
        assert(b.contains(b[j]));
        if b[i].col_type == b[j].col_type {
            assert(b[i] == b[j]);
            assert(column_lt(b[i], b[j]));
        }
    }
}

/// Two strictly sorted sequences of timed cells that hold the same cells are equal.
proof fn lemma_sorted_same_cells_equal(b1: Seq<GrpphatiRsColumn>, b2: Seq<GrpphatiRsColumn>)
    requires
        sorted_basis(b1),
        sorted_basis(b2),
        all_timed(b1),
        forall|c: GrpphatiRsColumn| #[trigger] b1.contains(c) <==> b2.contains(c),
    ensures
        b1 == b2,
    decreases b1.len(),
{
    if b1.len() == 0 {
        if b2.len() > 0 {
            assert(b2.contains(b2[0]));
            assert(b1.contains(b2[0]));
        }
        assert(b1 =~= b2);
    } else {
        assert(b1.contains(b1[0]));
        assert(b2.contains(b1[0]));
        let j = choose|j: int| 0 <= j < b2.len() && b2[j] == b1[0];
        assert(b2.contains(b2[0]));
        assert(b1.contains(b2[0]));
        let i = choose|i: int| 0 <= i < b1.len() && b1[i] == b2[0];
        if j > 0 {
            assert(column_lt(b2[0], b2[j]));
            if i > 0 {
                assert(column_lt(b1[0], b1[i]));
            }
        }
        assert(b1[0] == b2[0]);
        let t1 = b1.drop_first();
        let t2 = b2.drop_first();
        assert forall|c: GrpphatiRsColumn| #[trigger] t1.contains(c) <==> t2.contains(c) by {
            if t1.contains(c) {
                let k = choose|k: int| 0 <= k < t1.len() && t1[k] == c;
                assert(b1[k + 1] == c);
                assert(column_lt(b1[0], b1[k + 1]));
                assert(b1.contains(c));
                assert(b2.contains(c));
                let l = choose|l: int| 0 <= l < b2.len() && b2[l] == c;
                assert(l != 0);
                assert(t2[l - 1] == c);
            }
            if t2.contains(c) {
                let k = choose|k: int| 0 <= k < t2.len() && t2[k] == c;
                assert(b2[k + 1] == c);
                assert(column_lt(b2[0], b2[k + 1]));
                assert(b2.contains(c));
                assert(b1.contains(c));
                let l = choose|l: int| 0 <= l < b1.len() && b1[l] == c;
                assert(l != 0);
                assert(t1[l - 1] == c);
            }
        }
        assert(sorted_basis(t1)) by {
            assert forall|x: int, y: int| 0 <= x < y < t1.len() implies column_lt(
                #[trigger] t1[x],
                #[trigger] t1[y],
            ) by {
                assert(t1[x] == b1[x + 1] && t1[y] == b1[y + 1]);
            }
        }
        assert(sorted_basis(t2)) by {
            assert forall|x: int, y: int| 0 <= x < y < t2.len() implies column_lt(
                #[trigger] t2[x],
                #[trigger] t2[y],
            ) by {
                assert(t2[x] == b2[x + 1] && t2[y] == b2[y + 1]);
            }
        }
        assert(all_timed(t1)) by {
            assert forall|x: int| 0 <= x < t1.len() implies (#[trigger] t1[x]).entrance_time is Some by {
                assert(t1[x] == b1[x + 1]);
            }
        }
        lemma_sorted_same_cells_equal(t1, t2);
        assert(b1 =~= b2) by {
            assert forall|x: int| 0 <= x < b1.len() implies b1[x] == b2[x] by {
                if x > 0 {
                    assert(b1[x] == t1[x - 1]);
                    assert(b2[x] == t2[x - 1]);
                }
            }
        }
    }
}

/// The RPH basis of a graph is determined by the graph: two runs on the same
/// edge map give the same sequence.
pub proof fn lemma_rph_basis_deterministic(
    e: Map<(NodeIndex, NodeIndex), FiltrationTime>,
    b1: Seq<GrpphatiRsColumn>,
    b2: Seq<GrpphatiRsColumn>,
)
    requires
        is_rph_basis_of(e, b1),
        is_rph_basis_of(e, b2),
    ensures
        b1 == b2,
{
    lemma_rph_basis_sorted(e, b1);
    lemma_sorted_same_cells_equal(b1, b2);
}

/// `c` is a 2-cell of the directed flag complex of `e`: a triangle `i → j → k`
/// between distinct ends that enters, with its chord, at a time that is reached.
pub open spec fn is_dflag_cell(e: Map<(NodeIndex, NodeIndex), FiltrationTime>, c: GrpphatiRsColumn) -> bool {
    match c.col_type {
        ColumnType::Triangle(i, j, k) => {
            let t = max_time(path_time(e, i, j, k), etime(e, i, k));
            i != k && is_two_path(e, i, j, k) && t != NEVER && c.entrance_time == Some(t)
        },
        _ => false,
    }
}

/// The 2-cells of the directed flag complex of the graph, each once, sorted
/// by entrance time (ties broken by the cells' identities).
pub fn get_dflag_two_cells(edge_map: &EdgeMap) -> (r: Vec<GrpphatiRsColumn>)
    requires
        edge_map.wf(),
    ensures
        sorted_basis(r@),
        forall|c: GrpphatiRsColumn| #[trigger] r@.contains(c) <==> is_dflag_cell(edge_map@, c),
{
    let two_paths = enumerate_two_paths(edge_map);
    let mut cols: Vec<GrpphatiRsColumn> = Vec::new();
    let mut n: usize = 0;
    while n < two_paths.len()
        invariant
            edge_map.wf(),
            0 <= n <= two_paths@.len(),
            forall|p: TimedTwoPath| #[trigger] two_paths@.contains(p) <==> is_timed_two_path(edge_map@, p),
            all_timed(cols@),
            forall|c: GrpphatiRsColumn|
                #[trigger] cols@.contains(c) <==> is_dflag_cell(edge_map@, c) && exists|q: int|
                    0 <= q < n && #[trigger] two_paths@[q] == dflag_source(edge_map@, c),
        decreases two_paths@.len() - n,
    {
        let ((s, m, t), path_time) = two_paths[n];
        proof {
            assert(two_paths@.contains(two_paths@[n as int]));
        }
        if s != t {
            let ac_time = edge_map.edge_time(s, t);
            let entrance_time = if path_time >= ac_time {
                path_time
            } else {
                ac_time
            };
            if entrance_time != NEVER {
                let c = GrpphatiRsColumn {
                    col_type: ColumnType::Triangle(s, m, t),
                    entrance_time: Some(entrance_time),
                };
                let ghost before = cols@;
                cols.push(c);
                proof {
                    assert(two_paths@[n as int] == dflag_source(edge_map@, c));
                    assert forall|x: GrpphatiRsColumn| #[trigger] cols@.contains(x) <==> is_dflag_cell(
                        edge_map@,
                        x,
                    ) && exists|q: int| 0 <= q < n + 1 && #[trigger] two_paths@[q] == dflag_source(
                        edge_map@,
                        x,
                    ) by {
                        lemma_push_contains(before, c, x);
                    }
                    assert(all_timed(cols@)) by {
                        assert forall|i: int| 0 <= i < cols@.len() implies (
                        #[trigger] cols@[i]).entrance_time is Some by {
                            if i < before.len() {
                                assert(cols@[i] == before[i]);
                            }
                        }
                    }
                }
            }
        }
        n += 1;
    }
    proof {
        assert forall|c: GrpphatiRsColumn| is_dflag_cell(edge_map@, c) implies #[trigger] cols@.contains(c) by {
            let src = dflag_source(edge_map@, c);
            assert(two_paths@.contains(src));
            let q = choose|q: int| 0 <= q < two_paths@.len() && two_paths@[q] == src;
            assert(two_paths@[q] == dflag_source(edge_map@, c));
        }
    }
    sort_basis(&cols)
}

/// The two-path that a triangle of the directed flag complex comes from.
pub open spec fn dflag_source(e: Map<(NodeIndex, NodeIndex), FiltrationTime>, c: GrpphatiRsColumn) -> TimedTwoPath {
    match c.col_type {
        ColumnType::Triangle(i, j, k) => ((i, j, k), path_time(e, i, j, k)),
        _ => ((0, 0, 0), 0),
    }
}

} // verus!
