//! Parallel primal orchestrator: partitions a decoding problem into units,
//! runs a serial primal module per unit, and fuses unit boundaries.
//!
//! Leaf units own disjoint vertex ranges; fused units stand after their two
//! children in the unit list and own their merged state.  A conflict that
//! involves a single unit is delegated to that unit; one that straddles a
//! fusion boundary belongs to the lowest fused ancestor of the two units and
//! to it alone, so no boundary conflict is ever resolved twice or dropped.

use crate::dual_module::{
    basic_wf, forest_wf, is_ancestor, is_leaf, node_basic_wf, spec_circle,
    spec_syndrome_index, Conflict, DualModuleImpl, DualModuleInterface, DualNode,
    DualNodeClass, GroupMaxUpdateLength, NodeForest,
};
use crate::primal_module::{
    match_pair_wf, peer_entries_wf, syndrome_of, virtual_entries_wf, IntermediateMatching,
    PrimalModuleImpl,
};
use crate::util::{NodeIndex, VertexIndex, Weight};
use vstd::prelude::*;

verus! {

/// The default number of worker threads: a single core; zero would mean all
/// available hardware parallelism.
pub fn thread_pool_size() -> (r: usize)
    ensures
        r == 1,
{
    1
}

/// Configuration of the parallel orchestrator.
#[derive(Clone, Copy, Debug, PartialEq, Eq, Structural)]
pub struct PrimalModuleParallelConfig {
    /// how many worker threads execute unit operations in parallel; only
    /// top-level operations use it, never individual units
    pub thread_pool_size: usize,
}

impl Default for PrimalModuleParallelConfig {
    fn default() -> (r: Self)
        ensures
            r.thread_pool_size == 1,
    {
        PrimalModuleParallelConfig { thread_pool_size: thread_pool_size() }
    }
}

/// One unit of the partition: a leaf owning a vertex range, or a fused unit
/// merging two earlier units.
#[derive(Clone, Copy, Debug)]
pub struct PartitionUnit {
    /// the half-open vertex range this unit owns
    pub owning_range: (VertexIndex, VertexIndex),
    /// the two earlier units this unit fuses, if it is a fused unit
    pub children: Option<(usize, usize)>,
    /// the fused unit that directly merges this unit, if any
    pub parent: Option<usize>,
}

/// The partition of a decoding problem: leaf units first, every fused unit
/// after its two children.
pub struct PartitionInfo {
    /// the number of vertices of the decoding graph
    pub vertex_num: usize,
    /// the units, leaves before the fused units that merge them
    pub units: Vec<PartitionUnit>,
}

/// Whether unit `i` is a leaf of the fusion tree.
pub open spec fn is_leaf_unit(units: Seq<PartitionUnit>, i: int) -> bool {
    units[i].children is None
}

/// Structural well-formedness of one unit: parent and children links agree
/// and point the right way (children earlier, parent later).
pub open spec fn unit_wf(units: Seq<PartitionUnit>, i: int) -> bool {
    &&& match units[i].parent {
        Some(p) => {
            &&& i < p < units.len()
            &&& match units[p as int].children {
                Some((a, b)) => a == i || b == i,
                None => false,
            }
        },
        None => true,
    }
    &&& match units[i].children {
        Some((a, b)) => {
            &&& a < i
            &&& b < i
            &&& a != b
            &&& units[a as int].parent == Some(i as usize)
            &&& units[b as int].parent == Some(i as usize)
        },
        None => true,
    }
}

/// Well-formedness of the whole partition: sound fusion links, and leaf
/// units owning disjoint ranges within the vertex space.
pub open spec fn partition_wf(partition: PartitionInfo) -> bool {
    let units = partition.units@;
    &&& forall|i: int| 0 <= i < units.len() ==> #[trigger] unit_wf(units, i)
    &&& forall|i: int| 0 <= i < units.len() && is_leaf_unit(units, i)
        ==> (#[trigger] units[i].owning_range).0 <= units[i].owning_range.1
            && units[i].owning_range.1 <= partition.vertex_num
    &&& forall|i: int, j: int| 0 <= i < units.len() && 0 <= j < units.len() && i != j
        && is_leaf_unit(units, i) && is_leaf_unit(units, j)
        ==> ((#[trigger] units[i].owning_range).1 <= (#[trigger] units[j].owning_range).0
            || units[j].owning_range.1 <= units[i].owning_range.0)
}

/// Whether unit `anc` is reached from unit `d` by following parent links
/// (reflexive).
pub open spec fn is_unit_ancestor(units: Seq<PartitionUnit>, anc: int, d: int) -> bool
    decreases units.len() - d
        when (forall|i: int| 0 <= i < units.len() ==> #[trigger] unit_wf(units, i))
            && 0 <= d < units.len()
        via is_unit_ancestor_decreases
{
    if d == anc {
        true
    } else {
        match units[d].parent {
            Some(p) => is_unit_ancestor(units, anc, p as int),
            None => false,
        }
    }
}

#[via_fn]
proof fn is_unit_ancestor_decreases(units: Seq<PartitionUnit>, anc: int, d: int) {
    assert(unit_wf(units, d));
}

/// A unit's ancestor never has a smaller index.
pub proof fn lemma_unit_ancestor_index(units: Seq<PartitionUnit>, anc: int, d: int)
    requires
        forall|i: int| 0 <= i < units.len() ==> #[trigger] unit_wf(units, i),
        units.len() <= usize::MAX,
        0 <= d < units.len(),
        0 <= anc < units.len(),
        is_unit_ancestor(units, anc, d),
    ensures
        d <= anc,
    decreases units.len() - d,
{
    if d != anc {
        assert(unit_wf(units, d));
        let p = units[d].parent->0;
        lemma_unit_ancestor_index(units, anc, p as int);
    }
}

/// The owner of a boundary between two units: their lowest common ancestor
/// in the fusion tree, reached by repeatedly lifting the lower-indexed unit
/// to its parent.
pub open spec fn spec_lca(units: Seq<PartitionUnit>, a: int, b: int) -> Option<usize>
    decreases 2 * units.len() - a - b
        when (forall|i: int| 0 <= i < units.len() ==> #[trigger] unit_wf(units, i))
            && 0 <= a < units.len() && 0 <= b < units.len()
        via spec_lca_decreases
{
    if a == b {
        Some(a as usize)
    } else if a < b {
        match units[a].parent {
            Some(p) => spec_lca(units, p as int, b),
            None => None,
        }
    } else {
        match units[b].parent {
            Some(p) => spec_lca(units, a, p as int),
            None => None,
        }
    }
}

#[via_fn]
proof fn spec_lca_decreases(units: Seq<PartitionUnit>, a: int, b: int) {
    if 0 <= a < units.len() {
        assert(unit_wf(units, a));
    }
    if 0 <= b < units.len() {
        assert(unit_wf(units, b));
    }
}

/// The designated owner is a common ancestor of both units.
pub proof fn lemma_lca_common_ancestor(units: Seq<PartitionUnit>, a: int, b: int)
    requires
        forall|i: int| 0 <= i < units.len() ==> #[trigger] unit_wf(units, i),
        units.len() <= usize::MAX,
        0 <= a < units.len(),
        0 <= b < units.len(),
        spec_lca(units, a, b) is Some,
    ensures
        spec_lca(units, a, b)->0 < units.len(),
        is_unit_ancestor(units, spec_lca(units, a, b)->0 as int, a),
        is_unit_ancestor(units, spec_lca(units, a, b)->0 as int, b),
    decreases 2 * units.len() - a - b,
{
    if a == b {
        assert(is_unit_ancestor(units, a, a));
    } else if a < b {
        assert(unit_wf(units, a));
        let p = units[a].parent->0;
        lemma_lca_common_ancestor(units, p as int, b);
        assert(is_unit_ancestor(units, spec_lca(units, a, b)->0 as int, a)) by {
            reveal_with_fuel(is_unit_ancestor, 2);
        };
    } else {
        assert(unit_wf(units, b));
        let p = units[b].parent->0;
        lemma_lca_common_ancestor(units, a, p as int);
        assert(is_unit_ancestor(units, spec_lca(units, a, b)->0 as int, b)) by {
            reveal_with_fuel(is_unit_ancestor, 2);
        };
    }
}

/// Computing the owner from either side of the boundary names the same unit.
pub proof fn lemma_lca_symmetric(units: Seq<PartitionUnit>, a: int, b: int)
    requires
        forall|i: int| 0 <= i < units.len() ==> #[trigger] unit_wf(units, i),
        units.len() <= usize::MAX,
        0 <= a < units.len(),
        0 <= b < units.len(),
    ensures
        spec_lca(units, a, b) == spec_lca(units, b, a),
    decreases 2 * units.len() - a - b,
{
    if a != b {
        if a < b {
            assert(unit_wf(units, a));
            match units[a].parent {
                Some(p) => {
                    lemma_lca_symmetric(units, p as int, b);
                },
                None => {},
            }
        } else {
            assert(unit_wf(units, b));
            match units[b].parent {
                Some(p) => {
                    lemma_lca_symmetric(units, a, p as int);
                },
                None => {},
            }
        }
    }
}

/// The owner equals one of the two units only where that unit is already an
/// ancestor of the other.
pub proof fn lemma_lca_left_only_if_ancestor(units: Seq<PartitionUnit>, a: int, b: int)
    requires
        forall|i: int| 0 <= i < units.len() ==> #[trigger] unit_wf(units, i),
        units.len() <= usize::MAX,
        0 <= a < units.len(),
        0 <= b < units.len(),
        spec_lca(units, a, b) == Some(a as usize),
    ensures
        is_unit_ancestor(units, a, b),
    decreases 2 * units.len() - a - b,
{
    if a == b {
        assert(is_unit_ancestor(units, a, b));
    } else if a < b {
        assert(unit_wf(units, a));
        let p = units[a].parent->0;
        lemma_lca_common_ancestor(units, p as int, b);
        lemma_unit_ancestor_index(units, a, p as int);
        assert(false);
    } else {
        assert(unit_wf(units, b));
        let p = units[b].parent->0;
        lemma_lca_left_only_if_ancestor(units, a, p as int);
        assert(is_unit_ancestor(units, a, b)) by {
            reveal_with_fuel(is_unit_ancestor, 2);
        };
    }
}

/// Boundary-fusion exclusivity at the tree level: the owner of a boundary
/// between two units neither of which contains the other is a fused ancestor
/// distinct from both — so the two child units can never both claim it.
pub proof fn lemma_boundary_owner_exclusive(units: Seq<PartitionUnit>, a: int, b: int)
    requires
        forall|i: int| 0 <= i < units.len() ==> #[trigger] unit_wf(units, i),
        units.len() <= usize::MAX,
        0 <= a < units.len(),
        0 <= b < units.len(),
        spec_lca(units, a, b) is Some,
        !is_unit_ancestor(units, a, b),
        !is_unit_ancestor(units, b, a),
    ensures
        spec_lca(units, a, b) == spec_lca(units, b, a),
        spec_lca(units, a, b)->0 != a,
        spec_lca(units, a, b)->0 != b,
        is_unit_ancestor(units, spec_lca(units, a, b)->0 as int, a),
        is_unit_ancestor(units, spec_lca(units, a, b)->0 as int, b),
    {
    lemma_lca_symmetric(units, a, b);
    lemma_lca_common_ancestor(units, a, b);
    let c = spec_lca(units, a, b)->0 as int;
    if c == a {
        lemma_lca_left_only_if_ancestor(units, a, b);
    }
    if c == b {
        lemma_lca_left_only_if_ancestor(units, b, a);
    }
}

/// The leaf reached from `node` by always descending into the first circle
/// child.
pub open spec fn spec_first_leaf(nodes: Seq<DualNode>, node: int) -> int
    decreases node
        when basic_wf(nodes) && 0 <= node < nodes.len()
        via spec_first_leaf_decreases
{
    if is_leaf(nodes, node) {
        node
    } else {
        spec_first_leaf(nodes, spec_circle(nodes, node)[0] as int)
    }
}

#[via_fn]
proof fn spec_first_leaf_decreases(nodes: Seq<DualNode>, node: int) {
    assert(node_basic_wf(nodes, node));
}

proof fn lemma_first_leaf(nodes: Seq<DualNode>, node: int)
    requires
        basic_wf(nodes),
        0 <= node < nodes.len(),
    ensures
        0 <= spec_first_leaf(nodes, node) < nodes.len(),
        is_leaf(nodes, spec_first_leaf(nodes, node)),
        is_ancestor(nodes, node, spec_first_leaf(nodes, node)),
    decreases node,
{
    if is_leaf(nodes, node) {
        assert(is_ancestor(nodes, node, node));
    } else {
        assert(node_basic_wf(nodes, node));
        let child = spec_circle(nodes, node)[0] as int;
        lemma_first_leaf(nodes, child);
        assert(nodes[child].parent_blossom == Some(node as NodeIndex));
        assert(is_ancestor(nodes, node, child)) by {
            reveal_with_fuel(is_ancestor, 2);
        };
        crate::dual_module::lemma_ancestor_transitive(
            nodes, node, child, spec_first_leaf(nodes, node));
    }
}

/// Whether some leaf unit of the partition owns vertex `v`.
pub open spec fn spec_vertex_covered(partition: PartitionInfo, v: VertexIndex) -> bool {
    exists|i: int| 0 <= i < partition.units@.len() && is_leaf_unit(partition.units@, i)
        && (#[trigger] partition.units@[i].owning_range).0 <= v
        && v < partition.units@[i].owning_range.1
}

/// The leaf unit owning vertex `v` (meaningful only where one exists; by
/// range disjointness it is then unique).
pub open spec fn spec_vertex_unit(partition: PartitionInfo, v: VertexIndex) -> int {
    choose|i: int| 0 <= i < partition.units@.len() && is_leaf_unit(partition.units@, i)
        && (#[trigger] partition.units@[i].owning_range).0 <= v
        && v < partition.units@[i].owning_range.1
}

/// The leaf unit that owns the syndrome vertex under `node`, if any.
pub open spec fn spec_node_unit(partition: PartitionInfo, nodes: Seq<DualNode>, node: int)
    -> Option<usize>
{
    let v = spec_syndrome_index(nodes, spec_first_leaf(nodes, node));
    if spec_vertex_covered(partition, v) {
        Some(spec_vertex_unit(partition, v) as usize)
    } else {
        None
    }
}

/// Whether the nodes a conflict names exist in the forest.
pub open spec fn conflict_nodes_valid(nodes: Seq<DualNode>, c: Conflict) -> bool {
    match c {
        Conflict::Conflicting { node_1, node_2 } => {
            node_1 < nodes.len() && node_2 < nodes.len()
        },
        Conflict::TouchingVirtual { node, .. } => node < nodes.len(),
        Conflict::BlossomNeedExpand { blossom } => blossom < nodes.len(),
    }
}

/// The unit that must resolve a conflict: the unit of a single-unit
/// conflict, and the lowest fused ancestor of the two endpoint units of a
/// boundary conflict.  A conflict naming unknown nodes or uncovered vertices
/// has no owner.
pub open spec fn spec_conflict_owner(
    partition: PartitionInfo, nodes: Seq<DualNode>, c: Conflict,
) -> Option<usize> {
    if !conflict_nodes_valid(nodes, c) {
        None
    } else {
        match c {
            Conflict::Conflicting { node_1, node_2 } => {
                match (spec_node_unit(partition, nodes, node_1 as int),
                    spec_node_unit(partition, nodes, node_2 as int)) {
                    (Some(u1), Some(u2)) => spec_lca(partition.units@, u1 as int, u2 as int),
                    _ => None,
                }
            },
            Conflict::TouchingVirtual { node, virtual_vertex } => {
                if spec_vertex_covered(partition, virtual_vertex) {
                    match spec_node_unit(partition, nodes, node as int) {
                        Some(u1) => spec_lca(partition.units@, u1 as int,
                            spec_vertex_unit(partition, virtual_vertex)),
                        None => None,
                    }
                } else {
                    None
                }
            },
            Conflict::BlossomNeedExpand { blossom } => {
                spec_node_unit(partition, nodes, blossom as int)
            },
        }
    }
}

/// The conflicts among the first `k` that unit `u` must resolve, in order.
pub open spec fn spec_bucket(
    partition: PartitionInfo, nodes: Seq<DualNode>, conflicts: Seq<Conflict>, k: int, u: usize,
) -> Seq<Conflict>
    decreases k,
{
    if k <= 0 {
        Seq::empty()
    } else {
        spec_bucket(partition, nodes, conflicts, k - 1, u)
            + if spec_conflict_owner(partition, nodes, conflicts[k - 1]) == Some(u) {
                seq![conflicts[k - 1]]
            } else {
                Seq::empty()
            }
    }
}

proof fn lemma_bucket_member_owner(
    partition: PartitionInfo, nodes: Seq<DualNode>, conflicts: Seq<Conflict>, k: int,
    u: usize, c: Conflict,
)
    requires
        spec_bucket(partition, nodes, conflicts, k, u).contains(c),
    ensures
        spec_conflict_owner(partition, nodes, c) == Some(u),
    decreases k,
{
    if k > 0 {
        let prefix = spec_bucket(partition, nodes, conflicts, k - 1, u);
        let last = if spec_conflict_owner(partition, nodes, conflicts[k - 1]) == Some(u) {
            seq![conflicts[k - 1]]
        } else {
            Seq::<Conflict>::empty()
        };
        let i = choose|i: int| 0 <= i < (prefix + last).len() && (prefix + last)[i] == c;
        if i < prefix.len() {
            assert(prefix[i] == c);
            assert(prefix.contains(c));
            lemma_bucket_member_owner(partition, nodes, conflicts, k - 1, u, c);
        } else {
            assert(last[i - prefix.len()] == c);
            assert(c == conflicts[k - 1]);
        }
    } else {
        assert(false);
    }
}

/// Boundary-fusion exclusivity at the dispatch level: no conflict ever
/// stands in the buckets of two different units, so two units sharing a
/// fusion boundary can never both claim resolution of one boundary conflict.
pub proof fn lemma_conflict_dispatched_once(
    partition: PartitionInfo, nodes: Seq<DualNode>, conflicts: Seq<Conflict>, k: int,
    u: usize, w: usize, c: Conflict,
)
    requires
        u != w,
    ensures
        !(spec_bucket(partition, nodes, conflicts, k, u).contains(c)
            && spec_bucket(partition, nodes, conflicts, k, w).contains(c)),
{
    if spec_bucket(partition, nodes, conflicts, k, u).contains(c)
        && spec_bucket(partition, nodes, conflicts, k, w).contains(c) {
        lemma_bucket_member_owner(partition, nodes, conflicts, k, u, c);
        lemma_bucket_member_owner(partition, nodes, conflicts, k, w, c);
    }
}

/// Whether a node of the forest is a leaf (a syndrome vertex).
fn node_is_leaf(forest: &NodeForest, node: NodeIndex) -> (r: bool)
    requires
        node < forest.nodes@.len(),
    ensures
        r == is_leaf(forest.nodes@, node as int),
{
    matches!(&forest.nodes[node].class, DualNodeClass::SyndromeVertex { .. })
}

impl PartitionInfo {
    /// Append a fused unit merging two top-level units, mirroring the dual
    /// side's progressive fusion: the new unit owns the span of its
    /// children's ranges and becomes the sole resolver of their boundary.
    #[verifier::rlimit(60)]
    pub fn fuse(&mut self, a: usize, b: usize) -> (r: usize)
        requires
            partition_wf(*old(self)),
            a < old(self).units@.len(),
            b < old(self).units@.len(),
            a != b,
            old(self).units@[a as int].parent is None,
            old(self).units@[b as int].parent is None,
        ensures
            r == old(self).units@.len(),
            partition_wf(*final(self)),
            final(self).vertex_num == old(self).vertex_num,
            final(self).units@.len() == old(self).units@.len() + 1,
            final(self).units@[r as int].children == Some((a, b)),
            final(self).units@[r as int].parent is None,
            // the fused unit owns the span of its children's ranges
            final(self).units@[r as int].owning_range == ((
                if old(self).units@[a as int].owning_range.0
                    < old(self).units@[b as int].owning_range.0 {
                    old(self).units@[a as int].owning_range.0
                } else {
                    old(self).units@[b as int].owning_range.0
                },
                if old(self).units@[a as int].owning_range.1
                    > old(self).units@[b as int].owning_range.1 {
                    old(self).units@[a as int].owning_range.1
                } else {
                    old(self).units@[b as int].owning_range.1
                },
            )),
            final(self).units@[a as int].parent == Some(r),
            final(self).units@[b as int].parent == Some(r),
            final(self).units@[a as int].children == old(self).units@[a as int].children,
            final(self).units@[b as int].children == old(self).units@[b as int].children,
            final(self).units@[a as int].owning_range
                == old(self).units@[a as int].owning_range,
            final(self).units@[b as int].owning_range
                == old(self).units@[b as int].owning_range,
            forall|i: int| 0 <= i < r && i != a && i != b
                ==> final(self).units@[i] == old(self).units@[i],
    {
        let r = self.units.len();
        let range_a = self.units[a].owning_range;
        let range_b = self.units[b].owning_range;
        let lo = if range_a.0 < range_b.0 { range_a.0 } else { range_b.0 };
        let hi = if range_a.1 > range_b.1 { range_a.1 } else { range_b.1 };
        let ghost old_units = self.units@;
        let mut unit_a = self.units.remove(a);
        unit_a.parent = Some(r);
        self.units.insert(a, unit_a);
        proof {
            assert(self.units@ =~= old_units.update(a as int, self.units@[a as int]));
        }
        let ghost mid_units = self.units@;
        let mut unit_b = self.units.remove(b);
        unit_b.parent = Some(r);
        self.units.insert(b, unit_b);
        proof {
            assert(self.units@ =~= mid_units.update(b as int, self.units@[b as int]));
        }
        self.units.push(PartitionUnit {
            owning_range: (lo, hi),
            children: Some((a, b)),
            parent: None,
        });
        proof {
            let new_units = self.units@;
            assert forall|i: int| 0 <= i < new_units.len()
                implies unit_wf(new_units, i) by {
                if i < r {
                    assert(unit_wf(old_units, i));
                    if i == a || i == b {
                        assert(new_units[i].parent == Some(r as usize));
                        assert(new_units[r as int].children == Some((a, b)));
                    }
                    match old_units[i].children {
                        Some((c, d)) => {
                            // the children of an old unit had a parent, so
                            // they are neither of the two fused units
                            assert(old_units[c as int].parent == Some(i as usize));
                            assert(old_units[d as int].parent == Some(i as usize));
                            assert(c != a && c != b && d != a && d != b);
                        },
                        None => {},
                    }
                    match old_units[i].parent {
                        Some(p) => {
                            assert(new_units[p as int].children == old_units[p as int].children);
                        },
                        None => {},
                    }
                } else {
                    assert(i == r);
                }
            }
            assert forall|i: int| 0 <= i < new_units.len() && is_leaf_unit(new_units, i)
                implies (#[trigger] new_units[i].owning_range).0
                    <= new_units[i].owning_range.1
                    && new_units[i].owning_range.1 <= self.vertex_num by {
                assert(i < r);
                assert(is_leaf_unit(old_units, i));
                assert(new_units[i].owning_range == old_units[i].owning_range);
            }
            assert forall|i: int, j: int| 0 <= i < new_units.len() && 0 <= j < new_units.len()
                && i != j && is_leaf_unit(new_units, i) && is_leaf_unit(new_units, j)
                implies ((#[trigger] new_units[i].owning_range).1
                    <= (#[trigger] new_units[j].owning_range).0
                    || new_units[j].owning_range.1 <= new_units[i].owning_range.0) by {
                assert(i < r && j < r);
                assert(is_leaf_unit(old_units, i) && is_leaf_unit(old_units, j));
                assert(new_units[i].owning_range == old_units[i].owning_range);
                assert(new_units[j].owning_range == old_units[j].owning_range);
            }
        }
        r
    }

    /// The leaf unit owning vertex `v`, if any.
    pub fn unit_of_vertex(&self, v: VertexIndex) -> (r: Option<usize>)
        requires
            partition_wf(*self),
        ensures
            r is Some <==> spec_vertex_covered(*self, v),
            r is Some ==> r->0 == spec_vertex_unit(*self, v),
    {
        let mut i: usize = 0;
        while i < self.units.len()
            invariant
                partition_wf(*self),
                i <= self.units@.len(),
                forall|j: int| 0 <= j < i ==> !(is_leaf_unit(self.units@, j)
                    && (#[trigger] self.units@[j].owning_range).0 <= v
                    && v < self.units@[j].owning_range.1),
            decreases self.units@.len() - i,
        {
            let unit = self.units[i];
            if unit.children.is_none() && unit.owning_range.0 <= v && v < unit.owning_range.1 {
                proof {
                    assert(spec_vertex_covered(*self, v));
                    let j = spec_vertex_unit(*self, v);
                    assert(is_leaf_unit(self.units@, j)
                        && self.units@[j].owning_range.0 <= v
                        && v < self.units@[j].owning_range.1);
                    assert(j == i);
                }
                return Some(i);
            }
            i += 1;
        }
        proof {
            assert(!spec_vertex_covered(*self, v));
        }
        None
    }

    /// The leaf unit owning the syndrome vertex under `node`, if any.
    pub fn unit_of_node(&self, forest: &NodeForest, node: NodeIndex) -> (r: Option<usize>)
        requires
            partition_wf(*self),
            forest_wf(forest.nodes@),
            node < forest.nodes@.len(),
        ensures
            r == spec_node_unit(*self, forest.nodes@, node as int),
    {
        let ghost nodes = forest.nodes@;
        let mut current = node;
        proof {
            lemma_first_leaf(nodes, node as int);
        }
        while !node_is_leaf(forest, current)
            invariant
                forest_wf(nodes),
                nodes == forest.nodes@,
                current < nodes.len(),
                spec_first_leaf(nodes, current as int)
                    == spec_first_leaf(nodes, node as int),
            decreases current,
        {
            proof {
                assert(node_basic_wf(nodes, current as int));
            }
            match &forest.nodes[current].class {
                DualNodeClass::Blossom { nodes_circle, .. } => {
                    current = nodes_circle[0];
                },
                DualNodeClass::SyndromeVertex { .. } => {
                    proof {
                        assert(false);
                    }
                },
            }
        }
        proof {
            assert(is_leaf(nodes, current as int));
            assert(spec_first_leaf(nodes, current as int) == current as int);
        }
        let v = syndrome_of(forest, current);
        self.unit_of_vertex(v)
    }

    /// The unit that must resolve the given conflict, if one is designated.
    pub fn conflict_owner(&self, forest: &NodeForest, conflict: Conflict) -> (r: Option<usize>)
        requires
            partition_wf(*self),
            forest_wf(forest.nodes@),
        ensures
            r == spec_conflict_owner(*self, forest.nodes@, conflict),
    {
        let n = forest.len();
        match conflict {
            Conflict::Conflicting { node_1, node_2 } => {
                if node_1 < n && node_2 < n {
                    let u1 = self.unit_of_node(forest, node_1);
                    let u2 = self.unit_of_node(forest, node_2);
                    match (u1, u2) {
                        (Some(a), Some(b)) => self.lowest_common_ancestor(a, b),
                        _ => None,
                    }
                } else {
                    None
                }
            },
            Conflict::TouchingVirtual { node, virtual_vertex } => {
                if node < n {
                    match self.unit_of_vertex(virtual_vertex) {
                        Some(vu) => {
                            match self.unit_of_node(forest, node) {
                                Some(a) => self.lowest_common_ancestor(a, vu),
                                None => None,
                            }
                        },
                        None => None,
                    }
                } else {
                    None
                }
            },
            Conflict::BlossomNeedExpand { blossom } => {
                if blossom < n {
                    self.unit_of_node(forest, blossom)
                } else {
                    None
                }
            },
        }
    }

    /// The lowest fused ancestor shared by two units, if any.
    pub fn lowest_common_ancestor(&self, a: usize, b: usize) -> (r: Option<usize>)
        requires
            partition_wf(*self),
            a < self.units@.len(),
            b < self.units@.len(),
        ensures
            r == spec_lca(self.units@, a as int, b as int),
    {
        let mut x = a;
        let mut y = b;
        while x != y
            invariant
                partition_wf(*self),
                x < self.units@.len(),
                y < self.units@.len(),
                spec_lca(self.units@, x as int, y as int)
                    == spec_lca(self.units@, a as int, b as int),
            decreases 2 * self.units@.len() - x - y,
        {
            proof {
                assert(unit_wf(self.units@, x as int));
                assert(unit_wf(self.units@, y as int));
            }
            if x < y {
                match self.units[x].parent {
                    Some(p) => {
                        x = p;
                    },
                    None => {
                        return None;
                    },
                }
            } else {
                match self.units[y].parent {
                    Some(p) => {
                        y = p;
                    },
                    None => {
                        return None;
                    },
                }
            }
        }
        Some(x)
    }

    /// Distribute a list of conflicts into one bucket per unit: each conflict
    /// with a designated owner stands in that owner's bucket and in no other.
    pub fn distribute_conflicts(&self, forest: &NodeForest, conflicts: &Vec<Conflict>)
        -> (r: Vec<Vec<Conflict>>)
        requires
            partition_wf(*self),
            forest_wf(forest.nodes@),
        ensures
            r@.len() == self.units@.len(),
            forall|u: int| 0 <= u < r@.len()
                ==> (#[trigger] r@[u])@ == spec_bucket(*self, forest.nodes@, conflicts@,
                    conflicts@.len() as int, u as usize),
    {
        let ghost nodes = forest.nodes@;
        let mut buckets: Vec<Vec<Conflict>> = Vec::new();
        let mut u: usize = 0;
        while u < self.units.len()
            invariant
                partition_wf(*self),
                nodes == forest.nodes@,
                forest_wf(nodes),
                u <= self.units@.len(),
                buckets@.len() == u,
                forall|w: int| 0 <= w < u
                    ==> (#[trigger] buckets@[w])@ == spec_bucket(*self, nodes, conflicts@,
                        conflicts@.len() as int, w as usize),
            decreases self.units@.len() - u,
        {
            let mut bucket: Vec<Conflict> = Vec::new();
            let mut k: usize = 0;
            proof {
                assert(bucket@ =~= spec_bucket(*self, nodes, conflicts@, 0, u));
            }
            while k < conflicts.len()
                invariant
                    partition_wf(*self),
                    nodes == forest.nodes@,
                    forest_wf(nodes),
                    k <= conflicts@.len(),
                    bucket@ == spec_bucket(*self, nodes, conflicts@, k as int, u),
                decreases conflicts@.len() - k,
            {
                let conflict = conflicts[k];
                match self.conflict_owner(forest, conflict) {
                    Some(owner) => {
                        if owner == u {
                            bucket.push(conflict);
                        }
                    },
                    None => {},
                }
                proof {
                    assert(bucket@ =~= spec_bucket(*self, nodes, conflicts@, k as int + 1, u));
                }
                k += 1;
            }
            buckets.push(bucket);
            u += 1;
        }
        buckets
    }
}

/// The edges with both endpoints inside the half-open range, in order.
pub open spec fn spec_edges_in_range(
    edges: Seq<(VertexIndex, VertexIndex, Weight)>, k: int, lo: VertexIndex, hi: VertexIndex,
) -> Seq<(VertexIndex, VertexIndex, Weight)>
    decreases k,
{
    if k <= 0 {
        Seq::empty()
    } else {
        spec_edges_in_range(edges, k - 1, lo, hi)
            + if lo <= edges[k - 1].0 && edges[k - 1].0 < hi
                && lo <= edges[k - 1].1 && edges[k - 1].1 < hi {
                seq![edges[k - 1]]
            } else {
                Seq::empty()
            }
    }
}

/// The vertices inside the half-open range, in order.
pub open spec fn spec_vertices_in_range(
    vertices: Seq<VertexIndex>, k: int, lo: VertexIndex, hi: VertexIndex,
) -> Seq<VertexIndex>
    decreases k,
{
    if k <= 0 {
        Seq::empty()
    } else {
        spec_vertices_in_range(vertices, k - 1, lo, hi)
            + if lo <= vertices[k - 1] && vertices[k - 1] < hi {
                seq![vertices[k - 1]]
            } else {
                Seq::empty()
            }
    }
}

fn edges_in_range(
    edges: &Vec<(VertexIndex, VertexIndex, Weight)>, range: (VertexIndex, VertexIndex),
) -> (r: Vec<(VertexIndex, VertexIndex, Weight)>)
    ensures
        r@ == spec_edges_in_range(edges@, edges@.len() as int, range.0, range.1),
{
    let mut r: Vec<(VertexIndex, VertexIndex, Weight)> = Vec::new();
    let mut k: usize = 0;
    proof {
        assert(r@ =~= spec_edges_in_range(edges@, 0, range.0, range.1));
    }
    while k < edges.len()
        invariant
            k <= edges@.len(),
            r@ == spec_edges_in_range(edges@, k as int, range.0, range.1),
        decreases edges@.len() - k,
    {
        let edge = edges[k];
        if range.0 <= edge.0 && edge.0 < range.1 && range.0 <= edge.1 && edge.1 < range.1 {
            r.push(edge);
        }
        proof {
            assert(r@ =~= spec_edges_in_range(edges@, k as int + 1, range.0, range.1));
        }
        k += 1;
    }
    r
}

fn vertices_in_range(vertices: &Vec<VertexIndex>, range: (VertexIndex, VertexIndex))
    -> (r: Vec<VertexIndex>)
    ensures
        r@ == spec_vertices_in_range(vertices@, vertices@.len() as int, range.0, range.1),
{
    let mut r: Vec<VertexIndex> = Vec::new();
    let mut k: usize = 0;
    proof {
        assert(r@ =~= spec_vertices_in_range(vertices@, 0, range.0, range.1));
    }
    while k < vertices.len()
        invariant
            k <= vertices@.len(),
            r@ == spec_vertices_in_range(vertices@, k as int, range.0, range.1),
        decreases vertices@.len() - k,
    {
        let v = vertices[k];
        if range.0 <= v && v < range.1 {
            r.push(v);
        }
        proof {
            assert(r@ =~= spec_vertices_in_range(vertices@, k as int + 1, range.0, range.1));
        }
        k += 1;
    }
    r
}

/// One handle of the orchestrator: a unit index together with the serial
/// primal module owning that unit's share of the problem.
pub struct PrimalModuleParallelUnit<S> {
    /// the index of this unit in the orchestrator's unit list
    pub unit_index: usize,
    /// the owned serial primal module
    pub serial_module: S,
}

/// The parallel primal orchestrator: one serial primal module per partition
/// unit, the fusion plan, and the worker-pool configuration.
pub struct PrimalModuleParallel<S> {
    /// the units, leaves first, fused units after their children
    pub units: Vec<PrimalModuleParallelUnit<S>>,
    /// the partition and fusion plan this orchestrator follows
    pub partition_info: PartitionInfo,
    /// the worker-pool configuration used by top-level operations
    pub config: PrimalModuleParallelConfig,
}

impl<S: PrimalModuleImpl> PrimalModuleParallel<S> {
    /// Internal well-formedness: a sound fusion plan, one serial module per
    /// unit, each well formed under its own contract.
    pub open spec fn parallel_wf(&self) -> bool {
        &&& partition_wf(self.partition_info)
        &&& self.units@.len() == self.partition_info.units@.len()
        &&& forall|i: int| 0 <= i < self.units@.len()
            ==> (#[trigger] self.units@[i]).serial_module.wf()
    }

    /// The recommended constructor: one unit per partition unit, each serial
    /// module sized for the edges and virtual vertices its range owns.
    pub fn new_config(
        vertex_num: usize,
        weighted_edges: &Vec<(VertexIndex, VertexIndex, Weight)>,
        virtual_vertices: &Vec<VertexIndex>,
        partition_info: PartitionInfo,
        config: PrimalModuleParallelConfig,
    ) -> (r: Self)
        requires
            partition_wf(partition_info),
        ensures
            r.parallel_wf(),
            r.partition_info == partition_info,
            r.config == config,
            r.units@.len() == partition_info.units@.len(),
            forall|i: int| 0 <= i < r.units@.len()
                ==> (#[trigger] r.units@[i]).unit_index == i,
    {
        let mut units: Vec<PrimalModuleParallelUnit<S>> = Vec::new();
        let mut i: usize = 0;
        while i < partition_info.units.len()
            invariant
                partition_wf(partition_info),
                i <= partition_info.units@.len(),
                units@.len() == i,
                forall|j: int| 0 <= j < i
                    ==> (#[trigger] units@[j]).unit_index == j
                        && units@[j].serial_module.wf(),
            decreases partition_info.units@.len() - i,
        {
            let range = partition_info.units[i].owning_range;
            let unit_edges = edges_in_range(weighted_edges, range);
            let unit_virtuals = vertices_in_range(virtual_vertices, range);
            let serial_module = S::new(vertex_num, &unit_edges, &unit_virtuals);
            units.push(PrimalModuleParallelUnit { unit_index: i, serial_module });
            i += 1;
        }
        PrimalModuleParallel { units, partition_info, config }
    }
}

impl<S: PrimalModuleImpl> PrimalModuleImpl for PrimalModuleParallel<S> {
    open spec fn wf(&self) -> bool {
        self.parallel_wf()
    }

    fn new(
        vertex_num: usize,
        weighted_edges: &Vec<(VertexIndex, VertexIndex, Weight)>,
        virtual_vertices: &Vec<VertexIndex>,
    ) -> (r: Self)
        ensures
            // the default topology: a single leaf unit over the whole
            // vertex range, under the default configuration
            r.partition_info.vertex_num == vertex_num,
            r.partition_info.units@.len() == 1,
            r.partition_info.units@[0].owning_range == (0usize, vertex_num),
            r.partition_info.units@[0].children is None,
            r.partition_info.units@[0].parent is None,
            r.units@.len() == 1,
            r.units@[0].unit_index == 0,
            r.config.thread_pool_size == 1,
    {
        let mut units: Vec<PartitionUnit> = Vec::new();
        units.push(PartitionUnit {
            owning_range: (0, vertex_num),
            children: None,
            parent: None,
        });
        let partition_info = PartitionInfo { vertex_num, units };
        proof {
            assert forall|i: int| 0 <= i < partition_info.units@.len()
                implies unit_wf(partition_info.units@, i) by {
                assert(partition_info.units@[i].parent is None);
                assert(partition_info.units@[i].children is None);
            }
            assert(partition_wf(partition_info));
        }
        Self::new_config(vertex_num, weighted_edges, virtual_vertices, partition_info,
            PrimalModuleParallelConfig::default())
    }

    fn clear(&mut self)
        ensures
            final(self).partition_info == old(self).partition_info,
            final(self).config == old(self).config,
            final(self).units@.len() == old(self).units@.len(),
    {
        let mut u: usize = 0;
        while u < self.units.len()
            invariant
                old(self).wf(),
                self.partition_info == old(self).partition_info,
                self.config == old(self).config,
                u <= self.units@.len(),
                self.units@.len() == old(self).units@.len(),
                forall|i: int| 0 <= i < self.units@.len()
                    ==> (#[trigger] self.units@[i]).serial_module.wf(),
            decreases self.units@.len() - u,
        {
            let mut unit = self.units.remove(u);
            unit.serial_module.clear();
            self.units.insert(u, unit);
            u += 1;
        }
    }

    fn load(&mut self, interface: &DualModuleInterface)
        ensures
            final(self).partition_info == old(self).partition_info,
            final(self).config == old(self).config,
            final(self).units@.len() == old(self).units@.len(),
    {
        let mut u: usize = 0;
        while u < self.units.len()
            invariant
                old(self).wf(),
                self.partition_info == old(self).partition_info,
                self.config == old(self).config,
                u <= self.units@.len(),
                self.units@.len() == old(self).units@.len(),
                forall|i: int| 0 <= i < self.units@.len()
                    ==> (#[trigger] self.units@[i]).serial_module.wf(),
            decreases self.units@.len() - u,
        {
            let mut unit = self.units.remove(u);
            unit.serial_module.load(interface);
            self.units.insert(u, unit);
            u += 1;
        }
    }

    fn resolve<D: DualModuleImpl>(
        &mut self,
        group_max_update_length: GroupMaxUpdateLength,
        interface: &mut DualModuleInterface,
        dual_module: &mut D,
    )
        ensures
            final(self).partition_info == old(self).partition_info,
            final(self).config == old(self).config,
            final(self).units@.len() == old(self).units@.len(),
    {
        // every conflict is assigned to the unit that owns it — a child unit
        // for a single-unit conflict, the lowest fused ancestor for one that
        // straddles a fusion boundary — and to no other unit
        let mut buckets = self.partition_info.distribute_conflicts(
            &interface.nodes, &group_max_update_length.conflicts);
        let mut u: usize = 0;
        while u < self.units.len()
            invariant
                old(self).wf(),
                self.partition_info == old(self).partition_info,
                self.config == old(self).config,
                u <= self.units@.len(),
                self.units@.len() == old(self).units@.len(),
                buckets@.len() >= self.units@.len() - u,
                forest_wf(interface.nodes.nodes@),
                forall|i: int| 0 <= i < self.units@.len()
                    ==> (#[trigger] self.units@[i]).serial_module.wf(),
            decreases self.units@.len() - u,
        {
            let bucket = buckets.remove(0);
            if bucket.len() > 0 {
                let unit_update_length = GroupMaxUpdateLength {
                    conflicts: bucket,
                    none_zero_growth: None,
                };
                let mut unit = self.units.remove(u);
                unit.serial_module.resolve(unit_update_length, interface, dual_module);
                self.units.insert(u, unit);
            }
            u += 1;
        }
    }

    fn intermediate_matching<D: DualModuleImpl>(
        &mut self,
        interface: &mut DualModuleInterface,
        dual_module: &mut D,
    ) -> (r: IntermediateMatching)
        ensures
            final(self).partition_info == old(self).partition_info,
            final(self).config == old(self).config,
            final(self).units@.len() == old(self).units@.len(),
    {
        let ghost nodes = interface.nodes.nodes@;
        let mut combined = IntermediateMatching::new();
        proof {
            assert(peer_entries_wf(nodes, combined.peer_matchings@));
            assert(virtual_entries_wf(nodes, combined.virtual_matchings@));
        }
        let mut u: usize = 0;
        while u < self.units.len()
            invariant
                old(self).wf(),
                self.partition_info == old(self).partition_info,
                self.config == old(self).config,
                u <= self.units@.len(),
                self.units@.len() == old(self).units@.len(),
                *interface == *old(interface),
                *dual_module == *old(dual_module),
                nodes == interface.nodes.nodes@,
                forest_wf(nodes),
                peer_entries_wf(nodes, combined.peer_matchings@),
                virtual_entries_wf(nodes, combined.virtual_matchings@),
                forall|i: int| 0 <= i < self.units@.len()
                    ==> (#[trigger] self.units@[i]).serial_module.wf(),
            decreases self.units@.len() - u,
        {
            let mut unit = self.units.remove(u);
            let mut unit_matching = unit.serial_module.intermediate_matching(
                interface, dual_module);
            self.units.insert(u, unit);
            let ghost old_peers = combined.peer_matchings@;
            let ghost old_virtuals = combined.virtual_matchings@;
            let ghost sub_peers = unit_matching.peer_matchings@;
            let ghost sub_virtuals = unit_matching.virtual_matchings@;
            combined.peer_matchings.append(&mut unit_matching.peer_matchings);
            combined.virtual_matchings.append(&mut unit_matching.virtual_matchings);
            proof {
                assert forall|i: int| 0 <= i < combined.peer_matchings@.len() implies {
                    &&& match_pair_wf(nodes, (#[trigger] combined.peer_matchings@[i]).0.0,
                        combined.peer_matchings@[i].0.1)
                    &&& match_pair_wf(nodes, combined.peer_matchings@[i].1.0,
                        combined.peer_matchings@[i].1.1)
                } by {
                    if i < old_peers.len() {
                        assert(combined.peer_matchings@[i] == old_peers[i]);
                    } else {
                        assert(combined.peer_matchings@[i] == sub_peers[i - old_peers.len()]);
                    }
                }
                assert forall|i: int| 0 <= i < combined.virtual_matchings@.len()
                    implies match_pair_wf(nodes,
                        (#[trigger] combined.virtual_matchings@[i]).0.0,
                        combined.virtual_matchings@[i].0.1) by {
                    if i < old_virtuals.len() {
                        assert(combined.virtual_matchings@[i] == old_virtuals[i]);
                    } else {
                        assert(combined.virtual_matchings@[i]
                            == sub_virtuals[i - old_virtuals.len()]);
                    }
                }
            }
            u += 1;
        }
        combined
    }
}

} // verus!
