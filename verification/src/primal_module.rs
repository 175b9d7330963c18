//! The blossom expansion engine and the interface every primal module
//! implementation satisfies.
//!
//! An `IntermediateMatching` pairs up possibly-contracted nodes; the engine
//! expands it, without mutating the forest, into a `PerfectMatching` that
//! speaks of leaf nodes only.  A blossom entered through a leaf `touching` is
//! expanded by walking from `touching` up the parent chain: at every level the
//! odd circle loses the entry child and the remaining even run pairs up two by
//! two through the recorded touching children.

use crate::dual_module::{
    basic_wf, blossom_touching_wf, circle_index_of, forest_wf, in_leaves, is_ancestor,
    is_blossom, is_leaf, lemma_ancestor_index, lemma_ancestor_transitive,
    lemma_descend_into_circle, lemma_leaf_below, lemma_siblings_disjoint, node_basic_wf,
    spec_circle, spec_syndrome_index, spec_touchings, DualModuleImpl, DualModuleInterface,
    DualNode, DualNodeClass, GroupMaxUpdateLength, NodeForest,
};
use crate::util::{NodeIndex, VertexIndex, Weight};
use vstd::prelude::*;

verus! {

/// The larger of two integers.
pub open spec fn max2(a: int, b: int) -> int {
    if a > b { a } else { b }
}

/// Position `off` places after `idx` on a cycle of length `len`.
pub open spec fn circ_pos(idx: int, off: int, len: int) -> int {
    if idx + off < len { idx + off } else { idx + off - len }
}

/// The leaf pairs contributed by step `i` of expanding the circle of blossom
/// `p` entered at position `idx`: the children at the two positions after
/// `idx + 2 i` are paired through their recorded touching leaves.
pub open spec fn spec_expand_pair(nodes: Seq<DualNode>, p: int, idx: int, i: int)
    -> Seq<(NodeIndex, NodeIndex)>
    decreases p, 0int, 0int, 0int
        when forest_wf(nodes) && 0 <= p < nodes.len() && is_blossom(nodes, p)
            && 0 <= idx < spec_circle(nodes, p).len()
            && 0 <= i && 2 * i + 2 < spec_circle(nodes, p).len()
        via spec_expand_pair_decreases
{
    let c = spec_circle(nodes, p);
    let t = spec_touchings(nodes, p);
    let i1 = circ_pos(idx, 2 * i + 1, c.len() as int);
    let i2 = circ_pos(idx, 2 * i + 2, c.len() as int);
    spec_expand_peer(nodes, c[i1] as int, t[i1].1 as int, c[i2] as int, t[i2].0 as int)
}

#[via_fn]
proof fn spec_expand_pair_decreases(nodes: Seq<DualNode>, p: int, idx: int, i: int) {
    assert(node_basic_wf(nodes, p));
    assert(blossom_touching_wf(nodes, p));
    let c = spec_circle(nodes, p);
    let i1 = circ_pos(idx, 2 * i + 1, c.len() as int);
    let i2 = circ_pos(idx, 2 * i + 2, c.len() as int);
    assert(c[i1] < p);
    assert(c[i2] < p);
}

/// The leaf pairs contributed by the first `k` steps of expanding the circle
/// of blossom `p` entered at position `idx`.
pub open spec fn spec_expand_level(nodes: Seq<DualNode>, p: int, idx: int, k: int)
    -> Seq<(NodeIndex, NodeIndex)>
    decreases p, 0int, 1int, k
        when forest_wf(nodes) && 0 <= p < nodes.len() && is_blossom(nodes, p)
            && 0 <= idx < spec_circle(nodes, p).len()
            && 0 <= k && 2 * k < spec_circle(nodes, p).len()
{
    if k <= 0 {
        Seq::empty()
    } else {
        spec_expand_level(nodes, p, idx, k - 1) + spec_expand_pair(nodes, p, idx, k - 1)
    }
}

/// The leaf pairs produced by expanding blossom `blossom` entered through its
/// descendant `touching`: one level of circle pairs for every blossom on the
/// parent chain from `touching` up to `blossom`.
pub open spec fn spec_expand_blossom(nodes: Seq<DualNode>, blossom: int, touching: int)
    -> Seq<(NodeIndex, NodeIndex)>
    decreases blossom, nodes.len() - touching, 2int, 0int
        when forest_wf(nodes) && 0 <= blossom < nodes.len() && 0 <= touching < nodes.len()
            && is_ancestor(nodes, blossom, touching)
        via spec_expand_blossom_decreases
{
    if touching == blossom {
        Seq::empty()
    } else {
        let p = nodes[touching].parent_blossom->0 as int;
        let c = spec_circle(nodes, p);
        let idx = circle_index_of(nodes, p, touching as NodeIndex);
        spec_expand_level(nodes, p, idx, (c.len() - 1) as int / 2)
            + spec_expand_blossom(nodes, blossom, p)
    }
}

#[via_fn]
proof fn spec_expand_blossom_decreases(nodes: Seq<DualNode>, blossom: int, touching: int) {
    if touching != blossom {
        assert(node_basic_wf(nodes, touching));
        let p = nodes[touching].parent_blossom->0 as int;
        assert(is_ancestor(nodes, blossom, p)) by {
            reveal_with_fuel(is_ancestor, 2);
        };
        lemma_ancestor_index(nodes, blossom, p);
        assert(node_basic_wf(nodes, p));
        let c = spec_circle(nodes, p);
        assert(c.contains(touching as NodeIndex));
        let idx = circle_index_of(nodes, p, touching as NodeIndex);
        assert(0 <= idx < c.len());
    }
}

/// The leaf pairs produced by expanding one matched pair: both sides are
/// expanded down to leaves and the two touching leaves are paired with each
/// other.
pub open spec fn spec_expand_peer(nodes: Seq<DualNode>, n1: int, t1: int, n2: int, t2: int)
    -> Seq<(NodeIndex, NodeIndex)>
    decreases max2(n1, n2), nodes.len() as int, 3int, 0int
        when forest_wf(nodes)
            && 0 <= n1 < nodes.len() && 0 <= t1 < nodes.len()
            && 0 <= n2 < nodes.len() && 0 <= t2 < nodes.len()
            && is_ancestor(nodes, n1, t1) && is_ancestor(nodes, n2, t2)
{
    spec_expand_blossom(nodes, n1, t1) + spec_expand_blossom(nodes, n2, t2)
        + seq![(t1 as NodeIndex, t2 as NodeIndex)]
}

/// Whether `node` is matched through a recorded leaf `touching` that really
/// lies below it.
pub open spec fn match_pair_wf(nodes: Seq<DualNode>, node: NodeIndex, touching: NodeIndex)
    -> bool
{
    &&& node < nodes.len()
    &&& touching < nodes.len()
    &&& is_leaf(nodes, touching as int)
    &&& is_ancestor(nodes, node as int, touching as int)
}

/// Validity of a list of peer matchings over the forest.
pub open spec fn peer_entries_wf(
    nodes: Seq<DualNode>,
    peers: Seq<((NodeIndex, NodeIndex), (NodeIndex, NodeIndex))>,
) -> bool {
    forall|i: int| 0 <= i < peers.len() ==> {
        &&& match_pair_wf(nodes, (#[trigger] peers[i]).0.0, peers[i].0.1)
        &&& match_pair_wf(nodes, peers[i].1.0, peers[i].1.1)
    }
}

/// Validity of a list of virtual matchings over the forest.
pub open spec fn virtual_entries_wf(
    nodes: Seq<DualNode>,
    virtuals: Seq<((NodeIndex, NodeIndex), VertexIndex)>,
) -> bool {
    forall|i: int| 0 <= i < virtuals.len()
        ==> match_pair_wf(nodes, (#[trigger] virtuals[i]).0.0, virtuals[i].0.1)
}

/// The matching as produced by tree resolution, possibly over blossom nodes.
pub struct IntermediateMatching {
    /// matched pairs, each unordered pair appearing once:
    /// ((node_1, touching_1), (node_2, touching_2))
    pub peer_matchings: Vec<((NodeIndex, NodeIndex), (NodeIndex, NodeIndex))>,
    /// nodes matched to the boundary: ((node, touching), virtual_vertex)
    pub virtual_matchings: Vec<((NodeIndex, NodeIndex), VertexIndex)>,
}

/// A matching expressed purely over leaf nodes.
pub struct PerfectMatching {
    /// matched pairs, each unordered pair appearing once
    pub peer_matchings: Vec<(NodeIndex, NodeIndex)>,
    /// leaves matched to the boundary: (syndrome_node, virtual_vertex)
    pub virtual_matchings: Vec<(NodeIndex, VertexIndex)>,
}

/// Validity of an intermediate matching over the forest.
pub open spec fn intermediate_matching_wf(nodes: Seq<DualNode>, im: IntermediateMatching)
    -> bool
{
    &&& peer_entries_wf(nodes, im.peer_matchings@)
    &&& virtual_entries_wf(nodes, im.virtual_matchings@)
}

/// The leaf pairs produced by expanding the first `k` peer matchings.
pub open spec fn spec_expand_peers(
    nodes: Seq<DualNode>,
    peers: Seq<((NodeIndex, NodeIndex), (NodeIndex, NodeIndex))>,
    k: int,
) -> Seq<(NodeIndex, NodeIndex)>
    decreases k,
{
    if k <= 0 {
        Seq::empty()
    } else {
        let e = peers[k - 1];
        spec_expand_peers(nodes, peers, k - 1)
            + spec_expand_peer(nodes, e.0.0 as int, e.0.1 as int, e.1.0 as int, e.1.1 as int)
    }
}

/// The leaf pairs produced by expanding the node side of the first `k`
/// virtual matchings.
pub open spec fn spec_expand_virtuals(
    nodes: Seq<DualNode>,
    virtuals: Seq<((NodeIndex, NodeIndex), VertexIndex)>,
    k: int,
) -> Seq<(NodeIndex, NodeIndex)>
    decreases k,
{
    if k <= 0 {
        Seq::empty()
    } else {
        let e = virtuals[k - 1];
        spec_expand_virtuals(nodes, virtuals, k - 1)
            + spec_expand_blossom(nodes, e.0.0 as int, e.0.1 as int)
    }
}

/// The boundary pairs of a perfect matching: each virtual matching hands its
/// touching leaf to its virtual vertex.
pub open spec fn spec_virtual_pairs(virtuals: Seq<((NodeIndex, NodeIndex), VertexIndex)>)
    -> Seq<(NodeIndex, VertexIndex)>
{
    virtuals.map_values(|e: ((NodeIndex, NodeIndex), VertexIndex)| (e.0.1, e.1))
}

impl IntermediateMatching {
    /// An empty intermediate matching.
    pub fn new() -> (r: Self)
        ensures
            r.peer_matchings@.len() == 0,
            r.virtual_matchings@.len() == 0,
    {
        IntermediateMatching { peer_matchings: Vec::new(), virtual_matchings: Vec::new() }
    }

    /// Expand blossom `blossom_index`, entered through its descendant leaf
    /// `touching_index`, into matched leaf pairs.  The forest is not mutated.
    pub fn expand_blossom(
        forest: &NodeForest, blossom_index: NodeIndex, touching_index: NodeIndex,
    ) -> (r: Vec<(NodeIndex, NodeIndex)>)
        requires
            forest_wf(forest.nodes@),
            blossom_index < forest.nodes@.len(),
            touching_index < forest.nodes@.len(),
            is_ancestor(forest.nodes@, blossom_index as int, touching_index as int),
        ensures
            r@ == spec_expand_blossom(
                forest.nodes@, blossom_index as int, touching_index as int),
        decreases blossom_index, 1int,
    {
        let ghost nodes = forest.nodes@;
        let mut perfect_matching: Vec<(NodeIndex, NodeIndex)> = Vec::new();
        let mut child_index = touching_index;
        proof {
            lemma_ancestor_index(nodes, blossom_index as int, touching_index as int);
            assert(perfect_matching@
                + spec_expand_blossom(nodes, blossom_index as int, child_index as int)
                =~= spec_expand_blossom(nodes, blossom_index as int, touching_index as int));
        }
        while child_index != blossom_index
            invariant
                forest_wf(nodes),
                nodes == forest.nodes@,
                blossom_index < nodes.len(),
                child_index < nodes.len(),
                child_index <= blossom_index,
                is_ancestor(nodes, blossom_index as int, child_index as int),
                spec_expand_blossom(nodes, blossom_index as int, touching_index as int)
                    == perfect_matching@
                        + spec_expand_blossom(nodes, blossom_index as int, child_index as int),
            decreases blossom_index - child_index,
        {
            proof {
                assert(node_basic_wf(nodes, child_index as int));
                assert(nodes[child_index as int].parent_blossom is Some
                    && is_ancestor(nodes, blossom_index as int,
                        nodes[child_index as int].parent_blossom->0 as int)) by {
                    reveal_with_fuel(is_ancestor, 2);
                };
            }
            let parent_index: NodeIndex = match forest.nodes[child_index].parent_blossom {
                Some(p) => p,
                None => {
                    proof {
                        assert(false);
                    }
                    0
                },
            };
            let ghost p = parent_index as int;
            proof {
                lemma_ancestor_index(nodes, blossom_index as int, p);
                assert(node_basic_wf(nodes, p));
                assert(blossom_touching_wf(nodes, p));
                assert(spec_circle(nodes, p).contains(child_index));
            }
            match &forest.nodes[parent_index].class {
                DualNodeClass::Blossom { nodes_circle, touching_children } => {
                    proof {
                        assert(nodes_circle@ == spec_circle(nodes, p));
                        assert(touching_children@ == spec_touchings(nodes, p));
                    }
                    let len = nodes_circle.len();
                    // find the entry position of the child in the circle
                    let mut idx: usize = 0;
                    while nodes_circle[idx] != child_index
                        invariant
                            nodes_circle@ == spec_circle(nodes, p),
                            len == nodes_circle@.len(),
                            idx < len,
                            exists|k: int| idx <= k < nodes_circle@.len()
                                && nodes_circle@[k] == child_index,
                        decreases nodes_circle@.len() - idx,
                    {
                        proof {
                            let k = choose|k: int| idx <= k < nodes_circle@.len()
                                && nodes_circle@[k] == child_index;
                            assert(k > idx);
                        }
                        idx += 1;
                    }
                    proof {
                        let k0 = circle_index_of(nodes, p, child_index);
                        assert(0 <= k0 < nodes_circle@.len()
                            && spec_circle(nodes, p)[k0] == child_index);
                        assert(k0 == idx);
                    }
                    let steps = (len - 1) / 2;
                    let ghost pm0 = perfect_matching@;
                    let mut s: usize = 0;
                    proof {
                        assert(pm0 + spec_expand_level(nodes, p, idx as int, 0) =~= pm0);
                    }
                    while s < steps
                        invariant
                            forest_wf(nodes),
                            nodes == forest.nodes@,
                            p == parent_index as int,
                            parent_index < nodes.len(),
                            parent_index <= blossom_index,
                            blossom_index < nodes.len(),
                            is_blossom(nodes, p),
                            nodes_circle@ == spec_circle(nodes, p),
                            touching_children@ == spec_touchings(nodes, p),
                            len == nodes_circle@.len(),
                            len >= 3,
                            len % 2 == 1,
                            touching_children@.len() == len,
                            idx < len,
                            steps == (len - 1) / 2,
                            s <= steps,
                            perfect_matching@
                                == pm0 + spec_expand_level(nodes, p, idx as int, s as int),
                        decreases steps - s,
                    {
                        proof {
                            assert((len - 1) % 2 == 0);
                            assert(2 * s as int + 2 <= len - 1);
                            assert(node_basic_wf(nodes, p));
                            assert(blossom_touching_wf(nodes, p));
                        }
                        let off1 = 2 * s + 1;
                        let off2 = 2 * s + 2;
                        let i1 = if off1 < len - idx { idx + off1 } else { off1 - (len - idx) };
                        let i2 = if off2 < len - idx { idx + off2 } else { off2 - (len - idx) };
                        proof {
                            assert(i1 as int == circ_pos(idx as int, off1 as int, len as int));
                            assert(i2 as int == circ_pos(idx as int, off2 as int, len as int));
                        }
                        let dual_node_1 = nodes_circle[i1];
                        let dual_node_2 = nodes_circle[i2];
                        let touching_1 = touching_children[i1].1;
                        let touching_2 = touching_children[i2].0;
                        let mut sub = Self::expand_peer_matching(
                            forest, dual_node_1, touching_1, dual_node_2, touching_2);
                        perfect_matching.append(&mut sub);
                        proof {
                            assert(spec_expand_level(nodes, p, idx as int, s as int + 1)
                                == spec_expand_level(nodes, p, idx as int, s as int)
                                    + spec_expand_pair(nodes, p, idx as int, s as int));
                            assert(perfect_matching@
                                =~= pm0 + spec_expand_level(nodes, p, idx as int, s as int + 1));
                        }
                        s += 1;
                    }
                    proof {
                        assert(spec_expand_blossom(nodes, blossom_index as int,
                                child_index as int)
                            == spec_expand_level(nodes, p, idx as int, steps as int)
                                + spec_expand_blossom(nodes, blossom_index as int, p));
                        assert(pm0 + (spec_expand_level(nodes, p, idx as int, steps as int)
                                + spec_expand_blossom(nodes, blossom_index as int, p))
                            =~= perfect_matching@
                                + spec_expand_blossom(nodes, blossom_index as int, p));
                    }
                },
                DualNodeClass::SyndromeVertex { .. } => {
                    proof {
                        assert(false);
                    }
                },
            }
            child_index = parent_index;
        }
        proof {
            assert(spec_expand_blossom(nodes, blossom_index as int, blossom_index as int)
                =~= Seq::<(NodeIndex, NodeIndex)>::empty());
            assert(perfect_matching@
                + spec_expand_blossom(nodes, blossom_index as int, child_index as int)
                =~= perfect_matching@);
        }
        perfect_matching
    }

    /// Expand one matched pair down to leaf pairs: both sides are expanded
    /// and the two touching leaves are paired with each other.
    pub fn expand_peer_matching(
        forest: &NodeForest,
        dual_node_1: NodeIndex, touching_1: NodeIndex,
        dual_node_2: NodeIndex, touching_2: NodeIndex,
    ) -> (r: Vec<(NodeIndex, NodeIndex)>)
        requires
            forest_wf(forest.nodes@),
            dual_node_1 < forest.nodes@.len(),
            touching_1 < forest.nodes@.len(),
            dual_node_2 < forest.nodes@.len(),
            touching_2 < forest.nodes@.len(),
            is_ancestor(forest.nodes@, dual_node_1 as int, touching_1 as int),
            is_ancestor(forest.nodes@, dual_node_2 as int, touching_2 as int),
        ensures
            r@ == spec_expand_peer(forest.nodes@, dual_node_1 as int, touching_1 as int,
                dual_node_2 as int, touching_2 as int),
        decreases max2(dual_node_1 as int, dual_node_2 as int), 2int,
    {
        let ghost nodes = forest.nodes@;
        let mut perfect_matching = Self::expand_blossom(forest, dual_node_1, touching_1);
        let mut second = Self::expand_blossom(forest, dual_node_2, touching_2);
        perfect_matching.append(&mut second);
        perfect_matching.push((touching_1, touching_2));
        proof {
            assert(perfect_matching@ =~= spec_expand_peer(nodes, dual_node_1 as int,
                touching_1 as int, dual_node_2 as int, touching_2 as int));
        }
        perfect_matching
    }

    /// Expand the intermediate matching into a perfect matching over leaf
    /// nodes only.
    pub fn get_perfect_matching(&self, forest: &NodeForest) -> (r: PerfectMatching)
        requires
            forest_wf(forest.nodes@),
            intermediate_matching_wf(forest.nodes@, *self),
        ensures
            r.peer_matchings@ == spec_expand_peers(forest.nodes@, self.peer_matchings@,
                    self.peer_matchings@.len() as int)
                + spec_expand_virtuals(forest.nodes@, self.virtual_matchings@,
                    self.virtual_matchings@.len() as int),
            r.virtual_matchings@ == spec_virtual_pairs(self.virtual_matchings@),
    {
        let ghost nodes = forest.nodes@;
        let ghost peers = self.peer_matchings@;
        let ghost virtuals = self.virtual_matchings@;
        let mut perfect_matching = PerfectMatching::new();
        let mut i: usize = 0;
        proof {
            assert(perfect_matching.peer_matchings@ =~= spec_expand_peers(nodes, peers, 0));
        }
        while i < self.peer_matchings.len()
            invariant
                forest_wf(nodes),
                nodes == forest.nodes@,
                peers == self.peer_matchings@,
                peer_entries_wf(nodes, peers),
                i <= peers.len(),
                perfect_matching.peer_matchings@ == spec_expand_peers(nodes, peers, i as int),
                perfect_matching.virtual_matchings@.len() == 0,
            decreases peers.len() - i,
        {
            let ((dual_node_1, touching_1), (dual_node_2, touching_2)) =
                self.peer_matchings[i];
            let mut sub = Self::expand_peer_matching(
                forest, dual_node_1, touching_1, dual_node_2, touching_2);
            perfect_matching.peer_matchings.append(&mut sub);
            proof {
                assert(perfect_matching.peer_matchings@
                    =~= spec_expand_peers(nodes, peers, i as int + 1));
            }
            i += 1;
        }
        let ghost expanded_peers = perfect_matching.peer_matchings@;
        let mut i: usize = 0;
        proof {
            assert(expanded_peers + spec_expand_virtuals(nodes, virtuals, 0)
                =~= expanded_peers);
        }
        while i < self.virtual_matchings.len()
            invariant
                forest_wf(nodes),
                nodes == forest.nodes@,
                virtuals == self.virtual_matchings@,
                virtual_entries_wf(nodes, virtuals),
                i <= virtuals.len(),
                perfect_matching.peer_matchings@
                    == expanded_peers + spec_expand_virtuals(nodes, virtuals, i as int),
                perfect_matching.virtual_matchings@.len() == i,
                forall|j: int| 0 <= j < i
                    ==> perfect_matching.virtual_matchings@[j]
                        == ((#[trigger] virtuals[j]).0.1, virtuals[j].1),
            decreases virtuals.len() - i,
        {
            let ((dual_node, touching), virtual_vertex) = self.virtual_matchings[i];
            let mut sub = Self::expand_blossom(forest, dual_node, touching);
            perfect_matching.peer_matchings.append(&mut sub);
            perfect_matching.virtual_matchings.push((touching, virtual_vertex));
            proof {
                assert(perfect_matching.peer_matchings@
                    =~= expanded_peers + spec_expand_virtuals(nodes, virtuals, i as int + 1));
            }
            i += 1;
        }
        proof {
            assert(perfect_matching.virtual_matchings@ =~= spec_virtual_pairs(virtuals));
        }
        perfect_matching
    }
}

/// Whether every pair in the sequence pairs two existing leaf nodes.
pub open spec fn pairs_leaf_only(nodes: Seq<DualNode>, pairs: Seq<(NodeIndex, NodeIndex)>)
    -> bool
{
    forall|i: int| 0 <= i < pairs.len() ==> {
        &&& (#[trigger] pairs[i]).0 < nodes.len()
        &&& pairs[i].1 < nodes.len()
        &&& is_leaf(nodes, pairs[i].0 as int)
        &&& is_leaf(nodes, pairs[i].1 as int)
    }
}

proof fn lemma_pairs_leaf_only_add(
    nodes: Seq<DualNode>, a: Seq<(NodeIndex, NodeIndex)>, b: Seq<(NodeIndex, NodeIndex)>,
)
    requires
        pairs_leaf_only(nodes, a),
        pairs_leaf_only(nodes, b),
    ensures
        pairs_leaf_only(nodes, a + b),
{
    assert forall|i: int| 0 <= i < (a + b).len() implies {
        &&& (#[trigger] (a + b)[i]).0 < nodes.len()
        &&& (a + b)[i].1 < nodes.len()
        &&& is_leaf(nodes, (a + b)[i].0 as int)
        &&& is_leaf(nodes, (a + b)[i].1 as int)
    } by {
        if i < a.len() {
            assert((a + b)[i] == a[i]);
        } else {
            assert((a + b)[i] == b[i - a.len()]);
        }
    }
}

/// Every blossom of a well-formed forest has an odd circle of at least three
/// children, and expansion is only ever invoked on such blossoms.
pub proof fn lemma_blossom_parity(nodes: Seq<DualNode>, i: int)
    requires
        forest_wf(nodes),
        0 <= i < nodes.len(),
        is_blossom(nodes, i),
    ensures
        spec_circle(nodes, i).len() % 2 == 1,
        spec_circle(nodes, i).len() >= 3,
{
    assert(node_basic_wf(nodes, i));
}

/// Expanding a node entered through itself — in particular a leaf entered
/// through itself — contributes no pairs.
pub proof fn lemma_expand_leaf_noop(nodes: Seq<DualNode>, node: int)
    requires
        forest_wf(nodes),
        0 <= node < nodes.len(),
    ensures
        spec_expand_blossom(nodes, node, node) == Seq::<(NodeIndex, NodeIndex)>::empty(),
{
    assert(is_ancestor(nodes, node, node));
    assert(spec_expand_blossom(nodes, node, node) =~= Seq::<(NodeIndex, NodeIndex)>::empty());
}

/// Expanding one circle pair yields leaf pairs only.
proof fn lemma_expand_pair_leaf_only(nodes: Seq<DualNode>, p: int, idx: int, i: int)
    requires
        forest_wf(nodes),
        nodes.len() <= usize::MAX,
        0 <= p < nodes.len(),
        is_blossom(nodes, p),
        0 <= idx < spec_circle(nodes, p).len(),
        0 <= i,
        2 * i + 2 < spec_circle(nodes, p).len(),
    ensures
        pairs_leaf_only(nodes, spec_expand_pair(nodes, p, idx, i)),
    decreases p, 0int, 0int, 0int,
{
    assert(node_basic_wf(nodes, p));
    assert(blossom_touching_wf(nodes, p));
    let c = spec_circle(nodes, p);
    let t = spec_touchings(nodes, p);
    let i1 = circ_pos(idx, 2 * i + 1, c.len() as int);
    let i2 = circ_pos(idx, 2 * i + 2, c.len() as int);
    lemma_expand_peer_leaf_only(
        nodes, c[i1] as int, t[i1].1 as int, c[i2] as int, t[i2].0 as int);
}

/// Expanding a prefix of circle steps yields leaf pairs only.
proof fn lemma_expand_level_leaf_only(nodes: Seq<DualNode>, p: int, idx: int, k: int)
    requires
        forest_wf(nodes),
        nodes.len() <= usize::MAX,
        0 <= p < nodes.len(),
        is_blossom(nodes, p),
        0 <= idx < spec_circle(nodes, p).len(),
        0 <= k,
        2 * k < spec_circle(nodes, p).len(),
    ensures
        pairs_leaf_only(nodes, spec_expand_level(nodes, p, idx, k)),
    decreases p, 0int, 1int, k,
{
    if k > 0 {
        lemma_expand_level_leaf_only(nodes, p, idx, k - 1);
        lemma_expand_pair_leaf_only(nodes, p, idx, k - 1);
        lemma_pairs_leaf_only_add(nodes, spec_expand_level(nodes, p, idx, k - 1),
            spec_expand_pair(nodes, p, idx, k - 1));
    }
}

/// Recursive consistency: expanding a blossom produces leaf pairs only,
/// however deeply blossoms are nested.
pub proof fn lemma_expand_blossom_leaf_only(nodes: Seq<DualNode>, blossom: int, touching: int)
    requires
        forest_wf(nodes),
        nodes.len() <= usize::MAX,
        0 <= blossom < nodes.len(),
        0 <= touching < nodes.len(),
        is_ancestor(nodes, blossom, touching),
    ensures
        pairs_leaf_only(nodes, spec_expand_blossom(nodes, blossom, touching)),
    decreases blossom, nodes.len() - touching, 2int, 0int,
{
    if touching != blossom {
        assert(node_basic_wf(nodes, touching));
        let p = nodes[touching].parent_blossom->0 as int;
        assert(is_ancestor(nodes, blossom, p)) by {
            reveal_with_fuel(is_ancestor, 2);
        };
        lemma_ancestor_index(nodes, blossom, p);
        assert(node_basic_wf(nodes, p));
        let c = spec_circle(nodes, p);
        assert(c.contains(touching as NodeIndex));
        let idx = circle_index_of(nodes, p, touching as NodeIndex);
        assert(0 <= idx < c.len() && c[idx] == touching as NodeIndex);
        lemma_expand_level_leaf_only(nodes, p, idx, (c.len() - 1) as int / 2);
        lemma_expand_blossom_leaf_only(nodes, blossom, p);
        lemma_pairs_leaf_only_add(nodes,
            spec_expand_level(nodes, p, idx, (c.len() - 1) as int / 2),
            spec_expand_blossom(nodes, blossom, p));
    }
}

/// Expanding one matched pair yields leaf pairs only, provided both touching
/// nodes are leaves.
proof fn lemma_expand_peer_leaf_only(nodes: Seq<DualNode>, n1: int, t1: int, n2: int, t2: int)
    requires
        forest_wf(nodes),
        nodes.len() <= usize::MAX,
        0 <= n1 < nodes.len(),
        0 <= t1 < nodes.len(),
        0 <= n2 < nodes.len(),
        0 <= t2 < nodes.len(),
        is_ancestor(nodes, n1, t1),
        is_ancestor(nodes, n2, t2),
        is_leaf(nodes, t1),
        is_leaf(nodes, t2),
    ensures
        pairs_leaf_only(nodes, spec_expand_peer(nodes, n1, t1, n2, t2)),
    decreases max2(n1, n2), nodes.len() as int, 3int, 0int,
{
    lemma_expand_blossom_leaf_only(nodes, n1, t1);
    lemma_expand_blossom_leaf_only(nodes, n2, t2);
    let single = seq![(t1 as NodeIndex, t2 as NodeIndex)];
    assert(single.len() == 1);
    assert(single[0] == (t1 as NodeIndex, t2 as NodeIndex));
    assert(pairs_leaf_only(nodes, single));
    lemma_pairs_leaf_only_add(nodes, spec_expand_blossom(nodes, n1, t1),
        spec_expand_blossom(nodes, n2, t2));
    lemma_pairs_leaf_only_add(nodes,
        spec_expand_blossom(nodes, n1, t1) + spec_expand_blossom(nodes, n2, t2), single);
}

/// Recursive consistency at the matching level: a perfect matching produced
/// by `get_perfect_matching` names existing leaf nodes only — no blossom
/// identifier ever appears in it.
pub proof fn lemma_get_perfect_matching_leaf_only(
    nodes: Seq<DualNode>, im: IntermediateMatching, r: PerfectMatching,
)
    requires
        forest_wf(nodes),
        nodes.len() <= usize::MAX,
        intermediate_matching_wf(nodes, im),
        r.peer_matchings@ == spec_expand_peers(nodes, im.peer_matchings@,
                im.peer_matchings@.len() as int)
            + spec_expand_virtuals(nodes, im.virtual_matchings@,
                im.virtual_matchings@.len() as int),
        r.virtual_matchings@ == spec_virtual_pairs(im.virtual_matchings@),
    ensures
        perfect_matching_leaf_only(nodes, r),
{
    let peers = im.peer_matchings@;
    let virtuals = im.virtual_matchings@;
    lemma_expand_peers_leaf_only(nodes, peers, peers.len() as int);
    lemma_expand_virtuals_leaf_only(nodes, virtuals, virtuals.len() as int);
    lemma_pairs_leaf_only_add(nodes, spec_expand_peers(nodes, peers, peers.len() as int),
        spec_expand_virtuals(nodes, virtuals, virtuals.len() as int));
    assert forall|i: int| 0 <= i < r.virtual_matchings@.len() implies {
        &&& (#[trigger] r.virtual_matchings@[i]).0 < nodes.len()
        &&& is_leaf(nodes, r.virtual_matchings@[i].0 as int)
    } by {
        assert(r.virtual_matchings@[i] == (virtuals[i].0.1, virtuals[i].1));
        assert(match_pair_wf(nodes, virtuals[i].0.0, virtuals[i].0.1));
    }
}

proof fn lemma_expand_peers_leaf_only(
    nodes: Seq<DualNode>,
    peers: Seq<((NodeIndex, NodeIndex), (NodeIndex, NodeIndex))>,
    k: int,
)
    requires
        forest_wf(nodes),
        nodes.len() <= usize::MAX,
        peer_entries_wf(nodes, peers),
        k <= peers.len(),
    ensures
        pairs_leaf_only(nodes, spec_expand_peers(nodes, peers, k)),
    decreases k,
{
    if k > 0 {
        lemma_expand_peers_leaf_only(nodes, peers, k - 1);
        let e = peers[k - 1];
        assert(match_pair_wf(nodes, e.0.0, e.0.1));
        assert(match_pair_wf(nodes, e.1.0, e.1.1));
        lemma_expand_peer_leaf_only(
            nodes, e.0.0 as int, e.0.1 as int, e.1.0 as int, e.1.1 as int);
        lemma_pairs_leaf_only_add(nodes, spec_expand_peers(nodes, peers, k - 1),
            spec_expand_peer(nodes, e.0.0 as int, e.0.1 as int, e.1.0 as int, e.1.1 as int));
    }
}

proof fn lemma_expand_virtuals_leaf_only(
    nodes: Seq<DualNode>,
    virtuals: Seq<((NodeIndex, NodeIndex), VertexIndex)>,
    k: int,
)
    requires
        forest_wf(nodes),
        nodes.len() <= usize::MAX,
        virtual_entries_wf(nodes, virtuals),
        k <= virtuals.len(),
    ensures
        pairs_leaf_only(nodes, spec_expand_virtuals(nodes, virtuals, k)),
    decreases k,
{
    if k > 0 {
        lemma_expand_virtuals_leaf_only(nodes, virtuals, k - 1);
        let e = virtuals[k - 1];
        assert(match_pair_wf(nodes, e.0.0, e.0.1));
        lemma_expand_blossom_leaf_only(nodes, e.0.0 as int, e.0.1 as int);
        lemma_pairs_leaf_only_add(nodes, spec_expand_virtuals(nodes, virtuals, k - 1),
            spec_expand_blossom(nodes, e.0.0 as int, e.0.1 as int));
    }
}

/// How many pair slots of `pairs` hold the node `x` (both slots counted).
pub open spec fn pair_count(pairs: Seq<(NodeIndex, NodeIndex)>, x: NodeIndex) -> nat
    decreases pairs.len(),
{
    if pairs.len() == 0 {
        0nat
    } else {
        pair_count(pairs.drop_last(), x)
            + (if pairs.last().0 == x { 1nat } else { 0nat })
            + (if pairs.last().1 == x { 1nat } else { 0nat })
    }
}

/// How many of the first `k` boundary pairs have `x` as their leaf.
pub open spec fn first_count(s: Seq<(NodeIndex, VertexIndex)>, k: int, x: NodeIndex) -> nat
    decreases k,
{
    if k <= 0 {
        0nat
    } else {
        first_count(s, k - 1, x) + (if s[k - 1].0 == x { 1nat } else { 0nat })
    }
}

/// How many of the first `k` peer matchings cover leaf `x` through one of
/// their two nodes.
pub open spec fn peer_cover_count(
    nodes: Seq<DualNode>,
    peers: Seq<((NodeIndex, NodeIndex), (NodeIndex, NodeIndex))>,
    k: int,
    x: NodeIndex,
) -> nat
    decreases k,
{
    if k <= 0 {
        0nat
    } else {
        peer_cover_count(nodes, peers, k - 1, x)
            + (if in_leaves(nodes, peers[k - 1].0.0 as int, x) { 1nat } else { 0nat })
            + (if in_leaves(nodes, peers[k - 1].1.0 as int, x) { 1nat } else { 0nat })
    }
}

/// How many of the first `k` virtual matchings cover leaf `x` through their
/// node.
pub open spec fn virtual_cover_count(
    nodes: Seq<DualNode>,
    virtuals: Seq<((NodeIndex, NodeIndex), VertexIndex)>,
    k: int,
    x: NodeIndex,
) -> nat
    decreases k,
{
    if k <= 0 {
        0nat
    } else {
        virtual_cover_count(nodes, virtuals, k - 1, x)
            + (if in_leaves(nodes, virtuals[k - 1].0.0 as int, x) { 1nat } else { 0nat })
    }
}

/// How many of the first `k` virtual matchings touch through leaf `x`.
pub open spec fn touch_count(
    virtuals: Seq<((NodeIndex, NodeIndex), VertexIndex)>, k: int, x: NodeIndex,
) -> nat
    decreases k,
{
    if k <= 0 {
        0nat
    } else {
        touch_count(virtuals, k - 1, x) + (if virtuals[k - 1].0.1 == x { 1nat } else { 0nat })
    }
}

proof fn lemma_pair_count_add(
    a: Seq<(NodeIndex, NodeIndex)>, b: Seq<(NodeIndex, NodeIndex)>, x: NodeIndex,
)
    ensures
        pair_count(a + b, x) == pair_count(a, x) + pair_count(b, x),
    decreases b.len(),
{
    if b.len() == 0 {
        assert(a + b =~= a);
    } else {
        assert((a + b).drop_last() =~= a + b.drop_last());
        assert((a + b).last() == b.last());
        lemma_pair_count_add(a, b.drop_last(), x);
    }
}

/// A leaf's only descendant is itself.
proof fn lemma_in_leaves_leaf(nodes: Seq<DualNode>, t: int, x: NodeIndex)
    requires
        basic_wf(nodes),
        nodes.len() <= usize::MAX,
        0 <= t < nodes.len(),
        is_leaf(nodes, t),
    ensures
        in_leaves(nodes, t, x) <==> x == t,
{
    if in_leaves(nodes, t, x) {
        lemma_leaf_below(nodes, t, x as int);
    }
    if x == t {
        assert(is_ancestor(nodes, t, t));
    }
}

/// The child of blossom `p` standing `j` places after circle position `idx`.
pub open spec fn level_member(nodes: Seq<DualNode>, p: int, idx: int, j: int) -> int {
    spec_circle(nodes, p)[circ_pos(idx, j, spec_circle(nodes, p).len() as int)] as int
}

/// Whether leaf `x` lies below one of the children handled by the first `k`
/// steps of expanding the circle of `p` entered at position `idx`.
pub open spec fn under_level(nodes: Seq<DualNode>, p: int, idx: int, k: int, x: NodeIndex)
    -> bool
{
    exists|j: int| 1 <= j <= 2 * k
        && in_leaves(nodes, #[trigger] level_member(nodes, p, idx, j), x)
}

proof fn lemma_circ_pos_range(idx: int, j: int, len: int)
    requires
        0 <= idx < len,
        1 <= j < len,
    ensures
        0 <= circ_pos(idx, j, len) < len,
        circ_pos(idx, j, len) != idx,
{
}

proof fn lemma_circ_pos_distinct(idx: int, ja: int, jb: int, len: int)
    requires
        0 <= idx < len,
        1 <= ja < len,
        1 <= jb < len,
        ja != jb,
    ensures
        circ_pos(idx, ja, len) != circ_pos(idx, jb, len),
{
}

/// Distinct circle members of one blossom never share a leaf.
proof fn lemma_level_members_disjoint(
    nodes: Seq<DualNode>, p: int, idx: int, ja: int, jb: int, x: NodeIndex,
)
    requires
        forest_wf(nodes),
        0 <= p < nodes.len(),
        is_blossom(nodes, p),
        0 <= idx < spec_circle(nodes, p).len(),
        1 <= ja < spec_circle(nodes, p).len(),
        1 <= jb < spec_circle(nodes, p).len(),
        ja != jb,
        in_leaves(nodes, level_member(nodes, p, idx, ja), x),
    ensures
        !in_leaves(nodes, level_member(nodes, p, idx, jb), x),
{
    assert(node_basic_wf(nodes, p));
    let c = spec_circle(nodes, p);
    let len = c.len() as int;
    lemma_circ_pos_range(idx, ja, len);
    lemma_circ_pos_range(idx, jb, len);
    lemma_circ_pos_distinct(idx, ja, jb, len);
    let pa = circ_pos(idx, ja, len);
    let pb = circ_pos(idx, jb, len);
    assert(c[pa] != c[pb]);
    assert(nodes[c[pa] as int].parent_blossom == Some(p as NodeIndex));
    assert(nodes[c[pb] as int].parent_blossom == Some(p as NodeIndex));
    if in_leaves(nodes, level_member(nodes, p, idx, jb), x) {
        lemma_siblings_disjoint(nodes, p, c[pa] as int, c[pb] as int, x as int);
    }
}

/// Counting version of peer expansion: each side's leaves appear once.
proof fn lemma_expand_peer_count(
    nodes: Seq<DualNode>, n1: int, t1: int, n2: int, t2: int, x: NodeIndex,
)
    requires
        forest_wf(nodes),
        nodes.len() <= usize::MAX,
        0 <= n1 < nodes.len(),
        0 <= t1 < nodes.len(),
        0 <= n2 < nodes.len(),
        0 <= t2 < nodes.len(),
        is_ancestor(nodes, n1, t1),
        is_ancestor(nodes, n2, t2),
        is_leaf(nodes, t1),
        is_leaf(nodes, t2),
    ensures
        pair_count(spec_expand_peer(nodes, n1, t1, n2, t2), x)
            == (if in_leaves(nodes, n1, x) { 1nat } else { 0nat })
                + (if in_leaves(nodes, n2, x) { 1nat } else { 0nat }),
    decreases max2(n1, n2), nodes.len() as int, 3int, 0int,
{
    lemma_expand_blossom_count(nodes, n1, t1, x);
    lemma_expand_blossom_count(nodes, n2, t2, x);
    let e1 = spec_expand_blossom(nodes, n1, t1);
    let e2 = spec_expand_blossom(nodes, n2, t2);
    let single = seq![(t1 as NodeIndex, t2 as NodeIndex)];
    lemma_pair_count_add(e1, e2, x);
    lemma_pair_count_add(e1 + e2, single, x);
    assert(spec_expand_peer(nodes, n1, t1, n2, t2) == (e1 + e2) + single);
    assert(single.drop_last() =~= Seq::<(NodeIndex, NodeIndex)>::empty());
    assert(pair_count(Seq::<(NodeIndex, NodeIndex)>::empty(), x) == 0);
    assert(single.last() == (t1 as NodeIndex, t2 as NodeIndex));
    lemma_in_leaves_leaf(nodes, t1, x);
    lemma_in_leaves_leaf(nodes, t2, x);
    assert(in_leaves(nodes, n1, t1 as NodeIndex));
    assert(in_leaves(nodes, n2, t2 as NodeIndex));
    if x == t1 {
        lemma_ancestor_transitive(nodes, n1, t1, x as int);
        assert(in_leaves(nodes, n1, x));
    }
    if x == t2 {
        assert(in_leaves(nodes, n2, x));
    }
}

/// Counting version of one circle step.
proof fn lemma_expand_pair_count(nodes: Seq<DualNode>, p: int, idx: int, i: int, x: NodeIndex)
    requires
        forest_wf(nodes),
        nodes.len() <= usize::MAX,
        0 <= p < nodes.len(),
        is_blossom(nodes, p),
        0 <= idx < spec_circle(nodes, p).len(),
        0 <= i,
        2 * i + 2 < spec_circle(nodes, p).len(),
    ensures
        pair_count(spec_expand_pair(nodes, p, idx, i), x)
            == (if in_leaves(nodes, level_member(nodes, p, idx, 2 * i + 1), x) { 1nat }
                else { 0nat })
                + (if in_leaves(nodes, level_member(nodes, p, idx, 2 * i + 2), x) { 1nat }
                    else { 0nat }),
    decreases p, 0int, 0int, 0int,
{
    assert(node_basic_wf(nodes, p));
    assert(blossom_touching_wf(nodes, p));
    let c = spec_circle(nodes, p);
    let t = spec_touchings(nodes, p);
    let i1 = circ_pos(idx, 2 * i + 1, c.len() as int);
    let i2 = circ_pos(idx, 2 * i + 2, c.len() as int);
    lemma_circ_pos_range(idx, 2 * i + 1, c.len() as int);
    lemma_circ_pos_range(idx, 2 * i + 2, c.len() as int);
    lemma_expand_peer_count(
        nodes, c[i1] as int, t[i1].1 as int, c[i2] as int, t[i2].0 as int, x);
}

/// Counting version of a level prefix: a leaf appears once iff it lies below
/// one of the handled children.
proof fn lemma_expand_level_count(nodes: Seq<DualNode>, p: int, idx: int, k: int, x: NodeIndex)
    requires
        forest_wf(nodes),
        nodes.len() <= usize::MAX,
        0 <= p < nodes.len(),
        is_blossom(nodes, p),
        0 <= idx < spec_circle(nodes, p).len(),
        0 <= k,
        2 * k < spec_circle(nodes, p).len(),
    ensures
        pair_count(spec_expand_level(nodes, p, idx, k), x)
            == (if under_level(nodes, p, idx, k, x) { 1nat } else { 0nat }),
    decreases p, 0int, 1int, k,
{
    if k <= 0 {
        assert(spec_expand_level(nodes, p, idx, k) =~= Seq::<(NodeIndex, NodeIndex)>::empty());
        assert(!under_level(nodes, p, idx, k, x));
    } else {
        lemma_expand_level_count(nodes, p, idx, k - 1, x);
        lemma_expand_pair_count(nodes, p, idx, k - 1, x);
        lemma_pair_count_add(spec_expand_level(nodes, p, idx, k - 1),
            spec_expand_pair(nodes, p, idx, k - 1), x);
        let m1 = level_member(nodes, p, idx, 2 * k - 1);
        let m2 = level_member(nodes, p, idx, 2 * k);
        assert(2 * (k - 1) + 1 == 2 * k - 1);
        assert(2 * (k - 1) + 2 == 2 * k);
        if under_level(nodes, p, idx, k - 1, x) {
            let j0 = choose|j: int| 1 <= j <= 2 * (k - 1)
                && in_leaves(nodes, #[trigger] level_member(nodes, p, idx, j), x);
            lemma_level_members_disjoint(nodes, p, idx, j0, 2 * k - 1, x);
            lemma_level_members_disjoint(nodes, p, idx, j0, 2 * k, x);
            assert(under_level(nodes, p, idx, k, x));
        } else if in_leaves(nodes, m1, x) {
            lemma_level_members_disjoint(nodes, p, idx, 2 * k - 1, 2 * k, x);
            assert(under_level(nodes, p, idx, k, x));
        } else if in_leaves(nodes, m2, x) {
            assert(under_level(nodes, p, idx, k, x));
        } else {
            if under_level(nodes, p, idx, k, x) {
                let j0 = choose|j: int| 1 <= j <= 2 * k
                    && in_leaves(nodes, #[trigger] level_member(nodes, p, idx, j), x);
                assert(j0 <= 2 * (k - 1));
                assert(under_level(nodes, p, idx, k - 1, x));
            }
        }
    }
}

/// Counting version of blossom expansion: the produced pairs hold exactly the
/// leaves below the blossom other than those below the entry node, each once.
proof fn lemma_expand_blossom_count(nodes: Seq<DualNode>, blossom: int, touching: int, x: NodeIndex)
    requires
        forest_wf(nodes),
        nodes.len() <= usize::MAX,
        0 <= blossom < nodes.len(),
        0 <= touching < nodes.len(),
        is_ancestor(nodes, blossom, touching),
    ensures
        pair_count(spec_expand_blossom(nodes, blossom, touching), x)
            == (if in_leaves(nodes, blossom, x) && !in_leaves(nodes, touching, x) { 1nat }
                else { 0nat }),
    decreases blossom, nodes.len() - touching, 2int, 0int,
{
    if touching == blossom {
        assert(spec_expand_blossom(nodes, blossom, touching)
            =~= Seq::<(NodeIndex, NodeIndex)>::empty());
    } else {
        assert(node_basic_wf(nodes, touching));
        let p = nodes[touching].parent_blossom->0 as int;
        assert(is_ancestor(nodes, blossom, p)) by {
            reveal_with_fuel(is_ancestor, 2);
        };
        lemma_ancestor_index(nodes, blossom, p);
        assert(node_basic_wf(nodes, p));
        let c = spec_circle(nodes, p);
        let len = c.len() as int;
        assert(c.contains(touching as NodeIndex));
        let idx = circle_index_of(nodes, p, touching as NodeIndex);
        assert(0 <= idx < c.len() && c[idx] == touching as NodeIndex);
        let kk = (c.len() - 1) as int / 2;
        assert(2 * kk == len - 1);
        lemma_expand_level_count(nodes, p, idx, kk, x);
        lemma_expand_blossom_count(nodes, blossom, p, x);
        lemma_pair_count_add(spec_expand_level(nodes, p, idx, kk),
            spec_expand_blossom(nodes, blossom, p), x);
        assert(is_ancestor(nodes, p, touching)) by {
            reveal_with_fuel(is_ancestor, 2);
        };
        // a leaf below the entry node is below the parent as well
        if in_leaves(nodes, touching, x) {
            lemma_ancestor_transitive(nodes, p, touching, x as int);
            assert(in_leaves(nodes, p, x));
        }
        // a leaf below the parent is below the blossom as well
        if in_leaves(nodes, p, x) {
            lemma_ancestor_transitive(nodes, blossom, p, x as int);
            assert(in_leaves(nodes, blossom, x));
        }
        // the level holds exactly the leaves below the parent that are not
        // below the entry node
        if under_level(nodes, p, idx, kk, x) {
            let j0 = choose|j: int| 1 <= j <= 2 * kk
                && in_leaves(nodes, #[trigger] level_member(nodes, p, idx, j), x);
            lemma_circ_pos_range(idx, j0, len);
            let pos = circ_pos(idx, j0, len);
            let m = level_member(nodes, p, idx, j0);
            assert(m == c[pos]);
            assert(nodes[m].parent_blossom == Some(p as NodeIndex));
            assert(is_ancestor(nodes, p, m)) by {
                reveal_with_fuel(is_ancestor, 2);
            };
            lemma_ancestor_transitive(nodes, p, m, x as int);
            assert(in_leaves(nodes, p, x));
            assert(c[pos] != c[idx]);
            lemma_siblings_disjoint(nodes, p, m, touching, x as int);
            assert(!in_leaves(nodes, touching, x));
        }
        if in_leaves(nodes, p, x) && !in_leaves(nodes, touching, x) {
            // x descends into some circle child other than the entry one
            assert(x as int != p);
            lemma_descend_into_circle(nodes, p, x as int);
            let cm = choose|cm: NodeIndex| #[trigger] spec_circle(nodes, p).contains(cm)
                && is_ancestor(nodes, cm as int, x as int);
            let pos = choose|pos: int| 0 <= pos < c.len() && c[pos] == cm;
            assert(pos != idx);
            let j = if pos > idx { pos - idx } else { pos + len - idx };
            assert(circ_pos(idx, j, len) == pos);
            assert(1 <= j < len);
            assert(in_leaves(nodes, level_member(nodes, p, idx, j), x));
            assert(under_level(nodes, p, idx, kk, x));
        }
    }
}

proof fn lemma_expand_peers_count(
    nodes: Seq<DualNode>,
    peers: Seq<((NodeIndex, NodeIndex), (NodeIndex, NodeIndex))>,
    k: int,
    x: NodeIndex,
)
    requires
        forest_wf(nodes),
        nodes.len() <= usize::MAX,
        peer_entries_wf(nodes, peers),
        0 <= k <= peers.len(),
    ensures
        pair_count(spec_expand_peers(nodes, peers, k), x)
            == peer_cover_count(nodes, peers, k, x),
    decreases k,
{
    if k > 0 {
        lemma_expand_peers_count(nodes, peers, k - 1, x);
        let e = peers[k - 1];
        assert(match_pair_wf(nodes, e.0.0, e.0.1));
        assert(match_pair_wf(nodes, e.1.0, e.1.1));
        lemma_expand_peer_count(
            nodes, e.0.0 as int, e.0.1 as int, e.1.0 as int, e.1.1 as int, x);
        lemma_pair_count_add(spec_expand_peers(nodes, peers, k - 1),
            spec_expand_peer(nodes, e.0.0 as int, e.0.1 as int, e.1.0 as int, e.1.1 as int),
            x);
    }
}

proof fn lemma_expand_virtuals_count(
    nodes: Seq<DualNode>,
    virtuals: Seq<((NodeIndex, NodeIndex), VertexIndex)>,
    k: int,
    x: NodeIndex,
)
    requires
        forest_wf(nodes),
        nodes.len() <= usize::MAX,
        virtual_entries_wf(nodes, virtuals),
        0 <= k <= virtuals.len(),
    ensures
        pair_count(spec_expand_virtuals(nodes, virtuals, k), x) + touch_count(virtuals, k, x)
            == virtual_cover_count(nodes, virtuals, k, x),
    decreases k,
{
    if k > 0 {
        lemma_expand_virtuals_count(nodes, virtuals, k - 1, x);
        let e = virtuals[k - 1];
        assert(match_pair_wf(nodes, e.0.0, e.0.1));
        lemma_expand_blossom_count(nodes, e.0.0 as int, e.0.1 as int, x);
        lemma_pair_count_add(spec_expand_virtuals(nodes, virtuals, k - 1),
            spec_expand_blossom(nodes, e.0.0 as int, e.0.1 as int), x);
        lemma_in_leaves_leaf(nodes, e.0.1 as int, x);
        if x == e.0.1 {
            lemma_ancestor_transitive(nodes, e.0.0 as int, e.0.1 as int, x as int);
            assert(in_leaves(nodes, e.0.0 as int, x));
        }
    }
}

proof fn lemma_virtual_pairs_first_count(
    virtuals: Seq<((NodeIndex, NodeIndex), VertexIndex)>, k: int, x: NodeIndex,
)
    requires
        0 <= k <= virtuals.len(),
    ensures
        first_count(spec_virtual_pairs(virtuals), k, x) == touch_count(virtuals, k, x),
    decreases k,
{
    if k > 0 {
        lemma_virtual_pairs_first_count(virtuals, k - 1, x);
        assert(spec_virtual_pairs(virtuals)[k - 1] == (virtuals[k - 1].0.1, virtuals[k - 1].1));
    }
}

/// How often each leaf appears in a perfect matching produced by
/// `get_perfect_matching`: exactly as often as the intermediate matching
/// covers it through its entry nodes.
pub proof fn lemma_perfect_matching_leaf_count(
    nodes: Seq<DualNode>, im: IntermediateMatching, r: PerfectMatching, x: NodeIndex,
)
    requires
        forest_wf(nodes),
        nodes.len() <= usize::MAX,
        intermediate_matching_wf(nodes, im),
        r.peer_matchings@ == spec_expand_peers(nodes, im.peer_matchings@,
                im.peer_matchings@.len() as int)
            + spec_expand_virtuals(nodes, im.virtual_matchings@,
                im.virtual_matchings@.len() as int),
        r.virtual_matchings@ == spec_virtual_pairs(im.virtual_matchings@),
    ensures
        pair_count(r.peer_matchings@, x)
            + first_count(r.virtual_matchings@, r.virtual_matchings@.len() as int, x)
            == peer_cover_count(nodes, im.peer_matchings@,
                    im.peer_matchings@.len() as int, x)
                + virtual_cover_count(nodes, im.virtual_matchings@,
                    im.virtual_matchings@.len() as int, x),
{
    let peers = im.peer_matchings@;
    let virtuals = im.virtual_matchings@;
    lemma_expand_peers_count(nodes, peers, peers.len() as int, x);
    lemma_expand_virtuals_count(nodes, virtuals, virtuals.len() as int, x);
    lemma_pair_count_add(spec_expand_peers(nodes, peers, peers.len() as int),
        spec_expand_virtuals(nodes, virtuals, virtuals.len() as int), x);
    lemma_virtual_pairs_first_count(virtuals, virtuals.len() as int, x);
    assert(r.virtual_matchings@.len() == virtuals.len());
}

/// Leaf coverage law: when a converged module's intermediate matching covers
/// a syndrome leaf through exactly one entry node, that leaf appears exactly
/// once across the perfect matching's peer and virtual pairings.
pub proof fn lemma_perfect_matching_leaf_coverage(
    nodes: Seq<DualNode>, im: IntermediateMatching, r: PerfectMatching, x: NodeIndex,
)
    requires
        forest_wf(nodes),
        nodes.len() <= usize::MAX,
        intermediate_matching_wf(nodes, im),
        r.peer_matchings@ == spec_expand_peers(nodes, im.peer_matchings@,
                im.peer_matchings@.len() as int)
            + spec_expand_virtuals(nodes, im.virtual_matchings@,
                im.virtual_matchings@.len() as int),
        r.virtual_matchings@ == spec_virtual_pairs(im.virtual_matchings@),
        peer_cover_count(nodes, im.peer_matchings@, im.peer_matchings@.len() as int, x)
            + virtual_cover_count(nodes, im.virtual_matchings@,
                im.virtual_matchings@.len() as int, x) == 1,
    ensures
        pair_count(r.peer_matchings@, x)
            + first_count(r.virtual_matchings@, r.virtual_matchings@.len() as int, x) == 1,
{
    lemma_perfect_matching_leaf_count(nodes, im, r, x);
}

proof fn lemma_pair_count_one_position(pairs: Seq<(NodeIndex, NodeIndex)>, x: NodeIndex, i: int)
    requires
        0 <= i < pairs.len(),
        pairs[i].0 == x || pairs[i].1 == x,
    ensures
        pair_count(pairs, x) >= 1,
    decreases pairs.len(),
{
    if i < pairs.len() - 1 {
        assert(pairs.drop_last()[i] == pairs[i]);
        lemma_pair_count_one_position(pairs.drop_last(), x, i);
    }
}

proof fn lemma_pair_count_two_positions(
    pairs: Seq<(NodeIndex, NodeIndex)>, x: NodeIndex, i: int, j: int,
)
    requires
        0 <= i < j < pairs.len(),
        pairs[i].0 == x || pairs[i].1 == x,
        pairs[j].0 == x || pairs[j].1 == x,
    ensures
        pair_count(pairs, x) >= 2,
    decreases pairs.len(),
{
    if j == pairs.len() - 1 {
        assert(pairs.drop_last()[i] == pairs[i]);
        lemma_pair_count_one_position(pairs.drop_last(), x, i);
    } else {
        assert(pairs.drop_last()[i] == pairs[i]);
        assert(pairs.drop_last()[j] == pairs[j]);
        lemma_pair_count_two_positions(pairs.drop_last(), x, i, j);
    }
}

/// Symmetry law: when a converged module's intermediate matching covers
/// every syndrome leaf through at most one entry node, no matched pair is
/// repeated in the perfect matching, in either order.
pub proof fn lemma_perfect_matching_symmetry(
    nodes: Seq<DualNode>, im: IntermediateMatching, r: PerfectMatching, i: int, j: int,
)
    requires
        forest_wf(nodes),
        nodes.len() <= usize::MAX,
        intermediate_matching_wf(nodes, im),
        r.peer_matchings@ == spec_expand_peers(nodes, im.peer_matchings@,
                im.peer_matchings@.len() as int)
            + spec_expand_virtuals(nodes, im.virtual_matchings@,
                im.virtual_matchings@.len() as int),
        r.virtual_matchings@ == spec_virtual_pairs(im.virtual_matchings@),
        forall|x: NodeIndex| x < nodes.len() && is_leaf(nodes, x as int)
            ==> #[trigger] peer_cover_count(nodes, im.peer_matchings@,
                    im.peer_matchings@.len() as int, x)
                + virtual_cover_count(nodes, im.virtual_matchings@,
                    im.virtual_matchings@.len() as int, x) <= 1,
        0 <= i < j < r.peer_matchings@.len(),
    ensures
        r.peer_matchings@[j] != r.peer_matchings@[i],
        r.peer_matchings@[j] != (r.peer_matchings@[i].1, r.peer_matchings@[i].0),
{
    lemma_get_perfect_matching_leaf_only(nodes, im, r);
    let a = r.peer_matchings@[i].0;
    assert(a < nodes.len() && is_leaf(nodes, a as int));
    if r.peer_matchings@[j] == r.peer_matchings@[i]
        || r.peer_matchings@[j] == (r.peer_matchings@[i].1, r.peer_matchings@[i].0) {
        lemma_pair_count_two_positions(r.peer_matchings@, a, i, j);
        lemma_perfect_matching_leaf_count(nodes, im, r, a);
        assert(peer_cover_count(nodes, im.peer_matchings@,
                im.peer_matchings@.len() as int, a)
            + virtual_cover_count(nodes, im.virtual_matchings@,
                im.virtual_matchings@.len() as int, a) <= 1);
        assert(false);
    }
}

/// The contract every primal module implementation satisfies: the
/// cooperation protocol with a dual module across the iterative grow/resolve
/// loop.
pub trait PrimalModuleImpl {
    /// The implementation's internal well-formedness: established by `new`
    /// and preserved by every operation.
    spec fn wf(&self) -> bool;

    /// Create a primal module for the given topology; not every parameter is
    /// needed by every implementation.
    fn new(
        vertex_num: usize,
        weighted_edges: &Vec<(VertexIndex, VertexIndex, Weight)>,
        virtual_vertices: &Vec<VertexIndex>,
    ) -> (r: Self) where Self: core::marker::Sized
        ensures
            r.wf(),
    ;

    /// Reset all internal state; loading a new decoding problem does not
    /// imply it, so callers must invoke it themselves before reuse.
    fn clear(&mut self)
        requires
            old(self).wf(),
        ensures
            final(self).wf(),
    ;

    /// Attach to a freshly constructed dual interface, taking note of its
    /// initial unmatched nodes.
    fn load(&mut self, interface: &DualModuleInterface)
        requires
            old(self).wf(),
        ensures
            final(self).wf(),
    ;

    /// Analyse at least one reported conflict, update the primal structures,
    /// and command the dual module so growth can resume.  Not every conflict
    /// need be resolved in one call; callers re-invoke until the dual side
    /// reports nothing pending.
    fn resolve<D: DualModuleImpl>(
        &mut self,
        group_max_update_length: GroupMaxUpdateLength,
        interface: &mut DualModuleInterface,
        dual_module: &mut D,
    )
        requires
            old(self).wf(),
            forest_wf(old(interface).nodes.nodes@),
        ensures
            final(self).wf(),
            forest_wf(final(interface).nodes.nodes@),
    ;

    /// Extract the current matching, possibly over blossom nodes, once
    /// growth has converged.  Must not mutate dual-module state.
    fn intermediate_matching<D: DualModuleImpl>(
        &mut self,
        interface: &mut DualModuleInterface,
        dual_module: &mut D,
    ) -> (r: IntermediateMatching)
        requires
            old(self).wf(),
            forest_wf(old(interface).nodes.nodes@),
        ensures
            final(self).wf(),
            *final(interface) == *old(interface),
            *final(dual_module) == *old(dual_module),
            intermediate_matching_wf(final(interface).nodes.nodes@, r),
    ;

    /// Break the blossoms down to find the final matching over leaf nodes.
    fn perfect_matching<D: DualModuleImpl>(
        &mut self,
        interface: &mut DualModuleInterface,
        dual_module: &mut D,
    ) -> (r: PerfectMatching)
        requires
            old(self).wf(),
            forest_wf(old(interface).nodes.nodes@),
        ensures
            final(self).wf(),
            *final(interface) == *old(interface),
            *final(dual_module) == *old(dual_module),
            perfect_matching_leaf_only(final(interface).nodes.nodes@, r),
    {
        let intermediate_matching = self.intermediate_matching(interface, dual_module);
        let node_count = interface.nodes.len();
        let r = intermediate_matching.get_perfect_matching(&interface.nodes);
        proof {
            assert(interface.nodes.nodes@.len() == node_count);
            lemma_get_perfect_matching_leaf_only(
                interface.nodes.nodes@, intermediate_matching, r);
        }
        r
    }
}

/// A caller-diagnosable failure of matching-result extraction.
#[derive(Clone, Copy, Debug, PartialEq, Eq, Structural)]
pub enum MatchingError {
    /// a queried syndrome vertex is absent from the computed matching
    MissingSyndromeVertex { vertex: VertexIndex },
}

/// Whether a perfect matching speaks of existing leaf nodes only.
pub open spec fn perfect_matching_leaf_only(nodes: Seq<DualNode>, pm: PerfectMatching)
    -> bool
{
    &&& forall|i: int| 0 <= i < pm.peer_matchings@.len() ==> {
        &&& (#[trigger] pm.peer_matchings@[i]).0 < nodes.len()
        &&& pm.peer_matchings@[i].1 < nodes.len()
        &&& is_leaf(nodes, pm.peer_matchings@[i].0 as int)
        &&& is_leaf(nodes, pm.peer_matchings@[i].1 as int)
    }
    &&& forall|i: int| 0 <= i < pm.virtual_matchings@.len() ==> {
        &&& (#[trigger] pm.virtual_matchings@[i]).0 < nodes.len()
        &&& is_leaf(nodes, pm.virtual_matchings@[i].0 as int)
    }
}

/// The vertex-to-partner map read off the first `k` peer matchings, later
/// pairs overriding earlier ones.
pub open spec fn spec_peer_map(nodes: Seq<DualNode>, pairs: Seq<(NodeIndex, NodeIndex)>, k: int)
    -> Map<VertexIndex, VertexIndex>
    decreases k,
{
    if k <= 0 {
        Map::empty()
    } else {
        let a = spec_syndrome_index(nodes, pairs[k - 1].0 as int);
        let b = spec_syndrome_index(nodes, pairs[k - 1].1 as int);
        spec_peer_map(nodes, pairs, k - 1).insert(a, b).insert(b, a)
    }
}

/// The vertex-to-boundary map read off the first `k` virtual matchings.
pub open spec fn spec_virtual_map(
    nodes: Seq<DualNode>, virtuals: Seq<(NodeIndex, VertexIndex)>, k: int,
) -> Map<VertexIndex, VertexIndex>
    decreases k,
{
    if k <= 0 {
        Map::empty()
    } else {
        let a = spec_syndrome_index(nodes, virtuals[k - 1].0 as int);
        spec_virtual_map(nodes, virtuals, k - 1).insert(a, virtuals[k - 1].1)
    }
}

/// The identifier `legacy_get_mwpm_result` owes for a queried vertex `s`:
/// its peer's vertex if it is peer-matched, else its virtual vertex.
pub open spec fn spec_legacy_answer(
    nodes: Seq<DualNode>, pm: PerfectMatching, s: VertexIndex,
) -> VertexIndex {
    let peer_map = spec_peer_map(nodes, pm.peer_matchings@, pm.peer_matchings@.len() as int);
    let virtual_map =
        spec_virtual_map(nodes, pm.virtual_matchings@, pm.virtual_matchings@.len() as int);
    if peer_map.dom().contains(s) { peer_map[s] } else { virtual_map[s] }
}

/// Whether a queried vertex `s` appears in the matching at all.
pub open spec fn spec_legacy_covers(
    nodes: Seq<DualNode>, pm: PerfectMatching, s: VertexIndex,
) -> bool {
    ||| spec_peer_map(nodes, pm.peer_matchings@, pm.peer_matchings@.len() as int)
        .dom().contains(s)
    ||| spec_virtual_map(nodes, pm.virtual_matchings@, pm.virtual_matchings@.len() as int)
        .dom().contains(s)
}

/// The syndrome identifier in slot `t` of a perfect matching: the two nodes
/// of each peer pair first, then the node of each virtual matching.
pub open spec fn legacy_slot(nodes: Seq<DualNode>, pm: PerfectMatching, t: int) -> VertexIndex {
    let peers = pm.peer_matchings@;
    if t < 2 * peers.len() {
        if t % 2 == 0 {
            spec_syndrome_index(nodes, peers[t / 2].0 as int)
        } else {
            spec_syndrome_index(nodes, peers[t / 2].1 as int)
        }
    } else {
        spec_syndrome_index(nodes, pm.virtual_matchings@[t - 2 * peers.len()].0 as int)
    }
}

/// Whether the syndrome identifiers named by a perfect matching are pairwise
/// distinct — each vertex appears in one pairing only.
pub open spec fn legacy_slots_distinct(nodes: Seq<DualNode>, pm: PerfectMatching) -> bool {
    forall|s: int, t: int|
        0 <= s < t < 2 * pm.peer_matchings@.len() + pm.virtual_matchings@.len()
        ==> #[trigger] legacy_slot(nodes, pm, s) != #[trigger] legacy_slot(nodes, pm, t)
}

/// The syndrome identifier in slot `t` of a pair list.
pub open spec fn pair_slot(
    nodes: Seq<DualNode>, pairs: Seq<(NodeIndex, NodeIndex)>, t: int,
) -> VertexIndex {
    if t % 2 == 0 {
        spec_syndrome_index(nodes, pairs[t / 2].0 as int)
    } else {
        spec_syndrome_index(nodes, pairs[t / 2].1 as int)
    }
}

/// A vertex in the domain of the peer map stands in some slot of the pairs.
proof fn lemma_peer_map_dom(
    nodes: Seq<DualNode>, pairs: Seq<(NodeIndex, NodeIndex)>, k: int, x: VertexIndex,
)
    requires
        0 <= k <= pairs.len(),
        spec_peer_map(nodes, pairs, k).dom().contains(x),
    ensures
        exists|t: int| 0 <= t < 2 * k && x == #[trigger] pair_slot(nodes, pairs, t),
    decreases k,
{
    if k == 0 {
        assert(spec_peer_map(nodes, pairs, 0) == Map::<VertexIndex, VertexIndex>::empty());
        assert(false);
    } else {
        let a = spec_syndrome_index(nodes, pairs[k - 1].0 as int);
        let b = spec_syndrome_index(nodes, pairs[k - 1].1 as int);
        if x == a {
            assert(2 * (k - 1) % 2 == 0 && 2 * (k - 1) / 2 == k - 1);
            assert(x == pair_slot(nodes, pairs, 2 * (k - 1)));
        } else if x == b {
            assert((2 * (k - 1) + 1) % 2 == 1 && (2 * (k - 1) + 1) / 2 == k - 1);
            assert(x == pair_slot(nodes, pairs, 2 * (k - 1) + 1));
        } else {
            lemma_peer_map_dom(nodes, pairs, k - 1, x);
        }
    }
}

/// A vertex in the domain of the virtual map is the syndrome of some entry.
proof fn lemma_virtual_map_dom(
    nodes: Seq<DualNode>, virtuals: Seq<(NodeIndex, VertexIndex)>, k: int, x: VertexIndex,
)
    requires
        0 <= k <= virtuals.len(),
        spec_virtual_map(nodes, virtuals, k).dom().contains(x),
    ensures
        exists|t: int| 0 <= t < k
            && x == spec_syndrome_index(nodes, virtuals[t].0 as int),
    decreases k,
{
    if k == 0 {
        assert(spec_virtual_map(nodes, virtuals, 0)
            == Map::<VertexIndex, VertexIndex>::empty());
        assert(false);
    } else if x != spec_syndrome_index(nodes, virtuals[k - 1].0 as int) {
        lemma_virtual_map_dom(nodes, virtuals, k - 1, x);
    }
}

/// Legacy projection round-trip law: where every vertex of a perfect
/// matching appears in one pairing only, the legacy result maps each peer
/// pair's vertices to each other, and each virtually matched vertex to its
/// virtual vertex.
pub proof fn lemma_legacy_round_trip(nodes: Seq<DualNode>, pm: PerfectMatching, i: int)
    requires
        legacy_slots_distinct(nodes, pm),
    ensures
        0 <= i < pm.peer_matchings@.len() ==> {
            let a = spec_syndrome_index(nodes, pm.peer_matchings@[i].0 as int);
            let b = spec_syndrome_index(nodes, pm.peer_matchings@[i].1 as int);
            &&& spec_legacy_covers(nodes, pm, a)
            &&& spec_legacy_covers(nodes, pm, b)
            &&& spec_legacy_answer(nodes, pm, a) == b
            &&& spec_legacy_answer(nodes, pm, b) == a
        },
        0 <= i < pm.virtual_matchings@.len() ==> {
            let a = spec_syndrome_index(nodes, pm.virtual_matchings@[i].0 as int);
            &&& spec_legacy_covers(nodes, pm, a)
            &&& spec_legacy_answer(nodes, pm, a) == pm.virtual_matchings@[i].1
        },
{
    let peers = pm.peer_matchings@;
    let virtuals = pm.virtual_matchings@;
    if 0 <= i < peers.len() {
        let a = spec_syndrome_index(nodes, peers[i].0 as int);
        let b = spec_syndrome_index(nodes, peers[i].1 as int);
        assert(legacy_slot(nodes, pm, 2 * i) == a && legacy_slot(nodes, pm, 2 * i + 1) == b)
            by {
            assert(2 * i % 2 == 0 && 2 * i / 2 == i);
            assert((2 * i + 1) % 2 == 1 && (2 * i + 1) / 2 == i);
        };
        lemma_legacy_peer_lookup(nodes, pm, peers.len() as int, i);
    }
    if 0 <= i < virtuals.len() {
        let a = spec_syndrome_index(nodes, virtuals[i].0 as int);
        // the vertex stands in no peer slot, so the peer map misses it
        if spec_peer_map(nodes, peers, peers.len() as int).dom().contains(a) {
            lemma_peer_map_dom(nodes, peers, peers.len() as int, a);
            let t = choose|t: int| 0 <= t < 2 * peers.len()
                && a == #[trigger] pair_slot(nodes, peers, t);
            assert(legacy_slot(nodes, pm, t) == a);
            assert(legacy_slot(nodes, pm, 2 * peers.len() + i) == a);
            assert(false);
        }
        lemma_legacy_virtual_lookup(nodes, pm, virtuals.len() as int, i);
    }
}

/// Within the first `k >= i + 1` pairs, the peer map sends pair `i`'s two
/// vertices to each other.
proof fn lemma_legacy_peer_lookup(nodes: Seq<DualNode>, pm: PerfectMatching, k: int, i: int)
    requires
        legacy_slots_distinct(nodes, pm),
        0 <= i < k <= pm.peer_matchings@.len(),
    ensures
        ({
            let peers = pm.peer_matchings@;
            let a = spec_syndrome_index(nodes, peers[i].0 as int);
            let b = spec_syndrome_index(nodes, peers[i].1 as int);
            let m = spec_peer_map(nodes, peers, k);
            &&& m.dom().contains(a)
            &&& m.dom().contains(b)
            &&& m[a] == b
            &&& m[b] == a
        }),
    decreases k,
{
    let peers = pm.peer_matchings@;
    let a = spec_syndrome_index(nodes, peers[i].0 as int);
    let b = spec_syndrome_index(nodes, peers[i].1 as int);
    let ak = spec_syndrome_index(nodes, peers[k - 1].0 as int);
    let bk = spec_syndrome_index(nodes, peers[k - 1].1 as int);
    assert(legacy_slot(nodes, pm, 2 * i) == a && legacy_slot(nodes, pm, 2 * i + 1) == b) by {
        assert(2 * i % 2 == 0 && 2 * i / 2 == i);
        assert((2 * i + 1) % 2 == 1 && (2 * i + 1) / 2 == i);
    };
    assert(legacy_slot(nodes, pm, 2 * (k - 1)) == ak
        && legacy_slot(nodes, pm, 2 * (k - 1) + 1) == bk) by {
        assert(2 * (k - 1) % 2 == 0 && 2 * (k - 1) / 2 == k - 1);
        assert((2 * (k - 1) + 1) % 2 == 1 && (2 * (k - 1) + 1) / 2 == k - 1);
    };
    if i == k - 1 {
        assert(a != b);
    } else {
        lemma_legacy_peer_lookup(nodes, pm, k - 1, i);
        assert(ak != a && ak != b && bk != a && bk != b);
    }
}

/// Within the first `k >= i + 1` virtual matchings, the virtual map sends
/// entry `i`'s vertex to its virtual vertex.
proof fn lemma_legacy_virtual_lookup(nodes: Seq<DualNode>, pm: PerfectMatching, k: int, i: int)
    requires
        legacy_slots_distinct(nodes, pm),
        0 <= i < k <= pm.virtual_matchings@.len(),
    ensures
        ({
            let virtuals = pm.virtual_matchings@;
            let a = spec_syndrome_index(nodes, virtuals[i].0 as int);
            let m = spec_virtual_map(nodes, virtuals, k);
            &&& m.dom().contains(a)
            &&& m[a] == virtuals[i].1
        }),
    decreases k,
{
    let virtuals = pm.virtual_matchings@;
    let peers = pm.peer_matchings@;
    let a = spec_syndrome_index(nodes, virtuals[i].0 as int);
    let ak = spec_syndrome_index(nodes, virtuals[k - 1].0 as int);
    assert(legacy_slot(nodes, pm, 2 * peers.len() + i) == a);
    assert(legacy_slot(nodes, pm, 2 * peers.len() + (k - 1)) == ak);
    if i != k - 1 {
        lemma_legacy_virtual_lookup(nodes, pm, k - 1, i);
        assert(ak != a);
    }
}

/// The syndrome vertex a leaf node stands on.
pub(crate) fn syndrome_of(forest: &NodeForest, node: NodeIndex) -> (r: VertexIndex)
    requires
        node < forest.nodes@.len(),
        is_leaf(forest.nodes@, node as int),
    ensures
        r == spec_syndrome_index(forest.nodes@, node as int),
{
    match &forest.nodes[node].class {
        DualNodeClass::SyndromeVertex { syndrome_index } => *syndrome_index,
        DualNodeClass::Blossom { .. } => {
            proof {
                assert(false);
            }
            0
        },
    }
}

impl PerfectMatching {
    /// An empty perfect matching.
    pub fn new() -> (r: Self)
        ensures
            r.peer_matchings@.len() == 0,
            r.virtual_matchings@.len() == 0,
    {
        PerfectMatching { peer_matchings: Vec::new(), virtual_matchings: Vec::new() }
    }

    /// The partner vertex of `s` among the peer matchings, if any.
    fn peer_lookup(forest: &NodeForest, pairs: &Vec<(NodeIndex, NodeIndex)>, s: VertexIndex)
        -> (r: Option<VertexIndex>)
        requires
            forall|i: int| 0 <= i < pairs@.len() ==> {
                &&& (#[trigger] pairs@[i]).0 < forest.nodes@.len()
                &&& pairs@[i].1 < forest.nodes@.len()
                &&& is_leaf(forest.nodes@, pairs@[i].0 as int)
                &&& is_leaf(forest.nodes@, pairs@[i].1 as int)
            },
        ensures
            ({
                let m = spec_peer_map(forest.nodes@, pairs@, pairs@.len() as int);
                r == if m.dom().contains(s) { Some(m[s]) } else { None::<VertexIndex> }
            }),
    {
        let ghost nodes = forest.nodes@;
        let ghost full = spec_peer_map(nodes, pairs@, pairs@.len() as int);
        let mut k = pairs.len();
        while k > 0
            invariant
                nodes == forest.nodes@,
                k <= pairs@.len(),
                forall|i: int| 0 <= i < pairs@.len() ==> {
                    &&& (#[trigger] pairs@[i]).0 < nodes.len()
                    &&& pairs@[i].1 < nodes.len()
                    &&& is_leaf(nodes, pairs@[i].0 as int)
                    &&& is_leaf(nodes, pairs@[i].1 as int)
                },
                full == spec_peer_map(nodes, pairs@, pairs@.len() as int),
                full.dom().contains(s)
                    == spec_peer_map(nodes, pairs@, k as int).dom().contains(s),
                full.dom().contains(s)
                    ==> full[s] == spec_peer_map(nodes, pairs@, k as int)[s],
            decreases k,
        {
            k -= 1;
            let (node_a, node_b) = pairs[k];
            let a = syndrome_of(forest, node_a);
            let b = syndrome_of(forest, node_b);
            if b == s {
                return Some(a);
            }
            if a == s {
                return Some(b);
            }
        }
        None
    }

    /// The boundary vertex of `s` among the virtual matchings, if any.
    fn virtual_lookup(
        forest: &NodeForest, virtuals: &Vec<(NodeIndex, VertexIndex)>, s: VertexIndex,
    ) -> (r: Option<VertexIndex>)
        requires
            forall|i: int| 0 <= i < virtuals@.len() ==> {
                &&& (#[trigger] virtuals@[i]).0 < forest.nodes@.len()
                &&& is_leaf(forest.nodes@, virtuals@[i].0 as int)
            },
        ensures
            ({
                let m = spec_virtual_map(forest.nodes@, virtuals@, virtuals@.len() as int);
                r == if m.dom().contains(s) { Some(m[s]) } else { None::<VertexIndex> }
            }),
    {
        let ghost nodes = forest.nodes@;
        let ghost full = spec_virtual_map(nodes, virtuals@, virtuals@.len() as int);
        let mut k = virtuals.len();
        while k > 0
            invariant
                nodes == forest.nodes@,
                k <= virtuals@.len(),
                forall|i: int| 0 <= i < virtuals@.len() ==> {
                    &&& (#[trigger] virtuals@[i]).0 < nodes.len()
                    &&& is_leaf(nodes, virtuals@[i].0 as int)
                },
                full == spec_virtual_map(nodes, virtuals@, virtuals@.len() as int),
                full.dom().contains(s)
                    == spec_virtual_map(nodes, virtuals@, k as int).dom().contains(s),
                full.dom().contains(s)
                    ==> full[s] == spec_virtual_map(nodes, virtuals@, k as int)[s],
            decreases k,
        {
            k -= 1;
            let (node_a, virtual_vertex) = virtuals[k];
            let a = syndrome_of(forest, node_a);
            if a == s {
                return Some(virtual_vertex);
            }
        }
        None
    }

    /// For each requested syndrome vertex, in order, the identifier of its
    /// matched peer or of its assigned virtual vertex — the vertex-indexed
    /// result format older matching consumers expect.  Fails on the first
    /// requested vertex absent from both matching maps.
    pub fn legacy_get_mwpm_result(
        &self, forest: &NodeForest, syndrome_vertices: &Vec<VertexIndex>,
    ) -> (r: Result<Vec<VertexIndex>, MatchingError>)
        requires
            perfect_matching_leaf_only(forest.nodes@, *self),
        ensures
            match r {
                Ok(res) => {
                    &&& res@.len() == syndrome_vertices@.len()
                    &&& forall|i: int| 0 <= i < syndrome_vertices@.len()
                        ==> spec_legacy_covers(forest.nodes@, *self,
                            #[trigger] syndrome_vertices@[i])
                    &&& forall|i: int| 0 <= i < syndrome_vertices@.len()
                        ==> res@[i] == spec_legacy_answer(forest.nodes@, *self,
                            #[trigger] syndrome_vertices@[i])
                },
                Err(e) => exists|j: int| {
                    &&& 0 <= j < syndrome_vertices@.len()
                    &&& !spec_legacy_covers(forest.nodes@, *self,
                        #[trigger] syndrome_vertices@[j])
                    &&& (forall|i: int| 0 <= i < j ==> spec_legacy_covers(forest.nodes@,
                        *self, #[trigger] syndrome_vertices@[i]))
                    &&& e == (MatchingError::MissingSyndromeVertex {
                        vertex: syndrome_vertices@[j],
                    })
                },
            },
    {
        let ghost nodes = forest.nodes@;
        let mut mwpm_result: Vec<VertexIndex> = Vec::new();
        let mut i: usize = 0;
        while i < syndrome_vertices.len()
            invariant
                nodes == forest.nodes@,
                perfect_matching_leaf_only(nodes, *self),
                i <= syndrome_vertices@.len(),
                mwpm_result@.len() == i,
                forall|k: int| 0 <= k < i
                    ==> spec_legacy_covers(nodes, *self, #[trigger] syndrome_vertices@[k]),
                forall|k: int| 0 <= k < i
                    ==> mwpm_result@[k] == spec_legacy_answer(nodes, *self,
                        #[trigger] syndrome_vertices@[k]),
            decreases syndrome_vertices@.len() - i,
        {
            let syndrome_vertex = syndrome_vertices[i];
            match Self::peer_lookup(forest, &self.peer_matchings, syndrome_vertex) {
                Some(a) => {
                    mwpm_result.push(a);
                },
                None => {
                    match Self::virtual_lookup(
                        forest, &self.virtual_matchings, syndrome_vertex,
                    ) {
                        Some(v) => {
                            mwpm_result.push(v);
                        },
                        None => {
                            return Err(MatchingError::MissingSyndromeVertex {
                                vertex: syndrome_vertex,
                            });
                        },
                    }
                },
            }
            i += 1;
        }
        Ok(mwpm_result)
    }
}

} // verus!
