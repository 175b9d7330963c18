//! The node forest shared by the primal and dual sides, and the interface
//! through which the primal side talks to a dual module implementation.
//!
//! Nodes live in an arena addressed by stable indices.  A node is either a
//! syndrome vertex (a leaf) or a blossom: a contracted odd cycle of child
//! nodes.  Parent and child relations are plain indices into the arena; a
//! blossom is always created after its children, so every parent index is
//! strictly larger than the indices of its children and every ancestry chain
//! terminates at a top-level node.

use crate::util::{NodeIndex, VertexIndex, Weight};
use vstd::prelude::*;

verus! {

/// What a dual node is: a contracted odd cycle, or a single syndrome vertex.
pub enum DualNodeClass {
    Blossom {
        /// cyclic ordered children of the blossom; always odd length >= 3
        nodes_circle: Vec<NodeIndex>,
        /// for each circle position, the leaf through which the left and the
        /// right neighbour in the circle touch this child
        touching_children: Vec<(NodeIndex, NodeIndex)>,
    },
    SyndromeVertex {
        /// the vertex of the decoding graph this leaf stands on
        syndrome_index: VertexIndex,
    },
}

/// A node of the forest: dual variables live on it, hence the name.
pub struct DualNode {
    /// stable identity; equals the node's position in the arena
    pub index: NodeIndex,
    pub class: DualNodeClass,
    /// the blossom that directly contains this node, if any
    pub parent_blossom: Option<NodeIndex>,
}

/// The arena that owns every dual node.
pub struct NodeForest {
    pub nodes: Vec<DualNode>,
}

/// Whether node `i` is a blossom.
pub open spec fn is_blossom(nodes: Seq<DualNode>, i: int) -> bool {
    nodes[i].class is Blossom
}

/// Whether node `i` is a leaf, i.e. a syndrome vertex.
pub open spec fn is_leaf(nodes: Seq<DualNode>, i: int) -> bool {
    nodes[i].class is SyndromeVertex
}

/// The circle of children of blossom `i` (empty for a leaf).
pub open spec fn spec_circle(nodes: Seq<DualNode>, i: int) -> Seq<NodeIndex> {
    match nodes[i].class {
        DualNodeClass::Blossom { nodes_circle, .. } => nodes_circle@,
        DualNodeClass::SyndromeVertex { .. } => Seq::empty(),
    }
}

/// The touching children of blossom `i` (empty for a leaf).
pub open spec fn spec_touchings(nodes: Seq<DualNode>, i: int) -> Seq<(NodeIndex, NodeIndex)> {
    match nodes[i].class {
        DualNodeClass::Blossom { touching_children, .. } => touching_children@,
        DualNodeClass::SyndromeVertex { .. } => Seq::empty(),
    }
}

/// The vertex a leaf node stands on (zero for a blossom).
pub open spec fn spec_syndrome_index(nodes: Seq<DualNode>, i: int) -> VertexIndex {
    match nodes[i].class {
        DualNodeClass::SyndromeVertex { syndrome_index } => syndrome_index,
        DualNodeClass::Blossom { .. } => 0,
    }
}

/// Structural well-formedness of one node: its identity matches its arena
/// position, its parent (if any) is a later blossom whose circle holds it,
/// and, if it is a blossom, its circle is an odd cycle of at least three
/// distinct earlier nodes that all point back to it.
pub open spec fn node_basic_wf(nodes: Seq<DualNode>, i: int) -> bool {
    &&& nodes[i].index == i
    &&& match nodes[i].parent_blossom {
        Some(p) => {
            &&& i < p < nodes.len()
            &&& is_blossom(nodes, p as int)
            &&& spec_circle(nodes, p as int).contains(i as NodeIndex)
        },
        None => true,
    }
    &&& (is_blossom(nodes, i) ==> {
        let c = spec_circle(nodes, i);
        let t = spec_touchings(nodes, i);
        &&& t.len() == c.len()
        &&& c.len() >= 3
        &&& c.len() % 2 == 1
        &&& (forall|j: int| 0 <= j < c.len() ==> (#[trigger] c[j]) < i
            && nodes[c[j] as int].parent_blossom == Some(i as NodeIndex))
        &&& (forall|j1: int, j2: int| 0 <= j1 < c.len() && 0 <= j2 < c.len() && j1 != j2
            ==> #[trigger] c[j1] != #[trigger] c[j2])
    })
}

/// Structural well-formedness of the whole forest.
pub open spec fn basic_wf(nodes: Seq<DualNode>) -> bool {
    forall|i: int| 0 <= i < nodes.len() ==> #[trigger] node_basic_wf(nodes, i)
}

/// Whether `anc` is reached from `d` by following parent links (reflexive).
pub open spec fn is_ancestor(nodes: Seq<DualNode>, anc: int, d: int) -> bool
    decreases nodes.len() - d
        when basic_wf(nodes) && 0 <= d < nodes.len()
        via is_ancestor_decreases
{
    if d == anc {
        true
    } else {
        match nodes[d].parent_blossom {
            Some(p) => is_ancestor(nodes, anc, p as int),
            None => false,
        }
    }
}

#[via_fn]
proof fn is_ancestor_decreases(nodes: Seq<DualNode>, anc: int, d: int) {
    assert(node_basic_wf(nodes, d));
}

/// The touching children recorded in every blossom are leaves that descend
/// from the circle child they are recorded for.
pub open spec fn blossom_touching_wf(nodes: Seq<DualNode>, i: int) -> bool {
    let c = spec_circle(nodes, i);
    let t = spec_touchings(nodes, i);
    forall|j: int| 0 <= j < c.len() ==> {
        &&& (#[trigger] t[j]).0 < nodes.len()
        &&& t[j].1 < nodes.len()
        &&& is_leaf(nodes, t[j].0 as int)
        &&& is_leaf(nodes, t[j].1 as int)
        &&& is_ancestor(nodes, c[j] as int, t[j].0 as int)
        &&& is_ancestor(nodes, c[j] as int, t[j].1 as int)
    }
}

/// Full well-formedness of the forest: the invariant every constructor
/// establishes and every operation preserves.
pub open spec fn forest_wf(nodes: Seq<DualNode>) -> bool {
    &&& basic_wf(nodes)
    &&& forall|i: int| 0 <= i < nodes.len() && is_blossom(nodes, i)
        ==> #[trigger] blossom_touching_wf(nodes, i)
}

/// The position of `child` in the circle of blossom `p`.
pub open spec fn circle_index_of(nodes: Seq<DualNode>, p: int, child: NodeIndex) -> int {
    choose|k: int| 0 <= k < spec_circle(nodes, p).len() && spec_circle(nodes, p)[k] == child
}

/// Whether leaf `x` lies below node `n` (possibly `x == n`).
pub open spec fn in_leaves(nodes: Seq<DualNode>, n: int, x: NodeIndex) -> bool {
    &&& 0 <= x < nodes.len()
    &&& is_leaf(nodes, x as int)
    &&& is_ancestor(nodes, n, x as int)
}

/// An ancestor never has a smaller index than its descendant.
pub proof fn lemma_ancestor_index(nodes: Seq<DualNode>, anc: int, d: int)
    requires
        basic_wf(nodes),
        0 <= d < nodes.len(),
        0 <= anc < nodes.len(),
        is_ancestor(nodes, anc, d),
    ensures
        d <= anc,
    decreases nodes.len() - d,
{
    if d != anc {
        assert(node_basic_wf(nodes, d));
        let p = nodes[d].parent_blossom->0;
        lemma_ancestor_index(nodes, anc, p as int);
    }
}

/// Ancestry is transitive.
pub proof fn lemma_ancestor_transitive(nodes: Seq<DualNode>, a: int, b: int, c: int)
    requires
        basic_wf(nodes),
        0 <= a < nodes.len(),
        0 <= b < nodes.len(),
        0 <= c < nodes.len(),
        is_ancestor(nodes, a, b),
        is_ancestor(nodes, b, c),
    ensures
        is_ancestor(nodes, a, c),
    decreases nodes.len() - c,
{
    if c != b {
        assert(node_basic_wf(nodes, c));
        let p = nodes[c].parent_blossom->0;
        lemma_ancestor_transitive(nodes, a, b, p as int);
    }
}

/// Two ancestors of one node are comparable: one is an ancestor of the other.
pub proof fn lemma_ancestor_chain(nodes: Seq<DualNode>, a: int, b: int, d: int)
    requires
        basic_wf(nodes),
        0 <= a < nodes.len(),
        0 <= b < nodes.len(),
        0 <= d < nodes.len(),
        is_ancestor(nodes, a, d),
        is_ancestor(nodes, b, d),
    ensures
        is_ancestor(nodes, a, b) || is_ancestor(nodes, b, a),
    decreases nodes.len() - d,
{
    if d == a {
        // b is an ancestor of a
    } else if d == b {
        // a is an ancestor of b
    } else {
        assert(node_basic_wf(nodes, d));
        let p = nodes[d].parent_blossom->0;
        lemma_ancestor_chain(nodes, a, b, p as int);
    }
}

/// A leaf has no proper descendants: anything below it is itself.
pub proof fn lemma_leaf_below(nodes: Seq<DualNode>, n: int, d: int)
    requires
        basic_wf(nodes),
        0 <= n < nodes.len(),
        0 <= d < nodes.len(),
        is_leaf(nodes, n),
        is_ancestor(nodes, n, d),
    ensures
        d == n,
    decreases nodes.len() - d,
{
    if d != n {
        assert(node_basic_wf(nodes, d));
        let p = nodes[d].parent_blossom->0;
        assert(is_blossom(nodes, p as int));
        lemma_leaf_below(nodes, n, p as int);
        assert(node_basic_wf(nodes, p as int));
    }
}

/// Distinct children of one blossom have no common descendant.
pub proof fn lemma_siblings_disjoint(nodes: Seq<DualNode>, p: int, c1: int, c2: int, d: int)
    requires
        basic_wf(nodes),
        0 <= p < nodes.len(),
        0 <= c1 < nodes.len(),
        0 <= c2 < nodes.len(),
        0 <= d < nodes.len(),
        c1 != c2,
        nodes[c1].parent_blossom is Some,
        nodes[c1].parent_blossom->0 == p,
        nodes[c2].parent_blossom is Some,
        nodes[c2].parent_blossom->0 == p,
        is_ancestor(nodes, c1, d),
    ensures
        !is_ancestor(nodes, c2, d),
{
    if is_ancestor(nodes, c2, d) {
        lemma_ancestor_chain(nodes, c1, c2, d);
        assert(node_basic_wf(nodes, c1));
        assert(node_basic_wf(nodes, c2));
        if is_ancestor(nodes, c1, c2) {
            // the chain from c2 to c1 must pass through c2's parent p, yet
            // c1 lies strictly below p
            assert(is_ancestor(nodes, c1, p)) by {
                reveal_with_fuel(is_ancestor, 2);
            };
            lemma_ancestor_index(nodes, c1, p);
        } else {
            assert(is_ancestor(nodes, c2, p)) by {
                reveal_with_fuel(is_ancestor, 2);
            };
            lemma_ancestor_index(nodes, c2, p);
        }
    }
}

/// A proper descendant of a blossom lies below one of its circle children.
pub proof fn lemma_descend_into_circle(nodes: Seq<DualNode>, b: int, d: int)
    requires
        basic_wf(nodes),
        0 <= b < nodes.len(),
        0 <= d < nodes.len(),
        d != b,
        is_ancestor(nodes, b, d),
    ensures
        exists|c: NodeIndex| #[trigger] spec_circle(nodes, b).contains(c)
            && is_ancestor(nodes, c as int, d),
    decreases nodes.len() - d,
{
    assert(node_basic_wf(nodes, d));
    let p = nodes[d].parent_blossom->0;
    if p as int == b {
        assert(spec_circle(nodes, b).contains(d as NodeIndex));
        assert(is_ancestor(nodes, d, d));
    } else {
        lemma_descend_into_circle(nodes, b, p as int);
        let c = choose|c: NodeIndex| #[trigger] spec_circle(nodes, b).contains(c)
            && is_ancestor(nodes, c as int, p as int);
        assert(node_basic_wf(nodes, b));
        assert(is_ancestor(nodes, c as int, d));
    }
}

impl NodeForest {
    /// An empty forest.
    pub fn new() -> (r: Self)
        ensures
            r.nodes@.len() == 0,
            forest_wf(r.nodes@),
    {
        NodeForest { nodes: Vec::new() }
    }

    /// The number of nodes in the arena.
    pub fn len(&self) -> (r: usize)
        ensures
            r == self.nodes@.len(),
    {
        self.nodes.len()
    }

    /// Append a fresh top-level leaf standing on `syndrome_index`.
    pub fn add_syndrome_vertex(&mut self, syndrome_index: VertexIndex) -> (r: NodeIndex)
        requires
            forest_wf(old(self).nodes@),
        ensures
            r == old(self).nodes@.len(),
            final(self).nodes@ == old(self).nodes@.push(
                (DualNode {
                    index: old(self).nodes@.len() as NodeIndex,
                    class: DualNodeClass::SyndromeVertex { syndrome_index },
                    parent_blossom: None,
                })
            ),
            forest_wf(final(self).nodes@),
    {
        let index = self.nodes.len();
        self.nodes.push(DualNode {
            index,
            class: DualNodeClass::SyndromeVertex { syndrome_index },
            parent_blossom: None,
        });
        proof {
            let old_nodes = old(self).nodes@;
            let new_nodes = self.nodes@;
            assert forall|i: int| 0 <= i < old_nodes.len()
                implies node_basic_wf(new_nodes, i) by {
                assert(node_basic_wf(old_nodes, i));
                assert(nodes_agree_below(old_nodes, new_nodes, old_nodes.len() as int));
                lemma_agree_node_wf(old_nodes, new_nodes, i);
            }
            assert(node_basic_wf(new_nodes, old_nodes.len() as int));
            assert forall|i: int| 0 <= i < new_nodes.len() && is_blossom(new_nodes, i)
                implies blossom_touching_wf(new_nodes, i) by {
                assert(i < old_nodes.len());
                assert(blossom_touching_wf(old_nodes, i));
                lemma_agree_touching_wf(old_nodes, new_nodes, i);
            }
        }
        index
    }
}

/// Whether the first `j` circle members are valid blossom children for a new
/// blossom appended to `nodes`: existing, top-level, and pairwise distinct.
pub open spec fn circle_members_ok(nodes: Seq<DualNode>, circle: Seq<NodeIndex>) -> bool {
    &&& (forall|j: int| 0 <= j < circle.len() ==> (#[trigger] circle[j]) < nodes.len()
        && nodes[circle[j] as int].parent_blossom is None)
    &&& (forall|j1: int, j2: int| 0 <= j1 < circle.len() && 0 <= j2 < circle.len() && j1 != j2
        ==> #[trigger] circle[j1] != #[trigger] circle[j2])
}

/// Whether the touching children are valid for the given circle: leaves of
/// the forest descending from the circle member they are recorded for.
pub open spec fn touchings_ok(
    nodes: Seq<DualNode>, circle: Seq<NodeIndex>, touchings: Seq<(NodeIndex, NodeIndex)>,
) -> bool {
    &&& touchings.len() == circle.len()
    &&& forall|j: int| 0 <= j < circle.len() ==> {
        &&& (#[trigger] touchings[j]).0 < nodes.len()
        &&& touchings[j].1 < nodes.len()
        &&& is_leaf(nodes, touchings[j].0 as int)
        &&& is_leaf(nodes, touchings[j].1 as int)
        &&& is_ancestor(nodes, circle[j] as int, touchings[j].0 as int)
        &&& is_ancestor(nodes, circle[j] as int, touchings[j].1 as int)
    }
}

/// Ancestry survives any change that only gives parents to nodes that had
/// none, and appends fresh nodes at the end.
proof fn lemma_parent_extension_ancestor(a: Seq<DualNode>, b: Seq<DualNode>, anc: int, d: int)
    requires
        basic_wf(a),
        basic_wf(b),
        a.len() <= b.len(),
        forall|k: int| 0 <= k < a.len() && #[trigger] a[k].parent_blossom is Some
            ==> b[k].parent_blossom == a[k].parent_blossom,
        0 <= d < a.len(),
        0 <= anc < a.len(),
        is_ancestor(a, anc, d),
    ensures
        is_ancestor(b, anc, d),
    decreases a.len() - d,
{
    if d != anc {
        assert(node_basic_wf(a, d));
        let p = a[d].parent_blossom->0;
        assert(a[d].parent_blossom is Some);
        lemma_parent_extension_ancestor(a, b, anc, p as int);
        assert(is_ancestor(b, anc, d)) by {
            reveal_with_fuel(is_ancestor, 2);
        };
    }
}

impl NodeForest {
    /// Contract the given odd cycle of top-level nodes into a fresh blossom,
    /// recording for each circle position the leaves through which the two
    /// neighbours in the circle touch that child.
    pub fn add_blossom(
        &mut self,
        nodes_circle: Vec<NodeIndex>,
        touching_children: Vec<(NodeIndex, NodeIndex)>,
    ) -> (r: NodeIndex)
        requires
            forest_wf(old(self).nodes@),
            nodes_circle@.len() >= 3,
            nodes_circle@.len() % 2 == 1,
            circle_members_ok(old(self).nodes@, nodes_circle@),
            touchings_ok(old(self).nodes@, nodes_circle@, touching_children@),
        ensures
            r == old(self).nodes@.len(),
            final(self).nodes@.len() == old(self).nodes@.len() + 1,
            forest_wf(final(self).nodes@),
            final(self).nodes@[r as int] == (DualNode {
                index: r,
                class: DualNodeClass::Blossom { nodes_circle, touching_children },
                parent_blossom: None,
            }),
            forall|i: int| 0 <= i < r && !nodes_circle@.contains(i as NodeIndex)
                ==> final(self).nodes@[i] == old(self).nodes@[i],
            forall|j: int| 0 <= j < nodes_circle@.len()
                ==> final(self).nodes@[#[trigger] nodes_circle@[j] as int] == (DualNode {
                    index: old(self).nodes@[nodes_circle@[j] as int].index,
                    class: old(self).nodes@[nodes_circle@[j] as int].class,
                    parent_blossom: Some(r),
                }),
    {
        let r = self.nodes.len();
        let ghost old_nodes = old(self).nodes@;
        let mut j: usize = 0;
        while j < nodes_circle.len()
            invariant
                forest_wf(old_nodes),
                j <= nodes_circle@.len(),
                r == old_nodes.len(),
                nodes_circle@.len() >= 3,
                nodes_circle@.len() % 2 == 1,
                circle_members_ok(old_nodes, nodes_circle@),
                self.nodes@.len() == old_nodes.len(),
                forall|i: int| 0 <= i < old_nodes.len()
                    && !nodes_circle@.subrange(0, j as int).contains(i as NodeIndex)
                    ==> self.nodes@[i] == old_nodes[i],
                forall|k: int| 0 <= k < j
                    ==> self.nodes@[#[trigger] nodes_circle@[k] as int] == (DualNode {
                        index: old_nodes[nodes_circle@[k] as int].index,
                        class: old_nodes[nodes_circle@[k] as int].class,
                        parent_blossom: Some(r),
                    }),
            decreases nodes_circle@.len() - j,
        {
            let m = nodes_circle[j];
            let ghost prev = self.nodes@;
            let mut node = self.nodes.remove(m);
            node.parent_blossom = Some(r);
            self.nodes.insert(m, node);
            proof {
                assert(self.nodes@ =~= prev.update(m as int, self.nodes@[m as int]));
                assert forall|i: int| 0 <= i < old_nodes.len()
                    && !nodes_circle@.subrange(0, j + 1 as int).contains(i as NodeIndex)
                    implies self.nodes@[i] == old_nodes[i] by {
                    assert(!nodes_circle@.subrange(0, j as int).contains(i as NodeIndex));
                    assert(nodes_circle@.subrange(0, j + 1 as int)[j as int]
                        == nodes_circle@[j as int]);
                    assert(nodes_circle@.subrange(0, j + 1 as int).contains(m));
                    assert(i != m);
                }
                assert forall|k: int| 0 <= k < j + 1
                    implies self.nodes@[#[trigger] nodes_circle@[k] as int] == (DualNode {
                        index: old_nodes[nodes_circle@[k] as int].index,
                        class: old_nodes[nodes_circle@[k] as int].class,
                        parent_blossom: Some(r),
                    }) by {
                    if k < j {
                        assert(nodes_circle@[k] != nodes_circle@[j as int]);
                    } else {
                        assert(!nodes_circle@.subrange(0, j as int).contains(m));
                        assert(prev[m as int] == old_nodes[m as int]);
                    }
                }
            }
            j += 1;
        }
        let ghost parents_set = self.nodes@;
        self.nodes.push(DualNode {
            index: r,
            class: DualNodeClass::Blossom { nodes_circle, touching_children },
            parent_blossom: None,
        });
        proof {
            let new_nodes = self.nodes@;
            let circle = spec_circle(new_nodes, r as int);
            assert(nodes_circle@.subrange(0, nodes_circle@.len() as int) =~= nodes_circle@);
            // structural well-formedness of every node
            assert forall|i: int| 0 <= i < new_nodes.len()
                implies node_basic_wf(new_nodes, i) by {
                if i < r {
                    assert(node_basic_wf(old_nodes, i));
                    if circle.contains(i as NodeIndex) {
                        let k = choose|k: int| 0 <= k < circle.len() && circle[k] == i as NodeIndex;
                        assert(new_nodes[i].parent_blossom == Some(r));
                    }
                    if is_blossom(old_nodes, i) {
                        assert forall|jj: int| 0 <= jj < spec_circle(new_nodes, i).len()
                            implies (#[trigger] spec_circle(new_nodes, i)[jj]) < i
                            && new_nodes[spec_circle(new_nodes, i)[jj] as int].parent_blossom
                                == Some(i as NodeIndex) by {
                            let c = spec_circle(old_nodes, i)[jj];
                            assert(spec_circle(new_nodes, i) == spec_circle(old_nodes, i));
                            assert(old_nodes[c as int].parent_blossom == Some(i as NodeIndex));
                            assert(!nodes_circle@.contains(c));
                        }
                    }
                } else {
                    assert(i == r);
                }
            }
            assert(basic_wf(new_nodes));
            // ancestry in the old forest survives in the new one
            assert forall|k: int| 0 <= k < old_nodes.len()
                && #[trigger] old_nodes[k].parent_blossom is Some
                implies new_nodes[k].parent_blossom == old_nodes[k].parent_blossom by {
                assert(!nodes_circle@.contains(k as NodeIndex));
            }
            assert forall|i: int| 0 <= i < new_nodes.len() && is_blossom(new_nodes, i)
                implies blossom_touching_wf(new_nodes, i) by {
                let c = spec_circle(new_nodes, i);
                let t = spec_touchings(new_nodes, i);
                assert forall|jj: int| 0 <= jj < c.len() implies {
                    &&& (#[trigger] t[jj]).0 < new_nodes.len()
                    &&& t[jj].1 < new_nodes.len()
                    &&& is_leaf(new_nodes, t[jj].0 as int)
                    &&& is_leaf(new_nodes, t[jj].1 as int)
                    &&& is_ancestor(new_nodes, c[jj] as int, t[jj].0 as int)
                    &&& is_ancestor(new_nodes, c[jj] as int, t[jj].1 as int)
                } by {
                    if i < r {
                        assert(is_blossom(old_nodes, i));
                        assert(blossom_touching_wf(old_nodes, i));
                        assert(c == spec_circle(old_nodes, i));
                        assert(t == spec_touchings(old_nodes, i));
                        assert(node_basic_wf(old_nodes, i));
                        lemma_parent_extension_ancestor(
                            old_nodes, new_nodes, c[jj] as int, t[jj].0 as int);
                        lemma_parent_extension_ancestor(
                            old_nodes, new_nodes, c[jj] as int, t[jj].1 as int);
                    } else {
                        assert(i == r);
                        assert(c == nodes_circle@);
                        assert(t == touching_children@);
                        lemma_parent_extension_ancestor(
                            old_nodes, new_nodes, c[jj] as int, t[jj].0 as int);
                        lemma_parent_extension_ancestor(
                            old_nodes, new_nodes, c[jj] as int, t[jj].1 as int);
                    }
                }
            }
        }
        r
    }
}

/// One reason the dual side reports that growth is blocked.
#[derive(Clone, Copy, Debug, PartialEq, Eq, Structural)]
pub enum Conflict {
    /// two alternating trees meet on a tight edge between these nodes
    Conflicting { node_1: NodeIndex, node_2: NodeIndex },
    /// a node reaches a boundary vertex on a tight edge
    TouchingVirtual { node: NodeIndex, virtual_vertex: VertexIndex },
    /// a blossom's dual variable shrank to zero and it must be expanded
    BlossomNeedExpand { blossom: NodeIndex },
}

/// The dual side's summary of why growth stopped: the blocked directions it
/// found, and one non-zero amount by which free regions can still grow.
pub struct GroupMaxUpdateLength {
    pub conflicts: Vec<Conflict>,
    pub none_zero_growth: Option<Weight>,
}

impl GroupMaxUpdateLength {
    /// A summary with nothing blocked and no growth pending.
    pub fn new() -> (r: Self)
        ensures
            r.conflicts@.len() == 0,
            r.none_zero_growth is None,
    {
        GroupMaxUpdateLength { conflicts: Vec::new(), none_zero_growth: None }
    }

    /// Record one more blocked direction.
    pub fn add_conflict(&mut self, conflict: Conflict)
        ensures
            final(self).conflicts@ == old(self).conflicts@.push(conflict),
            final(self).none_zero_growth == old(self).none_zero_growth,
    {
        self.conflicts.push(conflict);
    }

    /// Whether neither a conflict nor a growth amount is pending.
    pub fn is_empty(&self) -> (r: bool)
        ensures
            r == (self.conflicts@.len() == 0 && self.none_zero_growth is None),
    {
        self.conflicts.len() == 0 && self.none_zero_growth.is_none()
    }

    /// The next conflict to resolve, if any.
    pub fn peek(&self) -> (r: Option<Conflict>)
        ensures
            r == if self.conflicts@.len() > 0 {
                Some(self.conflicts@[0])
            } else {
                None::<Conflict>
            },
    {
        if self.conflicts.len() > 0 {
            Some(self.conflicts[0])
        } else {
            None
        }
    }

    /// One non-zero amount by which free regions can still grow, if any.
    pub fn get_none_zero_growth(&self) -> (r: Option<Weight>)
        ensures
            r == self.none_zero_growth,
    {
        self.none_zero_growth
    }
}

/// The commands the primal side issues to a dual module implementation while
/// resolving conflicts; the primal core needs only their success flag.
pub trait DualModuleImpl {
    /// grow every free region by the given amount
    fn grow(&mut self, amount: Weight) -> bool;

    /// contract the given odd cycle of nodes into a blossom on the dual side
    fn add_blossom(&mut self, nodes_circle: &Vec<NodeIndex>) -> bool;

    /// expand the given blossom back into its children on the dual side
    fn expand_blossom(&mut self, blossom: NodeIndex) -> bool;
}

/// The state shared between the primal and the dual side of one decoding
/// instance: the node forest and the accumulated dual variables.
pub struct DualModuleInterface {
    pub nodes: NodeForest,
    pub sum_dual_variables: Weight,
}

impl DualModuleInterface {
    /// A fresh interface with one unmatched leaf per syndrome vertex.
    pub fn new(syndrome_vertices: &Vec<VertexIndex>) -> (r: Self)
        ensures
            forest_wf(r.nodes.nodes@),
            r.nodes.nodes@.len() == syndrome_vertices@.len(),
            forall|i: int| 0 <= i < syndrome_vertices@.len() ==> r.nodes.nodes@[i] == (DualNode {
                index: i as NodeIndex,
                class: DualNodeClass::SyndromeVertex {
                    syndrome_index: syndrome_vertices@[i],
                },
                parent_blossom: None,
            }),
            r.sum_dual_variables == 0,
    {
        let mut nodes = NodeForest::new();
        let mut i: usize = 0;
        while i < syndrome_vertices.len()
            invariant
                forest_wf(nodes.nodes@),
                i <= syndrome_vertices@.len(),
                nodes.nodes@.len() == i,
                forall|j: int| 0 <= j < i ==> nodes.nodes@[j] == (DualNode {
                    index: j as NodeIndex,
                    class: DualNodeClass::SyndromeVertex {
                        syndrome_index: syndrome_vertices@[j],
                    },
                    parent_blossom: None,
                }),
            decreases syndrome_vertices@.len() - i,
        {
            nodes.add_syndrome_vertex(syndrome_vertices[i]);
            i += 1;
        }
        DualModuleInterface { nodes, sum_dual_variables: 0 }
    }
}

/// The two sequences hold the same nodes at every position below `n`.
pub open spec fn nodes_agree_below(a: Seq<DualNode>, b: Seq<DualNode>, n: int) -> bool {
    &&& n <= a.len()
    &&& n <= b.len()
    &&& forall|i: int| 0 <= i < n ==> a[i] == #[trigger] b[i]
}

/// Ancestry between nodes below the agreeing prefix is the same in both
/// sequences, provided both are structurally well formed on that prefix.
proof fn lemma_agree_ancestor(
    a: Seq<DualNode>, b: Seq<DualNode>, n: int, anc: int, d: int,
)
    requires
        basic_wf(a),
        basic_wf(b),
        nodes_agree_below(a, b, n),
        forall|i: int| 0 <= i < n ==> #[trigger] a[i].parent_blossom is Some
            ==> a[i].parent_blossom->0 < n,
        0 <= d < n,
        0 <= anc < n,
    ensures
        is_ancestor(a, anc, d) == is_ancestor(b, anc, d),
    decreases a.len() - d,
{
    if d != anc {
        assert(node_basic_wf(a, d));
        assert(a[d] == b[d]);
        match a[d].parent_blossom {
            Some(p) => {
                assert(a[d].parent_blossom is Some);
                lemma_agree_ancestor(a, b, n, anc, p as int);
            },
            None => {},
        }
    }
}

/// Structural well-formedness of a node transfers between sequences that
/// agree on a prefix closed under the node's relations.
proof fn lemma_agree_node_wf(a: Seq<DualNode>, b: Seq<DualNode>, i: int)
    requires
        nodes_agree_below(a, b, a.len() as int),
        node_basic_wf(a, i),
        0 <= i < a.len(),
    ensures
        node_basic_wf(b, i),
{
    assert(a[i] == b[i]);
    match a[i].parent_blossom {
        Some(p) => {
            assert(a[p as int] == b[p as int]);
        },
        None => {},
    }
    if is_blossom(a, i) {
        let c = spec_circle(a, i);
        assert(spec_circle(b, i) == c);
        assert(spec_touchings(b, i) == spec_touchings(a, i));
        assert forall|j: int| 0 <= j < c.len() implies (#[trigger] c[j]) < i
            && b[c[j] as int].parent_blossom == Some(i as NodeIndex) by {
            assert(c[j] < i);
            assert(a[c[j] as int] == b[c[j] as int]);
        }
    }
}

/// Touching well-formedness of a blossom transfers between sequences that
/// agree on a prefix holding the whole forest of `a`.
proof fn lemma_agree_touching_wf(a: Seq<DualNode>, b: Seq<DualNode>, i: int)
    requires
        basic_wf(a),
        basic_wf(b),
        nodes_agree_below(a, b, a.len() as int),
        0 <= i < a.len(),
        is_blossom(a, i),
        blossom_touching_wf(a, i),
    ensures
        blossom_touching_wf(b, i),
{
    let n = a.len() as int;
    assert forall|k: int| 0 <= k < n && #[trigger] a[k].parent_blossom is Some
        implies a[k].parent_blossom->0 < n by {
        assert(node_basic_wf(a, k));
    }
    let c = spec_circle(a, i);
    let t = spec_touchings(a, i);
    assert(a[i] == b[i]);
    assert(spec_circle(b, i) == c);
    assert(spec_touchings(b, i) == t);
    assert forall|j: int| 0 <= j < c.len() implies {
        &&& (#[trigger] t[j]).0 < b.len()
        &&& t[j].1 < b.len()
        &&& is_leaf(b, t[j].0 as int)
        &&& is_leaf(b, t[j].1 as int)
        &&& is_ancestor(b, c[j] as int, t[j].0 as int)
        &&& is_ancestor(b, c[j] as int, t[j].1 as int)
    } by {
        assert(node_basic_wf(a, i));
        assert(c[j] < i);
        assert(a[t[j].0 as int] == b[t[j].0 as int]);
        assert(a[t[j].1 as int] == b[t[j].1 as int]);
        lemma_agree_ancestor(a, b, n, c[j] as int, t[j].0 as int);
        lemma_agree_ancestor(a, b, n, c[j] as int, t[j].1 as int);
    }
}

} // verus!
