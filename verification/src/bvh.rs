//! A bounding volume hierarchy over a triangle soup.
//!
//! The hierarchy is built by recursive midpoint splits. The geometry (bounding volumes, the
//! leaf criterion and the side of the split each triangle falls on) is supplied by the caller
//! as three functions; this module owns the structure: the triangles, the nodes, their order
//! and the ranges of triangles that the nodes cover.
use vstd::prelude::*;
use vstd::slice::slice_subrange;

verus! {

broadcast use vstd::seq_lib::group_to_multiset_ensures;

/// A triangle of the soup: its three vertex positions and its place among the input
/// triangles.
#[derive(Clone, Copy, Debug, PartialEq)]
pub struct Triangle<P> {
    pub positions: [P; 3],
    /// Index of the triangle in the input positions (positions `3 * index .. 3 * index + 3`).
    pub index: usize,
}

/// A node of the hierarchy.
#[derive(Clone, Copy, Debug, PartialEq)]
pub enum Node<V> {
    /// An inner node with its bounding volume and its two children.
    Internal { volume: V, children: [usize; 2] },
    /// A leaf holding the triangles `start..end` of the hierarchy.
    Leaf { start: usize, end: usize },
}

/// The triangles `start..end` that the subtree rooted at node `i` covers: a leaf's own range,
/// and for an inner node the span from its left child's start to its right child's end.
pub open spec fn range_of<V>(nodes: Seq<Node<V>>, i: int) -> (int, int)
    decreases nodes.len() - i,
{
    if 0 <= i < nodes.len() {
        match nodes[i] {
            Node::Leaf { start, end } => (start as int, end as int),
            Node::Internal { children, .. } => {
                let (l, r) = (children[0] as int, children[1] as int);
                if i < l < nodes.len() && i < r < nodes.len() {
                    (range_of(nodes, l).0, range_of(nodes, r).1)
                } else {
                    (0, 0)
                }
            },
        }
    } else {
        (0, 0)
    }
}

/// The subtree rooted at node `i` is a proper binary partition: every leaf covers at least
/// one triangle, every inner node has two children stored after it (left before right), and
/// the left child's range ends where the right child's range starts.
pub open spec fn tree_shaped<V>(nodes: Seq<Node<V>>, i: int) -> bool
    decreases nodes.len() - i,
{
    if 0 <= i < nodes.len() {
        match nodes[i] {
            Node::Leaf { start, end } => start < end,
            Node::Internal { children, .. } => {
                let (l, r) = (children[0] as int, children[1] as int);
                &&& i < l < r < nodes.len()
                &&& tree_shaped(nodes, l)
                &&& tree_shaped(nodes, r)
                &&& range_of(nodes, l).1 == range_of(nodes, r).0
            },
        }
    } else {
        false
    }
}

/// Each triangle of `triangles` is chunk `index` of `positions`, and no two triangles share an
/// index.
pub open spec fn chunks_of<P>(triangles: Seq<Triangle<P>>, positions: Seq<P>) -> bool {
    &&& forall|k: int|
        0 <= k < triangles.len() ==> {
            let t = #[trigger] triangles[k];
            &&& 3 * t.index + 3 <= positions.len()
            &&& t.positions@ == positions.subrange(3 * t.index, 3 * t.index + 3)
        }
    &&& forall|k1: int, k2: int|
        0 <= k1 < triangles.len() && 0 <= k2 < triangles.len() && k1 != k2
            ==> #[trigger] triangles[k1].index != #[trigger] triangles[k2].index
}

/// The subtree rooted at node `i` occupies exactly the nodes `i..end`, in preorder: a leaf is
/// the one node `i`, and an inner node is followed directly by its left subtree, which ends
/// where its right subtree starts.
pub open spec fn laid_out<V>(nodes: Seq<Node<V>>, i: int, end: int) -> bool
    decreases nodes.len() - i,
{
    if 0 <= i < nodes.len() {
        match nodes[i] {
            Node::Leaf { .. } => end == i + 1,
            Node::Internal { children, .. } => {
                let (l, r) = (children[0] as int, children[1] as int);
                if l == i + 1 && i < r < end && end <= nodes.len() {
                    laid_out(nodes, l, r) && laid_out(nodes, r, end)
                } else {
                    false
                }
            },
        }
    } else {
        false
    }
}

/// Child `c` (0 for left, 1 for right) of node `p`.
pub open spec fn child<V>(nodes: Seq<Node<V>>, p: int, c: int) -> int {
    nodes[p]->children[c] as int
}

/// Node `p` is an inner node whose child `c` is node `j`.
pub open spec fn is_parent<V>(nodes: Seq<Node<V>>, p: int, c: int, j: int) -> bool {
    &&& 0 <= p < nodes.len()
    &&& 0 <= c < 2
    &&& nodes[p] is Internal
    &&& child(nodes, p, c) == j
}

/// Some inner node among `lo..hi` has node `j` as a child.
pub open spec fn has_parent_in<V>(nodes: Seq<Node<V>>, lo: int, hi: int, j: int) -> bool {
    exists|p: int, c: int| lo <= p < hi && #[trigger] is_parent(nodes, p, c, j)
}

/// Some triangle of `triangles` has the index `index`.
pub open spec fn holds_index<P>(triangles: Seq<Triangle<P>>, index: int) -> bool {
    exists|k: int| 0 <= k < triangles.len() && #[trigger] triangles[k].index == index
}

/// The decisions recorded at node `i` follow from the caller's geometry:
/// - a leaf covers one triangle, or `stop` accepted the volume that `bound` gave for its
///   triangles;
/// - an inner node covers at least two triangles, its volume is what `bound` gave for its
///   triangles (in the order they had before the split), `stop` rejected that volume, and its
///   triangles are split at the first triangle of the right child: either every triangle on
///   the left is `below` the volume and none on the right is, or all of them fell on one side
///   and the range is halved.
pub open spec fn node_decided<P, V, B, S, D>(
    nodes: Seq<Node<V>>,
    triangles: Seq<Triangle<P>>,
    i: int,
    bound: B,
    stop: S,
    below: D,
) -> bool where
    B: Fn(&[Triangle<P>]) -> V,
    S: Fn(&V, &[Triangle<P>]) -> bool,
    D: Fn(&V, &Triangle<P>) -> bool,
 {
    let (start, end) = range_of(nodes, i);
    match nodes[i] {
        Node::Leaf { .. } => end - start == 1 || exists|slice: &[Triangle<P>], volume: V|
            #![trigger call_ensures(stop, (&volume, slice), true)]
            slice@ == triangles.subrange(start, end) && call_ensures(bound, (slice,), volume)
                && call_ensures(stop, (&volume, slice), true),
        Node::Internal { volume, children } => {
            let split = range_of(nodes, children[0] as int).1;
            &&& end - start >= 2
            &&& exists|slice: &[Triangle<P>]|
                #![trigger call_ensures(stop, (&volume, slice), false)]
                slice@.to_multiset() == triangles.subrange(start, end).to_multiset()
                    && call_ensures(bound, (slice,), volume) && call_ensures(
                    stop,
                    (&volume, slice),
                    false,
                )
            &&& {
                ||| (forall|k: int|
                    start <= k < split ==> call_ensures(below, (&volume, &#[trigger] triangles[k]), true))
                    && (forall|k: int|
                    split <= k < end ==> call_ensures(below, (&volume, &#[trigger] triangles[k]), false))
                ||| split == start + (end - start) / 2 && ((forall|k: int|
                    start <= k < end ==> call_ensures(below, (&volume, &#[trigger] triangles[k]), true))
                    || (forall|k: int|
                    start <= k < end ==> call_ensures(below, (&volume, &#[trigger] triangles[k]), false)))
            }
        },
    }
}

/// Every node of the subtree rooted at `i` records decisions that follow from the caller's
/// geometry (see [`node_decided`]).
pub open spec fn subtree_decided<P, V, B, S, D>(
    nodes: Seq<Node<V>>,
    triangles: Seq<Triangle<P>>,
    i: int,
    bound: B,
    stop: S,
    below: D,
) -> bool where
    B: Fn(&[Triangle<P>]) -> V,
    S: Fn(&V, &[Triangle<P>]) -> bool,
    D: Fn(&V, &Triangle<P>) -> bool,
    decreases nodes.len() - i,
{
    if 0 <= i < nodes.len() {
        &&& node_decided(nodes, triangles, i, bound, stop, below)
        &&& match nodes[i] {
            Node::Leaf { .. } => true,
            Node::Internal { children, .. } => {
                let (l, r) = (children[0] as int, children[1] as int);
                i < l < nodes.len() && i < r < nodes.len() && subtree_decided(
                    nodes,
                    triangles,
                    l,
                    bound,
                    stop,
                    below,
                ) && subtree_decided(nodes, triangles, r, bound, stop, below)
            },
        }
    } else {
        false
    }
}

/// A bounding volume hierarchy: nodes (the root is node 0) and the triangles that the leaves
/// index into.
pub struct Bvh<P, V> {
    nodes: Vec<Node<V>>,
    triangles: Vec<Triangle<P>>,
}

impl<P, V> Bvh<P, V> {
    /// The nodes, root first.
    pub closed spec fn node_seq(self) -> Seq<Node<V>> {
        self.nodes@
    }

    /// The triangles in leaf order.
    pub closed spec fn triangle_seq(self) -> Seq<Triangle<P>> {
        self.triangles@
    }

    /// An empty hierarchy has no node; otherwise the root's subtree is a proper partition of
    /// all the triangles.
    pub open spec fn well_formed(self) -> bool {
        &&& self.node_seq().len() == 0 <==> self.triangle_seq().len() == 0
        &&& self.node_seq().len() > 0 ==> {
            &&& tree_shaped(self.node_seq(), 0)
            &&& range_of(self.node_seq(), 0) == (0int, self.triangle_seq().len() as int)
            &&& laid_out(self.node_seq(), 0, self.node_seq().len() as int)
        }
    }

    /// Builds the hierarchy over the triangles `positions[3 * i..3 * i + 3]`.
    ///
    /// `bound` gives the bounding volume of a run of triangles, `stop` decides from that volume
    /// and the run whether the run becomes a leaf, and `below` tells whether a triangle falls
    /// on the lower side of a volume's split.
    pub fn new<B, S, D>(positions: &[P], bound: B, stop: S, below: D) -> (bvh: Self) where
        P: Copy,
        V: Copy,
        B: Fn(&[Triangle<P>]) -> V,
        S: Fn(&V, &[Triangle<P>]) -> bool,
        D: Fn(&V, &Triangle<P>) -> bool,

        requires
            positions@.len() % 3 == 0,
            forall|s: &[Triangle<P>]| #[trigger] bound.requires((s,)),
            forall|v: &V, s: &[Triangle<P>]| #[trigger] stop.requires((v, s)),
            forall|v: &V, t: &Triangle<P>| #[trigger] below.requires((v, t)),
        ensures
            bvh.well_formed(),
            bvh.triangle_seq().len() == positions@.len() / 3,
            chunks_of(bvh.triangle_seq(), positions@),
            forall|index: int|
                0 <= index < positions@.len() / 3 ==> #[trigger] holds_index(
                    bvh.triangle_seq(),
                    index,
                ),
            bvh.node_seq().len() > 0 ==> subtree_decided(
                bvh.node_seq(),
                bvh.triangle_seq(),
                0,
                bound,
                stop,
                below,
            ),
    {
        let count = positions.len() / 3;
        let mut triangles: Vec<Triangle<P>> = Vec::new();
        let mut i: usize = 0;
        while i < count
            invariant
                count == positions@.len() / 3,
                i <= count,
                triangles@.len() == i,
                forall|k: int|
                    0 <= k < i ==> {
                        let t = #[trigger] triangles@[k];
                        &&& t.index == k
                        &&& t.positions@ == positions@.subrange(3 * k, 3 * k + 3)
                    },
            decreases count - i,
        {
            assert(3 * i + 3 <= positions@.len()) by (nonlinear_arith)
                requires
                    i < count,
                    count == positions@.len() / 3,
            ;
            assert(positions@.len() == positions.len());
            let tri = Triangle {
                positions: [positions[3 * i], positions[3 * i + 1], positions[3 * i + 2]],
                index: i,
            };
            assert(tri.positions@ =~= positions@.subrange(3 * i as int, 3 * i + 3));
            triangles.push(tri);
            i += 1;
        }
        let ghost initial = triangles@;
        let mut bvh = Bvh { nodes: Vec::new(), triangles };
        if count > 0 {
            build(&mut bvh, 0, count, &bound, &stop, &below, Ghost(positions@));
            proof {
                assert(bvh.triangles@.subrange(0, count as int) =~= bvh.triangles@);
                assert(initial.subrange(0, count as int) =~= initial);
                assert forall|index: int| 0 <= index < count implies #[trigger] holds_index(
                    bvh.triangles@,
                    index,
                ) by {
                    lemma_same_multiset_contains(initial, bvh.triangles@, initial[index]);
                    let k = choose|k: int| 0 <= k < bvh.triangles@.len() && bvh.triangles@[k] == initial[index];
                    assert(bvh.triangles@[k].index == index);
                }
            }
        }
        bvh
    }

    pub fn node_count(&self) -> (r: usize)
        ensures
            r == self.node_seq().len(),
    {
        self.nodes.len()
    }

    /// The nodes, root first.
    pub fn nodes(&self) -> (r: &[Node<V>])
        ensures
            r@ == self.node_seq(),
    {
        self.nodes.as_slice()
    }

    /// The triangles in leaf order.
    pub fn triangles(&self) -> (r: &[Triangle<P>])
        ensures
            r@ == self.triangle_seq(),
    {
        self.triangles.as_slice()
    }
}

impl<P, V> Default for Bvh<P, V> {
    /// The empty hierarchy: no node and no triangle.
    fn default() -> (bvh: Self)
        ensures
            bvh.well_formed(),
            bvh.node_seq().len() == 0,
            bvh.triangle_seq().len() == 0,
    {
        Bvh { nodes: Vec::new(), triangles: Vec::new() }
    }
}

/// Appending nodes after a subtree leaves its shape and range unchanged.
proof fn lemma_extend_nodes<V>(nodes: Seq<Node<V>>, more: Seq<Node<V>>, i: int)
    requires
        tree_shaped(nodes, i),
        more.len() >= nodes.len(),
        more.subrange(0, nodes.len() as int) == nodes,
    ensures
        tree_shaped(more, i),
        range_of(more, i) == range_of(nodes, i),
    decreases nodes.len() - i,
{
    assert(more[i] == nodes[i]);
    if let Node::Internal { children, .. } = nodes[i] {
        let (l, r) = (children[0] as int, children[1] as int);
        assert(more[l] == nodes[l]);
        assert(more[r] == nodes[r]);
        lemma_extend_nodes(nodes, more, l);
        lemma_extend_nodes(nodes, more, r);
    }
}

/// Changing a node stored before a subtree leaves the subtree's shape and range unchanged.
proof fn lemma_update_before<V>(nodes: Seq<Node<V>>, j: int, node: Node<V>, i: int)
    requires
        tree_shaped(nodes, i),
        0 <= j < i,
    ensures
        tree_shaped(nodes.update(j, node), i),
        range_of(nodes.update(j, node), i) == range_of(nodes, i),
    decreases nodes.len() - i,
{
    let updated = nodes.update(j, node);
    assert(updated[i] == nodes[i]);
    if let Node::Internal { children, .. } = nodes[i] {
        let (l, r) = (children[0] as int, children[1] as int);
        lemma_update_before(nodes, j, node, l);
        lemma_update_before(nodes, j, node, r);
    }
}

/// A node's range lies within the triangles it was built over: every subtree covers a
/// non-empty range.
pub proof fn lemma_range_nonempty<V>(nodes: Seq<Node<V>>, i: int)
    requires
        tree_shaped(nodes, i),
    ensures
        range_of(nodes, i).0 < range_of(nodes, i).1,
    decreases nodes.len() - i,
{
    if let Node::Internal { children, .. } = nodes[i] {
        lemma_range_nonempty(nodes, children[0] as int);
        lemma_range_nonempty(nodes, children[1] as int);
    }
}

/// Every triangle of an inner node's range lies in the range of exactly one of its children,
/// and both children are stored after the node, so a descent from the root reaches each
/// triangle along one path and ends.
pub proof fn lemma_children_partition<V>(nodes: Seq<Node<V>>, i: int, k: int)
    requires
        tree_shaped(nodes, i),
        nodes[i] is Internal,
        range_of(nodes, i).0 <= k < range_of(nodes, i).1,
    ensures
        ({
            let (l, r) = (nodes[i]->children[0] as int, nodes[i]->children[1] as int);
            &&& i < l < r < nodes.len()
            &&& (range_of(nodes, l).0 <= k < range_of(nodes, l).1) != (range_of(nodes, r).0 <= k
                < range_of(nodes, r).1)
        }),
{
    let (l, r) = (nodes[i]->children[0] as int, nodes[i]->children[1] as int);
    lemma_range_nonempty(nodes, l);
    lemma_range_nonempty(nodes, r);
}

/// Every node of a well-formed hierarchy belongs to the root's tree: the root is nobody's
/// child, and every other node is the child of exactly one inner node, on exactly one side. So
/// the hierarchy holds one node per node of its tree and nothing else.
pub proof fn lemma_one_parent_per_node<P, V>(bvh: Bvh<P, V>)
    requires
        bvh.well_formed(),
    ensures
        forall|p: int, c: int| !#[trigger] is_parent(bvh.node_seq(), p, c, 0),
        forall|j: int|
            0 < j < bvh.node_seq().len() ==> #[trigger] has_parent_in(
                bvh.node_seq(),
                0,
                bvh.node_seq().len() as int,
                j,
            ),
        forall|p1: int, c1: int, p2: int, c2: int, j: int|
            #[trigger] is_parent(bvh.node_seq(), p1, c1, j) && #[trigger] is_parent(
                bvh.node_seq(),
                p2,
                c2,
                j,
            ) ==> p1 == p2 && c1 == c2,
{
    let nodes = bvh.node_seq();
    if nodes.len() > 0 {
        lemma_laid_out_parents(nodes, 0, nodes.len() as int);
        assert forall|p: int, c: int| !#[trigger] is_parent(nodes, p, c, 0) by {
            if is_parent(nodes, p, c, 0) {
                assert(p < child(nodes, p, c));
            }
        }
    }
}

/// Appending nodes after a subtree leaves its recorded decisions valid.
proof fn lemma_extend_nodes_decided<P, V, B, S, D>(
    nodes: Seq<Node<V>>,
    more: Seq<Node<V>>,
    triangles: Seq<Triangle<P>>,
    i: int,
    bound: B,
    stop: S,
    below: D,
) where
    B: Fn(&[Triangle<P>]) -> V,
    S: Fn(&V, &[Triangle<P>]) -> bool,
    D: Fn(&V, &Triangle<P>) -> bool,

    requires
        tree_shaped(nodes, i),
        subtree_decided(nodes, triangles, i, bound, stop, below),
        more.len() >= nodes.len(),
        more.subrange(0, nodes.len() as int) == nodes,
    ensures
        subtree_decided(more, triangles, i, bound, stop, below),
    decreases nodes.len() - i,
{
    lemma_extend_nodes(nodes, more, i);
    assert(more[i] == nodes[i]);
    if let Node::Internal { children, .. } = nodes[i] {
        let (l, r) = (children[0] as int, children[1] as int);
        lemma_extend_nodes(nodes, more, l);
        lemma_extend_nodes_decided(nodes, more, triangles, l, bound, stop, below);
        lemma_extend_nodes_decided(nodes, more, triangles, r, bound, stop, below);
    }
}

/// Changing a node stored before a subtree leaves the subtree's recorded decisions valid.
proof fn lemma_update_before_decided<P, V, B, S, D>(
    nodes: Seq<Node<V>>,
    j: int,
    node: Node<V>,
    triangles: Seq<Triangle<P>>,
    i: int,
    bound: B,
    stop: S,
    below: D,
) where
    B: Fn(&[Triangle<P>]) -> V,
    S: Fn(&V, &[Triangle<P>]) -> bool,
    D: Fn(&V, &Triangle<P>) -> bool,

    requires
        tree_shaped(nodes, i),
        subtree_decided(nodes, triangles, i, bound, stop, below),
        0 <= j < i,
    ensures
        subtree_decided(nodes.update(j, node), triangles, i, bound, stop, below),
    decreases nodes.len() - i,
{
    let updated = nodes.update(j, node);
    lemma_update_before(nodes, j, node, i);
    assert(updated[i] == nodes[i]);
    if let Node::Internal { children, .. } = nodes[i] {
        let (l, r) = (children[0] as int, children[1] as int);
        lemma_update_before(nodes, j, node, l);
        lemma_update_before_decided(nodes, j, node, triangles, l, bound, stop, below);
        lemma_update_before_decided(nodes, j, node, triangles, r, bound, stop, below);
    }
}

/// A subtree's recorded decisions only read the triangles in its own range.
proof fn lemma_triangles_frame_decided<P, V, B, S, D>(
    nodes: Seq<Node<V>>,
    triangles: Seq<Triangle<P>>,
    other: Seq<Triangle<P>>,
    i: int,
    bound: B,
    stop: S,
    below: D,
) where
    B: Fn(&[Triangle<P>]) -> V,
    S: Fn(&V, &[Triangle<P>]) -> bool,
    D: Fn(&V, &Triangle<P>) -> bool,

    requires
        tree_shaped(nodes, i),
        subtree_decided(nodes, triangles, i, bound, stop, below),
        0 <= range_of(nodes, i).0,
        range_of(nodes, i).1 <= triangles.len(),
        other.len() == triangles.len(),
        forall|k: int|
            range_of(nodes, i).0 <= k < range_of(nodes, i).1 ==> #[trigger] other[k]
                == triangles[k],
    ensures
        subtree_decided(nodes, other, i, bound, stop, below),
    decreases nodes.len() - i,
{
    let (start, end) = range_of(nodes, i);
    lemma_range_nonempty(nodes, i);
    assert(other.subrange(start, end) =~= triangles.subrange(start, end));
    if let Node::Internal { children, .. } = nodes[i] {
        let (l, r) = (children[0] as int, children[1] as int);
        lemma_range_nonempty(nodes, l);
        lemma_range_nonempty(nodes, r);
        lemma_triangles_frame_decided(nodes, triangles, other, l, bound, stop, below);
        lemma_triangles_frame_decided(nodes, triangles, other, r, bound, stop, below);
    }
}

/// Appending nodes after a laid-out subtree leaves it laid out.
proof fn lemma_extend_laid_out<V>(nodes: Seq<Node<V>>, more: Seq<Node<V>>, i: int, end: int)
    requires
        laid_out(nodes, i, end),
        more.len() >= nodes.len(),
        more.subrange(0, nodes.len() as int) == nodes,
    ensures
        laid_out(more, i, end),
    decreases nodes.len() - i,
{
    assert(more[i] == nodes[i]);
    if let Node::Internal { children, .. } = nodes[i] {
        let (l, r) = (children[0] as int, children[1] as int);
        lemma_extend_laid_out(nodes, more, l, r);
        lemma_extend_laid_out(nodes, more, r, end);
    }
}

/// Changing a node stored before a laid-out subtree leaves it laid out.
proof fn lemma_update_before_laid_out<V>(nodes: Seq<Node<V>>, j: int, node: Node<V>, i: int, end: int)
    requires
        laid_out(nodes, i, end),
        0 <= j < i,
    ensures
        laid_out(nodes.update(j, node), i, end),
    decreases nodes.len() - i,
{
    assert(nodes.update(j, node)[i] == nodes[i]);
    if let Node::Internal { children, .. } = nodes[i] {
        let (l, r) = (children[0] as int, children[1] as int);
        lemma_update_before_laid_out(nodes, j, node, l, r);
        lemma_update_before_laid_out(nodes, j, node, r, end);
    }
}

/// Within a laid-out subtree over `i..end`, the children of its inner nodes stay inside the
/// subtree, after their parent; every node but the subtree's root is a child of some inner node
/// of the subtree; and no node is the child of two inner nodes, nor twice of one.
proof fn lemma_laid_out_parents<V>(nodes: Seq<Node<V>>, i: int, end: int)
    requires
        laid_out(nodes, i, end),
    ensures
        0 <= i < end <= nodes.len(),
        forall|p: int, c: int|
            i <= p < end && 0 <= c < 2 && nodes[p] is Internal ==> p < #[trigger] child(
                nodes,
                p,
                c,
            ) < end,
        forall|j: int| i < j < end ==> #[trigger] has_parent_in(nodes, i, end, j),
        forall|p1: int, c1: int, p2: int, c2: int, j: int|
            i <= p1 < end && i <= p2 < end && #[trigger] is_parent(nodes, p1, c1, j)
                && #[trigger] is_parent(nodes, p2, c2, j) ==> p1 == p2 && c1 == c2,
    decreases nodes.len() - i,
{
    if let Node::Internal { children, .. } = nodes[i] {
        let (l, r) = (children[0] as int, children[1] as int);
        lemma_laid_out_parents(nodes, l, r);
        lemma_laid_out_parents(nodes, r, end);
        assert(child(nodes, i, 0) == l);
        assert(child(nodes, i, 1) == r);
        assert forall|p: int, c: int|
            i <= p < end && 0 <= c < 2 && nodes[p] is Internal implies p < #[trigger] child(
                nodes,
                p,
                c,
            ) < end by {
            if p == i {
                if c == 0 {
                    assert(child(nodes, p, c) == l);
                } else {
                    assert(child(nodes, p, c) == r);
                }
            }
        }
        assert forall|j: int| i < j < end implies #[trigger] has_parent_in(nodes, i, end, j) by {
            if j == l {
                assert(is_parent(nodes, i, 0, j));
            } else if j < r {
                assert(has_parent_in(nodes, l, r, j));
                let (p, c) = choose|p: int, c: int| l <= p < r && #[trigger] is_parent(nodes, p, c, j);
                assert(is_parent(nodes, p, c, j));
            } else if j == r {
                assert(is_parent(nodes, i, 1, j));
            } else {
                assert(has_parent_in(nodes, r, end, j));
                let (p, c) = choose|p: int, c: int| r <= p < end && #[trigger] is_parent(nodes, p, c, j);
                assert(is_parent(nodes, p, c, j));
            }
        }
        assert forall|p1: int, c1: int, p2: int, c2: int, j: int|
            i <= p1 < end && i <= p2 < end && #[trigger] is_parent(nodes, p1, c1, j)
                && #[trigger] is_parent(nodes, p2, c2, j) implies p1 == p2 && c1 == c2 by {
            // Where `j` lies decides which part of the subtree its parent belongs to.
            assert(l <= p1 < r ==> l < child(nodes, p1, c1) < r);
            assert(r <= p1 < end ==> r < child(nodes, p1, c1) < end);
            assert(l <= p2 < r ==> l < child(nodes, p2, c2) < r);
            assert(r <= p2 < end ==> r < child(nodes, p2, c2) < end);
            if p1 == i {
                assert(c1 == 0 ==> j == l);
                assert(c1 == 1 ==> j == r);
            }
            if p2 == i {
                assert(c2 == 0 ==> j == l);
                assert(c2 == 1 ==> j == r);
            }
        }
    }
}

/// Two sequences with the same multiset hold the same values.
proof fn lemma_same_multiset_contains<T>(a: Seq<T>, b: Seq<T>, x: T)
    requires
        a.to_multiset() == b.to_multiset(),
        a.contains(x),
    ensures
        b.contains(x),
{
    vstd::seq_lib::to_multiset_contains(a, x);
    vstd::seq_lib::to_multiset_contains(b, x);
}

fn swap<T: Copy>(v: &mut Vec<T>, i: usize, j: usize)
    requires
        i < old(v).len(),
        j < old(v).len(),
    ensures
        final(v)@ == old(v)@.update(i as int, old(v)@[j as int]).update(j as int, old(v)@[i as int]),
{
    let a = v[i];
    let b = v[j];
    v.set(i, b);
    v.set(j, a);
}

/// Swapping two entries of a range keeps the multiset of the range.
proof fn lemma_swap_in_range<T>(s: Seq<T>, i: int, j: int, start: int, end: int)
    requires
        0 <= start <= i < end <= s.len(),
        start <= j < end,
    ensures
        s.update(i, s[j]).update(j, s[i]).subrange(start, end).to_multiset() == s.subrange(
            start,
            end,
        ).to_multiset(),
{
    let sub = s.subrange(start, end);
    let t = s.update(i, s[j]).update(j, s[i]);
    assert(t.subrange(start, end) =~= sub.update(i - start, s[j]).update(j - start, s[i]));
    let u = sub.update(i - start, s[j]);
    assert(u.to_multiset() == sub.to_multiset().insert(s[j]).remove(s[i]));
    assert(u.update(j - start, s[i]).to_multiset() == u.to_multiset().insert(s[i]).remove(s[j]));
    assert(u.update(j - start, s[i]).to_multiset() =~= sub.to_multiset());
}

/// Swapping two triangles keeps every triangle a chunk of the positions with its own index.
proof fn lemma_swap_chunks<P>(s: Seq<Triangle<P>>, i: int, j: int, positions: Seq<P>)
    requires
        0 <= i < s.len(),
        0 <= j < s.len(),
        chunks_of(s, positions),
    ensures
        chunks_of(s.update(i, s[j]).update(j, s[i]), positions),
{
    let t = s.update(i, s[j]).update(j, s[i]);
    assert forall|k: int| 0 <= k < t.len() implies exists|m: int| 0 <= m < s.len() && #[trigger] t[k] == s[m] && (k != i && k != j ==> m == k) && (k == i && k != j ==> m == j) && (k == j ==> m == i) by {
        if k == j {
            assert(t[k] == s[i]);
        } else if k == i {
            assert(t[k] == s[j]);
        } else {
            assert(t[k] == s[k]);
        }
    }
    assert forall|k1: int, k2: int|
        0 <= k1 < t.len() && 0 <= k2 < t.len() && k1 != k2 implies #[trigger] t[k1].index
        != #[trigger] t[k2].index by {
        let m1 = if k1 == j { i } else if k1 == i { j } else { k1 };
        let m2 = if k2 == j { i } else if k2 == i { j } else { k2 };
        assert(t[k1] == s[m1]);
        assert(t[k2] == s[m2]);
        assert(s[m1].index != s[m2].index);
    }
    assert forall|k: int| 0 <= k < t.len() implies {
        let tk = #[trigger] t[k];
        &&& 3 * tk.index + 3 <= positions.len()
        &&& tk.positions@ == positions.subrange(3 * tk.index, 3 * tk.index + 3)
    } by {
        let m = if k == j { i } else if k == i { j } else { k };
        assert(t[k] == s[m]);
    }
}

/// The side that `below` gave for the triangles of a range holds for any reordering of the
/// range.
proof fn lemma_side_transfer<P, V, D>(
    before: Seq<Triangle<P>>,
    after: Seq<Triangle<P>>,
    lo: int,
    hi: int,
    below: D,
    volume: V,
    side: bool,
) where D: Fn(&V, &Triangle<P>) -> bool,

    requires
        0 <= lo <= hi <= before.len(),
        hi <= after.len(),
        after.subrange(lo, hi).to_multiset() == before.subrange(lo, hi).to_multiset(),
        forall|k: int| lo <= k < hi ==> call_ensures(below, (&volume, &#[trigger] before[k]), side),
    ensures
        forall|k: int| lo <= k < hi ==> call_ensures(below, (&volume, &#[trigger] after[k]), side),
{
    assert forall|k: int| lo <= k < hi implies call_ensures(
        below,
        (&volume, &#[trigger] after[k]),
        side,
    ) by {
        assert(after.subrange(lo, hi)[k - lo] == after[k]);
        lemma_same_multiset_contains(after.subrange(lo, hi), before.subrange(lo, hi), after[k]);
        let j = choose|j: int| 0 <= j < hi - lo && before.subrange(lo, hi)[j] == after[k];
        assert(before[lo + j] == after[k]);
    }
}

/// The decisions of an inner node, stated over its range `s..e` and split `m`, are what
/// [`node_decided`] asks of it.
proof fn lemma_internal_decided<P, V, B, S, D>(
    nodes: Seq<Node<V>>,
    triangles: Seq<Triangle<P>>,
    i: int,
    bound: B,
    stop: S,
    below: D,
    slice: &[Triangle<P>],
    s: int,
    m: int,
    e: int,
) where
    B: Fn(&[Triangle<P>]) -> V,
    S: Fn(&V, &[Triangle<P>]) -> bool,
    D: Fn(&V, &Triangle<P>) -> bool,

    requires
        0 <= i < nodes.len(),
        nodes[i] is Internal,
        range_of(nodes, i) == (s, e),
        range_of(nodes, nodes[i]->children[0] as int).1 == m,
        e - s >= 2,
        slice@.to_multiset() == triangles.subrange(s, e).to_multiset(),
        call_ensures(bound, (slice,), nodes[i]->volume),
        call_ensures(stop, (&nodes[i]->volume, slice), false),
        ({
            let volume = nodes[i]->volume;
            ||| (forall|k: int|
                s <= k < m ==> call_ensures(below, (&volume, &#[trigger] triangles[k]), true))
                && (forall|k: int|
                m <= k < e ==> call_ensures(below, (&volume, &#[trigger] triangles[k]), false))
            ||| m == s + (e - s) / 2 && ((forall|k: int|
                s <= k < e ==> call_ensures(below, (&volume, &#[trigger] triangles[k]), true))
                || (forall|k: int|
                s <= k < e ==> call_ensures(below, (&volume, &#[trigger] triangles[k]), false)))
        }),
    ensures
        node_decided(nodes, triangles, i, bound, stop, below),
{
}

/// Builds the subtree over triangles `start..end` and returns its root, the first node it
/// appends.
fn build<P: Copy, V: Copy, B, S, D>(
    bvh: &mut Bvh<P, V>,
    start: usize,
    end: usize,
    bound: &B,
    stop: &S,
    below: &D,
    Ghost(positions): Ghost<Seq<P>>,
) -> (node: usize)
    where
        B: Fn(&[Triangle<P>]) -> V,
        S: Fn(&V, &[Triangle<P>]) -> bool,
        D: Fn(&V, &Triangle<P>) -> bool,
    requires
        start < end <= old(bvh).triangles@.len(),
        chunks_of(old(bvh).triangles@, positions),
        forall|s: &[Triangle<P>]| #[trigger] bound.requires((s,)),
        forall|v: &V, s: &[Triangle<P>]| #[trigger] stop.requires((v, s)),
        forall|v: &V, t: &Triangle<P>| #[trigger] below.requires((v, t)),
    ensures
        final(bvh).triangles@.len() == old(bvh).triangles@.len(),
        forall|k: int|
            0 <= k < old(bvh).triangles@.len() && !(start <= k < end)
                ==> #[trigger] final(bvh).triangles@[k] == old(bvh).triangles@[k],
        final(bvh).triangles@.subrange(start as int, end as int).to_multiset()
            == old(bvh).triangles@.subrange(start as int, end as int).to_multiset(),
        chunks_of(final(bvh).triangles@, positions),
        node == old(bvh).nodes@.len(),
        final(bvh).nodes@.len() > node,
        final(bvh).nodes@.subrange(0, node as int) == old(bvh).nodes@,
        tree_shaped(final(bvh).nodes@, node as int),
        laid_out(final(bvh).nodes@, node as int, final(bvh).nodes@.len() as int),
        range_of(final(bvh).nodes@, node as int) == (start as int, end as int),
        subtree_decided(final(bvh).nodes@, final(bvh).triangles@, node as int, *bound, *stop, *below),
    decreases end - start,
{
    let ghost tri0 = bvh.triangles@;
    let ghost nodes0 = bvh.nodes@;
    let slice = slice_subrange(bvh.triangles.as_slice(), start, end);
    let volume = bound(slice);
    let stopped = stop(&volume, slice);

    if stopped || end - start == 1 {
        let node = bvh.nodes.len();
        bvh.nodes.push(Node::Leaf { start, end });
        proof {
            assert(bvh.nodes@.subrange(0, node as int) =~= nodes0);
            assert(bvh.nodes@[node as int] == Node::<V>::Leaf { start, end });
            assert(laid_out(bvh.nodes@, node as int, bvh.nodes@.len() as int));
            if end - start != 1 {
                assert(call_ensures(*stop, (&volume, slice), true));
            }
        }
        return node;
    }

    // Move the triangles below the split to the front of the range.
    let mut split = start;
    let mut i = start;
    while i < end
        invariant
            start <= split <= i <= end,
            end <= tri0.len(),
            bvh.triangles@.len() == tri0.len(),
            bvh.nodes@ == nodes0,
            forall|k: int|
                0 <= k < tri0.len() && !(start <= k < end) ==> #[trigger] bvh.triangles@[k]
                    == tri0[k],
            bvh.triangles@.subrange(start as int, end as int).to_multiset() == tri0.subrange(
                start as int,
                end as int,
            ).to_multiset(),
            chunks_of(bvh.triangles@, positions),
            forall|v: &V, t: &Triangle<P>| #[trigger] below.requires((v, t)),
            forall|k: int|
                start <= k < split ==> call_ensures(*below, (&volume, &#[trigger] bvh.triangles@[k]), true),
            forall|k: int|
                split <= k < i ==> call_ensures(*below, (&volume, &#[trigger] bvh.triangles@[k]), false),
        decreases end - i,
    {
        let ghost before = bvh.triangles@;
        if below(&volume, &bvh.triangles[i]) {
            proof {
                lemma_swap_in_range(bvh.triangles@, split as int, i as int, start as int, end as int);
                lemma_swap_chunks(bvh.triangles@, split as int, i as int, positions);
            }
            swap(&mut bvh.triangles, split, i);
            proof {
                let after = bvh.triangles@;
                assert forall|k: int| start <= k < split + 1 implies call_ensures(
                    *below,
                    (&volume, &#[trigger] after[k]),
                    true,
                ) by {
                    if k < split {
                        assert(after[k] == before[k]);
                    }
                }
                assert forall|k: int| split + 1 <= k < i + 1 implies call_ensures(
                    *below,
                    (&volume, &#[trigger] after[k]),
                    false,
                ) by {
                    if k == i {
                        assert(after[k] == before[split as int]);
                    } else {
                        assert(after[k] == before[k]);
                    }
                }
            }
            split += 1;
        }
        i += 1;
    }
    let ghost tri1 = bvh.triangles@;
    let ghost sorted_split = split;

    // If all centroids landed on one side, split evenly to avoid infinite recursion.
    if split == start || split == end {
        split = start + (end - start) / 2;
    }

    // Push a placeholder so children get higher indices.
    let node = bvh.nodes.len();
    bvh.nodes.push(Node::Internal { volume, children: [0, 0] });
    let ghost nodes_placeholder = bvh.nodes@;

    let left = build(bvh, start, split, bound, stop, below, Ghost(positions));
    let ghost nodes_left = bvh.nodes@;
    let ghost tri2 = bvh.triangles@;
    let right = build(bvh, split, end, bound, stop, below, Ghost(positions));
    let ghost nodes_right = bvh.nodes@;
    let ghost tri3 = bvh.triangles@;

    proof {
        lemma_extend_nodes(nodes_left, nodes_right, left as int);
        lemma_triangles_frame_decided(nodes_left, tri2, tri3, left as int, *bound, *stop, *below);
        lemma_extend_nodes_decided(nodes_left, nodes_right, tri3, left as int, *bound, *stop, *below);
        lemma_extend_laid_out(nodes_left, nodes_right, left as int, right as int);
    }
    let inner = Node::Internal { volume, children: [left, right] };
    bvh.nodes.set(node, inner);
    proof {
        let nodes3 = bvh.nodes@;
        lemma_update_before(nodes_right, node as int, inner, left as int);
        lemma_update_before(nodes_right, node as int, inner, right as int);
        lemma_update_before_decided(nodes_right, node as int, inner, tri3, left as int, *bound, *stop, *below);
        lemma_update_before_decided(nodes_right, node as int, inner, tri3, right as int, *bound, *stop, *below);
        assert forall|k: int| 0 <= k < node implies #[trigger] nodes_right[k] == nodes0[k] by {
            assert(nodes_right.subrange(0, right as int)[k] == nodes_left[k]);
            assert(nodes_left.subrange(0, left as int)[k] == nodes_placeholder[k]);
        }
        assert(nodes3.subrange(0, node as int) =~= nodes0);
        let (s, m, e) = (start as int, split as int, end as int);
        assert(tri1.subrange(s, e) =~= tri1.subrange(s, m) + tri1.subrange(m, e));
        assert(tri3.subrange(s, e) =~= tri3.subrange(s, m) + tri3.subrange(m, e));
        assert(tri3.subrange(s, m) =~= tri2.subrange(s, m));
        assert(tri2.subrange(m, e) =~= tri1.subrange(m, e));
        vstd::seq_lib::lemma_multiset_commutative(tri1.subrange(s, m), tri1.subrange(m, e));
        vstd::seq_lib::lemma_multiset_commutative(tri3.subrange(s, m), tri3.subrange(m, e));
        assert(tri3.subrange(s, e).to_multiset() == tri0.subrange(s, e).to_multiset());
        assert(slice@ == tri0.subrange(s, e));
        assert(call_ensures(*stop, (&volume, slice), false));
        if split == sorted_split {
            lemma_side_transfer(tri1, tri3, s, m, *below, volume, true);
            lemma_side_transfer(tri1, tri3, m, e, *below, volume, false);
        } else if sorted_split == start {
            lemma_side_transfer(tri1, tri3, s, e, *below, volume, false);
        } else {
            lemma_side_transfer(tri1, tri3, s, e, *below, volume, true);
        }
        assert(range_of(nodes3, node as int) == (s, e));
        lemma_internal_decided(nodes3, tri3, node as int, *bound, *stop, *below, slice, s, m, e);
        let len = nodes_right.len() as int;
        lemma_update_before_laid_out(nodes_right, node as int, inner, left as int, right as int);
        lemma_update_before_laid_out(nodes_right, node as int, inner, right as int, len);
        lemma_laid_out_parents(nodes_right, right as int, len);
        assert(laid_out(nodes3, node as int, len));
    }
    node
}

} // verus!
