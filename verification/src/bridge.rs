//! The bridge between the owned hierarchical form and the arena: lowering
//! assigns each hierarchical node an arena index in pre-order and records
//! the parent and child links; lifting rebuilds the hierarchical tree from
//! the arena's root by following child links.

use vstd::prelude::*;
use crate::arena::{link, FlatTree, NodeView, TreeNode, TreeView};
use crate::hier::{HierNode, HierView};

verus! {

/// The records the lowering appends for the tree `h`, when its own record
/// is placed at index `base` with parent link `parent`: the node itself,
/// then its lowered left subtree, then its lowered right subtree.
pub open spec fn lower_seq(h: HierView, base: int, parent: Option<int>) -> Seq<NodeView>
    decreases h,
{
    match h {
        HierView::Leaf { name } => seq![
            NodeView { name, parent, left: None, right: None, depth: None },
        ],
        HierView::Branch { name, left, right } => seq![
            NodeView {
                name,
                parent,
                left: Some(base + 1),
                right: Some(base + 1 + left.size()),
                depth: None,
            },
        ] + lower_seq(*left, base + 1, Some(base)) + lower_seq(
            *right,
            base + 1 + left.size(),
            Some(base),
        ),
    }
}

/// Lowering appends exactly one record per hierarchical node.
pub proof fn lemma_lower_seq_len(h: HierView, base: int, parent: Option<int>)
    ensures
        lower_seq(h, base, parent).len() == h.size(),
    decreases h,
{
    match h {
        HierView::Leaf { .. } => {},
        HierView::Branch { left, right, .. } => {
            lemma_lower_seq_len(*left, base + 1, Some(base));
            lemma_lower_seq_len(*right, base + 1 + left.size(), Some(base));
        },
    }
}

fn lower_rec(h: &HierNode, nodes: &mut Vec<TreeNode>, parent: Option<usize>) -> (idx: usize)
    ensures
        idx == old(nodes)@.len(),
        final(nodes)@.map_values(|n: TreeNode| n@) == old(nodes)@.map_values(|n: TreeNode| n@)
            + lower_seq(h@, old(nodes)@.len() as int, link(parent)),
    decreases *h,
{
    let idx = nodes.len();
    match h {
        HierNode::Leaf { name } => {
            nodes.push(
                TreeNode {
                    name: name.clone(),
                    parent,
                    left_child: None,
                    right_child: None,
                    depth: None,
                },
            );
            proof {
                assert(nodes@.map_values(|n: TreeNode| n@) =~= old(nodes)@.map_values(
                    |n: TreeNode| n@,
                ) + lower_seq(h@, idx as int, link(parent)));
            }
            idx
        },
        HierNode::Branch { name, left, right } => {
            let placeholder = TreeNode {
                name: name.clone(),
                parent,
                left_child: None,
                right_child: None,
                depth: None,
            };
            let ghost s0 = nodes@.map_values(|n: TreeNode| n@);
            let ghost ph = placeholder@;
            nodes.push(placeholder);
            let ghost s1 = nodes@.map_values(|n: TreeNode| n@);
            proof {
                assert(s1 =~= s0.push(ph));
            }
            let li = lower_rec(left, nodes, Some(idx));
            let ghost s2 = nodes@.map_values(|n: TreeNode| n@);
            let ri = lower_rec(right, nodes, Some(idx));
            let ghost s3 = nodes@.map_values(|n: TreeNode| n@);
            proof {
                lemma_lower_seq_len(left@, li as int, Some(idx as int));
                lemma_lower_seq_len(right@, ri as int, Some(idx as int));
                assert(s3.len() == idx + 1 + left@.size() + right@.size());
                assert(idx < nodes@.len());
            }
            let fixed = TreeNode {
                name: name.clone(),
                parent,
                left_child: Some(li),
                right_child: Some(ri),
                depth: None,
            };
            nodes[idx] = fixed;
            proof {
                let ghost base = idx as int;
                let ghost lv = left@;
                let ghost rv = right@;
                let ghost head = NodeView {
                    name: name@,
                    parent: link(parent),
                    left: Some(base + 1),
                    right: Some(base + 1 + lv.size()),
                    depth: None,
                };
                assert(h@ == (HierView::Branch {
                    name: name@,
                    left: Box::new(lv),
                    right: Box::new(rv),
                }));
                assert(lower_seq(h@, base, link(parent)) == seq![head] + lower_seq(
                    lv,
                    base + 1,
                    Some(base),
                ) + lower_seq(rv, base + 1 + lv.size(), Some(base)));
                assert(li as int == base + 1);
                assert(ri as int == base + 1 + lv.size());
                assert(fixed@ == head);
                let ghost s4 = nodes@.map_values(|n: TreeNode| n@);
                assert(s4 =~= s3.update(base, fixed@));
                assert(s4 =~= s0 + lower_seq(h@, base, link(parent)));
                assert(nodes@.map_values(|n: TreeNode| n@) =~= old(nodes)@.map_values(
                    |n: TreeNode| n@,
                ) + lower_seq(h@, base, link(parent)));
            }
            idx
        },
    }
}

/// Lower the hierarchical tree into a fresh arena: each node is assigned a
/// unique index in pre-order (the root at index zero) and its parent and
/// child back-references are recorded.
pub fn lower(h: &HierNode) -> (t: FlatTree)
    ensures
        t@.nodes == lower_seq(h@, 0, None),
        t@.root == 0,
        h@.leaves_named() ==> t@.wf(),
{
    let mut nodes: Vec<TreeNode> = Vec::new();
    proof {
        assert(nodes@.map_values(|n: TreeNode| n@) =~= Seq::<NodeView>::empty());
    }
    lower_rec(h, &mut nodes, None);
    proof {
        assert(nodes@.map_values(|n: TreeNode| n@) =~= lower_seq(h@, 0, None));
        if h@.leaves_named() {
            lemma_lower_wf(h@);
        }
    }
    FlatTree { nodes, root: 0 }
}

/// The hierarchical tree read off the arena from record `i`: its name,
/// with no children when both child slots are absent, else the lifted left
/// and right subtrees. `None` when a link leaves the arena, when exactly
/// one child slot is set, or when the recursion runs deeper than `fuel`
/// levels; on a well-formed arena whose depth the fuel covers, lifting
/// from the root yields the whole tree.
pub open spec fn lift_from(t: TreeView, i: int, fuel: nat) -> Option<HierView>
    decreases fuel,
{
    if !t.in_bounds(i) {
        None
    } else {
        match (t.nodes[i].left, t.nodes[i].right) {
            (Option::None, Option::None) => Some(HierView::Leaf { name: t.nodes[i].name }),
            (Option::Some(l), Option::Some(r)) => if fuel == 0 {
                None
            } else {
                match (lift_from(t, l, (fuel - 1) as nat), lift_from(t, r, (fuel - 1) as nat)) {
                    (Option::Some(lh), Option::Some(rh)) => Some(
                        HierView::Branch {
                            name: t.nodes[i].name,
                            left: Box::new(lh),
                            right: Box::new(rh),
                        },
                    ),
                    _ => None,
                }
            },
            _ => None,
        }
    }
}

/// The model of an optional hierarchical node.
pub open spec fn opt_hier_view(r: Option<HierNode>) -> Option<HierView> {
    match r {
        Option::Some(h) => Some(h@),
        Option::None => None,
    }
}

fn lift_rec(tree: &FlatTree, i: usize, fuel: usize) -> (r: Option<HierNode>)
    ensures
        opt_hier_view(r) == lift_from(tree@, i as int, fuel as nat),
    decreases fuel,
{
    if i >= tree.nodes.len() {
        return None;
    }
    match (tree.nodes[i].left_child, tree.nodes[i].right_child) {
        (Option::None, Option::None) => Some(HierNode::Leaf { name: tree.nodes[i].name.clone() }),
        (Option::Some(l), Option::Some(r)) => {
            if fuel == 0 {
                return None;
            }
            let lh = lift_rec(tree, l, fuel - 1);
            let rh = lift_rec(tree, r, fuel - 1);
            match (lh, rh) {
                (Option::Some(ln), Option::Some(rn)) => Some(
                    HierNode::Branch {
                        name: tree.nodes[i].name.clone(),
                        left: Box::new(ln),
                        right: Box::new(rn),
                    },
                ),
                _ => None,
            }
        },
        _ => None,
    }
}

/// Lift the arena back to a hierarchical tree, starting at its designated
/// root. The scratch depth field is not read.
pub fn lift(tree: &FlatTree) -> (r: Option<HierNode>)
    ensures
        opt_hier_view(r) == lift_from(tree@, tree@.root, tree@.nodes.len() as nat),
{
    let fuel = tree.nodes.len();
    lift_rec(tree, tree.root, fuel)
}

/// The records of `lower_seq(h, base, p)` stand in `t` at `base` onwards.
pub open spec fn holds_segment(t: TreeView, h: HierView, base: int, p: Option<int>) -> bool {
    &&& 0 <= base
    &&& base + h.size() <= t.nodes.len()
    &&& forall|j: int| 0 <= j < h.size() ==> t.nodes[base + j] == #[trigger] lower_seq(h, base, p)[j]
}

/// Lifting from the head of a lowered segment reads back the tree that was
/// lowered, whatever else the arena holds.
pub proof fn lemma_lift_segment(t: TreeView, h: HierView, base: int, p: Option<int>, fuel: nat)
    requires
        holds_segment(t, h, base, p),
        fuel >= h.height(),
    ensures
        lift_from(t, base, fuel) == Some(h),
    decreases h,
{
    lemma_lower_seq_len(h, base, p);
    assert(t.nodes[base] == lower_seq(h, base, p)[0]);
    match h {
        HierView::Leaf { .. } => {},
        HierView::Branch { name, left, right } => {
            let lsz = left.size() as int;
            lemma_lower_seq_len(*left, base + 1, Some(base));
            lemma_lower_seq_len(*right, base + 1 + lsz, Some(base));
            assert forall|j: int| 0 <= j < left.size() implies t.nodes[base + 1 + j]
                == #[trigger] lower_seq(*left, base + 1, Some(base))[j] by {
                assert(t.nodes[base + (1 + j)] == lower_seq(h, base, p)[1 + j]);
            }
            assert forall|j: int| 0 <= j < right.size() implies t.nodes[base + 1 + lsz + j]
                == #[trigger] lower_seq(*right, base + 1 + lsz, Some(base))[j] by {
                assert(t.nodes[base + (1 + lsz + j)] == lower_seq(h, base, p)[1 + lsz + j]);
            }
            assert(holds_segment(t, *left, base + 1, Some(base)));
            assert(holds_segment(t, *right, base + 1 + lsz, Some(base)));
            lemma_lift_segment(t, *left, base + 1, Some(base), (fuel - 1) as nat);
            lemma_lift_segment(t, *right, base + 1 + lsz, Some(base), (fuel - 1) as nat);
            assert(lift_from(t, base, fuel) == Some(h));
        },
    }
}

/// The shape of a lowered segment `lower_seq(h, base, p)`: the head record
/// carries the handed-down parent link; every later record's parent lies
/// strictly before it within the segment; child slots are paired, distinct,
/// lie strictly after their record within the segment, and point back; and
/// childless records inherit the tree's non-empty leaf names.
pub open spec fn segment_ok(h: HierView, base: int, p: Option<int>) -> bool {
    let s = lower_seq(h, base, p);
    &&& s[0].parent == p
    &&& forall|j: int|
        1 <= j < s.len() ==> (#[trigger] s[j].parent matches Some(q) && base <= q < base + j)
    &&& forall|j: int|
        0 <= j < s.len() ==> ((#[trigger] s[j].left is Some <==> s[j].right is Some) && (
        s[j].left matches Some(l) ==> s[j].right matches Some(rr) && base + j < l < base + h.size()
            && base + j < rr < base + h.size() && l != rr && s[l - base].parent == Some(base + j)
            && s[rr - base].parent == Some(base + j)))
    &&& forall|j: int|
        1 <= j < s.len() ==> (#[trigger] s[j].parent matches Some(q) && (s[q - base].left == Some(
            base + j,
        ) || s[q - base].right == Some(base + j)))
    &&& (h.leaves_named() ==> forall|j: int|
        0 <= j < s.len() ==> (#[trigger] s[j].left is None ==> s[j].name.len() > 0))
}

/// Every lowered segment has the shape `segment_ok` describes.
#[verifier::rlimit(100)]
#[verifier::spinoff_prover]
pub proof fn lemma_lower_seq_ok(h: HierView, base: int, p: Option<int>)
    ensures
        segment_ok(h, base, p),
    decreases h,
{
    lemma_lower_seq_len(h, base, p);
    let s = lower_seq(h, base, p);
    match h {
        HierView::Leaf { .. } => {},
        HierView::Branch { name, left, right } => {
            let lsz = left.size() as int;
            let rsz = right.size() as int;
            let sl = lower_seq(*left, base + 1, Some(base));
            let sr = lower_seq(*right, base + 1 + lsz, Some(base));
            lemma_lower_seq_len(*left, base + 1, Some(base));
            lemma_lower_seq_len(*right, base + 1 + lsz, Some(base));
            lemma_lower_seq_ok(*left, base + 1, Some(base));
            lemma_lower_seq_ok(*right, base + 1 + lsz, Some(base));
            assert(forall|j: int| 0 <= j < lsz ==> s[1 + j] == #[trigger] sl[j]);
            assert(forall|j: int| 0 <= j < rsz ==> s[1 + lsz + j] == #[trigger] sr[j]);
            assert(s[0].left == Some(base + 1) && s[0].right == Some(base + 1 + lsz));
            assert(sl[0].parent == Some(base) && sr[0].parent == Some(base));
            assert(segment_ok(h, base, p));
        },
    }
}

/// On an arena whose parent links always point strictly downward in index,
/// every parent chain terminates.
proof fn lemma_descending_chain(t: TreeView, o: Option<int>, fuel: nat)
    requires
        forall|i: int|
            t.in_bounds(i) ==> (#[trigger] t.nodes[i].parent matches Some(q) ==> 0 <= q < i),
        o matches Some(c) ==> t.in_bounds(c) && c < fuel,
    ensures
        t.chain_reaches(o, fuel),
    decreases fuel,
{
    match o {
        Option::None => {},
        Option::Some(c) => {
            lemma_descending_chain(t, t.nodes[c].parent, (fuel - 1) as nat);
        },
    }
}

/// Law: lowering a hierarchical tree whose leaves are all named yields a
/// well-formed arena — root at index zero, unique parentless record,
/// strictly binary records, consistent back-references, named leaves, and
/// terminating parent chains.
pub proof fn lemma_lower_wf(h: HierView)
    requires
        h.leaves_named(),
    ensures
        (TreeView { nodes: lower_seq(h, 0, None), root: 0 }).wf(),
{
    lemma_lower_seq_len(h, 0, None);
    lemma_lower_seq_ok(h, 0, None);
    let s = lower_seq(h, 0, None);
    let t = TreeView { nodes: s, root: 0 };
    assert(t.root_ok());
    assert forall|i: int| t.in_bounds(i) implies (t.nodes[i].parent is None <==> i == 0) by {}
    assert forall|i: int| t.in_bounds(i) implies #[trigger] t.node_ok(i) by {}
    assert forall|i: int| t.in_bounds(i) implies #[trigger] t.leaf_named(i) by {}
    assert forall|i: int| t.in_bounds(i) implies #[trigger] t.children_point_back(i) by {}
    assert forall|i: int| t.in_bounds(i) implies #[trigger] t.parent_points_back(i) by {}
    assert forall|i: int| t.in_bounds(i) implies t.chain_reaches(
        #[trigger] t.nodes[i].parent,
        t.nodes.len(),
    ) by {
        lemma_descending_chain(t, t.nodes[i].parent, t.nodes.len());
    }
}

/// Law: lowering a hierarchical tree and lifting the resulting arena, with
/// no move applied in between, reproduces the tree that was lowered — the
/// same shape and the same names (the arena's scratch depth field carries
/// nothing). The fuel is the arena's record count, as `lift` passes it.
pub proof fn lemma_lower_lift_round_trip(h: HierView)
    ensures
        lift_from(
            TreeView { nodes: lower_seq(h, 0, None), root: 0 },
            0,
            lower_seq(h, 0, None).len() as nat,
        ) == Some(h),
{
    lemma_lower_seq_len(h, 0, None);
    crate::hier::lemma_size_ge_height(h);
    let t = TreeView { nodes: lower_seq(h, 0, None), root: 0 };
    assert(holds_segment(t, h, 0, None));
    lemma_lift_segment(t, h, 0, None, h.size());
}

} // verus!
