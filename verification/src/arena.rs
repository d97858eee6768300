//! The index-addressed tree: an arena of node records linked by integer
//! indices, plus the designated root index, with its well-formedness
//! invariants.

use vstd::prelude::*;

verus! {

/// One arena record. Relatives are referenced by arena index; `None` stands
/// for an absent link. `depth` is a scratch field written only by the SPR
/// operator, which stamps the repurposed junction node with the time of the
/// move; nothing else reads it.
pub struct TreeNode {
    pub name: String,
    pub parent: Option<usize>,
    pub left_child: Option<usize>,
    pub right_child: Option<usize>,
    pub depth: Option<u64>,
}

/// Mathematical model of one record: the name as a character sequence and
/// the links as optional mathematical integers.
pub ghost struct NodeView {
    pub name: Seq<char>,
    pub parent: Option<int>,
    pub left: Option<int>,
    pub right: Option<int>,
    pub depth: Option<u64>,
}

/// The optional-index link as an optional mathematical integer.
pub open spec fn link(o: Option<usize>) -> Option<int> {
    match o {
        Option::Some(i) => Option::Some(i as int),
        Option::None => Option::None,
    }
}

impl View for TreeNode {
    type V = NodeView;

    open spec fn view(&self) -> NodeView {
        NodeView {
            name: self.name@,
            parent: link(self.parent),
            left: link(self.left_child),
            right: link(self.right_child),
            depth: self.depth,
        }
    }
}

/// The arena: an ordered sequence of records and the index of the root.
pub struct FlatTree {
    pub nodes: Vec<TreeNode>,
    pub root: usize,
}

/// Mathematical model of the arena.
pub ghost struct TreeView {
    pub nodes: Seq<NodeView>,
    pub root: int,
}

impl View for FlatTree {
    type V = TreeView;

    open spec fn view(&self) -> TreeView {
        TreeView { nodes: self.nodes@.map_values(|n: TreeNode| n@), root: self.root as int }
    }
}

impl TreeView {
    pub open spec fn in_bounds(self, i: int) -> bool {
        0 <= i < self.nodes.len()
    }

    pub open spec fn link_in_bounds(self, o: Option<int>) -> bool {
        o is Some ==> self.in_bounds(o.unwrap())
    }

    /// Every link of record `i` stays inside the arena, and the record is
    /// strictly binary: both child slots set, and set to distinct indices,
    /// or neither.
    pub open spec fn node_ok(self, i: int) -> bool {
        &&& self.link_in_bounds(self.nodes[i].parent)
        &&& self.link_in_bounds(self.nodes[i].left)
        &&& self.link_in_bounds(self.nodes[i].right)
        &&& (self.nodes[i].left is Some <==> self.nodes[i].right is Some)
        &&& (self.nodes[i].left is Some ==> self.nodes[i].left != self.nodes[i].right)
    }

    /// A record with no children is a leaf and carries a non-empty name.
    pub open spec fn leaf_named(self, i: int) -> bool {
        self.nodes[i].left is None ==> self.nodes[i].name.len() > 0
    }

    /// The root index is in bounds and the root record is the parentless one.
    pub open spec fn root_ok(self) -> bool {
        &&& self.in_bounds(self.root)
        &&& self.nodes[self.root].parent is None
    }

    /// Exactly one record is parentless: the root.
    pub open spec fn unique_root(self) -> bool {
        forall|i: int|
            self.in_bounds(i) ==> (self.nodes[i].parent is None <==> i == self.root)
    }

    /// Each child slot points back: a record listed as a child records the
    /// lister as its parent.
    pub open spec fn children_point_back(self, i: int) -> bool {
        &&& (self.nodes[i].left matches Some(c) ==> self.in_bounds(c) && self.nodes[c].parent
            == Some(i))
        &&& (self.nodes[i].right matches Some(c) ==> self.in_bounds(c) && self.nodes[c].parent
            == Some(i))
    }

    /// Each parent link points back: a non-root record stands in one of its
    /// recorded parent's child slots.
    pub open spec fn parent_points_back(self, i: int) -> bool {
        self.nodes[i].parent matches Some(p) ==> self.in_bounds(p) && (self.nodes[p].left == Some(
            i,
        ) || self.nodes[p].right == Some(i))
    }

    /// Following parent links from `o` reaches a parentless record within
    /// `fuel` steps.
    pub open spec fn chain_reaches(self, o: Option<int>, fuel: nat) -> bool
        decreases fuel,
    {
        match o {
            Option::None => true,
            Option::Some(c) => self.in_bounds(c) && fuel > 0 && self.chain_reaches(
                self.nodes[c].parent,
                (fuel - 1) as nat,
            ),
        }
    }

    /// No cycles: from every record the parent chain terminates, and a
    /// terminating chain never needs more steps than there are records.
    pub open spec fn acyclic(self) -> bool {
        forall|i: int|
            self.in_bounds(i) ==> self.chain_reaches(#[trigger] self.nodes[i].parent, self.nodes.len())
    }

    /// The structural part of well-formedness: everything except
    /// termination of the parent chains.
    pub open spec fn wf_links(self) -> bool {
        &&& self.root_ok()
        &&& self.unique_root()
        &&& forall|i: int| self.in_bounds(i) ==> #[trigger] self.node_ok(i)
        &&& forall|i: int| self.in_bounds(i) ==> #[trigger] self.leaf_named(i)
        &&& forall|i: int| self.in_bounds(i) ==> #[trigger] self.children_point_back(i)
        &&& forall|i: int| self.in_bounds(i) ==> #[trigger] self.parent_points_back(i)
    }

    /// Full well-formedness of the arena: single designated root, strictly
    /// binary records, consistent back-references, named leaves, no cycles.
    pub open spec fn wf(self) -> bool {
        &&& self.wf_links()
        &&& self.acyclic()
    }
}

/// A record on a terminating parent chain is not its own parent.
pub proof fn lemma_no_self_parent(t: TreeView, i: int, fuel: nat)
    requires
        t.chain_reaches(Some(i), fuel),
    ensures
        t.nodes[i].parent != Some(i),
    decreases fuel,
{
    if t.nodes[i].parent == Some(i) {
        lemma_no_self_parent(t, i, (fuel - 1) as nat);
    }
}

/// Two records on a terminating parent chain are never each other's
/// parents.
pub proof fn lemma_no_parent_cycle(t: TreeView, i: int, j: int, fuel: nat)
    requires
        t.chain_reaches(Some(i), fuel),
        t.nodes[i].parent == Some(j),
    ensures
        t.nodes[j].parent != Some(i),
    decreases fuel,
{
    if t.nodes[j].parent == Some(i) {
        lemma_no_parent_cycle(t, j, i, (fuel - 1) as nat);
    }
}

/// `s` with record `i`'s parent link replaced by `p`.
pub open spec fn upd_parent(s: Seq<NodeView>, i: int, p: Option<int>) -> Seq<NodeView> {
    s.update(i, NodeView { parent: p, ..s[i] })
}

/// `s` with record `i`'s depth stamped with `time`.
pub open spec fn upd_depth(s: Seq<NodeView>, i: int, time: u64) -> Seq<NodeView> {
    s.update(i, NodeView { depth: Some(time), ..s[i] })
}

/// `s` with the child slot of record `i` that holds `from` overwritten to
/// hold `to`: the left slot if it holds `from`, the right slot otherwise.
pub open spec fn upd_replace_child(s: Seq<NodeView>, i: int, from: int, to: int) -> Seq<NodeView> {
    if s[i].left == Some(from) {
        s.update(i, NodeView { left: Some(to), ..s[i] })
    } else {
        s.update(i, NodeView { right: Some(to), ..s[i] })
    }
}

impl FlatTree {
    /// An empty arena; records are then appended by the lowering.
    pub fn new() -> (r: FlatTree)
        ensures
            r@.nodes == Seq::<NodeView>::empty(),
            r@.root == 0,
    {
        let t = FlatTree { nodes: Vec::new(), root: 0 };
        proof {
            assert(t@.nodes =~= Seq::<NodeView>::empty());
        }
        t
    }

    /// Number of records in the arena.
    pub fn len(&self) -> (r: usize)
        ensures
            r == self@.nodes.len(),
    {
        self.nodes.len()
    }

    /// Overwrite record `i`'s parent link.
    pub fn set_parent_link(&mut self, i: usize, p: Option<usize>)
        requires
            old(self)@.in_bounds(i as int),
        ensures
            final(self)@.nodes == upd_parent(old(self)@.nodes, i as int, link(p)),
            final(self)@.root == old(self)@.root,
    {
        let node = &self.nodes[i];
        let replaced = TreeNode {
            name: node.name.clone(),
            parent: p,
            left_child: node.left_child,
            right_child: node.right_child,
            depth: node.depth,
        };
        self.nodes[i] = replaced;
        proof {
            assert(self@.nodes =~= upd_parent(old(self)@.nodes, i as int, link(p)));
        }
    }

    /// Stamp record `i`'s scratch depth field with `time`.
    pub fn set_depth_at(&mut self, i: usize, time: u64)
        requires
            old(self)@.in_bounds(i as int),
        ensures
            final(self)@.nodes == upd_depth(old(self)@.nodes, i as int, time),
            final(self)@.root == old(self)@.root,
    {
        let node = &self.nodes[i];
        let replaced = TreeNode {
            name: node.name.clone(),
            parent: node.parent,
            left_child: node.left_child,
            right_child: node.right_child,
            depth: Some(time),
        };
        self.nodes[i] = replaced;
        proof {
            assert(self@.nodes =~= upd_depth(old(self)@.nodes, i as int, time));
        }
    }

    /// Overwrite the child slot of record `i` that holds `from` to hold
    /// `to`: the left slot if it holds `from`, the right slot otherwise.
    pub fn replace_child_link(&mut self, i: usize, from: usize, to: usize)
        requires
            old(self)@.in_bounds(i as int),
        ensures
            final(self)@.nodes == upd_replace_child(
                old(self)@.nodes,
                i as int,
                from as int,
                to as int,
            ),
            final(self)@.root == old(self)@.root,
    {
        let node = &self.nodes[i];
        let hit_left = match node.left_child {
            Option::Some(l) => l == from,
            Option::None => false,
        };
        let replaced = TreeNode {
            name: node.name.clone(),
            parent: node.parent,
            left_child: if hit_left {
                Some(to)
            } else {
                node.left_child
            },
            right_child: if hit_left {
                node.right_child
            } else {
                Some(to)
            },
            depth: node.depth,
        };
        self.nodes[i] = replaced;
        proof {
            assert(self@.nodes =~= upd_replace_child(
                old(self)@.nodes,
                i as int,
                from as int,
                to as int,
            ));
        }
    }
}

} // verus!
