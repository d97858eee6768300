//! The owned hierarchical tree: the interchange form used at the
//! parse/serialize boundary. A node owns its children by value; an internal
//! node always has exactly two.

use vstd::prelude::*;

verus! {

/// One hierarchical node: a named leaf, or a named branch owning a left and
/// a right child. Branch lengths are not carried: the serialization in
/// scope drops them, and the arena keeps its own scratch depth field.
pub enum HierNode {
    Leaf { name: String },
    Branch { name: String, left: Box<HierNode>, right: Box<HierNode> },
}

/// Mathematical model of a hierarchical node.
pub ghost enum HierView {
    Leaf { name: Seq<char> },
    Branch { name: Seq<char>, left: Box<HierView>, right: Box<HierView> },
}

/// The model of a hierarchical node: names become character sequences.
pub open spec fn hier_view(h: HierNode) -> HierView
    decreases h,
{
    match h {
        HierNode::Leaf { name } => HierView::Leaf { name: name@ },
        HierNode::Branch { name, left, right } => HierView::Branch {
            name: name@,
            left: Box::new(hier_view(*left)),
            right: Box::new(hier_view(*right)),
        },
    }
}

impl View for HierNode {
    type V = HierView;

    open spec fn view(&self) -> HierView {
        hier_view(*self)
    }
}

impl HierView {
    /// Number of nodes in the hierarchical tree.
    pub open spec fn size(self) -> nat
        decreases self,
    {
        match self {
            HierView::Leaf { .. } => 1,
            HierView::Branch { left, right, .. } => 1 + left.size() + right.size(),
        }
    }

    /// Height of the hierarchical tree: a leaf has height 1.
    pub open spec fn height(self) -> nat
        decreases self,
    {
        match self {
            HierView::Leaf { .. } => 1,
            HierView::Branch { left, right, .. } => 1 + if left.height() >= right.height() {
                left.height()
            } else {
                right.height()
            },
        }
    }

    /// Every leaf of the tree carries a non-empty name, as the arena
    /// invariants demand of lowered trees.
    pub open spec fn leaves_named(self) -> bool
        decreases self,
    {
        match self {
            HierView::Leaf { name } => name.len() > 0,
            HierView::Branch { left, right, .. } => left.leaves_named() && right.leaves_named(),
        }
    }
}

/// A tree has at least as many nodes as it has levels.
pub proof fn lemma_size_ge_height(h: HierView)
    ensures
        h.size() >= h.height(),
    decreases h,
{
    match h {
        HierView::Leaf { .. } => {},
        HierView::Branch { left, right, .. } => {
            lemma_size_ge_height(*left);
            lemma_size_ge_height(*right);
        },
    }
}

impl HierNode {
    /// The node's name, read back as an owned string.
    pub fn name_string(&self) -> (r: String)
        ensures
            r@ == match self@ {
                HierView::Leaf { name } => name,
                HierView::Branch { name, .. } => name,
            },
    {
        match self {
            HierNode::Leaf { name } => name.clone(),
            HierNode::Branch { name, .. } => name.clone(),
        }
    }
}

} // verus!
