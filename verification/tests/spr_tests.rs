use spr_tree::arena::FlatTree;
use spr_tree::bridge::{lift, lower};
use spr_tree::hier::HierNode;
use spr_tree::rearrange::{spr, try_spr, SprError};
use spr_tree::walk::{find_by_name, is_ancestor, preorder, refresh_root};

fn leaf(name: &str) -> HierNode {
    HierNode::Leaf { name: String::from(name) }
}

fn branch(name: &str, l: HierNode, r: HierNode) -> HierNode {
    HierNode::Branch { name: String::from(name), left: Box::new(l), right: Box::new(r) }
}

/// Nested-parenthesis rendering of a hierarchical tree, for shape checks.
fn shape(h: &HierNode) -> String {
    match h {
        HierNode::Leaf { name } => name.clone(),
        HierNode::Branch { name, left, right } => {
            format!("({},{}){}", shape(left), shape(right), name)
        }
    }
}

/// Every structural invariant of the arena, checked by hand: designated
/// root is the unique parentless record, records are strictly binary with
/// in-bounds links, leaves are named, links point back at each other, and
/// every parent chain reaches the root within `len` steps.
fn check_invariants(t: &FlatTree) {
    let n = t.nodes.len();
    assert!(t.root < n);
    for (i, node) in t.nodes.iter().enumerate() {
        match node.parent {
            None => assert_eq!(i, t.root, "parentless record must be the root"),
            Some(p) => {
                assert!(p < n);
                assert_ne!(i, t.root);
                let hits = [t.nodes[p].left_child, t.nodes[p].right_child]
                    .iter()
                    .filter(|c| **c == Some(i))
                    .count();
                assert_eq!(hits, 1, "record {} must fill exactly one slot of its parent", i);
            }
        }
        assert_eq!(node.left_child.is_some(), node.right_child.is_some());
        if let (Some(l), Some(r)) = (node.left_child, node.right_child) {
            assert!(l < n && r < n && l != r);
            assert_eq!(t.nodes[l].parent, Some(i));
            assert_eq!(t.nodes[r].parent, Some(i));
        } else {
            assert!(!node.name.is_empty(), "a leaf must carry a name");
        }
        // acyclicity: the parent chain ends within n steps
        let mut cur = node.parent;
        let mut steps = 0;
        while let Some(p) = cur {
            steps += 1;
            assert!(steps <= n, "parent chain from {} does not terminate", i);
            cur = t.nodes[p].parent;
        }
    }
}

fn four_leaf_tree() -> HierNode {
    // ((A,B),(C,D))
    branch("", branch("", leaf("A"), leaf("B")), branch("", leaf("C"), leaf("D")))
}

#[test]
fn lower_assigns_preorder_indices() {
    let t = lower(&four_leaf_tree());
    assert_eq!(t.root, 0);
    assert_eq!(t.len(), 7);
    assert_eq!(t.nodes[2].name, "A");
    assert_eq!(t.nodes[3].name, "B");
    assert_eq!(t.nodes[5].name, "C");
    assert_eq!(t.nodes[6].name, "D");
    assert_eq!(t.nodes[0].parent, None);
    assert_eq!(t.nodes[0].left_child, Some(1));
    assert_eq!(t.nodes[0].right_child, Some(4));
    assert_eq!(t.nodes[1].parent, Some(0));
    assert_eq!(t.nodes[4].parent, Some(0));
    check_invariants(&t);
}

#[test]
fn round_trip_reproduces_the_tree() {
    let h = four_leaf_tree();
    let t = lower(&h);
    let back = lift(&t).expect("lifting a lowered tree succeeds");
    assert_eq!(shape(&back), shape(&h));
    assert_eq!(shape(&back), "((A,B),(C,D))");
}

#[test]
fn round_trip_single_leaf() {
    let h = leaf("only");
    let back = lift(&lower(&h)).expect("lifting a lowered leaf succeeds");
    assert_eq!(shape(&back), "only");
}

#[test]
fn round_trip_keeps_internal_names() {
    let h = branch("top", branch("mid", leaf("A"), leaf("B")), leaf("C"));
    let back = lift(&lower(&h)).expect("lift succeeds");
    assert_eq!(shape(&back), "((A,B)mid,C)top");
    assert_eq!(back.name_string(), "top");
}

#[test]
fn lift_of_empty_arena_is_none() {
    let t = FlatTree::new();
    assert!(lift(&t).is_none());
}

#[test]
fn preorder_of_lowered_tree_is_index_order() {
    let t = lower(&four_leaf_tree());
    assert_eq!(preorder(&t), vec![0, 1, 2, 3, 4, 5, 6]);
}

#[test]
fn find_by_name_takes_first_preorder_match() {
    // ((X,X),Y): both leaves named X; pre-order meets index 2 first
    let h = branch("", branch("", leaf("X"), leaf("X")), leaf("Y"));
    let t = lower(&h);
    assert_eq!(find_by_name(&t, &String::from("X")), Some(2));
    assert_eq!(find_by_name(&t, &String::from("Y")), Some(4));
    assert_eq!(find_by_name(&t, &String::from("Z")), None);
}

#[test]
fn ancestry_follows_parent_links() {
    let t = lower(&four_leaf_tree());
    // root (0) is an ancestor of every other record
    for i in 1..7 {
        assert!(is_ancestor(&t, 0, i));
    }
    // a record is not its own ancestor
    assert!(!is_ancestor(&t, 2, 2));
    // the (A,B) junction (1) is an ancestor of A (2) but not of C (5)
    assert!(is_ancestor(&t, 1, 2));
    assert!(!is_ancestor(&t, 1, 5));
}

#[test]
fn spr_moves_donor_beside_recipient() {
    // ((A,B),(C,D)), donor A, recipient C: the recipient's parent becomes
    // the junction, parenting C and A where A stood, and the recipient's
    // sibling D is spliced up into the junction's old slot.
    let t0 = lower(&four_leaf_tree());
    let mut t = lower(&four_leaf_tree());
    let donor = find_by_name(&t, &String::from("A")).unwrap();
    let recipient = find_by_name(&t, &String::from("C")).unwrap();
    assert!(try_spr(&mut t, donor, recipient, 7).is_ok());
    assert!(refresh_root(&mut t));
    check_invariants(&t);
    assert_eq!(t.nodes.len(), t0.nodes.len());
    // the root does not move here
    assert_eq!(t.root, 0);
    let back = lift(&t).expect("lift succeeds");
    assert_eq!(shape(&back), "(((C,A),B),D)");
    // the repurposed junction carries the move's time stamp
    assert_eq!(t.nodes[4].depth, Some(7));
}

#[test]
fn spr_keeps_the_root_when_recipient_parent_is_inner() {
    // (((A,B),C),D), donor D, recipient A: the move is valid (D is no
    // ancestor of A); the recipient's parent is not the root, so the root
    // record stays in place after the re-scan.
    let h = branch("", branch("", branch("", leaf("A"), leaf("B")), leaf("C")), leaf("D"));
    let mut t = lower(&h);
    let donor = find_by_name(&t, &String::from("D")).unwrap();
    let recipient = find_by_name(&t, &String::from("A")).unwrap();
    assert_eq!(donor, 6);
    assert_eq!(recipient, 3);
    assert!(try_spr(&mut t, donor, recipient, 1).is_ok());
    assert!(refresh_root(&mut t));
    assert_eq!(t.root, 0);
    check_invariants(&t);
    let back = lift(&t).expect("lift succeeds");
    assert_eq!(shape(&back), "((B,C),(A,D))");
}

#[test]
fn spr_promotes_recipient_sibling_when_its_parent_is_the_root() {
    // ((A,B),C), donor A, recipient C: the recipient's parent is the root,
    // so it moves down to serve as the junction and the recipient's
    // sibling — the subtree (A,B), which also holds the donor's parent —
    // is promoted to be the new root.
    let h = branch("", branch("", leaf("A"), leaf("B")), leaf("C"));
    let mut t = lower(&h);
    let donor = find_by_name(&t, &String::from("A")).unwrap();
    let recipient = find_by_name(&t, &String::from("C")).unwrap();
    spr(&mut t, donor, recipient, 3);
    assert!(refresh_root(&mut t));
    assert_eq!(t.root, 1);
    check_invariants(&t);
    let back = lift(&t).expect("lift succeeds");
    assert_eq!(shape(&back), "((A,C),B)");
}

#[test]
fn spr_rejected_when_donor_is_ancestor_of_recipient() {
    // ((A,B),C), donor = the junction parenting A and B, recipient = A
    let h = branch("", branch("", leaf("A"), leaf("B")), leaf("C"));
    let before = lower(&h);
    let mut t = lower(&h);
    let donor = 1; // the internal node above A and B
    let recipient = find_by_name(&t, &String::from("A")).unwrap();
    assert!(is_ancestor(&t, donor, recipient));
    let res = try_spr(&mut t, donor, recipient, 1);
    assert!(matches!(res, Err(SprError::DonorAncestorOfRecipient)));
    // the arena is left untouched
    assert_eq!(t.root, before.root);
    assert_eq!(t.nodes.len(), before.nodes.len());
    for (a, b) in t.nodes.iter().zip(before.nodes.iter()) {
        assert_eq!(a.name, b.name);
        assert_eq!(a.parent, b.parent);
        assert_eq!(a.left_child, b.left_child);
        assert_eq!(a.right_child, b.right_child);
        assert_eq!(a.depth, b.depth);
    }
}

#[test]
fn spr_rejected_when_donor_is_descendant_of_recipient() {
    // ((A,B),C), donor = A, recipient = the junction parenting A and B:
    // the recipient is an ancestor of the donor, so the junction carried
    // to the donor's edge would come from above it; rejected, untouched.
    let h = branch("", branch("", leaf("A"), leaf("B")), leaf("C"));
    let before = lower(&h);
    let mut t = lower(&h);
    let donor = find_by_name(&t, &String::from("A")).unwrap();
    let recipient = 1; // the internal node above A and B
    assert!(is_ancestor(&t, recipient, donor));
    let res = try_spr(&mut t, donor, recipient, 1);
    assert!(matches!(res, Err(SprError::DonorDescendantOfRecipient)));
    assert_eq!(t.root, before.root);
    for (a, b) in t.nodes.iter().zip(before.nodes.iter()) {
        assert_eq!(a.parent, b.parent);
        assert_eq!(a.left_child, b.left_child);
        assert_eq!(a.right_child, b.right_child);
    }
}

#[test]
fn validation_answers_for_the_new_topology() {
    // after a completed move, the ancestry check reads the new links
    let mut t = lower(&four_leaf_tree());
    let a = find_by_name(&t, &String::from("A")).unwrap();
    let c = find_by_name(&t, &String::from("C")).unwrap();
    let d = find_by_name(&t, &String::from("D")).unwrap();
    // before the move, the (C,D) junction is an ancestor of D, not of A
    assert!(is_ancestor(&t, 1, a));
    assert!(!is_ancestor(&t, 4, a));
    assert!(is_ancestor(&t, 4, d));
    spr(&mut t, a, c, 1);
    assert!(refresh_root(&mut t));
    // the recipient's old parent (4) is now the junction above both the
    // donor and the recipient, and no longer above the spliced-up sibling
    assert!(is_ancestor(&t, 4, a));
    assert!(is_ancestor(&t, 4, c));
    assert!(is_ancestor(&t, 1, a));
    assert!(!is_ancestor(&t, 4, d));
    // and a further move validated on the new topology goes through
    let res = try_spr(&mut t, d, a, 2);
    assert!(res.is_ok());
    assert!(refresh_root(&mut t));
    check_invariants(&t);
}

#[test]
fn spr_splices_sibling_into_grandparent_slot() {
    // ((A,B),((C,D),E)), donor A, recipient C: the grandparent's slot that
    // held the recipient's parent takes the sibling D, the junction moves
    // under the donor's parent, and the root stays put.
    let h = branch(
        "",
        branch("", leaf("A"), leaf("B")),
        branch("", branch("", leaf("C"), leaf("D")), leaf("E")),
    );
    let mut t = lower(&h);
    let donor = find_by_name(&t, &String::from("A")).unwrap();
    let recipient = find_by_name(&t, &String::from("C")).unwrap();
    assert_eq!((donor, recipient), (2, 6));
    assert!(try_spr(&mut t, donor, recipient, 5).is_ok());
    assert!(refresh_root(&mut t));
    assert_eq!(t.root, 0);
    check_invariants(&t);
    // grandparent 4 took the sibling 7 into the junction's old slot
    assert_eq!(t.nodes[4].left_child, Some(7));
    assert_eq!(t.nodes[7].parent, Some(4));
    // the junction 5 hangs in the donor's old slot under 1
    assert_eq!(t.nodes[5].parent, Some(1));
    assert_eq!(t.nodes[1].left_child, Some(5));
    assert_eq!(t.nodes[2].parent, Some(5));
    assert_eq!(t.nodes[5].depth, Some(5));
    let back = lift(&t).expect("lift succeeds");
    assert_eq!(shape(&back), "(((C,A),B),(D,E))");
}

#[test]
fn refresh_root_rescans_for_the_parentless_record() {
    let mut t = lower(&four_leaf_tree());
    t.root = 3; // stale designation; the scan restores it
    assert!(refresh_root(&mut t));
    assert_eq!(t.root, 0);
}
