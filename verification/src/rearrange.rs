//! The SPR operator: the recipient's parent is repurposed as the new
//! binary junction, adopting the donor beside the recipient; the junction
//! takes the donor's former place under the donor's parent, and the
//! recipient's sibling is re-attached one level up — or promoted to the
//! root when the junction was the root. All rewiring is in place.

use vstd::prelude::*;
use crate::arena::{link, lemma_no_parent_cycle, lemma_no_self_parent, upd_depth, upd_parent, upd_replace_child, FlatTree, NodeView, TreeView};
use crate::walk::{anc_from, is_ancestor, is_ancestor_of, lemma_anc_compose, lemma_anc_mono, lemma_anc_via_child, lemma_anc_within_chain, lemma_chain_compress, lemma_chain_end, lemma_chain_mono, lemma_no_revisit, lemma_wf_chain};

verus! {

/// The sibling of `r` under its parent `rp`: whichever of `rp`'s two child
/// slots does not hold `r`.
pub open spec fn sibling_of(t: TreeView, rp: int, r: int) -> int {
    if t.nodes[rp].left == Some(r) {
        t.nodes[rp].right.unwrap()
    } else {
        t.nodes[rp].left.unwrap()
    }
}

/// The move's precondition. Donor and recipient are distinct non-root
/// records; they are not siblings and neither is the other's parent, for
/// on those adjacent edges the rewiring would have the junction node
/// parent itself; the donor is not an ancestor of the recipient (the
/// validation the design prescribes); and the recipient is not an
/// ancestor of the donor, since the recipient's parent is carried to the
/// edge above the donor, which must not lie inside the carried subtree —
/// the check the caller walks before invoking the operator.
pub open spec fn spr_ok(t: TreeView, d: int, r: int) -> bool {
    &&& t.in_bounds(d)
    &&& t.in_bounds(r)
    &&& d != r
    &&& t.nodes[d].parent is Some
    &&& t.nodes[r].parent is Some
    &&& t.nodes[d].parent != t.nodes[r].parent
    &&& t.nodes[r].parent != Some(d)
    &&& !is_ancestor_of(t, d, r)
    &&& !is_ancestor_of(t, r, d)
}

/// The arena after the move, record by record. Writing `r` for the recipient,
/// `rp` for its parent, `rs` for its sibling and `dp` for the donor's
/// parent: `rp` is repurposed as the new junction, parenting both `r` and
/// `d` on the former edge from `dp` down to `d`, and is stamped with the
/// move's time; `rs` is re-attached one level up, under `rp`'s former
/// parent, or promoted to root when `rp` was the root.
pub open spec fn spr_result(t: TreeView, d: int, r: int, time: u64) -> TreeView {
    let rp = t.nodes[r].parent.unwrap();
    let dp = t.nodes[d].parent.unwrap();
    let rs = sibling_of(t, rp, r);
    if t.nodes[rp].parent is None {
        let s1 = upd_parent(t.nodes, rs, None);
        let s2 = upd_parent(s1, rp, Some(dp));
        let s3 = upd_replace_child(s2, rp, rs, d);
        let s4 = upd_depth(s3, rp, time);
        let s5 = upd_replace_child(s4, dp, d, rp);
        let s6 = upd_parent(s5, d, Some(rp));
        TreeView { nodes: s6, root: rs }
    } else {
        let gp = t.nodes[rp].parent.unwrap();
        let s1 = upd_parent(t.nodes, rp, Some(dp));
        let s2 = upd_replace_child(s1, rp, rs, d);
        let s3 = upd_depth(s2, rp, time);
        let s4 = upd_replace_child(s3, gp, rp, rs);
        let s5 = upd_parent(s4, rs, Some(gp));
        let s6 = upd_replace_child(s5, dp, d, rp);
        let s7 = upd_parent(s6, d, Some(rp));
        TreeView { nodes: s7, root: t.root }
    }
}

/// Subtree prune and regraft, in place. The recipient's parent is spliced
/// out of its old position (its other child taking its place there, or
/// becoming the root) and re-used as the new junction, standing where the
/// donor stood and parenting both the donor and the recipient; it is
/// stamped with the move's time.
pub fn spr(flat_tree: &mut FlatTree, donor: usize, recipient: usize, time: u64)
    requires
        old(flat_tree)@.wf(),
        spr_ok(old(flat_tree)@, donor as int, recipient as int),
    ensures
        final(flat_tree)@ == spr_result(old(flat_tree)@, donor as int, recipient as int, time),
        final(flat_tree)@.wf(),
        final(flat_tree)@.nodes.len() == old(flat_tree)@.nodes.len(),
{
    proof {
        lemma_spr_preserves_wf(old(flat_tree)@, donor as int, recipient as int, time);
    }
    let ghost t = old(flat_tree)@;
    let ghost ri = recipient as int;
    let ghost di = donor as int;
    proof {
        assert(t.node_ok(ri));
        assert(t.node_ok(di));
        assert(t.parent_points_back(ri));
        assert(t.parent_points_back(di));
    }
    let recipient_parent = flat_tree.nodes[recipient].parent.unwrap();
    let donor_parent = flat_tree.nodes[donor].parent.unwrap();
    proof {
        assert(t.node_ok(recipient_parent as int));
        assert(t.node_ok(donor_parent as int));
        assert(t.children_point_back(recipient_parent as int));
    }
    let rp_left = flat_tree.nodes[recipient_parent].left_child.unwrap();
    let recipient_sibling = if rp_left == recipient {
        flat_tree.nodes[recipient_parent].right_child.unwrap()
    } else {
        rp_left
    };
    proof {
        assert(recipient_sibling as int == sibling_of(t, recipient_parent as int, ri));
        assert(t.in_bounds(recipient_sibling as int));
    }
    match flat_tree.nodes[recipient_parent].parent {
        Option::None => {
            // The recipient's parent is the root: the recipient's sibling is
            // promoted to be the new root.
            flat_tree.set_parent_link(recipient_sibling, None);
            flat_tree.set_parent_link(recipient_parent, Some(donor_parent));
            flat_tree.replace_child_link(recipient_parent, recipient_sibling, donor);
            flat_tree.set_depth_at(recipient_parent, time);
            flat_tree.replace_child_link(donor_parent, donor, recipient_parent);
            flat_tree.set_parent_link(donor, Some(recipient_parent));
            flat_tree.root = recipient_sibling;
        },
        Option::Some(recipient_grandparent) => {
            // The recipient's parent keeps a grandparent: the recipient's sibling
            // is spliced into the parent's old slot there.
            proof {
                assert(t.in_bounds(recipient_grandparent as int));
            }
            flat_tree.set_parent_link(recipient_parent, Some(donor_parent));
            flat_tree.replace_child_link(recipient_parent, recipient_sibling, donor);
            flat_tree.set_depth_at(recipient_parent, time);
            flat_tree.replace_child_link(recipient_grandparent, recipient_parent, recipient_sibling);
            flat_tree.set_parent_link(recipient_sibling, Some(recipient_grandparent));
            flat_tree.replace_child_link(donor_parent, donor, recipient_parent);
            flat_tree.set_parent_link(donor, Some(recipient_parent));
        },
    }
}

/// Law: a valid move keeps the arena's structural invariants — the record
/// count and every record's name are unchanged, exactly one record is
/// parentless and it is the designated root, every record is strictly
/// binary with in-bounds links, leaves keep their non-empty names, and
/// parent and child links still point back at each other.
pub proof fn lemma_spr_preserves_structure(t: TreeView, d: int, r: int, time: u64)
    requires
        t.wf(),
        spr_ok(t, d, r),
    ensures
        spr_result(t, d, r, time).nodes.len() == t.nodes.len(),
        forall|i: int|
            t.in_bounds(i) ==> #[trigger] spr_result(t, d, r, time).nodes[i].name
                == t.nodes[i].name,
        spr_result(t, d, r, time).wf_links(),
{
    let rp = t.nodes[r].parent.unwrap();
    if t.nodes[rp].parent is None {
        lemma_spr_structure_promoted(t, d, r, time);
    } else {
        lemma_spr_structure_spliced(t, d, r, time);
    }
}

/// Shared stock of facts both cases of the structure proof draw on.
proof fn lemma_spr_actors(t: TreeView, d: int, r: int)
    requires
        t.wf(),
        spr_ok(t, d, r),
    ensures
        t.node_ok(r),
        t.node_ok(d),
        t.parent_points_back(r),
        t.parent_points_back(d),
        t.node_ok(t.nodes[r].parent.unwrap()),
        t.node_ok(t.nodes[d].parent.unwrap()),
        t.children_point_back(t.nodes[r].parent.unwrap()),
        t.children_point_back(t.nodes[d].parent.unwrap()),
        t.nodes[sibling_of(t, t.nodes[r].parent.unwrap(), r)].parent == Some(
            t.nodes[r].parent.unwrap(),
        ),
        sibling_of(t, t.nodes[r].parent.unwrap(), r) != r,
        t.nodes[r].parent.unwrap() != r,
        t.nodes[d].parent.unwrap() != d,
        t.nodes[d].parent.unwrap() != r,
{
    let rp = t.nodes[r].parent.unwrap();
    let dp = t.nodes[d].parent.unwrap();
    let n = t.nodes.len() as nat;
    assert(t.node_ok(r) && t.node_ok(d) && t.parent_points_back(r) && t.parent_points_back(d));
    assert(t.node_ok(rp) && t.node_ok(dp));
    assert(t.children_point_back(rp) && t.children_point_back(dp));
    assert(t.chain_reaches(Some(r), (n + 1) as nat));
    assert(t.chain_reaches(Some(d), (n + 1) as nat));
    lemma_no_self_parent(t, r, (n + 1) as nat);
    lemma_no_self_parent(t, d, (n + 1) as nat);
}

#[verifier::rlimit(100)]
#[verifier::spinoff_prover]
proof fn lemma_spr_structure_promoted(t: TreeView, d: int, r: int, time: u64)
    requires
        t.wf(),
        spr_ok(t, d, r),
        t.nodes[t.nodes[r].parent.unwrap()].parent is None,
    ensures
        spr_result(t, d, r, time).nodes.len() == t.nodes.len(),
        forall|i: int|
            t.in_bounds(i) ==> #[trigger] spr_result(t, d, r, time).nodes[i].name
                == t.nodes[i].name,
        spr_result(t, d, r, time).wf_links(),
{
    let t2 = spr_result(t, d, r, time);
    let rp = t.nodes[r].parent.unwrap();
    let dp = t.nodes[d].parent.unwrap();
    let rs = sibling_of(t, rp, r);
    lemma_spr_actors(t, d, r);
    assert(t2.nodes.len() == t.nodes.len());
    assert(rp == t.root);
    assert(t2.root == rs);
    assert(t2.nodes[rs].parent is None);
    assert(t2.nodes[rp].parent == Some(dp));
    assert(t2.nodes[d].parent == Some(rp));
    assert forall|i: int|
        t2.in_bounds(i) && i != rs && i != rp && i != d implies #[trigger] t2.nodes[i].parent
        == t.nodes[i].parent by {}
    assert(t2.root_ok());
    assert forall|i: int| t2.in_bounds(i) implies (t2.nodes[i].parent is None <==> i
        == t2.root) by {
        assert(t.in_bounds(i) && (t.nodes[i].parent is None <==> i == t.root));
    }
    assert forall|i: int| t2.in_bounds(i) implies #[trigger] t2.node_ok(i) by {
        assert(t.node_ok(i) && t.children_point_back(i) && t.parent_points_back(i));
    }
    assert forall|i: int| t2.in_bounds(i) implies #[trigger] t2.leaf_named(i) by {
        assert(t.leaf_named(i) && t.node_ok(i));
    }
    assert forall|i: int| t2.in_bounds(i) implies #[trigger] t2.children_point_back(i) by {
        assert(t.children_point_back(i) && t.node_ok(i));
        if t.nodes[i].left is Some {
            assert(t.parent_points_back(t.nodes[i].left.unwrap()));
        }
        if t.nodes[i].right is Some {
            assert(t.parent_points_back(t.nodes[i].right.unwrap()));
        }
    }
    assert forall|i: int| t2.in_bounds(i) implies #[trigger] t2.parent_points_back(i) by {
        assert(t.parent_points_back(i) && t.node_ok(i));
        if t.nodes[i].parent is Some {
            let q = t.nodes[i].parent.unwrap();
            assert(t.children_point_back(q) && t.node_ok(q));
        }
    }
}

#[verifier::rlimit(100)]
#[verifier::spinoff_prover]
proof fn lemma_spr_structure_spliced(t: TreeView, d: int, r: int, time: u64)
    requires
        t.wf(),
        spr_ok(t, d, r),
        t.nodes[t.nodes[r].parent.unwrap()].parent is Some,
    ensures
        spr_result(t, d, r, time).nodes.len() == t.nodes.len(),
        forall|i: int|
            t.in_bounds(i) ==> #[trigger] spr_result(t, d, r, time).nodes[i].name
                == t.nodes[i].name,
        spr_result(t, d, r, time).wf_links(),
{
    let t2 = spr_result(t, d, r, time);
    let rp = t.nodes[r].parent.unwrap();
    let dp = t.nodes[d].parent.unwrap();
    let rs = sibling_of(t, rp, r);
    let gp = t.nodes[rp].parent.unwrap();
    let n = t.nodes.len() as nat;
    lemma_spr_actors(t, d, r);
    assert(t2.nodes.len() == t.nodes.len());
    assert(t.node_ok(gp) && t.children_point_back(gp) && t.parent_points_back(rp));
    assert(t.chain_reaches(Some(rp), (n + 1) as nat));
    assert(t.chain_reaches(Some(r), (n + 1) as nat));
    assert(t.chain_reaches(Some(rs), (n + 1) as nat));
    lemma_no_self_parent(t, rp, (n + 1) as nat);
    lemma_no_parent_cycle(t, r, rp, (n + 1) as nat);
    lemma_no_parent_cycle(t, rs, rp, (n + 1) as nat);
    assert(gp != rp && gp != r && gp != rs);
    assert(t2.root == t.root);
    assert(t2.nodes[rs].parent == Some(gp));
    assert(t2.nodes[rp].parent == Some(dp));
    assert(t2.nodes[d].parent == Some(rp));
    assert forall|i: int|
        t2.in_bounds(i) && i != rs && i != rp && i != d implies #[trigger] t2.nodes[i].parent
        == t.nodes[i].parent by {}
    assert(t.root != rp && t.root != rs && t.root != d);
    assert(t2.root_ok());
    assert forall|i: int| t2.in_bounds(i) implies (t2.nodes[i].parent is None <==> i
        == t2.root) by {
        assert(t.in_bounds(i) && (t.nodes[i].parent is None <==> i == t.root));
    }
    assert forall|i: int| t2.in_bounds(i) implies #[trigger] t2.node_ok(i) by {
        assert(t.node_ok(i) && t.children_point_back(i) && t.parent_points_back(i));
    }
    assert forall|i: int| t2.in_bounds(i) implies #[trigger] t2.leaf_named(i) by {
        assert(t.leaf_named(i) && t.node_ok(i));
    }
    assert forall|i: int| t2.in_bounds(i) implies #[trigger] t2.children_point_back(i) by {
        assert(t.children_point_back(i) && t.node_ok(i));
        if t.nodes[i].left is Some {
            assert(t.parent_points_back(t.nodes[i].left.unwrap()));
        }
        if t.nodes[i].right is Some {
            assert(t.parent_points_back(t.nodes[i].right.unwrap()));
        }
    }
    assert forall|i: int| t2.in_bounds(i) implies #[trigger] t2.parent_points_back(i) by {
        assert(t.parent_points_back(i) && t.node_ok(i));
        if t.nodes[i].parent is Some {
            let q = t.nodes[i].parent.unwrap();
            assert(t.children_point_back(q) && t.node_ok(q));
        }
    }
}

/// The three records whose parent links the move rewrites: the recipient's
/// parent, the recipient's sibling, and the donor.
pub open spec fn rewired(t: TreeView, d: int, r: int, x: int) -> bool {
    ||| x == t.nodes[r].parent.unwrap()
    ||| x == sibling_of(t, t.nodes[r].parent.unwrap(), r)
    ||| x == d
}

/// The old chain from `o` stays off the rewired records until it first
/// meets a record of `k`, within `fuel` steps.
pub open spec fn climbs(t: TreeView, d: int, r: int, o: Option<int>, fuel: nat, k: Set<int>) -> bool
    decreases fuel,
{
    match o {
        Option::None => true,
        Option::Some(c) => k.contains(c) || (!rewired(t, d, r, c) && fuel > 0 && climbs(
            t,
            d,
            r,
            t.nodes[c].parent,
            (fuel - 1) as nat,
            k,
        )),
    }
}

/// A chain that never meets the avoided records `a` climbs, when every
/// rewired record is either avoided or a stop in `k`.
proof fn lemma_climbs_avoid(t: TreeView, d: int, r: int, o: Option<int>, f: nat, k: Set<int>, a: Set<int>)
    requires
        t.chain_reaches(o, f),
        forall|x: int| #[trigger] a.contains(x) ==> !anc_from(t, x, o, f),
        forall|c: int| rewired(t, d, r, c) ==> k.contains(c) || a.contains(c),
    ensures
        climbs(t, d, r, o, f, k),
    decreases f,
{
    match o {
        Option::None => {},
        Option::Some(c) => {
            if !k.contains(c) {
                assert(anc_from(t, c, o, f));
                assert(!a.contains(c));
                assert forall|x: int| #[trigger] a.contains(x) implies !anc_from(
                    t,
                    x,
                    t.nodes[c].parent,
                    (f - 1) as nat,
                ) by {
                    if anc_from(t, x, t.nodes[c].parent, (f - 1) as nat) {
                        assert(anc_from(t, x, o, f));
                    }
                }
                lemma_climbs_avoid(t, d, r, t.nodes[c].parent, (f - 1) as nat, k, a);
            }
        },
    }
}

/// A chain with the recipient's sibling ahead of it, never meeting the
/// donor, climbs to the sibling: the recipient's parent cannot stand in
/// the way, since the sibling is never above its own parent.
proof fn lemma_climbs_ahead(t: TreeView, d: int, r: int, o: Option<int>, f: nat, bigf: nat)
    requires
        t.chain_reaches(o, f),
        anc_from(t, sibling_of(t, t.nodes[r].parent.unwrap(), r), o, f),
        !anc_from(t, d, o, f),
        !anc_from(
            t,
            sibling_of(t, t.nodes[r].parent.unwrap(), r),
            Some(t.nodes[r].parent.unwrap()),
            bigf,
        ),
        f <= bigf,
    ensures
        climbs(t, d, r, o, f, Set::empty().insert(sibling_of(t, t.nodes[r].parent.unwrap(), r))),
    decreases f,
{
    let rp = t.nodes[r].parent.unwrap();
    let rs = sibling_of(t, rp, r);
    let c = o.unwrap();
    if c != rs {
        if c == rp {
            lemma_anc_mono(t, rs, o, f, bigf);
        }
        assert(c != d);
        assert(!rewired(t, d, r, c));
        lemma_climbs_ahead(t, d, r, t.nodes[c].parent, (f - 1) as nat, bigf);
    }
}

/// A climbing chain terminates in the rewired arena: off the rewired
/// records the links are the old ones, and each stop in `k` has a
/// terminating chain of its own there.
proof fn lemma_climb_terminates(
    t: TreeView,
    t2: TreeView,
    d: int,
    r: int,
    o: Option<int>,
    f: nat,
    k: Set<int>,
    kf: nat,
)
    requires
        climbs(t, d, r, o, f, k),
        t.chain_reaches(o, f),
        t2.nodes.len() == t.nodes.len(),
        forall|x: int|
            t.in_bounds(x) && !rewired(t, d, r, x) ==> #[trigger] t2.nodes[x].parent
                == t.nodes[x].parent,
        forall|c: int| #[trigger] k.contains(c) ==> t2.chain_reaches(Some(c), kf),
    ensures
        t2.chain_reaches(o, (f + kf) as nat),
    decreases f,
{
    match o {
        Option::None => {},
        Option::Some(c) => {
            if k.contains(c) {
                lemma_chain_mono(t2, Some(c), kf, (f + kf) as nat);
            } else {
                lemma_climb_terminates(t, t2, d, r, t.nodes[c].parent, (f - 1) as nat, k, kf);
                lemma_chain_mono(
                    t2,
                    t.nodes[c].parent,
                    ((f - 1) as nat + kf) as nat,
                    ((f + kf) as nat - 1) as nat,
                );
            }
        },
    }
}

/// Law (continued): a valid move leaves the arena acyclic — from every
/// record the new parent chain still terminates at the new root within as
/// many steps as there are records. With `lemma_spr_preserves_structure`
/// this completes the invariants: the rewired arena is well-formed.
#[verifier::rlimit(100)]
#[verifier::spinoff_prover]
pub proof fn lemma_spr_preserves_acyclic(t: TreeView, d: int, r: int, time: u64)
    requires
        t.wf(),
        spr_ok(t, d, r),
    ensures
        spr_result(t, d, r, time).acyclic(),
{
    let t2 = spr_result(t, d, r, time);
    let rp = t.nodes[r].parent.unwrap();
    let dp = t.nodes[d].parent.unwrap();
    let rs = sibling_of(t, rp, r);
    let n = t.nodes.len() as nat;
    lemma_spr_actors(t, d, r);
    assert(t2.nodes.len() == t.nodes.len());
    assert forall|x: int|
        t.in_bounds(x) && !rewired(t, d, r, x) implies #[trigger] t2.nodes[x].parent
        == t.nodes[x].parent by {}
    lemma_wf_chain(t, r);
    lemma_wf_chain(t, d);
    lemma_wf_chain(t, rp);
    lemma_wf_chain(t, dp);
    lemma_wf_chain(t, rs);
    lemma_no_revisit(t, d, n, n);
    lemma_no_revisit(t, rs, n, n);
    lemma_no_self_parent(t, rs, n);
    let krs = Set::empty().insert(rs);
    if t.nodes[rp].parent is None {
        // the recipient's parent was the root: the old chain from the
        // donor's parent ends there, entering through the recipient's
        // sibling, which the move promotes to be the new root
        assert(rp == t.root);
        assert(!anc_from(t, rs, Some(rp), n));
        lemma_chain_end(t, Some(dp), n);
        let e = choose|e: int|
            #[trigger] anc_from(t, e, Some(dp), n) && t.in_bounds(e) && t.nodes[e].parent is None;
        assert(e == rp);
        lemma_anc_via_child(t, rp, Some(dp), n);
        let cc = choose|cc: int|
            t.nodes[cc].parent == Some(rp) && #[trigger] anc_from(t, cc, Some(dp), n)
                && t.in_bounds(cc);
        assert(t.parent_points_back(cc));
        assert(cc == r || cc == rs);
        assert(cc != r);
        lemma_climbs_ahead(t, d, r, Some(dp), n, n);
        assert(t2.nodes[rs].parent is None);
        assert(t2.chain_reaches(Option::<int>::None, 0));
        assert(t2.chain_reaches(Some(rs), 1));
        assert forall|c: int| #[trigger] krs.contains(c) implies t2.chain_reaches(Some(c), 1) by {}
        lemma_climb_terminates(t, t2, d, r, Some(dp), n, krs, 1);
        assert(t2.chain_reaches(Some(dp), (n + 1) as nat));
        assert(t2.nodes[rp].parent == Some(dp));
        assert(t2.chain_reaches(Some(rp), (n + 2) as nat));
        assert(t2.nodes[d].parent == Some(rp));
        assert(t2.chain_reaches(Some(d), (n + 3) as nat));
        lemma_chain_mono(t2, Some(rs), 1, (2 * n + 3) as nat);
        lemma_chain_mono(t2, Some(rp), (n + 2) as nat, (2 * n + 3) as nat);
        lemma_chain_mono(t2, Some(d), (n + 3) as nat, (2 * n + 3) as nat);
    } else {
        let gp = t.nodes[rp].parent.unwrap();
        assert(t.node_ok(gp) && t.children_point_back(gp) && t.parent_points_back(rp));
        lemma_wf_chain(t, gp);
        lemma_no_revisit(t, rp, n, n);
        // the recipient's sibling never stands above its own parent
        if anc_from(t, rs, Some(gp), (n - 1) as nat) {
            assert(anc_from(t, rs, Some(rp), n));
        }
        if anc_from(t, rs, Some(dp), n) {
            // the sibling is ahead on the chain from the donor's
            // parent; the grandparent's own chain then avoids all three
            // rewired records
            if anc_from(t, d, Some(gp), n) {
                assert(anc_from(t, rp, Some(rp), 0));
                assert(anc_from(t, rp, Some(rs), 1));
                assert(anc_from(t, gp, Some(gp), 0));
                assert(anc_from(t, gp, Some(rp), 1));
                lemma_anc_compose(t, rs, rp, Some(dp), n, 1);
                lemma_anc_compose(t, rp, gp, Some(dp), (n + 1) as nat, 1);
                lemma_anc_compose(t, gp, d, Some(dp), (n + 2) as nat, n);
                lemma_no_revisit(t, d, n, (2 * n + 2) as nat);
            }
            let avoids = Set::empty().insert(rp).insert(rs).insert(d);
            assert forall|x: int| #[trigger] avoids.contains(x) implies !anc_from(
                t,
                x,
                Some(gp),
                n,
            ) by {
                if x == rs && anc_from(t, rs, Some(gp), n) {
                    lemma_anc_within_chain(t, rs, Some(gp), n, (n - 1) as nat);
                    assert(anc_from(t, rs, Some(rp), n));
                }
            }
            lemma_climbs_avoid(t, d, r, Some(gp), n, Set::empty(), avoids);
            assert forall|c: int| #[trigger] Set::<int>::empty().contains(c)
                implies t2.chain_reaches(Some(c), 0) by {}
            lemma_climb_terminates(t, t2, d, r, Some(gp), n, Set::empty(), 0);
            assert(t2.chain_reaches(Some(gp), n));
            assert(t2.nodes[rs].parent == Some(gp));
            assert(t2.chain_reaches(Some(rs), (n + 1) as nat));
            lemma_climbs_ahead(t, d, r, Some(dp), n, n);
            assert forall|c: int| #[trigger] krs.contains(c) implies t2.chain_reaches(
                Some(c),
                (n + 1) as nat,
            ) by {}
            lemma_climb_terminates(t, t2, d, r, Some(dp), n, krs, (n + 1) as nat);
            assert(t2.chain_reaches(Some(dp), (2 * n + 1) as nat));
            assert(t2.nodes[rp].parent == Some(dp));
            assert(t2.chain_reaches(Some(rp), (2 * n + 2) as nat));
            assert(t2.nodes[d].parent == Some(rp));
            assert(t2.chain_reaches(Some(d), (2 * n + 3) as nat));
            lemma_chain_mono(t2, Some(rs), (n + 1) as nat, (2 * n + 3) as nat);
            lemma_chain_mono(t2, Some(rp), (2 * n + 2) as nat, (2 * n + 3) as nat);
        } else {
            // the chain from the donor's parent avoids all three
            // rewired records: it could only reach the recipient's parent
            // through the recipient (forbidden ancestry) or the sibling
            if anc_from(t, rp, Some(dp), n) {
                lemma_anc_via_child(t, rp, Some(dp), n);
                let cc = choose|cc: int|
                    t.nodes[cc].parent == Some(rp) && #[trigger] anc_from(t, cc, Some(dp), n)
                        && t.in_bounds(cc);
                assert(t.parent_points_back(cc));
                assert(cc == r || cc == rs);
            }
            let avoids = Set::empty().insert(rp).insert(rs).insert(d);
            assert forall|x: int| #[trigger] avoids.contains(x) implies !anc_from(
                t,
                x,
                Some(dp),
                n,
            ) by {}
            lemma_climbs_avoid(t, d, r, Some(dp), n, Set::empty(), avoids);
            assert forall|c: int| #[trigger] Set::<int>::empty().contains(c)
                implies t2.chain_reaches(Some(c), 0) by {}
            lemma_climb_terminates(t, t2, d, r, Some(dp), n, Set::empty(), 0);
            assert(t2.chain_reaches(Some(dp), n));
            assert(t2.nodes[rp].parent == Some(dp));
            assert(t2.chain_reaches(Some(rp), (n + 1) as nat));
            assert(t2.nodes[d].parent == Some(rp));
            assert(t2.chain_reaches(Some(d), (n + 2) as nat));
            // the grandparent's chain may pass the donor, which now
            // terminates; it avoids the other two rewired records
            let avoids2 = Set::empty().insert(rp).insert(rs);
            let kd = Set::empty().insert(d);
            assert forall|x: int| #[trigger] avoids2.contains(x) implies !anc_from(
                t,
                x,
                Some(gp),
                n,
            ) by {
                if x == rs && anc_from(t, rs, Some(gp), n) {
                    lemma_anc_within_chain(t, rs, Some(gp), n, (n - 1) as nat);
                    assert(anc_from(t, rs, Some(rp), n));
                }
            }
            lemma_climbs_avoid(t, d, r, Some(gp), n, kd, avoids2);
            assert forall|c: int| #[trigger] kd.contains(c) implies t2.chain_reaches(
                Some(c),
                (n + 2) as nat,
            ) by {}
            lemma_climb_terminates(t, t2, d, r, Some(gp), n, kd, (n + 2) as nat);
            assert(t2.chain_reaches(Some(gp), (2 * n + 2) as nat));
            assert(t2.nodes[rs].parent == Some(gp));
            assert(t2.chain_reaches(Some(rs), (2 * n + 3) as nat));
            lemma_chain_mono(t2, Some(rp), (n + 1) as nat, (2 * n + 3) as nat);
            lemma_chain_mono(t2, Some(d), (n + 2) as nat, (2 * n + 3) as nat);
        }
    }
    // every rewired record's new chain terminates; every other record
    // climbs to one of them or to the root, and the pigeonhole brings the
    // fuel back down to the record count
    let kall = Set::empty().insert(rp).insert(rs).insert(d);
    let kf = (2 * n + 3) as nat;
    assert(t2.chain_reaches(Some(rp), kf));
    assert(t2.chain_reaches(Some(rs), kf));
    assert(t2.chain_reaches(Some(d), kf));
    assert forall|c: int| #[trigger] kall.contains(c) implies t2.chain_reaches(Some(c), kf) by {}
    assert forall|i: int| t2.in_bounds(i) implies t2.chain_reaches(
        #[trigger] t2.nodes[i].parent,
        t2.nodes.len(),
    ) by {
        lemma_wf_chain(t, i);
        lemma_climbs_avoid(t, d, r, Some(i), n, kall, Set::empty());
        lemma_climb_terminates(t, t2, d, r, Some(i), n, kall, kf);
        assert(t2.chain_reaches(Some(i), (n + kf) as nat));
        vstd::set_lib::lemma_int_range(0, t2.nodes.len() as int);
        lemma_chain_compress(t2, t2.nodes[i].parent, (n + kf - 1) as nat, Set::empty());
        assert(Set::<int>::empty().len() == 0);
    }
}

/// Law: a valid move preserves every arena invariant of the data model —
/// the rewired arena is well-formed again (single designated root, strict
/// binary records, consistent back-references, named leaves, terminating
/// parent chains) and the record count and all names are unchanged.
pub proof fn lemma_spr_preserves_wf(t: TreeView, d: int, r: int, time: u64)
    requires
        t.wf(),
        spr_ok(t, d, r),
    ensures
        spr_result(t, d, r, time).wf(),
        spr_result(t, d, r, time).nodes.len() == t.nodes.len(),
        forall|i: int|
            t.in_bounds(i) ==> #[trigger] spr_result(t, d, r, time).nodes[i].name
                == t.nodes[i].name,
{
    lemma_spr_preserves_structure(t, d, r, time);
    lemma_spr_preserves_acyclic(t, d, r, time);
}

/// Law (frame): the move touches only the donor, the donor's parent, the
/// recipient's parent, the recipient's sibling and — when there is one —
/// the grandparent above the recipient's parent. Every other record is
/// unchanged, the recipient's own record included.
pub proof fn lemma_spr_frame(t: TreeView, d: int, r: int, time: u64)
    requires
        t.wf(),
        spr_ok(t, d, r),
    ensures
        spr_result(t, d, r, time).nodes[r] == t.nodes[r],
        forall|i: int|
            t.in_bounds(i) && i != d && i != t.nodes[d].parent.unwrap() && i != t.nodes[r].parent.unwrap()
                && i != sibling_of(t, t.nodes[r].parent.unwrap(), r) && (t.nodes[t.nodes[r].parent.unwrap()].parent
                matches Some(g) ==> i != g) ==> #[trigger] spr_result(t, d, r, time).nodes[i]
                == t.nodes[i],
{
    lemma_spr_actors(t, d, r);
    let rp = t.nodes[r].parent.unwrap();
    let n = t.nodes.len() as nat;
    if t.nodes[rp].parent is Some {
        lemma_wf_chain(t, r);
        lemma_no_parent_cycle(t, r, rp, n);
    }
}

/// The error of a rejected move: one of donor and recipient lies on the
/// other's ancestor chain, so the rewiring would fold the tree into itself.
pub enum SprError {
    DonorAncestorOfRecipient,
    DonorDescendantOfRecipient,
}

/// Validate and apply the move. A donor that is an ancestor of the
/// recipient is rejected as the validation failure the design names; a
/// donor that is a descendant of the recipient is rejected as well, since
/// the junction carried to the donor's edge must not come from above it.
/// Either rejection leaves the arena untouched; otherwise the arena is
/// rewired exactly as [`spr`] does.
pub fn try_spr(flat_tree: &mut FlatTree, donor: usize, recipient: usize, time: u64) -> (res: Result<
    (),
    SprError,
>)
    requires
        old(flat_tree)@.wf(),
        old(flat_tree)@.in_bounds(donor as int),
        old(flat_tree)@.in_bounds(recipient as int),
        donor != recipient,
        old(flat_tree)@.nodes[donor as int].parent is Some,
        old(flat_tree)@.nodes[recipient as int].parent is Some,
        old(flat_tree)@.nodes[donor as int].parent != old(flat_tree)@.nodes[recipient as int].parent,
    ensures
        is_ancestor_of(old(flat_tree)@, donor as int, recipient as int) ==> res == Err::<
            (),
            SprError,
        >(SprError::DonorAncestorOfRecipient) && *final(flat_tree) == *old(flat_tree),
        !is_ancestor_of(old(flat_tree)@, donor as int, recipient as int) && is_ancestor_of(
            old(flat_tree)@,
            recipient as int,
            donor as int,
        ) ==> res == Err::<(), SprError>(SprError::DonorDescendantOfRecipient)
            && *final(flat_tree) == *old(flat_tree),
        !is_ancestor_of(old(flat_tree)@, donor as int, recipient as int) && !is_ancestor_of(
            old(flat_tree)@,
            recipient as int,
            donor as int,
        ) ==> res is Ok
            && final(flat_tree)@ == spr_result(old(flat_tree)@, donor as int, recipient as int, time)
            && final(flat_tree)@.wf(),
{
    if is_ancestor(flat_tree, donor, recipient) {
        Err(SprError::DonorAncestorOfRecipient)
    } else if is_ancestor(flat_tree, recipient, donor) {
        Err(SprError::DonorDescendantOfRecipient)
    } else {
        spr(flat_tree, donor, recipient, time);
        Ok(())
    }
}

} // verus!
