//! Traversal over the arena: pre-order enumeration, first-match name
//! lookup, the ancestry walk that validates a move, and the rescan that
//! re-derives the root after a mutation.

use vstd::prelude::*;
use crate::arena::{link, FlatTree, TreeView};

verus! {

/// Does `a` stand on the parent chain beginning at link `o`, within `fuel`
/// steps? The chain is abandoned if it leaves the arena's bounds.
pub open spec fn anc_from(t: TreeView, a: int, o: Option<int>, fuel: nat) -> bool
    decreases fuel,
{
    match o {
        Option::None => false,
        Option::Some(c) => t.in_bounds(c) && (c == a || (fuel > 0 && anc_from(
            t,
            a,
            t.nodes[c].parent,
            (fuel - 1) as nat,
        ))),
    }
}

/// `a` is a strict ancestor of `x`: walking parent links from `x` meets `a`
/// before the chain ends. On a well-formed arena the chain ends within as
/// many steps as there are records, so that fuel makes the walk exact.
pub open spec fn is_ancestor_of(t: TreeView, a: int, x: int) -> bool {
    anc_from(t, a, t.nodes[x].parent, t.nodes.len() as nat)
}

/// Walk the parent links from `x` up towards the root, testing each
/// ancestor against `a`.
pub fn is_ancestor(tree: &FlatTree, a: usize, x: usize) -> (r: bool)
    requires
        tree@.wf(),
        tree@.in_bounds(x as int),
    ensures
        r == is_ancestor_of(tree@, a as int, x as int),
{
    let ghost t = tree@;
    proof {
        assert(t.chain_reaches(t.nodes[x as int].parent, t.nodes.len() as nat));
    }
    let mut cur: Option<usize> = tree.nodes[x].parent;
    let ghost mut fuel: nat = t.nodes.len() as nat;
    loop
        invariant
            t == tree@,
            t.chain_reaches(link(cur), fuel),
            is_ancestor_of(t, a as int, x as int) == anc_from(t, a as int, link(cur), fuel),
        decreases fuel,
    {
        match cur {
            Option::None => {
                return false;
            },
            Option::Some(c) => {
                if c == a {
                    return true;
                }
                proof {
                    fuel = (fuel - 1) as nat;
                }
                cur = tree.nodes[c].parent;
            },
        }
    }
}

/// A chain that terminates within some fuel terminates within any larger
/// fuel.
pub proof fn lemma_chain_mono(t: TreeView, o: Option<int>, f1: nat, f2: nat)
    requires
        t.chain_reaches(o, f1),
        f1 <= f2,
    ensures
        t.chain_reaches(o, f2),
    decreases f1,
{
    match o {
        Option::None => {},
        Option::Some(c) => {
            lemma_chain_mono(t, t.nodes[c].parent, (f1 - 1) as nat, (f2 - 1) as nat);
        },
    }
}

/// A record met within some fuel is met within any larger fuel.
pub proof fn lemma_anc_mono(t: TreeView, a: int, o: Option<int>, f1: nat, f2: nat)
    requires
        anc_from(t, a, o, f1),
        f1 <= f2,
    ensures
        anc_from(t, a, o, f2),
    decreases f1,
{
    match o {
        Option::None => {},
        Option::Some(c) => {
            if c != a {
                lemma_anc_mono(t, a, t.nodes[c].parent, (f1 - 1) as nat, (f2 - 1) as nat);
            }
        },
    }
}

/// Any record met on a terminating chain has a terminating chain of its
/// own, within the same fuel.
pub proof fn lemma_chain_suffix(t: TreeView, x: int, o: Option<int>, f: nat, g: nat)
    requires
        t.chain_reaches(o, f),
        anc_from(t, x, o, g),
    ensures
        t.chain_reaches(Some(x), f),
    decreases f,
{
    match o {
        Option::None => {},
        Option::Some(c) => {
            if c != x {
                lemma_chain_suffix(t, x, t.nodes[c].parent, (f - 1) as nat, (g - 1) as nat);
                lemma_chain_mono(t, Some(x), (f - 1) as nat, f);
            }
        },
    }
}

/// A record with a terminating chain is never met again further up its own
/// chain.
pub proof fn lemma_no_revisit(t: TreeView, c: int, f: nat, g: nat)
    requires
        t.chain_reaches(Some(c), f),
    ensures
        !anc_from(t, c, t.nodes[c].parent, g),
    decreases f,
{
    if anc_from(t, c, t.nodes[c].parent, g) {
        lemma_chain_suffix(t, c, t.nodes[c].parent, (f - 1) as nat, g);
        lemma_no_revisit(t, c, (f - 1) as nat, g);
    }
}

/// Meeting `x` from `o`, then `y` from `x`, meets `y` from `o`.
pub proof fn lemma_anc_compose(t: TreeView, x: int, y: int, o: Option<int>, f: nat, g: nat)
    requires
        anc_from(t, x, o, f),
        anc_from(t, y, Some(x), g),
    ensures
        anc_from(t, y, o, (f + g) as nat),
    decreases f,
{
    match o {
        Option::None => {},
        Option::Some(c) => {
            if c == x {
                lemma_anc_mono(t, y, o, g, (f + g) as nat);
            } else {
                lemma_anc_compose(t, x, y, t.nodes[c].parent, (f - 1) as nat, g);
            }
        },
    }
}

/// A terminating chain ends at a parentless record, and that record is met
/// on the chain.
pub proof fn lemma_chain_end(t: TreeView, o: Option<int>, f: nat)
    requires
        t.chain_reaches(o, f),
        o is Some,
    ensures
        exists|e: int|
            #[trigger] anc_from(t, e, o, f) && t.in_bounds(e) && t.nodes[e].parent is None,
    decreases f,
{
    let c = o.unwrap();
    if t.nodes[c].parent is None {
        assert(anc_from(t, c, o, f) && t.in_bounds(c) && t.nodes[c].parent is None);
    } else {
        lemma_chain_end(t, t.nodes[c].parent, (f - 1) as nat);
        let e = choose|e: int|
            #[trigger] anc_from(t, e, t.nodes[c].parent, (f - 1) as nat) && t.in_bounds(e)
                && t.nodes[e].parent is None;
        assert(anc_from(t, e, o, f));
    }
}

/// A chain that meets `q` from below enters it through one of its
/// children.
pub proof fn lemma_anc_via_child(t: TreeView, q: int, o: Option<int>, f: nat)
    requires
        anc_from(t, q, o, f),
        o != Some(q),
    ensures
        exists|cc: int|
            t.nodes[cc].parent == Some(q) && #[trigger] anc_from(t, cc, o, f) && t.in_bounds(cc),
    decreases f,
{
    let c = o.unwrap();
    if t.nodes[c].parent == Some(q) {
        assert(t.nodes[c].parent == Some(q) && anc_from(t, c, o, f) && t.in_bounds(c));
    } else {
        lemma_anc_via_child(t, q, t.nodes[c].parent, (f - 1) as nat);
        let cc = choose|cc: int|
            t.nodes[cc].parent == Some(q) && #[trigger] anc_from(t, cc, t.nodes[c].parent, (f - 1) as nat)
                && t.in_bounds(cc);
        assert(anc_from(t, cc, o, f));
    }
}

/// Pigeonhole on a terminating chain: however much fuel showed that the
/// chain from `o` terminates, visiting only records outside the already
/// visited set `s`, fuel for the unvisited records is enough.
pub proof fn lemma_chain_compress(t: TreeView, o: Option<int>, f: nat, s: Set<int>)
    requires
        t.chain_reaches(o, f),
        s.finite(),
        s.subset_of(vstd::set_lib::set_int_range(0, t.nodes.len() as int)),
        forall|x: int| #[trigger] anc_from(t, x, o, f) ==> !s.contains(x),
    ensures
        t.chain_reaches(o, (t.nodes.len() - s.len()) as nat),
    decreases f,
{
    vstd::set_lib::lemma_int_range(0, t.nodes.len() as int);
    vstd::set_lib::lemma_len_subset(s, vstd::set_lib::set_int_range(0, t.nodes.len() as int));
    match o {
        Option::None => {},
        Option::Some(c) => {
            assert(anc_from(t, c, o, f));
            let s2 = s.insert(c);
            vstd::set_lib::lemma_len_subset(
                s2,
                vstd::set_lib::set_int_range(0, t.nodes.len() as int),
            );
            lemma_no_revisit(t, c, f, (f - 1) as nat);
            assert forall|x: int|
                #[trigger] anc_from(t, x, t.nodes[c].parent, (f - 1) as nat) implies !s2.contains(
                x,
            ) by {
                assert(anc_from(t, x, o, f));
                assert(x != c);
            }
            lemma_chain_compress(t, t.nodes[c].parent, (f - 1) as nat, s2);
            assert(s2.len() == s.len() + 1);
            lemma_chain_mono(
                t,
                t.nodes[c].parent,
                (t.nodes.len() - s2.len()) as nat,
                (t.nodes.len() - s.len() - 1) as nat,
            );
        },
    }
}

/// A record met on a terminating chain with any fuel is met within the
/// fuel that terminates the chain.
pub proof fn lemma_anc_within_chain(t: TreeView, x: int, o: Option<int>, f: nat, f2: nat)
    requires
        anc_from(t, x, o, f),
        t.chain_reaches(o, f2),
    ensures
        anc_from(t, x, o, f2),
    decreases f,
{
    match o {
        Option::None => {},
        Option::Some(c) => {
            if c != x {
                lemma_anc_within_chain(t, x, t.nodes[c].parent, (f - 1) as nat, (f2 - 1) as nat);
            }
        },
    }
}

/// On a well-formed arena, the chain from any record terminates within as
/// many steps as there are records.
pub proof fn lemma_wf_chain(t: TreeView, x: int)
    requires
        t.wf(),
        t.in_bounds(x),
    ensures
        t.chain_reaches(Some(x), t.nodes.len() as nat),
{
    let n = t.nodes.len() as nat;
    assert(t.chain_reaches(t.nodes[x].parent, n));
    lemma_no_revisit(t, x, (n + 1) as nat, n);
    let s = Set::empty().insert(x);
    vstd::set_lib::lemma_int_range(0, t.nodes.len() as int);
    assert(s.subset_of(vstd::set_lib::set_int_range(0, t.nodes.len() as int)));
    assert forall|y: int| #[trigger] anc_from(t, y, t.nodes[x].parent, n) implies !s.contains(
        y,
    ) by {}
    lemma_chain_compress(t, t.nodes[x].parent, n, s);
    assert(s.len() == 1);
}

/// The pre-order listing (node, then left subtree, then right subtree) of
/// the subtree hanging from link `o`. Recursion deeper than `fuel` levels,
/// or a link out of bounds, contributes nothing; on a well-formed arena
/// whose depth the fuel covers this is the full pre-order.
pub open spec fn preorder_from(t: TreeView, o: Option<int>, fuel: nat) -> Seq<int>
    decreases fuel,
{
    match o {
        Option::None => Seq::empty(),
        Option::Some(i) => if t.in_bounds(i) && fuel > 0 {
            seq![i] + preorder_from(t, t.nodes[i].left, (fuel - 1) as nat) + preorder_from(
                t,
                t.nodes[i].right,
                (fuel - 1) as nat,
            )
        } else {
            Seq::empty()
        },
    }
}

/// The pre-order listing of the whole arena, starting at its root.
pub open spec fn preorder_of(t: TreeView) -> Seq<int> {
    preorder_from(t, Some(t.root), t.nodes.len() as nat)
}

fn preorder_rec(tree: &FlatTree, o: Option<usize>, fuel: usize, out: &mut Vec<usize>)
    ensures
        final(out)@.map_values(|u: usize| u as int) == old(out)@.map_values(|u: usize| u as int)
            + preorder_from(tree@, link(o), fuel as nat),
    decreases fuel,
{
    match o {
        Option::None => {
            proof {
                assert(final(out)@.map_values(|u: usize| u as int) =~= old(out)@.map_values(
                    |u: usize| u as int,
                ) + preorder_from(tree@, link(o), fuel as nat));
            }
        },
        Option::Some(i) => {
            if i < tree.nodes.len() && fuel > 0 {
                out.push(i);
                let ghost mid1 = out@;
                preorder_rec(tree, tree.nodes[i].left_child, fuel - 1, out);
                let ghost mid2 = out@;
                preorder_rec(tree, tree.nodes[i].right_child, fuel - 1, out);
                proof {
                    let m = |u: usize| u as int;
                    assert(mid1.map_values(m) =~= old(out)@.map_values(m) + seq![i as int]);
                    assert(final(out)@.map_values(m) =~= old(out)@.map_values(m) + preorder_from(
                        tree@,
                        link(o),
                        fuel as nat,
                    ));
                }
            } else {
                proof {
                    assert(final(out)@.map_values(|u: usize| u as int) =~= old(out)@.map_values(
                        |u: usize| u as int,
                    ) + preorder_from(tree@, link(o), fuel as nat));
                }
            }
        },
    }
}

/// The pre-order traversal of the arena, as the sequence of node indices.
pub fn preorder(tree: &FlatTree) -> (r: Vec<usize>)
    ensures
        r@.map_values(|u: usize| u as int) == preorder_of(tree@),
{
    let mut out: Vec<usize> = Vec::new();
    let fuel = tree.nodes.len();
    proof {
        assert(out@.map_values(|u: usize| u as int) =~= Seq::<int>::empty());
    }
    preorder_rec(tree, Some(tree.root), fuel, &mut out);
    proof {
        assert(out@.map_values(|u: usize| u as int) =~= preorder_of(tree@));
    }
    out
}

/// The first record, in pre-order from link `o`, whose name is `name`;
/// `None` if the subtree holds no such record within `fuel` levels.
pub open spec fn find_from(t: TreeView, o: Option<int>, name: Seq<char>, fuel: nat) -> Option<int>
    decreases fuel,
{
    match o {
        Option::None => Option::None,
        Option::Some(i) => if t.in_bounds(i) && fuel > 0 {
            if t.nodes[i].name == name {
                Option::Some(i)
            } else {
                match find_from(t, t.nodes[i].left, name, (fuel - 1) as nat) {
                    Option::Some(j) => Option::Some(j),
                    Option::None => find_from(t, t.nodes[i].right, name, (fuel - 1) as nat),
                }
            }
        } else {
            Option::None
        },
    }
}

/// The first record in the arena's pre-order carrying `name`.
pub open spec fn find_named(t: TreeView, name: Seq<char>) -> Option<int> {
    find_from(t, Some(t.root), name, t.nodes.len() as nat)
}

fn find_rec(tree: &FlatTree, o: Option<usize>, name: &String, fuel: usize) -> (r: Option<usize>)
    ensures
        link(r) == find_from(tree@, link(o), name@, fuel as nat),
    decreases fuel,
{
    match o {
        Option::None => Option::None,
        Option::Some(i) => {
            if i < tree.nodes.len() && fuel > 0 {
                if tree.nodes[i].name == *name {
                    Option::Some(i)
                } else {
                    match find_rec(tree, tree.nodes[i].left_child, name, fuel - 1) {
                        Option::Some(j) => Option::Some(j),
                        Option::None => find_rec(tree, tree.nodes[i].right_child, name, fuel - 1),
                    }
                }
            } else {
                Option::None
            }
        },
    }
}

/// Locate a node by name: the first match in pre-order from the root, as
/// the lookup that chooses donor and recipient demands.
pub fn find_by_name(tree: &FlatTree, name: &String) -> (r: Option<usize>)
    ensures
        link(r) == find_named(tree@, name@),
{
    let fuel = tree.nodes.len();
    find_rec(tree, Some(tree.root), name, fuel)
}

/// Scan the arena in index order for the first parentless record.
pub fn find_first_parentless(tree: &FlatTree) -> (r: Option<usize>)
    ensures
        match r {
            Option::Some(j) => tree@.in_bounds(j as int) && tree@.nodes[j as int].parent is None
                && forall|k: int|
                0 <= k < j ==> tree@.nodes[k].parent is Some,
            Option::None => forall|k: int|
                tree@.in_bounds(k) ==> tree@.nodes[k].parent is Some,
        },
{
    let mut i: usize = 0;
    while i < tree.nodes.len()
        invariant
            i <= tree@.nodes.len(),
            forall|k: int| 0 <= k < i ==> tree@.nodes[k].parent is Some,
        decreases tree@.nodes.len() - i,
    {
        if tree.nodes[i].parent.is_none() {
            return Some(i);
        }
        i = i + 1;
    }
    None
}

/// Re-derive the designated root by scanning for the parentless record, as
/// the caller must after every mutation. Returns whether one was found; on
/// a well-formed arena one always is, and the designation is unchanged.
pub fn refresh_root(tree: &mut FlatTree) -> (found: bool)
    ensures
        final(tree)@.nodes == old(tree)@.nodes,
        !found ==> final(tree)@ == old(tree)@ && (forall|k: int|
            old(tree)@.in_bounds(k) ==> old(tree)@.nodes[k].parent is Some),
        found ==> final(tree)@.in_bounds(final(tree)@.root) && final(tree)@.root_ok(),
        old(tree)@.wf() ==> found && final(tree)@ == old(tree)@,
    {
    let r = find_first_parentless(tree);
    match r {
        Option::Some(j) => {
            proof {
                if old(tree)@.wf() {
                    assert(old(tree)@.nodes[j as int].parent is None);
                    assert(j as int == old(tree)@.root);
                }
            }
            tree.root = j;
            true
        },
        Option::None => {
            proof {
                if old(tree)@.wf() {
                    assert(old(tree)@.nodes[old(tree)@.root].parent is None);
                }
            }
            false
        },
    }
}

} // verus!
