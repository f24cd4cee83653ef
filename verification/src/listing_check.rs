//! Deciding whether a tree can be listed: going down from its roots, every
//! branch ends.
use vstd::prelude::*;

use crate::thread_tree::ThreadTree;
use crate::tree_laws::lemma_pigeonhole;
use crate::tree_view::{
    branch_mark, children_rows, children_valid, continuation_mark,
    listable, ordered_children, ordered_roots, roots_rows, roots_valid,
    sorted_by_key, subtree_rows,
};

verus! {

/// The children of turn `i` in listing order.
pub open spec fn kids(tree: ThreadTree, i: usize) -> Seq<usize> {
    sorted_by_key(tree, tree.turns@[i as int].children@)
}

/// The subtree of turn `i` can be listed within `fuel` levels.
pub open spec fn sub_ok(tree: ThreadTree, i: usize, fuel: nat) -> bool {
    subtree_rows(tree, i, Seq::empty(), Seq::empty(), fuel) is Some
}

proof fn lemma_subtree_prefix(
    tree: ThreadTree,
    i: usize,
    rp: Seq<char>,
    cp: Seq<char>,
    fuel: nat,
)
    ensures
        (subtree_rows(tree, i, rp, cp, fuel) is Some) == sub_ok(tree, i, fuel),
        sub_ok(tree, i, fuel) == (children_valid(tree, i) && (kids(tree, i).len() == 0 || (fuel > 0
            && forall|k: int|
            0 <= k < kids(tree, i).len() ==> sub_ok(
                tree,
                #[trigger] kids(tree, i)[k],
                (fuel - 1) as nat,
            )))),
    decreases fuel, 0nat, 0nat,
{
    let ks = kids(tree, i);
    if children_valid(tree, i) && ks.len() > 0 && fuel > 0 {
        lemma_children_all(tree, ks, ks.len(), cp, (fuel - 1) as nat);
        lemma_children_all(tree, ks, ks.len(), Seq::empty(), (fuel - 1) as nat);
    }
}

proof fn lemma_children_all(
    tree: ThreadTree,
    ks: Seq<usize>,
    total: nat,
    cp: Seq<char>,
    fuel: nat,
)
    ensures
        (children_rows(tree, ks, total, cp, fuel) is Some) == (forall|k: int|
            0 <= k < ks.len() ==> sub_ok(tree, #[trigger] ks[k], fuel)),
    decreases fuel, 1nat, ks.len(),
{
    if ks.len() > 0 {
        let is_last = ks.len() == total;
        lemma_children_all(tree, ks.drop_last(), total, cp, fuel);
        lemma_subtree_prefix(
            tree,
            ks.last(),
            cp + branch_mark(is_last),
            cp + continuation_mark(is_last),
            fuel,
        );
        assert(ks[ks.len() - 1] == ks.last());
        if forall|k: int| 0 <= k < ks.len() ==> sub_ok(tree, #[trigger] ks[k], fuel) {
            assert forall|k: int| 0 <= k < ks.drop_last().len() implies sub_ok(
                tree,
                #[trigger] ks.drop_last()[k],
                fuel,
            ) by {
                assert(ks.drop_last()[k] == ks[k]);
            }
        }
        if forall|k: int|
            0 <= k < ks.drop_last().len() ==> sub_ok(tree, #[trigger] ks.drop_last()[k], fuel) {
            if sub_ok(tree, ks.last(), fuel) {
                assert forall|k: int| 0 <= k < ks.len() implies sub_ok(tree, #[trigger] ks[k], fuel) by {
                    if k < ks.len() - 1 {
                        assert(ks.drop_last()[k] == ks[k]);
                    }
                }
            }
        }
    }
}

proof fn lemma_roots_all(tree: ThreadTree, roots: Seq<usize>, fuel: nat)
    ensures
        (roots_rows(tree, roots, fuel) is Some) == (forall|k: int|
            0 <= k < roots.len() ==> sub_ok(tree, #[trigger] roots[k], fuel)),
    decreases roots.len(),
{
    if roots.len() > 0 {
        lemma_roots_all(tree, roots.drop_last(), fuel);
        assert(roots[roots.len() - 1] == roots.last());
        if forall|k: int| 0 <= k < roots.len() ==> sub_ok(tree, #[trigger] roots[k], fuel) {
            assert forall|k: int| 0 <= k < roots.drop_last().len() implies sub_ok(
                tree,
                #[trigger] roots.drop_last()[k],
                fuel,
            ) by {
                assert(roots.drop_last()[k] == roots[k]);
            }
        }
        if forall|k: int|
            0 <= k < roots.drop_last().len() ==> sub_ok(tree, #[trigger] roots.drop_last()[k], fuel) {
            if sub_ok(tree, roots.last(), fuel) {
                assert forall|k: int| 0 <= k < roots.len() implies sub_ok(tree, #[trigger] roots[k], fuel) by {
                    if k < roots.len() - 1 {
                        assert(roots.drop_last()[k] == roots[k]);
                    }
                }
            }
        }
    }
}

/// A walk down the children: each turn is a child of the one before.
pub open spec fn down_path(tree: ThreadTree, p: Seq<usize>) -> bool {
    forall|j: int| 0 <= j < p.len() - 1 ==> kids(tree, #[trigger] p[j]).contains(p[j + 1])
}

proof fn lemma_path(tree: ThreadTree, i: usize, f: nat) -> (p: Seq<usize>)
    requires
        !sub_ok(tree, i, f),
    ensures
        1 <= p.len() <= f + 1,
        p[0] == i,
        down_path(tree, p),
        !children_valid(tree, p.last()) || (p.len() == f + 1 && forall|j: int|
            0 <= j < p.len() ==> children_valid(tree, #[trigger] p[j])),
    decreases f,
{
    lemma_subtree_prefix(tree, i, Seq::empty(), Seq::empty(), f);
    if !children_valid(tree, i) || f == 0 {
        seq![i]
    } else {
        let k = choose|k: int|
            0 <= k < kids(tree, i).len() && !sub_ok(tree, #[trigger] kids(tree, i)[k], (f - 1) as nat);
        let c = kids(tree, i)[k];
        let rest = lemma_path(tree, c, (f - 1) as nat);
        let p = seq![i] + rest;
        assert forall|j: int| 0 <= j < p.len() - 1 implies kids(tree, #[trigger] p[j]).contains(
            p[j + 1],
        ) by {
            if j == 0 {
                assert(p[1] == rest[0]);
                assert(kids(tree, i)[k] == c);
            } else {
                assert(p[j] == rest[j - 1] && p[j + 1] == rest[j]);
            }
        }
        assert(p.last() == rest.last());
        if children_valid(tree, p.last()) {
            assert forall|j: int| 0 <= j < p.len() implies children_valid(tree, #[trigger] p[j]) by {
                if j > 0 {
                    assert(p[j] == rest[j - 1]);
                }
            }
        }
        p
    }
}

proof fn lemma_path_blocks_end(tree: ThreadTree, p: Seq<usize>, j: int, g: nat)
    requires
        down_path(tree, p),
        1 <= p.len(),
        !children_valid(tree, p.last()),
        0 <= j < p.len(),
    ensures
        !sub_ok(tree, p[j], g),
    decreases p.len() - 1 - j,
{
    if j == p.len() - 1 {
        lemma_subtree_prefix(tree, p[j], Seq::empty(), Seq::empty(), g);
    } else {
        assert(kids(tree, p[j]).contains(p[j + 1]));
        if g > 0 {
            lemma_path_blocks_end(tree, p, j + 1, (g - 1) as nat);
        }
        lemma_child_blocks(tree, p[j], p[j + 1], g);
    }
}

proof fn lemma_child_blocks(tree: ThreadTree, i: usize, c: usize, g: nat)
    requires
        kids(tree, i).contains(c),
        g == 0 || !sub_ok(tree, c, (g - 1) as nat),
    ensures
        !sub_ok(tree, i, g),
{
    lemma_subtree_prefix(tree, i, Seq::empty(), Seq::empty(), g);
    let k = choose|k: int| 0 <= k < kids(tree, i).len() && kids(tree, i)[k] == c;
    assert(kids(tree, i)[k] == c);
}

proof fn lemma_cycle_blocks(tree: ThreadTree, p: Seq<usize>, a: int, b: int, g: nat)
    requires
        down_path(tree, p),
        0 <= a < b < p.len(),
        p[a] == p[b],
    ensures
        forall|j: int| a <= j < b ==> !sub_ok(tree, #[trigger] p[j], g),
    decreases g,
{
    if g > 0 {
        lemma_cycle_blocks(tree, p, a, b, (g - 1) as nat);
    }
    assert forall|j: int| a <= j < b implies !sub_ok(tree, #[trigger] p[j], g) by {
        assert(kids(tree, p[j]).contains(p[j + 1]));
        if g > 0 {
            if j + 1 == b {
                assert(!sub_ok(tree, p[a], (g - 1) as nat));
            } else {
                assert(!sub_ok(tree, p[j + 1], (g - 1) as nat));
            }
        }
        lemma_child_blocks(tree, p[j], p[j + 1], g);
    }
}

proof fn lemma_path_blocks(tree: ThreadTree, p: Seq<usize>, a: int, b: int, j: int, g: nat)
    requires
        down_path(tree, p),
        0 <= a < b < p.len(),
        p[a] == p[b],
        0 <= j <= a,
    ensures
        !sub_ok(tree, p[j], g),
    decreases a - j,
{
    if j == a {
        lemma_cycle_blocks(tree, p, a, b, g);
    } else {
        assert(kids(tree, p[j]).contains(p[j + 1]));
        if g > 0 {
            lemma_path_blocks(tree, p, a, b, j + 1, (g - 1) as nat);
        }
        lemma_child_blocks(tree, p[j], p[j + 1], g);
    }
}

/// A subtree that cannot be listed within as many levels as there are turns
/// names an index that is no turn, or runs round a cycle: it cannot be listed
/// at all.
proof fn lemma_deep_never_fits(tree: ThreadTree, i: usize, g: nat)
    requires
        !sub_ok(tree, i, tree.turns@.len() as nat),
    ensures
        !sub_ok(tree, i, g),
{
    let n = tree.turns@.len() as int;
    let p = lemma_path(tree, i, n as nat);
    if !children_valid(tree, p.last()) {
        lemma_path_blocks_end(tree, p, 0, g);
    } else {
        let f = |x: int| p[x] as int;
        assert forall|x: int| 0 <= x < n + 1 implies 0 <= #[trigger] f(x) < n by {
            assert(children_valid(tree, p[x]));
        }
        if forall|a: int, b: int| 0 <= a < b < n + 1 ==> #[trigger] f(a) != #[trigger] f(b) {
            lemma_pigeonhole(f, n + 1, n);
        }
        let (a, b) = choose|a: int, b: int| 0 <= a < b < n + 1 && #[trigger] f(a) == #[trigger] f(b);
        assert(p[a] == p[b]);
        lemma_path_blocks(tree, p, a, b, 0, g);
    }
}

/// Whether turn `i` and its children are turns of the tree.
fn children_in_range(tree: &ThreadTree, i: usize) -> (b: bool)
    ensures
        b == children_valid(*tree, i),
{
    let n = tree.turns.len();
    if i >= n {
        return false;
    }
    let children = &tree.turns[i].children;
    let mut k: usize = 0;
    while k < children.len()
        invariant
            n == tree.turns@.len(),
            i < n,
            children@ == tree.turns@[i as int].children@,
            k <= children@.len(),
            forall|m: int| 0 <= m < k ==> #[trigger] children@[m] < n,
        decreases children@.len() - k,
    {
        if children[k] >= n {
            return false;
        }
        k = k + 1;
    }
    true
}

/// Whether the subtree of turn `i` can be listed within `fuel` levels.
fn subtree_fits(tree: &ThreadTree, i: usize, fuel: usize) -> (b: bool)
    ensures
        b == sub_ok(*tree, i, fuel as nat),
    decreases fuel,
{
    proof {
        lemma_subtree_prefix(*tree, i, Seq::empty(), Seq::empty(), fuel as nat);
    }
    if !children_in_range(tree, i) {
        return false;
    }
    let ks = ordered_children(tree, i);
    if ks.len() == 0 {
        return true;
    }
    if fuel == 0 {
        return false;
    }
    let mut k: usize = 0;
    while k < ks.len()
        invariant
            children_valid(*tree, i),
            ks@ == kids(*tree, i),
            fuel > 0,
            k <= ks@.len(),
            forall|m: int| 0 <= m < k ==> sub_ok(*tree, #[trigger] ks@[m], (fuel - 1) as nat),
        decreases ks@.len() - k,
    {
        if !subtree_fits(tree, ks[k], fuel - 1) {
            proof {
                lemma_subtree_prefix(*tree, i, Seq::empty(), Seq::empty(), fuel as nat);
                assert(kids(*tree, i)[k as int] == ks@[k as int]);
            }
            return false;
        }
        k = k + 1;
    }
    true
}

/// Whether the tree can be listed (see `listable`): its roots are turns, and
/// going down from them reaches only turns and every branch ends.
pub fn tree_is_listable(tree: &ThreadTree) -> (b: bool)
    ensures
        b == listable(*tree),
{
    let n = tree.turns.len();
    let mut r: usize = 0;
    while r < tree.roots.len()
        invariant
            n == tree.turns@.len(),
            r <= tree.roots@.len(),
            forall|k: int| 0 <= k < r ==> #[trigger] tree.roots@[k] < n,
        decreases tree.roots@.len() - r,
    {
        if tree.roots[r] >= n {
            return false;
        }
        r = r + 1;
    }
    assert(roots_valid(*tree));
    let roots = ordered_roots(tree);
    proof {
        lemma_roots_all(*tree, roots@, n as nat);
    }
    let mut k: usize = 0;
    while k < roots.len()
        invariant
            n == tree.turns@.len(),
            roots@ == sorted_by_key(*tree, tree.roots@),
            k <= roots@.len(),
            forall|m: int| 0 <= m < k ==> sub_ok(*tree, #[trigger] roots@[m], n as nat),
        decreases roots@.len() - k,
    {
        if !subtree_fits(tree, roots[k], n) {
            proof {
                assert forall|g: nat| !(#[trigger] roots_rows(*tree, roots@, g) is Some) by {
                    lemma_deep_never_fits(*tree, roots@[k as int], g);
                    lemma_roots_all(*tree, roots@, g);
                }
            }
            return false;
        }
        k = k + 1;
    }
    assert(roots_rows(*tree, roots@, n as nat) is Some);
    true
}

} // verus!
