//! What the tree view lists: each turn that hangs below a root, once.
use vstd::prelude::*;

use crate::rollout::RolloutItem;
use crate::thread_tree::{is_tree_of, turns_model, ThreadTree};
use crate::tree_laws::{
    ancestor, lemma_depth_walk_chain, lemma_indices_with_parent_members, lemma_parent_in_range,
};
use crate::tree_spec::{
    depth_walk, indices_with_parent, parent_index, tree_turns, TurnModel,
};
use crate::tree_view::{
    branch_mark, children_follow, children_rows, continuation_mark, insert_by_key, key_lt,
    lemma_child_depth, listable, listing, roots_rows, sorted_by_key, subtree_rows, FlatRow,
};

verus! {

/// How many rows list turn `x`.
pub open spec fn row_count(rows: Seq<FlatRow>, x: usize) -> nat
    decreases rows.len(),
{
    if rows.len() == 0 {
        0
    } else {
        row_count(rows.drop_last(), x) + if rows.last().index == x {
            1nat
        } else {
            0nat
        }
    }
}

/// How many times `v` occurs in `s`.
pub open spec fn seq_count(s: Seq<usize>, v: usize) -> nat
    decreases s.len(),
{
    if s.len() == 0 {
        0
    } else {
        seq_count(s.drop_last(), v) + if s.last() == v {
            1nat
        } else {
            0nat
        }
    }
}

/// The number of parent links from turn `x` up to a root.
pub open spec fn depth(tm: Seq<TurnModel>, x: int) -> nat {
    depth_walk(tm, x, tm.len())->0
}

/// Turn `x` hangs below turn `i` (or is `i`): both reach a root, and
/// walking up from `x` as many links as it lies deeper than `i` reaches `i`.
pub open spec fn below(tm: Seq<TurnModel>, x: int, i: int) -> bool {
    &&& 0 <= x < tm.len()
    &&& depth_walk(tm, x, tm.len()) is Some
    &&& depth_walk(tm, i, tm.len()) is Some
    &&& depth(tm, x) >= depth(tm, i)
    &&& ancestor(tm, x, (depth(tm, x) - depth(tm, i)) as nat) == Some(i)
}

proof fn lemma_row_count_concat(a: Seq<FlatRow>, b: Seq<FlatRow>, x: usize)
    ensures
        row_count(a + b, x) == row_count(a, x) + row_count(b, x),
    decreases b.len(),
{
    if b.len() == 0 {
        assert(a + b =~= a);
    } else {
        lemma_row_count_concat(a, b.drop_last(), x);
        assert((a + b).drop_last() =~= a + b.drop_last());
        assert((a + b).last() == b.last());
    }
}

proof fn lemma_row_count_one(r: FlatRow, x: usize)
    ensures
        row_count(seq![r], x) == if r.index == x {
            1nat
        } else {
            0nat
        },
{
    assert(seq![r].drop_last() =~= Seq::<FlatRow>::empty());
    assert(row_count(Seq::<FlatRow>::empty(), x) == 0);
}

proof fn lemma_seq_count_insert(tree: ThreadTree, t: Seq<usize>, y: usize, v: usize)
    ensures
        seq_count(insert_by_key(tree, t, y), v) == seq_count(t, v) + if y == v {
            1nat
        } else {
            0nat
        },
    decreases t.len(),
{
    if t.len() == 0 {
        assert(seq![y].drop_last() =~= Seq::<usize>::empty());
        assert(seq_count(Seq::<usize>::empty(), v) == 0);
    } else if !key_lt(tree, y, t.last()) {
        assert(t.push(y).drop_last() =~= t);
    } else {
        lemma_seq_count_insert(tree, t.drop_last(), y, v);
        let r = insert_by_key(tree, t.drop_last(), y);
        assert(r.push(t.last()).drop_last() =~= r);
    }
}

/// Sorting keeps how often each index occurs.
proof fn lemma_seq_count_sorted(tree: ThreadTree, s: Seq<usize>, v: usize)
    ensures
        seq_count(sorted_by_key(tree, s), v) == seq_count(s, v),
    decreases s.len(),
{
    if s.len() > 0 {
        lemma_seq_count_sorted(tree, s.drop_last(), v);
        lemma_seq_count_insert(tree, sorted_by_key(tree, s.drop_last()), s.last(), v);
    }
}

/// The turns below `k` with parent `p` name each such turn once.
pub proof fn lemma_seq_count_with_parent(tm: Seq<TurnModel>, p: Option<int>, k: int, v: usize)
    requires
        0 <= k <= tm.len(),
        tm.len() <= usize::MAX,
    ensures
        seq_count(indices_with_parent(tm, p, k), v) == if v < k && parent_index(tm, v as int) == p {
            1nat
        } else {
            0nat
        },
    decreases k,
{
    if k > 0 {
        lemma_seq_count_with_parent(tm, p, k - 1, v);
        let rest = indices_with_parent(tm, p, k - 1);
        if parent_index(tm, k - 1) == p {
            assert(rest.push((k - 1) as usize).drop_last() =~= rest);
        }
    }
}

/// Walking up from a turn that reaches a root stays on turns that reach a
/// root, one link less deep at each step.
proof fn lemma_chain_depth(tm: Seq<TurnModel>, x: int, k: nat)
    requires
        0 <= x < tm.len(),
        depth_walk(tm, x, tm.len()) is Some,
        k <= depth(tm, x),
    ensures
        ancestor(tm, x, k) is Some,
        0 <= ancestor(tm, x, k)->0 < tm.len(),
        depth_walk(tm, ancestor(tm, x, k)->0, tm.len()) == Some((depth(tm, x) - k) as nat),
    decreases k,
{
    let n = tm.len();
    if k > 0 {
        lemma_chain_depth(tm, x, (k - 1) as nat);
        let y = ancestor(tm, x, (k - 1) as nat)->0;
        let dy = (depth(tm, x) - (k - 1)) as nat;
        assert(dy > 0);
        lemma_parent_in_range(tm, y);
        let p = parent_index(tm, y)->0;
        assert(depth_walk(tm, p, (n - 1) as nat) == Some((dy - 1) as nat));
        lemma_depth_walk_chain(tm, p, (n - 1) as nat);
        assert(depth_walk(tm, p, n) == Some((dy - 1) as nat));
    }
}

/// A root reaches itself in no links.
proof fn lemma_root_depth(tm: Seq<TurnModel>, r: int)
    requires
        parent_index(tm, r) is None,
    ensures
        depth_walk(tm, r, tm.len()) == Some(0nat),
{
}

/// Below a child `c` of `i` lie the turns below `i`, other than `i`, whose
/// walk up passes through `c`.
proof fn lemma_below_child(tm: Seq<TurnModel>, x: int, i: int, c: int)
    requires
        0 <= c < tm.len(),
        parent_index(tm, c) == Some(i),
        depth_walk(tm, i, tm.len()) is Some,
    ensures
        depth_walk(tm, c, tm.len()) == Some(depth(tm, i) + 1),
        below(tm, x, c) <==> below(tm, x, i) && x != i && ancestor(
            tm,
            x,
            (depth(tm, x) - depth(tm, i) - 1) as nat,
        ) == Some(c),
{
    lemma_child_depth(tm, i, c);
    let di = depth(tm, i);
    if below(tm, x, c) {
        let dx = depth(tm, x);
        let k = (dx - di - 1) as nat;
        assert(ancestor(tm, x, k + 1) == parent_index(tm, c));
        assert((k + 1) as nat == (dx - di) as nat);
    }
    if below(tm, x, i) && x != i && ancestor(tm, x, (depth(tm, x) - di - 1) as nat) == Some(c) {
        let dx = depth(tm, x);
        if dx == di {
            assert(ancestor(tm, x, 0) == Some(x));
        }
    }
}

/// The turn just below `i` on the walk up from `x`.
pub open spec fn step_toward(tm: Seq<TurnModel>, x: int, i: int) -> int {
    ancestor(tm, x, (depth(tm, x) - depth(tm, i) - 1) as nat)->0
}

/// For `x` below `i` and other than it, the turn just below `i` on the walk
/// up from `x` is a child of `i`.
proof fn lemma_step_toward(tm: Seq<TurnModel>, x: int, i: int)
    requires
        below(tm, x, i),
        x != i,
    ensures
        0 <= step_toward(tm, x, i) < tm.len(),
        parent_index(tm, step_toward(tm, x, i)) == Some(i),
        ancestor(tm, x, (depth(tm, x) - depth(tm, i) - 1) as nat) == Some(step_toward(tm, x, i)),
{
    let dx = depth(tm, x);
    let di = depth(tm, i);
    if dx == di {
        assert(ancestor(tm, x, 0) == Some(x));
    }
    let k = (dx - di - 1) as nat;
    lemma_chain_depth(tm, x, k);
    assert(ancestor(tm, x, k + 1) == parent_index(tm, ancestor(tm, x, k)->0));
    assert((k + 1) as nat == (dx - di) as nat);
}

proof fn lemma_subtree_count(
    tree: ThreadTree,
    tm: Seq<TurnModel>,
    i: usize,
    row_prefix: Seq<char>,
    child_prefix: Seq<char>,
    fuel: nat,
    x: usize,
)
    requires
        children_follow(tree, tm),
        i < tm.len(),
        depth_walk(tm, i as int, tm.len()) is Some,
        subtree_rows(tree, i, row_prefix, child_prefix, fuel) is Some,
    ensures
        row_count(subtree_rows(tree, i, row_prefix, child_prefix, fuel)->0, x) == if below(
            tm,
            x as int,
            i as int,
        ) {
            1nat
        } else {
            0nat
        },
    decreases fuel, 0nat, 0nat,
{
    let n = tm.len() as int;
    let children = tree.turns@[i as int].children@;
    let kids = sorted_by_key(tree, children);
    let row = FlatRow { index: i, prefix: row_prefix };
    lemma_row_count_one(row, x);
    assert(ancestor(tm, i as int, 0) == Some(i as int));
    if below(tm, x as int, i as int) && x != i {
        lemma_step_toward(tm, x as int, i as int);
        let c = step_toward(tm, x as int, i as int);
        lemma_seq_count_with_parent(tm, Some(i as int), n, c as usize);
        lemma_seq_count_sorted(tree, children, c as usize);
        assert(seq_count(kids, c as usize) == 1);
    }
    if kids.len() > 0 {
        let rest = children_rows(tree, kids, kids.len(), child_prefix, (fuel - 1) as nat)->0;
        lemma_sorted_members_are_children(tree, tm, i);
        lemma_children_count(tree, tm, i, kids, kids.len(), child_prefix, (fuel - 1) as nat, x);
        lemma_row_count_concat(seq![row], rest, x);
    } else {
        if below(tm, x as int, i as int) && x != i {
            assert(seq_count(kids, step_toward(tm, x as int, i as int) as usize) == 0);
        }
    }
}

proof fn lemma_sorted_members_are_children(tree: ThreadTree, tm: Seq<TurnModel>, i: usize)
    requires
        children_follow(tree, tm),
        i < tm.len(),
    ensures
        forall|k: int|
            0 <= k < sorted_by_key(tree, tree.turns@[i as int].children@).len() ==> {
                let c = #[trigger] sorted_by_key(tree, tree.turns@[i as int].children@)[k];
                &&& c < tm.len()
                &&& parent_index(tm, c as int) == Some(i as int)
            },
{
    let children = tree.turns@[i as int].children@;
    let kids = sorted_by_key(tree, children);
    lemma_indices_with_parent_members(tm, Some(i as int), tm.len() as int);
    assert forall|k: int| 0 <= k < kids.len() implies {
        let c = #[trigger] kids[k];
        &&& c < tm.len()
        &&& parent_index(tm, c as int) == Some(i as int)
    } by {
        lemma_seq_count_sorted(tree, children, kids[k]);
        lemma_seq_count_positive(kids, k);
        lemma_seq_count_with_parent(tm, Some(i as int), tm.len() as int, kids[k]);
    }
}

proof fn lemma_seq_count_positive(s: Seq<usize>, k: int)
    requires
        0 <= k < s.len(),
    ensures
        seq_count(s, s[k]) >= 1,
    decreases s.len(),
{
    if k < s.len() - 1 {
        lemma_seq_count_positive(s.drop_last(), k);
    }
}

proof fn lemma_children_count(
    tree: ThreadTree,
    tm: Seq<TurnModel>,
    i: usize,
    kids: Seq<usize>,
    total: nat,
    child_prefix: Seq<char>,
    fuel: nat,
    x: usize,
)
    requires
        children_follow(tree, tm),
        i < tm.len(),
        depth_walk(tm, i as int, tm.len()) is Some,
        forall|k: int|
            0 <= k < kids.len() ==> #[trigger] kids[k] < tm.len() && parent_index(tm, kids[k] as int)
                == Some(i as int),
        children_rows(tree, kids, total, child_prefix, fuel) is Some,
    ensures
        row_count(children_rows(tree, kids, total, child_prefix, fuel)->0, x) == if below(
            tm,
            x as int,
            i as int,
        ) && x != i {
            seq_count(kids, step_toward(tm, x as int, i as int) as usize)
        } else {
            0nat
        },
    decreases fuel, 1nat, kids.len(),
{
    if kids.len() > 0 {
        let is_last = kids.len() == total;
        let k0 = kids.drop_last();
        let c = kids.last();
        assert(kids[kids.len() - 1] == c);
        lemma_children_count(tree, tm, i, k0, total, child_prefix, fuel, x);
        let a = children_rows(tree, k0, total, child_prefix, fuel)->0;
        let b = subtree_rows(
            tree,
            c,
            child_prefix + branch_mark(is_last),
            child_prefix + continuation_mark(is_last),
            fuel,
        )->0;
        lemma_below_child(tm, x as int, i as int, c as int);
        lemma_subtree_count(
            tree,
            tm,
            c,
            child_prefix + branch_mark(is_last),
            child_prefix + continuation_mark(is_last),
            fuel,
            x,
        );
        lemma_row_count_concat(a, b, x);
        if below(tm, x as int, i as int) && x != i {
            lemma_step_toward(tm, x as int, i as int);
        }
    }
}

proof fn lemma_roots_count(
    tree: ThreadTree,
    tm: Seq<TurnModel>,
    roots: Seq<usize>,
    fuel: nat,
    x: usize,
)
    requires
        children_follow(tree, tm),
        forall|k: int|
            0 <= k < roots.len() ==> #[trigger] roots[k] < tm.len() && parent_index(tm, roots[k] as int)
                is None,
        roots_rows(tree, roots, fuel) is Some,
    ensures
        row_count(roots_rows(tree, roots, fuel)->0, x) == if x < tm.len() && depth_walk(
            tm,
            x as int,
            tm.len(),
        ) is Some {
            seq_count(roots, ancestor(tm, x as int, depth(tm, x as int))->0 as usize)
        } else {
            0nat
        },
    decreases roots.len(),
{
    if roots.len() > 0 {
        let r = roots.last();
        assert(roots[roots.len() - 1] == r);
        lemma_roots_count(tree, tm, roots.drop_last(), fuel, x);
        lemma_root_depth(tm, r as int);
        lemma_subtree_count(tree, tm, r, Seq::empty(), Seq::empty(), fuel, x);
        lemma_row_count_concat(
            roots_rows(tree, roots.drop_last(), fuel)->0,
            subtree_rows(tree, r, Seq::empty(), Seq::empty(), fuel)->0,
            x,
        );
        if x < tm.len() && depth_walk(tm, x as int, tm.len()) is Some {
            lemma_chain_depth(tm, x as int, depth(tm, x as int));
        }
    }
}

/// The view of a tree read from a rollout lists each turn whose parent
/// links reach a root exactly once, and no other turn.
pub proof fn law_listing_holds_each_rooted_turn_once(
    tree: ThreadTree,
    items: Seq<RolloutItem>,
    x: usize,
)
    requires
        is_tree_of(tree, items),
        tree.turns@.len() <= usize::MAX,
    ensures
        listable(tree),
        row_count(listing(tree), x) == if x < tree.turns@.len() && depth_walk(
            tree_turns(items),
            x as int,
            tree.turns@.len(),
        ) is Some {
            1nat
        } else {
            0nat
        },
{
    crate::tree_view::law_built_tree_is_listable(tree, items);
    let tm = tree_turns(items);
    let n = tm.len() as int;
    assert(turns_model(tree.turns@).len() == tree.turns@.len());
    assert(children_follow(tree, tm));
    let roots = sorted_by_key(tree, tree.roots@);
    let fuel = choose|fuel: nat| #[trigger] roots_rows(tree, roots, fuel) is Some;
    lemma_indices_with_parent_members(tm, None, n);
    assert forall|k: int| 0 <= k < roots.len() implies #[trigger] roots[k] < tm.len() && parent_index(
        tm,
        roots[k] as int,
    ) is None by {
        lemma_seq_count_sorted(tree, tree.roots@, roots[k]);
        lemma_seq_count_positive(roots, k);
        lemma_seq_count_with_parent(tm, None, n, roots[k]);
    }
    lemma_roots_count(tree, tm, roots, fuel, x);
    if x < tm.len() && depth_walk(tm, x as int, tm.len()) is Some {
        lemma_chain_depth(tm, x as int, depth(tm, x as int));
        let top = ancestor(tm, x as int, depth(tm, x as int))->0;
        lemma_depth_walk_chain(tm, x as int, tm.len());
        lemma_seq_count_sorted(tree, tree.roots@, top as usize);
        lemma_seq_count_with_parent(tm, None, n, top as usize);
    }
}

} // verus!
