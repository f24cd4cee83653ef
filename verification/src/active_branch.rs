//! The rollout items of the active branch, and turn lookup.
use vstd::prelude::*;
use vstd::string::*;

use crate::rollout::{copy_item, is_branch_navigation_item, is_navigation, same_item, starts_turn, turn_starts, RolloutItem};
use crate::thread_tree::{build_thread_tree, is_tree_of, turns_model, ThreadTree};
use crate::tree_lemmas::{lemma_finish_wf, lemma_fold_wf};
use crate::tree_spec::{
    depth_of, fold_prefix, on_active_path, tree_defined, tree_leaf, tree_turns, TurnModel,
};

verus! {

/// The indices in `lo..hi` of the items that are not branch navigation markers.
pub open spec fn kept_indices(items: Seq<RolloutItem>, lo: int, hi: int) -> Seq<int>
    decreases hi - lo,
{
    if hi <= lo {
        Seq::empty()
    } else {
        let rest = kept_indices(items, lo, hi - 1);
        if is_navigation(items[hi - 1]) {
            rest
        } else {
            rest.push(hi - 1)
        }
    }
}

/// The index of the first item at or after `i` that can open a turn (the
/// length when there is none).
pub open spec fn first_turn_start_from(items: Seq<RolloutItem>, i: int) -> int
    decreases items.len() - i,
{
    if i >= items.len() {
        items.len() as int
    } else if starts_turn(items[i]) {
        i
    } else {
        first_turn_start_from(items, i + 1)
    }
}

/// Turn `j` carries the id of a turn on the active path.
pub open spec fn is_selected(turns: Seq<TurnModel>, leaf: Option<Seq<char>>, j: int) -> bool {
    exists|i: int|
        0 <= i < turns.len() && #[trigger] on_active_path(turns, leaf, i) && turns[i].turn_id
            == turns[j].turn_id
}

/// The selected turns below `k` at depth `d`, in order.
pub open spec fn selected_at_depth(
    turns: Seq<TurnModel>,
    leaf: Option<Seq<char>>,
    d: nat,
    k: int,
) -> Seq<int>
    decreases k,
{
    if k <= 0 {
        Seq::empty()
    } else {
        let rest = selected_at_depth(turns, leaf, d, k - 1);
        if is_selected(turns, leaf, k - 1) && depth_of(turns, k - 1) == d {
            rest.push(k - 1)
        } else {
            rest
        }
    }
}

/// The selected turns of depth below `d`, by depth and then in order (a
/// stable sort by depth).
pub open spec fn selected_by_depth(turns: Seq<TurnModel>, leaf: Option<Seq<char>>, d: nat) -> Seq<
    int,
>
    decreases d,
{
    if d == 0 {
        Seq::empty()
    } else {
        selected_by_depth(turns, leaf, (d - 1) as nat) + selected_at_depth(
            turns,
            leaf,
            (d - 1) as nat,
            turns.len() as int,
        )
    }
}

/// The kept items of each turn of `order`, turn after turn.
pub open spec fn turn_item_indices(items: Seq<RolloutItem>, turns: Seq<TurnModel>, order: Seq<int>) -> Seq<int>
    decreases order.len(),
{
    if order.len() == 0 {
        Seq::empty()
    } else {
        turn_item_indices(items, turns, order.drop_last()) + kept_indices(
            items,
            turns[order.last()].rollout_start_index,
            turns[order.last()].rollout_end_index,
        )
    }
}

/// The indices of the items of the active branch: with no turn, every item
/// but the navigation markers; otherwise the items before the first turn
/// opens, then the items of each turn on the active path from the root down
/// (turns that share an active turn's id included), navigation markers left out.
pub open spec fn active_item_indices(items: Seq<RolloutItem>) -> Seq<int> {
    let turns = tree_turns(items);
    let leaf = tree_leaf(items);
    if turns.len() == 0 {
        kept_indices(items, 0, items.len() as int)
    } else {
        kept_indices(items, 0, first_turn_start_from(items, 0)) + turn_item_indices(
            items,
            turns,
            selected_by_depth(turns, leaf, (turns.len() + 1) as nat),
        )
    }
}

/// Appends copies of the kept items of `lo..hi`.
fn push_kept_items(
    items: &[RolloutItem],
    lo: usize,
    hi: usize,
    out: &mut Vec<RolloutItem>,
    Ghost(idx): Ghost<Seq<int>>,
) -> (new_idx: Ghost<Seq<int>>)
    requires
        lo <= hi <= items@.len(),
        old(out)@.len() == idx.len(),
        forall|k: int| 0 <= k < idx.len() ==> same_item(#[trigger] old(out)@[k], items@[idx[k]]),
    ensures
        new_idx@ == idx + kept_indices(items@, lo as int, hi as int),
        final(out)@.len() == new_idx@.len(),
        forall|k: int|
            0 <= k < new_idx@.len() ==> same_item(#[trigger] final(out)@[k], items@[new_idx@[k]]),
{
    let ghost mut cur = idx;
    let mut i = lo;
    while i < hi
        invariant
            lo <= i <= hi <= items@.len(),
            cur == idx + kept_indices(items@, lo as int, i as int),
            out@.len() == cur.len(),
            forall|k: int| 0 <= k < cur.len() ==> same_item(#[trigger] out@[k], items@[cur[k]]),
        decreases hi - i,
    {
        if !is_branch_navigation_item(&items[i]) {
            out.push(copy_item(&items[i]));
            proof {
                cur = cur.push(i as int);
            }
        }
        assert(cur =~= idx + kept_indices(items@, lo as int, i + 1));
        i = i + 1;
    }
    Ghost(cur)
}

/// Flags the turns that carry the id of a turn on the active path.
fn selected_turns(tree: &ThreadTree, Ghost(items): Ghost<Seq<RolloutItem>>) -> (r: Vec<bool>)
    requires
        is_tree_of(*tree, items),
    ensures
        r@.len() == tree.turns@.len(),
        forall|j: int|
            0 <= j < r@.len() ==> #[trigger] r@[j] == is_selected(
                tree_turns(items),
                tree_leaf(items),
                j,
            ),
{
    let ghost tm = tree_turns(items);
    let ghost leaf = tree_leaf(items);
    let n = tree.turns.len();
    let mut r: Vec<bool> = Vec::new();
    let mut j: usize = 0;
    while j < n
        invariant
            n == tree.turns@.len(),
            is_tree_of(*tree, items),
            tm == tree_turns(items),
            leaf == tree_leaf(items),
            j <= n,
            r@.len() == j,
            forall|x: int| 0 <= x < j ==> #[trigger] r@[x] == is_selected(tm, leaf, x),
        decreases n - j,
    {
        let mut found = false;
        let mut i: usize = 0;
        while i < n
            invariant
                n == tree.turns@.len(),
                is_tree_of(*tree, items),
                tm == tree_turns(items),
                leaf == tree_leaf(items),
                j < n,
                i <= n,
                found == exists|y: int|
                    0 <= y < i && #[trigger] on_active_path(tm, leaf, y) && tm[y].turn_id
                        == tm[j as int].turn_id,
            decreases n - i,
        {
            assert(turns_model(tree.turns@)[i as int].turn_id == tree.turns@[i as int].turn_id@);
            assert(turns_model(tree.turns@)[j as int].turn_id == tree.turns@[j as int].turn_id@);
            if tree.turns[i].is_active_path && tree.turns[i].turn_id == tree.turns[j].turn_id {
                found = true;
            }
            i = i + 1;
        }
        r.push(found);
        j = j + 1;
    }
    r
}

/// The rollout items of the active branch: the items before the first turn
/// and the items of every turn on the active path, shallowest first, with
/// the rollback and navigation markers left out. With no turn at all, every
/// item but those markers.
pub fn active_branch_items(items: &[RolloutItem]) -> (r: Vec<RolloutItem>)
    requires
        tree_defined(items@),
    ensures
        r@.len() == active_item_indices(items@).len(),
        forall|k: int|
            0 <= k < r@.len() ==> same_item(
                #[trigger] r@[k],
                items@[active_item_indices(items@)[k]],
            ),
{
    let tree = build_thread_tree(items);
    let ghost tm = tree_turns(items@);
    let ghost leaf = tree_leaf(items@);
    let mut out: Vec<RolloutItem> = Vec::new();
    let n = tree.turns.len();
    if n == 0 {
        let Ghost(idx) = push_kept_items(items, 0, items.len(), &mut out, Ghost(Seq::empty()));
        assert(idx =~= active_item_indices(items@));
        return out;
    }
    let mut lead: usize = 0;
    while lead < items.len() && !turn_starts(&items[lead])
        invariant
            lead <= items@.len(),
            first_turn_start_from(items@, 0) == first_turn_start_from(items@, lead as int),
        decreases items@.len() - lead,
    {
        lead = lead + 1;
    }
    let Ghost(mut idx) = push_kept_items(items, 0, lead, &mut out, Ghost(Seq::empty()));
    let ghost prefix = idx;
    let selected = selected_turns(&tree, Ghost(items@));
    let mut d: usize = 0;
    loop
        invariant_except_break
            idx == prefix + turn_item_indices(items@, tm, selected_by_depth(tm, leaf, d as nat)),
            out@.len() == idx.len(),
            forall|k: int| 0 <= k < idx.len() ==> same_item(#[trigger] out@[k], items@[idx[k]]),
        invariant
            n == tree.turns@.len(),
            n == tm.len(),
            n > 0,
            d <= n,
            is_tree_of(tree, items@),
            tm == tree_turns(items@),
            leaf == tree_leaf(items@),
            forall|j: int|
                0 <= j < n ==> {
                    &&& (#[trigger] tree.turns@[j]).rollout_start_index
                        < tree.turns@[j].rollout_end_index
                    &&& tree.turns@[j].rollout_end_index <= items@.len()
                },
            selected@.len() == n,
            forall|j: int| 0 <= j < n ==> #[trigger] selected@[j] == is_selected(tm, leaf, j),
            prefix == kept_indices(items@, 0, first_turn_start_from(items@, 0)),
        ensures
            idx == prefix + turn_item_indices(
                items@,
                tm,
                selected_by_depth(tm, leaf, (n + 1) as nat),
            ),
            out@.len() == idx.len(),
            forall|k: int| 0 <= k < idx.len() ==> same_item(#[trigger] out@[k], items@[idx[k]]),
        decreases n - d,
    {
        let mut j: usize = 0;
        while j < n
            invariant
                n == tree.turns@.len(),
                n == tm.len(),
                j <= n,
                d <= n,
                is_tree_of(tree, items@),
                tm == tree_turns(items@),
                leaf == tree_leaf(items@),
                forall|x: int|
                    0 <= x < n ==> {
                        &&& (#[trigger] tree.turns@[x]).rollout_start_index
                            < tree.turns@[x].rollout_end_index
                        &&& tree.turns@[x].rollout_end_index <= items@.len()
                    },
                selected@.len() == n,
                forall|x: int| 0 <= x < n ==> #[trigger] selected@[x] == is_selected(tm, leaf, x),
                idx == prefix + turn_item_indices(
                    items@,
                    tm,
                    selected_by_depth(tm, leaf, d as nat) + selected_at_depth(
                        tm,
                        leaf,
                        d as nat,
                        j as int,
                    ),
                ),
                out@.len() == idx.len(),
                forall|k: int| 0 <= k < idx.len() ==> same_item(#[trigger] out@[k], items@[idx[k]]),
            decreases n - j,
        {
            let ghost order = selected_by_depth(tm, leaf, d as nat) + selected_at_depth(
                tm,
                leaf,
                d as nat,
                j as int,
            );
            assert(turns_model(tree.turns@)[j as int] == crate::thread_tree::turn_model(
                tree.turns@[j as int],
            ));
            if selected[j] && tree.turns[j].depth == d {
                let lo = tree.turns[j].rollout_start_index;
                let hi = tree.turns[j].rollout_end_index;
                let Ghost(next) = push_kept_items(items, lo, hi, &mut out, Ghost(idx));
                proof {
                    let order2 = order.push(j as int);
                    assert(order2.drop_last() =~= order);
                    assert(selected_by_depth(tm, leaf, d as nat) + selected_at_depth(
                        tm,
                        leaf,
                        d as nat,
                        j + 1,
                    ) =~= order2);
                    assert(next =~= prefix + turn_item_indices(items@, tm, order2));
                    idx = next;
                }
            } else {
                assert(selected_by_depth(tm, leaf, d as nat) + selected_at_depth(
                    tm,
                    leaf,
                    d as nat,
                    j + 1,
                ) =~= order);
            }
            j = j + 1;
        }
        assert(selected_by_depth(tm, leaf, (d + 1) as nat) =~= selected_by_depth(
            tm,
            leaf,
            d as nat,
        ) + selected_at_depth(tm, leaf, d as nat, n as int));
        if d == n {
            break;
        }
        d = d + 1;
    }
    assert(idx =~= active_item_indices(items@));
    out
}

/// Whether the tree of `items` has a turn with the given id.
pub fn thread_tree_contains_turn_id(items: &[RolloutItem], turn_id: &str) -> (r: bool)
    requires
        tree_defined(items@),
    ensures
        r == exists|j: int|
            0 <= j < tree_turns(items@).len() && #[trigger] tree_turns(items@)[j].turn_id
                == turn_id@,
{
    let tree = build_thread_tree(items);
    let wanted = String::from_str(turn_id);
    let n = tree.turns.len();
    let mut j: usize = 0;
    while j < n
        invariant
            n == tree.turns@.len(),
            j <= n,
            is_tree_of(tree, items@),
            wanted@ == turn_id@,
            forall|x: int| 0 <= x < j ==> #[trigger] tree_turns(items@)[x].turn_id != turn_id@,
        decreases n - j,
    {
        assert(turns_model(tree.turns@)[j as int].turn_id == tree.turns@[j as int].turn_id@);
        if tree.turns[j].turn_id == wanted {
            return true;
        }
        j = j + 1;
    }
    false
}

proof fn lemma_kept_indices(items: Seq<RolloutItem>, lo: int, hi: int)
    ensures
        forall|k: int|
            0 <= k < kept_indices(items, lo, hi).len() ==> {
                let x = #[trigger] kept_indices(items, lo, hi)[k];
                &&& lo <= x < hi
                &&& !is_navigation(items[x])
            },
    decreases hi - lo,
{
    if hi > lo {
        lemma_kept_indices(items, lo, hi - 1);
        let rest = kept_indices(items, lo, hi - 1);
        let all = kept_indices(items, lo, hi);
        assert forall|k: int| 0 <= k < all.len() implies {
            let x = #[trigger] all[k];
            &&& lo <= x < hi
            &&& !is_navigation(items[x])
        } by {
            if k < rest.len() {
                assert(all[k] == rest[k]);
            }
        }
    }
}

proof fn lemma_selected_at_depth_in_range(
    turns: Seq<TurnModel>,
    leaf: Option<Seq<char>>,
    d: nat,
    k: int,
)
    ensures
        forall|w: int|
            0 <= w < selected_at_depth(turns, leaf, d, k).len() ==> 0 <= #[trigger] selected_at_depth(
                turns,
                leaf,
                d,
                k,
            )[w] < k,
    decreases k,
{
    if k > 0 {
        lemma_selected_at_depth_in_range(turns, leaf, d, k - 1);
        let rest = selected_at_depth(turns, leaf, d, k - 1);
        let all = selected_at_depth(turns, leaf, d, k);
        assert forall|w: int| 0 <= w < all.len() implies 0 <= #[trigger] all[w] < k by {
            if w < rest.len() {
                assert(all[w] == rest[w]);
            }
        }
    }
}

proof fn lemma_selected_by_depth_in_range(turns: Seq<TurnModel>, leaf: Option<Seq<char>>, d: nat)
    ensures
        forall|w: int|
            0 <= w < selected_by_depth(turns, leaf, d).len() ==> 0 <= #[trigger] selected_by_depth(
                turns,
                leaf,
                d,
            )[w] < turns.len(),
    decreases d,
{
    if d > 0 {
        lemma_selected_by_depth_in_range(turns, leaf, (d - 1) as nat);
        lemma_selected_at_depth_in_range(turns, leaf, (d - 1) as nat, turns.len() as int);
        let a = selected_by_depth(turns, leaf, (d - 1) as nat);
        let b = selected_at_depth(turns, leaf, (d - 1) as nat, turns.len() as int);
        assert forall|w: int| 0 <= w < (a + b).len() implies 0 <= #[trigger] (a + b)[w] < turns.len() by {
            if w < a.len() {
                assert((a + b)[w] == a[w]);
            } else {
                assert((a + b)[w] == b[w - a.len()]);
            }
        }
    }
}

proof fn lemma_turn_item_indices(
    items: Seq<RolloutItem>,
    turns: Seq<TurnModel>,
    order: Seq<int>,
)
    requires
        forall|w: int| 0 <= w < order.len() ==> 0 <= #[trigger] order[w] < turns.len(),
        forall|i: int|
            0 <= i < turns.len() ==> 0 <= (#[trigger] turns[i]).rollout_start_index
                && turns[i].rollout_end_index <= items.len(),
    ensures
        forall|k: int|
            0 <= k < turn_item_indices(items, turns, order).len() ==> {
                let x = #[trigger] turn_item_indices(items, turns, order)[k];
                &&& 0 <= x < items.len()
                &&& !is_navigation(items[x])
            },
    decreases order.len(),
{
    if order.len() > 0 {
        lemma_turn_item_indices(items, turns, order.drop_last());
        let t = turns[order.last()];
        lemma_kept_indices(items, t.rollout_start_index, t.rollout_end_index);
        let a = turn_item_indices(items, turns, order.drop_last());
        let b = kept_indices(items, t.rollout_start_index, t.rollout_end_index);
        assert forall|k: int| 0 <= k < (a + b).len() implies {
            let x = #[trigger] (a + b)[k];
            &&& 0 <= x < items.len()
            &&& !is_navigation(items[x])
        } by {
            if k < a.len() {
                assert((a + b)[k] == a[k]);
            } else {
                assert((a + b)[k] == b[k - a.len()]);
            }
        }
    }
}

/// The active branch never holds a rollback or navigation marker, and only
/// items of the rollout.
pub proof fn law_active_branch_has_no_navigation_markers(items: Seq<RolloutItem>)
    requires
        tree_defined(items),
    ensures
        forall|k: int|
            0 <= k < active_item_indices(items).len() ==> {
                let x = #[trigger] active_item_indices(items)[k];
                &&& 0 <= x < items.len()
                &&& !is_navigation(items[x])
            },
{
    let turns = tree_turns(items);
    let leaf = tree_leaf(items);
    lemma_fold_wf(items, items.len());
    lemma_finish_wf(fold_prefix(items, items.len())->0, items.len() as int);
    if turns.len() == 0 {
        lemma_kept_indices(items, 0, items.len() as int);
    } else {
        let start = first_turn_start_from(items, 0);
        lemma_first_turn_start_bound(items, 0);
        lemma_kept_indices(items, 0, start);
        let order = selected_by_depth(turns, leaf, (turns.len() + 1) as nat);
        lemma_selected_by_depth_in_range(turns, leaf, (turns.len() + 1) as nat);
        assert forall|i: int| 0 <= i < turns.len() implies 0 <= (#[trigger] turns[i]).rollout_start_index
            && turns[i].rollout_end_index <= items.len() by {}
        lemma_turn_item_indices(items, turns, order);
        let a = kept_indices(items, 0, start);
        let b = turn_item_indices(items, turns, order);
        assert forall|k: int| 0 <= k < (a + b).len() implies {
            let x = #[trigger] (a + b)[k];
            &&& 0 <= x < items.len()
            &&& !is_navigation(items[x])
        } by {
            if k < a.len() {
                assert((a + b)[k] == a[k]);
            } else {
                assert((a + b)[k] == b[k - a.len()]);
            }
        }
    }
}

proof fn lemma_first_turn_start_bound(items: Seq<RolloutItem>, i: int)
    requires
        0 <= i,
    ensures
        first_turn_start_from(items, i) <= items.len(),
    decreases items.len() - i,
{
    if i < items.len() && !starts_turn(items[i]) {
        lemma_first_turn_start_bound(items, i + 1);
    }
}

proof fn lemma_kept_holds(items: Seq<RolloutItem>, lo: int, hi: int, j: int)
    requires
        lo <= j < hi,
        !is_navigation(items[j]),
    ensures
        exists|w: int|
            0 <= w < kept_indices(items, lo, hi).len() && kept_indices(items, lo, hi)[w] == j
                && forall|v: int| 0 <= v < w ==> #[trigger] kept_indices(items, lo, hi)[v] < j,
    decreases hi - lo,
{
    let all = kept_indices(items, lo, hi);
    let rest = kept_indices(items, lo, hi - 1);
    lemma_kept_indices(items, lo, hi - 1);
    if j == hi - 1 {
        let w = rest.len() as int;
        assert(all[w] == j);
        assert forall|v: int| 0 <= v < w implies #[trigger] all[v] < j by {
            assert(all[v] == rest[v]);
        }
    } else {
        lemma_kept_holds(items, lo, hi - 1, j);
        let w = choose|w: int|
            0 <= w < rest.len() && rest[w] == j && forall|v: int| 0 <= v < w ==> #[trigger] rest[v] < j;
        assert(all[w] == j);
        assert forall|v: int| 0 <= v < w implies #[trigger] all[v] < j by {
            assert(all[v] == rest[v]);
        }
    }
}

proof fn lemma_first_start_after(items: Seq<RolloutItem>, i: int, j: int)
    requires
        0 <= i <= j + 1,
        j < items.len(),
        forall|k: int| i <= k <= j ==> !starts_turn(#[trigger] items[k]),
    ensures
        first_turn_start_from(items, i) > j,
    decreases j + 1 - i,
{
    if i <= j {
        assert(!starts_turn(items[i]));
        lemma_first_start_after(items, i + 1, j);
    } else {
        lemma_first_start_at_least(items, i);
    }
}

proof fn lemma_first_start_at_least(items: Seq<RolloutItem>, i: int)
    requires
        0 <= i <= items.len(),
    ensures
        first_turn_start_from(items, i) >= i,
    decreases items.len() - i,
{
    if i < items.len() && !starts_turn(items[i]) {
        lemma_first_start_at_least(items, i + 1);
    }
}

/// The active branch begins with the items before anything can open a turn:
/// each such item that is no navigation marker is in it, after only items
/// that come before it in the rollout.
pub proof fn law_active_branch_keeps_items_before_first_turn(items: Seq<RolloutItem>, j: int)
    requires
        0 <= j < items.len(),
        forall|k: int| 0 <= k <= j ==> !starts_turn(#[trigger] items[k]),
        !is_navigation(items[j]),
    ensures
        exists|w: int|
            0 <= w < active_item_indices(items).len() && active_item_indices(items)[w] == j
                && forall|v: int| 0 <= v < w ==> #[trigger] active_item_indices(items)[v] < j,
{
    let turns = tree_turns(items);
    if turns.len() == 0 {
        lemma_kept_holds(items, 0, items.len() as int, j);
        let a = kept_indices(items, 0, items.len() as int);
        assert(active_item_indices(items) == a);
        let w = choose|w: int|
            0 <= w < a.len() && a[w] == j && forall|v: int| 0 <= v < w ==> #[trigger] a[v] < j;
        assert(active_item_indices(items)[w] == j);
    } else {
        let start = first_turn_start_from(items, 0);
        lemma_first_start_after(items, 0, j);
        lemma_kept_holds(items, 0, start, j);
        let a = kept_indices(items, 0, start);
        let b = turn_item_indices(
            items,
            turns,
            selected_by_depth(turns, tree_leaf(items), (turns.len() + 1) as nat),
        );
        let w = choose|w: int|
            0 <= w < a.len() && a[w] == j && forall|v: int| 0 <= v < w ==> #[trigger] a[v] < j;
        assert(active_item_indices(items) == a + b);
        assert((a + b)[w] == j);
        assert forall|v: int| 0 <= v < w implies #[trigger] (a + b)[v] < j by {
            assert((a + b)[v] == a[v]);
        }
        assert(active_item_indices(items)[w] == j);
    }
}

} // verus!
