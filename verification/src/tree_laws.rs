//! What holds of every thread tree, and how the tree of a rollout relates to
//! the tree of the same rollout with one more item.
use vstd::prelude::*;

use crate::rollout::{
    starts_turn, EventMsg, RolloutItem, ThreadNavigatedEvent, ThreadRolledBackEvent, TurnStartedEvent,
    UserMessageEvent,
};
use crate::text::opt_str;
use crate::tree_lemmas::lemma_resolve_in_range;
use crate::tree_spec::{
    active_walk, children_of, depth_of, depth_walk, fallback_id, fold_prefix,
    indices_with_parent, on_active_path, parent_index, resolve, rollback_ends, rollback_result,
    rollback_walk, roots_of, step, tree_defined, tree_leaf, tree_turns, TurnModel,
};

verus! {

/// Reading a rollout only looks at the items read so far.
pub proof fn lemma_fold_prefix_push(items: Seq<RolloutItem>, x: RolloutItem, k: nat)
    requires
        k <= items.len(),
    ensures
        fold_prefix(items.push(x), k) == fold_prefix(items, k),
    decreases k,
{
    if k > 0 {
        lemma_fold_prefix_push(items, x, (k - 1) as nat);
        assert(items.push(x)[k - 1] == items[k - 1]);
    }
}

proof fn lemma_fold_push(items: Seq<RolloutItem>, x: RolloutItem)
    ensures
        fold_prefix(items.push(x), items.len() + 1) == match fold_prefix(items, items.len()) {
            Some(s) => step(s, items.len() as int, x),
            None => None,
        },
{
    lemma_fold_prefix_push(items, x, items.len());
    assert(items.push(x)[items.len() as int] == x);
}

/// Navigating moves the active leaf to the target turn (to the root for
/// `None`) and leaves the turns as they are.
pub proof fn law_navigation_sets_active_leaf(items: Seq<RolloutItem>, event: ThreadNavigatedEvent)
    requires
        fold_prefix(items, items.len()) is Some,
    ensures
        ({
            let after = items.push(RolloutItem::EventMsg(EventMsg::ThreadNavigated(event)));
            &&& tree_turns(after) == tree_turns(items)
            &&& tree_leaf(after) == opt_str(event.target_turn_id)
        }),
{
    lemma_fold_push(items, RolloutItem::EventMsg(EventMsg::ThreadNavigated(event)));
}

/// A rollback of `n` user turns moves the active leaf as the rollback walk
/// says and leaves the turns as they are.
pub proof fn law_rollback_moves_active_leaf(items: Seq<RolloutItem>, event: ThreadRolledBackEvent)
    requires
        fold_prefix(items, items.len()) is Some,
        rollback_ends(tree_turns(items), tree_leaf(items), event.num_turns as nat),
    ensures
        ({
            let after = items.push(RolloutItem::EventMsg(EventMsg::ThreadRolledBack(event)));
            &&& tree_turns(after) == tree_turns(items)
            &&& tree_leaf(after) == rollback_result(
                tree_turns(items),
                tree_leaf(items),
                event.num_turns as nat,
            )
        }),
{
    lemma_fold_push(items, RolloutItem::EventMsg(EventMsg::ThreadRolledBack(event)));
}

/// A walk that ended within some fuel gives the same outcome with more.
pub proof fn lemma_rollback_walk_more_fuel(
    turns: Seq<TurnModel>,
    leaf: Option<Seq<char>>,
    remaining: nat,
    fuel: nat,
    more: nat,
)
    requires
        rollback_walk(turns, leaf, remaining, fuel) is Some,
        fuel <= more,
    ensures
        rollback_walk(turns, leaf, remaining, more) == rollback_walk(turns, leaf, remaining, fuel),
    decreases fuel,
{
    if remaining > 0 {
        if let Some(i) = resolve(turns, leaf) {
            lemma_rollback_walk_more_fuel(
                turns,
                turns[i].parent_turn_id,
                if turns[i].user_message is Some {
                    (remaining - 1) as nat
                } else {
                    remaining
                },
                (fuel - 1) as nat,
                (more - 1) as nat,
            );
        }
    }
}

/// Rolling back no turn leaves the active leaf where it is.
pub proof fn law_rollback_of_nothing(turns: Seq<TurnModel>, leaf: Option<Seq<char>>)
    ensures
        rollback_ends(turns, leaf, 0),
        rollback_result(turns, leaf, 0) == leaf,
{
    assert(rollback_walk(turns, leaf, 0, 0) is Some);
}

/// Rolling back one turn from a leaf whose turn has a user message lands on
/// that turn's parent.
pub proof fn law_rollback_one_user_turn(turns: Seq<TurnModel>, leaf: Option<Seq<char>>)
    requires
        resolve(turns, leaf) is Some,
        turns[resolve(turns, leaf)->0].user_message is Some,
    ensures
        rollback_ends(turns, leaf, 1),
        rollback_result(turns, leaf, 1) == turns[resolve(turns, leaf)->0].parent_turn_id,
{
    let i = resolve(turns, leaf)->0;
    assert(rollback_walk(turns, turns[i].parent_turn_id, 0, 0) == Some(turns[i].parent_turn_id));
    assert(rollback_walk(turns, leaf, 1, 1) == Some(turns[i].parent_turn_id));
    let f = choose|fuel: nat| #[trigger] rollback_walk(turns, leaf, 1, fuel) is Some;
    if f >= 1 {
        lemma_rollback_walk_more_fuel(turns, leaf, 1, 1, f);
    } else {
        lemma_rollback_walk_more_fuel(turns, leaf, 1, f, 1);
    }
}

/// An explicit turn start closes the turn being read and opens a new turn
/// that branches off the active leaf; once closed, it is the last turn of the
/// tree and the active leaf.
pub proof fn law_turn_start_branches_off_active_leaf(
    items: Seq<RolloutItem>,
    event: TurnStartedEvent,
)
    requires
        fold_prefix(items, items.len()) is Some,
    ensures
        ({
            let after = items.push(RolloutItem::EventMsg(EventMsg::TurnStarted(event)));
            let n = items.len() as int;
            &&& tree_turns(after) == tree_turns(items).push(
                TurnModel {
                    turn_id: event.turn_id@,
                    parent_turn_id: tree_leaf(items),
                    user_message: None,
                    started_at: event.started_at,
                    completed_at: None,
                    rollout_start_index: n,
                    rollout_end_index: n + 1,
                },
            )
            &&& tree_leaf(after) == Some(event.turn_id@)
        }),
{
    lemma_fold_push(items, RolloutItem::EventMsg(EventMsg::TurnStarted(event)));
}

/// A user message read while no turn is open opens an implicit turn,
/// `rollout-<index>`, that branches off the active leaf and carries the message.
pub proof fn law_user_message_opens_implicit_turn(items: Seq<RolloutItem>, event: UserMessageEvent)
    requires
        fold_prefix(items, items.len()) is Some,
        fold_prefix(items, items.len())->0.pending is None,
    ensures
        ({
            let after = items.push(RolloutItem::EventMsg(EventMsg::UserMessage(event)));
            let n = items.len() as int;
            &&& tree_turns(after) == tree_turns(items).push(
                TurnModel {
                    turn_id: fallback_id(n),
                    parent_turn_id: tree_leaf(items),
                    user_message: Some(event.message@),
                    started_at: None,
                    completed_at: None,
                    rollout_start_index: n,
                    rollout_end_index: n + 1,
                },
            )
            &&& tree_leaf(after) == Some(fallback_id(n))
        }),
{
    lemma_fold_push(items, RolloutItem::EventMsg(EventMsg::UserMessage(event)));
}

/// A user message read into a turn that already has one never replaces it:
/// either the pending turn stays, with its message, or (for a turn no
/// explicit start opened) it is closed with its message and a new implicit
/// turn opens with the new message. In a turn opened by an explicit start the
/// pending turn always stays, so its message is the first one read into it.
pub proof fn law_first_user_message_is_kept(items: Seq<RolloutItem>, event: UserMessageEvent)
    requires
        fold_prefix(items, items.len()) is Some,
        fold_prefix(items, items.len())->0.pending matches Some(p) && p.turn.user_message is Some,
    ensures
        ({
            let s = fold_prefix(items, items.len())->0;
            let p = s.pending->0;
            let after = items.push(RolloutItem::EventMsg(EventMsg::UserMessage(event)));
            let t = fold_prefix(after, after.len())->0;
            &&& fold_prefix(after, after.len()) is Some
            &&& t.pending matches Some(q) && ((q.turn.turn_id == p.turn.turn_id
                && q.turn.user_message == p.turn.user_message && t.turns == s.turns) || (
            t.turns == s.turns.push(p.turn) && q.turn.turn_id == fallback_id(items.len() as int)
                && q.turn.user_message == Some(event.message@)))
            &&& p.started_explicitly ==> {
                &&& tree_turns(after).len() == tree_turns(items).len()
                &&& tree_turns(after).last().turn_id == p.turn.turn_id
                &&& tree_turns(after).last().user_message == p.turn.user_message
            }
        }),
{
    lemma_fold_push(items, RolloutItem::EventMsg(EventMsg::UserMessage(event)));
}

/// The turns below `k` with parent `p` are exactly those.
pub proof fn lemma_indices_with_parent_members(turns: Seq<TurnModel>, p: Option<int>, k: int)
    requires
        0 <= k <= turns.len(),
        turns.len() <= usize::MAX,
    ensures
        forall|w: int|
            0 <= w < indices_with_parent(turns, p, k).len() ==> {
                let x = #[trigger] indices_with_parent(turns, p, k)[w];
                &&& x < k
                &&& parent_index(turns, x as int) == p
            },
        forall|j: int|
            0 <= j < k && parent_index(turns, j) == p ==> #[trigger] indices_with_parent(
                turns,
                p,
                k,
            ).contains(j as usize),
    decreases k,
{
    if k > 0 {
        lemma_indices_with_parent_members(turns, p, k - 1);
        let rest = indices_with_parent(turns, p, k - 1);
        let all = indices_with_parent(turns, p, k);
        assert forall|j: int| 0 <= j < k && parent_index(turns, j) == p implies #[trigger] all.contains(
            j as usize,
        ) by {
            if j < k - 1 {
                assert(rest.contains(j as usize));
                let w = choose|w: int| 0 <= w < rest.len() && #[trigger] rest[w] == j as usize;
                assert(all[w] == j as usize);
            } else {
                assert(all[rest.len() as int] == j as usize);
            }
        }
    }
}

/// Every turn of the tree is a root, when its parent is not in the tree,
/// or a child of exactly the turn that its parent id names.
pub proof fn law_each_turn_has_one_place(turns: Seq<TurnModel>, j: int)
    requires
        0 <= j < turns.len(),
        turns.len() <= usize::MAX,
    ensures
        roots_of(turns).contains(j as usize) <==> parent_index(turns, j) is None,
        forall|i: int|
            0 <= i < turns.len() ==> (#[trigger] children_of(turns, i).contains(j as usize)
                <==> parent_index(turns, j) == Some(i)),
{
    let n = turns.len() as int;
    lemma_indices_with_parent_members(turns, None, n);
    if roots_of(turns).contains(j as usize) {
        let w = choose|w: int| 0 <= w < roots_of(turns).len() && #[trigger] roots_of(turns)[w] == j as usize;
        assert(indices_with_parent(turns, None, n)[w] == j as usize);
    }
    assert forall|i: int| 0 <= i < turns.len() implies (#[trigger] children_of(
        turns,
        i,
    ).contains(j as usize) <==> parent_index(turns, j) == Some(i)) by {
        lemma_indices_with_parent_members(turns, Some(i), n);
        if children_of(turns, i).contains(j as usize) {
            let w = choose|w: int| 0 <= w < children_of(turns, i).len() && #[trigger] children_of(turns, i)[w] == j as usize;
            assert(indices_with_parent(turns, Some(i), n)[w] == j as usize);
        }
    }
}

/// The turn of the active leaf is on the active path, and so is the parent
/// of every turn on it.
pub proof fn law_active_path_runs_to_the_root(
    turns: Seq<TurnModel>,
    leaf: Option<Seq<char>>,
    j: int,
)
    ensures
        resolve(turns, leaf) == Some(j) ==> on_active_path(turns, leaf, j),
        on_active_path(turns, leaf, j) && parent_index(turns, j) is Some ==> on_active_path(
            turns,
            leaf,
            parent_index(turns, j)->0,
        ),
{
    if resolve(turns, leaf) == Some(j) {
        assert(active_walk(turns, leaf, 0) == Some(j));
    }
    if on_active_path(turns, leaf, j) && parent_index(turns, j) is Some {
        let k = choose|k: nat| #[trigger] active_walk(turns, leaf, k) == Some(j);
        assert(active_walk(turns, leaf, k + 1) == parent_index(turns, j));
    }
}

/// The turn reached from `x` after `k` parent links.
pub open spec fn ancestor(turns: Seq<TurnModel>, x: int, k: nat) -> Option<int>
    decreases k,
{
    if k == 0 {
        Some(x)
    } else {
        match ancestor(turns, x, (k - 1) as nat) {
            Some(y) => parent_index(turns, y),
            None => None,
        }
    }
}

pub proof fn lemma_parent_in_range(turns: Seq<TurnModel>, y: int)
    requires
        0 <= y < turns.len(),
    ensures
        parent_index(turns, y) matches Some(p) ==> 0 <= p < turns.len(),
{
    lemma_resolve_in_range(turns, turns[y].parent_turn_id);
}

/// A walk that reaches a root within `fuel` links takes `d` links, passes
/// only through turns, and ends at a turn with no parent.
pub proof fn lemma_depth_walk_chain(turns: Seq<TurnModel>, x: int, fuel: nat)
    requires
        0 <= x < turns.len(),
        depth_walk(turns, x, fuel) is Some,
    ensures
        ({
            let d = depth_walk(turns, x, fuel)->0;
            &&& d <= fuel
            &&& forall|k: nat| k <= d ==> (#[trigger] ancestor(turns, x, k) matches Some(y) && 0
                <= y < turns.len())
            &&& parent_index(turns, ancestor(turns, x, d)->0) is None
            &&& forall|m: nat| m >= d ==> #[trigger] depth_walk(turns, x, m) == Some(d)
        }),
    decreases fuel,
{
    let d = depth_walk(turns, x, fuel)->0;
    lemma_parent_in_range(turns, x);
    match parent_index(turns, x) {
        None => {
            assert(d == 0);
            assert forall|k: nat| k <= d implies (#[trigger] ancestor(turns, x, k) matches Some(y)
                && 0 <= y < turns.len()) by {
                assert(k == 0);
            }
            assert forall|m: nat| m >= d implies #[trigger] depth_walk(turns, x, m) == Some(d) by {}
        },
        Some(p) => {
            lemma_depth_walk_chain(turns, p, (fuel - 1) as nat);
            let dp = depth_walk(turns, p, (fuel - 1) as nat)->0;
            assert(d == dp + 1);
            assert forall|k: nat| k <= d implies (#[trigger] ancestor(turns, x, k) matches Some(y)
                && 0 <= y < turns.len()) by {
                if k >= 1 {
                    lemma_ancestor_shift(turns, x, p, k);
                }
            }
            lemma_ancestor_shift(turns, x, p, d);
            assert forall|m: nat| m >= d implies #[trigger] depth_walk(turns, x, m) == Some(d) by {
                assert(depth_walk(turns, p, (m - 1) as nat) == Some(dp));
            }
        },
    }
}

/// Walking `k` links from `x` is walking `k - 1` links from its parent.
proof fn lemma_ancestor_shift(turns: Seq<TurnModel>, x: int, p: int, k: nat)
    requires
        parent_index(turns, x) == Some(p),
        k >= 1,
    ensures
        ancestor(turns, x, k) == ancestor(turns, p, (k - 1) as nat),
    decreases k,
{
    assert(ancestor(turns, x, 0) == Some(x));
    assert(ancestor(turns, p, 0) == Some(p));
    if k > 1 {
        lemma_ancestor_shift(turns, x, p, (k - 1) as nat);
        assert(ancestor(turns, x, k) == match ancestor(turns, x, (k - 1) as nat) {
            Some(y) => parent_index(turns, y),
            None => None,
        });
        assert(ancestor(turns, p, (k - 1) as nat) == match ancestor(turns, p, (k - 2) as nat) {
            Some(y) => parent_index(turns, y),
            None => None,
        });
    }
}

/// Walking `a + m` links is walking `m` links from where `a` links lead.
proof fn lemma_ancestor_compose(turns: Seq<TurnModel>, x: int, a: nat, m: nat)
    requires
        ancestor(turns, x, a) is Some,
    ensures
        ancestor(turns, x, a + m) == ancestor(turns, ancestor(turns, x, a)->0, m),
    decreases m,
{
    if m > 0 {
        lemma_ancestor_compose(turns, x, a, (m - 1) as nat);
        assert((a + m - 1) as nat == a + (m - 1) as nat);
    }
}

/// An injective map from `0..m` into `0..n` needs `m <= n`.
pub proof fn lemma_pigeonhole(f: spec_fn(int) -> int, m: int, n: int)
    requires
        0 <= m,
        0 <= n,
        forall|a: int, b: int| 0 <= a < b < m ==> #[trigger] f(a) != #[trigger] f(b),
        forall|a: int| 0 <= a < m ==> 0 <= #[trigger] f(a) < n,
    ensures
        m <= n,
{
    let xs = vstd::set_lib::set_int_range(0, m);
    let ys = xs.map(f);
    vstd::set_lib::lemma_int_range(0, m);
    vstd::set_lib::lemma_int_range(0, n);
    assert(vstd::relations::injective_on(f, xs)) by {
        assert forall|a: int, b: int| xs.contains(a) && xs.contains(b) && #[trigger] f(a) == #[trigger] f(b) implies a == b by {
            if a < b {
            } else if b < a {
            }
        }
    }
    vstd::set_lib::lemma_map_size(xs, ys, f);
    assert(ys.subset_of(vstd::set_lib::set_int_range(0, n)));
    vstd::set_lib::lemma_len_subset(ys, vstd::set_lib::set_int_range(0, n));
}

/// A turn whose parent links reach a root reaches it in fewer links than
/// there are turns: the turns passed are all different.
pub proof fn lemma_depth_below_turn_count(turns: Seq<TurnModel>, x: int, fuel: nat)
    requires
        0 <= x < turns.len(),
        depth_walk(turns, x, fuel) is Some,
    ensures
        depth_walk(turns, x, fuel)->0 < turns.len(),
{
    lemma_depth_walk_chain(turns, x, fuel);
    let d = depth_walk(turns, x, fuel)->0;
    let f = |k: int| ancestor(turns, x, k as nat)->0;
    assert forall|a: int, b: int| 0 <= a < b < d + 1 implies #[trigger] f(a) != #[trigger] f(b) by {
        if f(a) == f(b) {
            assert(ancestor(turns, x, a as nat) is Some);
            assert(ancestor(turns, x, b as nat) is Some);
            let m = (d - b) as nat;
            lemma_ancestor_compose(turns, x, a as nat, m);
            lemma_ancestor_compose(turns, x, b as nat, m);
            assert(ancestor(turns, x, (a + m) as nat) == ancestor(turns, x, d));
            let c = (a + m) as nat;
            assert(c < d);
            assert(ancestor(turns, x, c + 1) is Some);
            assert(ancestor(turns, x, c + 1) == parent_index(turns, ancestor(turns, x, c)->0));
        }
    }
    assert forall|a: int| 0 <= a < d + 1 implies 0 <= #[trigger] f(a) < turns.len() by {
        assert(ancestor(turns, x, a as nat) is Some);
    }
    lemma_pigeonhole(f, (d + 1) as int, turns.len() as int);
}

/// A root has depth 0. A turn one link below a turn whose links reach a root
/// is one deeper than it; below a turn whose links never reach a root (they
/// run round a cycle), it has depth 0 too.
pub proof fn law_child_is_one_deeper(turns: Seq<TurnModel>, j: int)
    requires
        0 <= j < turns.len(),
    ensures
        parent_index(turns, j) is None ==> depth_of(turns, j) == 0,
        parent_index(turns, j) matches Some(p) ==> {
            &&& depth_walk(turns, p, turns.len()) is Some ==> depth_of(turns, j) == depth_of(turns, p)
                + 1
            &&& depth_walk(turns, p, turns.len()) is None ==> depth_of(turns, j) == 0
        },
{
    let n = turns.len();
    lemma_parent_in_range(turns, j);
    if let Some(p) = parent_index(turns, j) {
        if depth_walk(turns, p, n) is Some {
            lemma_depth_below_turn_count(turns, p, n);
            lemma_depth_walk_chain(turns, p, n);
            let dp = depth_walk(turns, p, n)->0;
            assert(depth_walk(turns, p, (n - 1) as nat) == Some(dp));
        } else {
            if depth_walk(turns, p, (n - 1) as nat) is Some {
                lemma_depth_walk_chain(turns, p, (n - 1) as nat);
                assert(depth_walk(turns, p, n) is Some);
            }
        }
    }
}

proof fn lemma_no_turn_start_fold(items: Seq<RolloutItem>, k: nat)
    requires
        k <= items.len(),
        forall|i: int| 0 <= i < items.len() ==> !starts_turn(#[trigger] items[i]),
    ensures
        fold_prefix(items, k) is Some,
        fold_prefix(items, k)->0.turns.len() == 0,
        fold_prefix(items, k)->0.pending is None,
    decreases k,
{
    if k > 0 {
        lemma_no_turn_start_fold(items, (k - 1) as nat);
        let s = fold_prefix(items, (k - 1) as nat)->0;
        let item = items[k - 1];
        assert(!starts_turn(item));
        if let RolloutItem::EventMsg(EventMsg::ThreadRolledBack(e)) = item {
            assert(rollback_walk(s.turns, s.leaf, e.num_turns as nat, 0) is Some);
        }
    }
}

/// A rollout in which no item can open a turn (no turn start, no user
/// message, no response item) has a tree with no turns.
pub proof fn law_no_turn_without_turn_start(items: Seq<RolloutItem>)
    requires
        forall|i: int| 0 <= i < items.len() ==> !starts_turn(#[trigger] items[i]),
    ensures
        tree_defined(items),
        tree_turns(items).len() == 0,
{
    lemma_no_turn_start_fold(items, items.len());
    assert(active_walk(tree_turns(items), tree_leaf(items), 0) is None);
}

} // verus!
