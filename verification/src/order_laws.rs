//! How the turns of a tree sit in the rollout and in the tree's lists: each
//! turn opens at an item that can open a turn, in the order of the rollout,
//! and the roots and children lists name each turn once, in order.
use vstd::prelude::*;

use crate::listing_laws::seq_count;
use crate::rollout::{starts_turn, EventMsg, RolloutItem};
use crate::thread_tree::{is_tree_of, turns_model, ThreadTree};
use crate::tree_laws::{lemma_indices_with_parent_members, lemma_parent_in_range};
use crate::tree_lemmas::lemma_fold_wf;
use crate::tree_spec::{
    finish, fold_prefix, indices_with_parent, parent_index, state_wf, step, tree_defined,
    tree_turns, BuildState, TurnModel,
};

verus! {

/// The turns of the state open at items that can open a turn, each later
/// than the one before, and the pending turn later than all of them.
pub open spec fn starts_ordered(s: BuildState, items: Seq<RolloutItem>) -> bool {
    &&& forall|i: int, j: int|
        0 <= i < j < s.turns.len() ==> (#[trigger] s.turns[i]).rollout_start_index < (
        #[trigger] s.turns[j]).rollout_start_index
    &&& forall|i: int|
        0 <= i < s.turns.len() ==> 0 <= (#[trigger] s.turns[i]).rollout_start_index < items.len()
            && starts_turn(items[s.turns[i].rollout_start_index])
    &&& s.pending matches Some(p) ==> {
        &&& 0 <= p.turn.rollout_start_index < items.len()
        &&& starts_turn(items[p.turn.rollout_start_index])
        &&& forall|i: int|
            0 <= i < s.turns.len() ==> (#[trigger] s.turns[i]).rollout_start_index
                < p.turn.rollout_start_index
    }
}

proof fn lemma_finish_ordered(s: BuildState, items: Seq<RolloutItem>)
    requires
        starts_ordered(s, items),
    ensures
        starts_ordered(finish(s), items),
{
    if let Some(p) = s.pending {
        let t = s.turns.push(p.turn);
        assert forall|i: int, j: int| 0 <= i < j < t.len() implies (#[trigger] t[i]).rollout_start_index
            < (#[trigger] t[j]).rollout_start_index by {
            assert(t[i] == s.turns[i]);
            if j < s.turns.len() {
                assert(t[j] == s.turns[j]);
            }
        }
        assert forall|i: int| 0 <= i < t.len() implies 0 <= (#[trigger] t[i]).rollout_start_index
            < items.len() && starts_turn(items[t[i].rollout_start_index]) by {
            if i < s.turns.len() {
                assert(t[i] == s.turns[i]);
            }
        }
    }
}

proof fn lemma_step_ordered(s: BuildState, index: int, items: Seq<RolloutItem>)
    requires
        starts_ordered(s, items),
        state_wf(s, index),
        0 <= index < items.len(),
        step(s, index, items[index]) is Some,
    ensures
        starts_ordered(step(s, index, items[index])->0, items),
{
    let item = items[index];
    lemma_finish_ordered(s, items);
    let s1 = finish(s);
    crate::tree_lemmas::lemma_finish_wf(s, index);
    assert forall|i: int| 0 <= i < s1.turns.len() implies (#[trigger] s1.turns[i]).rollout_start_index
        < index by {}
    assert forall|i: int| 0 <= i < s.turns.len() implies (#[trigger] s.turns[i]).rollout_start_index
        < index by {}
    match item {
        RolloutItem::EventMsg(EventMsg::TurnComplete(e)) => {
            let t = step(s, index, item)->0;
            match s.pending {
                Some(p) => {
                    let s2 = BuildState {
                        pending: Some(
                            crate::tree_spec::PendingModel {
                                turn: TurnModel {
                                    completed_at: if p.turn.turn_id == e.turn_id@ {
                                        e.completed_at
                                    } else {
                                        p.turn.completed_at
                                    },
                                    rollout_end_index: index + 1,
                                    ..p.turn
                                },
                                ..p
                            },
                        ),
                        ..s
                    };
                    assert(starts_ordered(s2, items));
                    lemma_finish_ordered(s2, items);
                },
                None => {},
            }
        },
        RolloutItem::EventMsg(EventMsg::TurnAborted(_)) => {
            lemma_finish_ordered(crate::tree_spec::pending_end(s, index + 1), items);
        },
        RolloutItem::SessionMeta => {
            lemma_extend_ordered(s, index + 1, items);
        },
        RolloutItem::EventMsg(EventMsg::TurnStarted(_)) => {},
        RolloutItem::EventMsg(EventMsg::UserMessage(_)) => {},
        RolloutItem::EventMsg(EventMsg::ThreadRolledBack(_)) => {},
        RolloutItem::EventMsg(EventMsg::ThreadNavigated(_)) => {},
        RolloutItem::ResponseItem(_) => {},
        _ => {
            if s.pending is None {
                lemma_extend_ordered(s, index + 1, items);
            }
        },
    }
}

proof fn lemma_extend_ordered(s: BuildState, end: int, items: Seq<RolloutItem>)
    requires
        starts_ordered(s, items),
    ensures
        starts_ordered(crate::tree_spec::extend_leaf(s, end), items),
{
    let t = crate::tree_spec::extend_leaf(s, end);
    crate::tree_lemmas::lemma_resolve_in_range(s.turns, s.leaf);
    assert(t.turns.len() == s.turns.len());
    assert forall|i: int| 0 <= i < t.turns.len() implies (#[trigger] t.turns[i]).rollout_start_index
        == s.turns[i].rollout_start_index by {}
}

proof fn lemma_fold_ordered(items: Seq<RolloutItem>, k: nat)
    requires
        k <= items.len(),
        fold_prefix(items, k) is Some,
    ensures
        starts_ordered(fold_prefix(items, k)->0, items),
    decreases k,
{
    if k > 0 {
        let prev = fold_prefix(items, (k - 1) as nat);
        assert(prev is Some);
        lemma_fold_ordered(items, (k - 1) as nat);
        lemma_fold_wf(items, (k - 1) as nat);
        lemma_step_ordered(prev->0, k - 1, items);
    }
}

/// In a tree read from a rollout, each turn opens at an item that can open a
/// turn (an explicit start, a user message or a response item) and covers a
/// nonempty range of items; the turns open in the order of the rollout.
pub proof fn law_turns_open_in_rollout_order(tree: ThreadTree, items: Seq<RolloutItem>)
    requires
        tree_defined(items),
        is_tree_of(tree, items),
    ensures
        forall|i: int|
            0 <= i < tree.turns@.len() ==> {
                let t = #[trigger] tree.turns@[i];
                &&& t.rollout_start_index < t.rollout_end_index <= items.len()
                &&& starts_turn(items[t.rollout_start_index as int])
            },
        forall|i: int, j: int|
            0 <= i < j < tree.turns@.len() ==> (#[trigger] tree.turns@[i]).rollout_start_index < (
            #[trigger] tree.turns@[j]).rollout_start_index,
{
    let n = items.len();
    let s = fold_prefix(items, n)->0;
    lemma_fold_ordered(items, n);
    lemma_fold_wf(items, n);
    lemma_finish_ordered(s, items);
    crate::tree_lemmas::lemma_finish_wf(s, n as int);
    let tm = tree_turns(items);
    assert(turns_model(tree.turns@) == tm);
    assert forall|i: int| 0 <= i < tree.turns@.len() implies {
        let t = #[trigger] tree.turns@[i];
        &&& t.rollout_start_index < t.rollout_end_index <= items.len()
        &&& starts_turn(items[t.rollout_start_index as int])
    } by {
        assert(turns_model(tree.turns@)[i] == crate::thread_tree::turn_model(tree.turns@[i]));
    }
    assert forall|i: int, j: int| 0 <= i < j < tree.turns@.len() implies (#[trigger] tree.turns@[i]).rollout_start_index
        < (#[trigger] tree.turns@[j]).rollout_start_index by {
        assert(turns_model(tree.turns@)[i] == crate::thread_tree::turn_model(tree.turns@[i]));
        assert(turns_model(tree.turns@)[j] == crate::thread_tree::turn_model(tree.turns@[j]));
        assert(tm[i].rollout_start_index < tm[j].rollout_start_index);
    }
}

/// The list of indices is strictly increasing.
pub open spec fn strictly_increasing(s: Seq<usize>) -> bool {
    forall|a: int, b: int| 0 <= a < b < s.len() ==> #[trigger] s[a] < #[trigger] s[b]
}

proof fn lemma_with_parent_increasing(tm: Seq<TurnModel>, p: Option<int>, k: int)
    requires
        0 <= k <= tm.len(),
        tm.len() <= usize::MAX,
    ensures
        strictly_increasing(indices_with_parent(tm, p, k)),
    decreases k,
{
    if k > 0 {
        lemma_with_parent_increasing(tm, p, k - 1);
        lemma_indices_with_parent_members(tm, p, k - 1);
        let rest = indices_with_parent(tm, p, k - 1);
        let all = indices_with_parent(tm, p, k);
        assert forall|a: int, b: int| 0 <= a < b < all.len() implies #[trigger] all[a] < #[trigger] all[b] by {
            assert(all[a] == rest[a]);
            if b < rest.len() {
                assert(all[b] == rest[b]);
            }
        }
    }
}

/// How often `x` occurs in the children lists of the first `k` turns.
pub open spec fn child_count(tree: ThreadTree, k: int, x: usize) -> nat
    decreases k,
{
    if k <= 0 {
        0
    } else {
        child_count(tree, k - 1, x) + seq_count(tree.turns@[k - 1].children@, x)
    }
}

proof fn lemma_child_count(tree: ThreadTree, tm: Seq<TurnModel>, k: int, x: usize)
    requires
        0 <= k <= tm.len(),
        tm.len() <= usize::MAX,
        tree.turns@.len() == tm.len(),
        forall|j: int|
            0 <= j < tm.len() ==> #[trigger] tree.turns@[j].children@ == indices_with_parent(
                tm,
                Some(j),
                tm.len() as int,
            ),
    ensures
        child_count(tree, k, x) == if x < tm.len() && (parent_index(tm, x as int) matches Some(q)
            && q < k) {
            1nat
        } else {
            0nat
        },
    decreases k,
{
    if x < tm.len() {
        lemma_parent_in_range(tm, x as int);
    }
    if k > 0 {
        lemma_child_count(tree, tm, k - 1, x);
        crate::listing_laws::lemma_seq_count_with_parent(tm, Some(k - 1), tm.len() as int, x);
    }
}

/// In a tree read from a rollout, the roots and each turn's children are
/// listed in increasing order, and every turn occurs exactly once among the
/// roots and all the children lists together.
pub proof fn law_each_turn_listed_once(tree: ThreadTree, items: Seq<RolloutItem>, x: usize)
    requires
        is_tree_of(tree, items),
        tree.turns@.len() <= usize::MAX,
    ensures
        strictly_increasing(tree.roots@),
        forall|p: int| 0 <= p < tree.turns@.len() ==> strictly_increasing(#[trigger] tree.turns@[p].children@),
        x < tree.turns@.len() ==> seq_count(tree.roots@, x) + child_count(
            tree,
            tree.turns@.len() as int,
            x,
        ) == 1,
{
    let tm = tree_turns(items);
    let n = tm.len() as int;
    assert(turns_model(tree.turns@).len() == tree.turns@.len());
    lemma_with_parent_increasing(tm, None, n);
    assert forall|p: int| 0 <= p < tree.turns@.len() implies strictly_increasing(
        #[trigger] tree.turns@[p].children@,
    ) by {
        lemma_with_parent_increasing(tm, Some(p), n);
    }
    assert forall|j: int| 0 <= j < tm.len() implies #[trigger] tree.turns@[j].children@
        == indices_with_parent(tm, Some(j), n) by {}
    lemma_child_count(tree, tm, n, x);
    crate::listing_laws::lemma_seq_count_with_parent(tm, None, n, x);
    if x < n {
        lemma_parent_in_range(tm, x as int);
    }
}

/// Some turn of the tree carries the id.
pub open spec fn id_in_tree(tree: ThreadTree, id: Seq<char>) -> bool {
    exists|m: int| 0 <= m < tree.turns@.len() && (#[trigger] tree.turns@[m]).turn_id@ == id
}

/// In a tree read from a rollout whose turn ids are all different, turn `i`
/// is a child of turn `p` exactly when its parent id is `p`'s id, and it is a
/// root exactly when it has no parent id or its parent id is the id of no
/// turn of the tree.
pub proof fn law_lists_follow_parent_ids(tree: ThreadTree, items: Seq<RolloutItem>, i: int, p: int)
    requires
        is_tree_of(tree, items),
        crate::acyclic_laws::ids_distinct(tree_turns(items)),
        tree.turns@.len() <= usize::MAX,
        0 <= i < tree.turns@.len(),
        0 <= p < tree.turns@.len(),
    ensures
        tree.turns@[p].children@.contains(i as usize) <==> crate::text::opt_str(
            tree.turns@[i].parent_turn_id,
        ) == Some(tree.turns@[p].turn_id@),
        tree.roots@.contains(i as usize) <==> match crate::text::opt_str(
            tree.turns@[i].parent_turn_id,
        ) {
            None => true,
            Some(x) => !id_in_tree(tree, x),
        },
{
    let tm = tree_turns(items);
    assert(turns_model(tree.turns@).len() == tree.turns@.len());
    assert(turns_model(tree.turns@)[i] == crate::thread_tree::turn_model(tree.turns@[i]));
    assert(turns_model(tree.turns@)[p] == crate::thread_tree::turn_model(tree.turns@[p]));
    crate::tree_laws::law_each_turn_has_one_place(tm, i);
    assert(tree.turns@[p].children@ == crate::tree_spec::children_of(tm, p));
    let parent = tm[i].parent_turn_id;
    if let Some(x) = parent {
        crate::tree_lemmas::lemma_last_index_in_range(tm, x);
        crate::acyclic_laws::lemma_distinct_index(tm, p);
        if id_in_tree(tree, x) {
            let m = choose|m: int| 0 <= m < tree.turns@.len() && (#[trigger] tree.turns@[m]).turn_id@
                == x;
            assert(turns_model(tree.turns@)[m] == crate::thread_tree::turn_model(tree.turns@[m]));
            crate::acyclic_laws::lemma_distinct_index(tm, m);
        }
        if let Some(q) = parent_index(tm, i) {
            assert(turns_model(tree.turns@)[q] == crate::thread_tree::turn_model(tree.turns@[q]));
        }
    }
}

} // verus!
