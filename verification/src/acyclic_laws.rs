//! Rollouts whose turn ids are all different and whose navigations name
//! turns already read build trees without cycles: every parent walk ends at a
//! root, each child is one deeper than its parent, and the walk up from the
//! active leaf ends.
use vstd::prelude::*;

use crate::rollout::{EventMsg, RolloutItem};
use crate::thread_tree::{is_tree_of, turns_model, ThreadTree};
use crate::tree_laws::law_child_is_one_deeper;
use crate::tree_spec::{
    active_walk, depth_walk, extend_leaf, finish, fold_prefix, last_index_of,
    parent_index, pending_end, resolve, rollback_walk, step, tree_defined, tree_leaf,
    tree_turns, user_message_step, BuildState, TurnModel,
};

verus! {

/// `id` is none, or the id of one of the turns.
pub open spec fn names_turn(turns: Seq<TurnModel>, id: Option<Seq<char>>) -> bool {
    match id {
        None => true,
        Some(x) => exists|m: int| 0 <= m < turns.len() && (#[trigger] turns[m]).turn_id == x,
    }
}

/// Each turn's parent id is none or the id of an earlier turn.
pub open spec fn parents_earlier(turns: Seq<TurnModel>) -> bool {
    forall|j: int|
        0 <= j < turns.len() ==> names_turn(turns.take(j), (#[trigger] turns[j]).parent_turn_id)
}

/// The ids of the turns are all different.
pub open spec fn ids_distinct(turns: Seq<TurnModel>) -> bool {
    forall|a: int, b: int|
        0 <= a < b < turns.len() ==> (#[trigger] turns[a]).turn_id != (#[trigger] turns[b]).turn_id
}

/// Every navigation that names a turn names one already read: one of the
/// turns of the tree read up to it.
pub open spec fn navigation_names_read_turns(items: Seq<RolloutItem>) -> bool {
    forall|k: int|
        0 <= k < items.len() ==> match #[trigger] items[k] {
            RolloutItem::EventMsg(EventMsg::ThreadNavigated(e)) => fold_prefix(items, k as nat) matches Some(
                s,
            ) ==> names_turn(finish(s).turns, crate::text::opt_str(e.target_turn_id)),
            _ => true,
        }
}

/// Parent ids name earlier turns, and the leaf and the pending turn's parent
/// name turns.
pub open spec fn links_backward(s: BuildState) -> bool {
    &&& parents_earlier(s.turns)
    &&& names_turn(s.turns, s.leaf)
    &&& s.pending matches Some(p) ==> names_turn(s.turns, p.turn.parent_turn_id)
}

proof fn lemma_names_grow(turns: Seq<TurnModel>, t: TurnModel, id: Option<Seq<char>>)
    requires
        names_turn(turns, id),
    ensures
        names_turn(turns.push(t), id),
{
    if let Some(x) = id {
        let m = choose|m: int| 0 <= m < turns.len() && (#[trigger] turns[m]).turn_id == x;
        assert(turns.push(t)[m] == turns[m]);
    }
}

proof fn lemma_finish_backward(s: BuildState)
    requires
        links_backward(s),
    ensures
        links_backward(finish(s)),
{
    if let Some(p) = s.pending {
        let t = s.turns.push(p.turn);
        assert forall|j: int| 0 <= j < t.len() implies names_turn(
            t.take(j),
            (#[trigger] t[j]).parent_turn_id,
        ) by {
            if j < s.turns.len() {
                assert(t.take(j) =~= s.turns.take(j));
                assert(t[j] == s.turns[j]);
            } else {
                assert(t.take(j) =~= s.turns);
            }
        }
        assert(t[s.turns.len() as int].turn_id == p.turn.turn_id);
        lemma_names_grow(s.turns, p.turn, s.leaf);
    }
}

proof fn lemma_same_ids(s: BuildState, t: Seq<TurnModel>)
    requires
        links_backward(s),
        t.len() == s.turns.len(),
        forall|j: int|
            0 <= j < t.len() ==> (#[trigger] t[j]).turn_id == s.turns[j].turn_id
                && t[j].parent_turn_id == s.turns[j].parent_turn_id,
    ensures
        links_backward(BuildState { turns: t, ..s }),
{
    assert forall|id: Option<Seq<char>>| names_turn(s.turns, id) implies names_turn(t, id) by {
        if let Some(x) = id {
            let m = choose|m: int| 0 <= m < s.turns.len() && (#[trigger] s.turns[m]).turn_id == x;
            assert(t[m].turn_id == x);
        }
    }
    assert forall|j: int| 0 <= j < t.len() implies names_turn(
        t.take(j),
        (#[trigger] t[j]).parent_turn_id,
    ) by {
        let id = s.turns[j].parent_turn_id;
        assert(names_turn(s.turns.take(j), id));
        if let Some(x) = id {
            let m = choose|m: int| 0 <= m < s.turns.take(j).len() && (#[trigger] s.turns.take(j)[m]).turn_id
                == x;
            assert(t.take(j)[m].turn_id == s.turns[m].turn_id);
        }
    }
}

proof fn lemma_rollback_names(turns: Seq<TurnModel>, leaf: Option<Seq<char>>, r: nat, fuel: nat)
    requires
        parents_earlier(turns),
        names_turn(turns, leaf),
        rollback_walk(turns, leaf, r, fuel) is Some,
    ensures
        names_turn(turns, rollback_walk(turns, leaf, r, fuel)->0),
    decreases fuel,
{
    if r > 0 {
        if let Some(i) = resolve(turns, leaf) {
            crate::tree_lemmas::lemma_resolve_in_range(turns, leaf);
            let id = turns[i].parent_turn_id;
            assert(names_turn(turns.take(i), id));
            if let Some(x) = id {
                let m = choose|m: int| 0 <= m < turns.take(i).len() && (#[trigger] turns.take(i)[m]).turn_id
                    == x;
                assert(turns[m].turn_id == x);
            }
            let r2 = if turns[i].user_message is Some {
                (r - 1) as nat
            } else {
                r
            };
            lemma_rollback_names(turns, id, r2, (fuel - 1) as nat);
        }
    }
}

proof fn lemma_step_backward(s: BuildState, index: int, item: RolloutItem)
    requires
        links_backward(s),
        step(s, index, item) is Some,
        match item {
            RolloutItem::EventMsg(EventMsg::ThreadNavigated(e)) => names_turn(
                finish(s).turns,
                crate::text::opt_str(e.target_turn_id),
            ),
            _ => true,
        },
    ensures
        links_backward(step(s, index, item)->0),
{
    lemma_finish_backward(s);
    let s1 = finish(s);
    match item {
        RolloutItem::EventMsg(EventMsg::TurnComplete(e)) => {
            match s.pending {
                Some(p) => {
                    let s2 = BuildState {
                        pending: Some(
                            crate::tree_spec::PendingModel {
                                turn: TurnModel {
                                    completed_at: if p.turn.turn_id == e.turn_id@ {
                                        e.completed_at
                                    } else {
                                        p.turn.completed_at
                                    },
                                    rollout_end_index: index + 1,
                                    ..p.turn
                                },
                                ..p
                            },
                        ),
                        ..s
                    };
                    assert(links_backward(s2));
                    lemma_finish_backward(s2);
                },
                None => {},
            }
        },
        RolloutItem::EventMsg(EventMsg::TurnAborted(_)) => {
            lemma_finish_backward(pending_end(s, index + 1));
        },
        RolloutItem::EventMsg(EventMsg::ThreadRolledBack(e)) => {
            let r = e.num_turns as nat;
            let f = choose|f: nat| #[trigger] rollback_walk(s1.turns, s1.leaf, r, f) is Some;
            lemma_rollback_names(s1.turns, s1.leaf, r, f);
        },
        RolloutItem::EventMsg(EventMsg::UserMessage(e)) => {
            lemma_user_message_backward(s, index, e.message@, false);
        },
        RolloutItem::ResponseItem(ri) => {
            match crate::tree_spec::response_user_message(ri) {
                Some(m) => lemma_user_message_backward(s, index, m, true),
                None => {},
            }
        },
        RolloutItem::SessionMeta => {
            lemma_extend_backward(s, index + 1);
        },
        RolloutItem::EventMsg(EventMsg::TurnStarted(_)) => {},
        RolloutItem::EventMsg(EventMsg::ThreadNavigated(_)) => {},
        _ => {
            if s.pending is None {
                lemma_extend_backward(s, index + 1);
            }
        },
    }
}

proof fn lemma_extend_backward(s: BuildState, end: int)
    requires
        links_backward(s),
    ensures
        links_backward(extend_leaf(s, end)),
{
    crate::tree_lemmas::lemma_resolve_in_range(s.turns, s.leaf);
    let t = extend_leaf(s, end).turns;
    lemma_same_ids(s, t);
    assert(extend_leaf(s, end) == BuildState { turns: t, ..s });
}

proof fn lemma_user_message_backward(s: BuildState, index: int, m: Seq<char>, from_response: bool)
    requires
        links_backward(s),
    ensures
        links_backward(user_message_step(s, index, m, from_response)),
{
    lemma_finish_backward(s);
}

proof fn lemma_fold_backward(items: Seq<RolloutItem>, k: nat)
    requires
        k <= items.len(),
        fold_prefix(items, k) is Some,
        navigation_names_read_turns(items),
    ensures
        links_backward(fold_prefix(items, k)->0),
    decreases k,
{
    if k > 0 {
        let prev = fold_prefix(items, (k - 1) as nat);
        assert(prev is Some);
        lemma_fold_backward(items, (k - 1) as nat);
        let i = k - 1;
        assert(match items[i] {
            RolloutItem::EventMsg(EventMsg::ThreadNavigated(e)) => fold_prefix(items, i as nat) matches Some(
                s,
            ) ==> names_turn(finish(s).turns, crate::text::opt_str(e.target_turn_id)),
            _ => true,
        });
        lemma_step_backward(prev->0, i, items[i]);
    } else {
        assert(names_turn(Seq::<TurnModel>::empty(), None));
    }
}

pub proof fn lemma_distinct_index(turns: Seq<TurnModel>, m: int)
    requires
        ids_distinct(turns),
        0 <= m < turns.len(),
    ensures
        last_index_of(turns, turns[m].turn_id) == Some(m),
    decreases turns.len(),
{
    if m < turns.len() - 1 {
        let t0 = turns.drop_last();
        assert(turns.last() == turns[turns.len() - 1]);
        assert(ids_distinct(t0)) by {
            assert forall|a: int, b: int| 0 <= a < b < t0.len() implies (#[trigger] t0[a]).turn_id
                != (#[trigger] t0[b]).turn_id by {
                assert(t0[a] == turns[a] && t0[b] == turns[b]);
            }
        }
        assert(t0[m] == turns[m]);
        lemma_distinct_index(t0, m);
    }
}

proof fn lemma_parent_before(turns: Seq<TurnModel>, j: int)
    requires
        ids_distinct(turns),
        parents_earlier(turns),
        0 <= j < turns.len(),
    ensures
        parent_index(turns, j) matches Some(p) ==> 0 <= p < j,
{
    let id = turns[j].parent_turn_id;
    assert(names_turn(turns.take(j), id));
    if let Some(x) = id {
        let m = choose|m: int| 0 <= m < turns.take(j).len() && (#[trigger] turns.take(j)[m]).turn_id
            == x;
        assert(turns[m].turn_id == x);
        lemma_distinct_index(turns, m);
    }
}

proof fn lemma_depth_walk_ends(turns: Seq<TurnModel>, j: int, fuel: nat)
    requires
        ids_distinct(turns),
        parents_earlier(turns),
        0 <= j < turns.len(),
        j <= fuel,
    ensures
        depth_walk(turns, j, fuel) is Some,
    decreases j,
{
    lemma_parent_before(turns, j);
    if let Some(p) = parent_index(turns, j) {
        lemma_depth_walk_ends(turns, p, (fuel - 1) as nat);
    }
}

proof fn lemma_active_walk_below(turns: Seq<TurnModel>, leaf: Option<Seq<char>>, k: nat)
    requires
        ids_distinct(turns),
        parents_earlier(turns),
    ensures
        active_walk(turns, leaf, k) matches Some(i) ==> 0 <= i && i + k < turns.len(),
    decreases k,
{
    if k == 0 {
        crate::tree_lemmas::lemma_resolve_in_range(turns, leaf);
    } else {
        lemma_active_walk_below(turns, leaf, (k - 1) as nat);
        if let Some(i) = active_walk(turns, leaf, (k - 1) as nat) {
            lemma_parent_before(turns, i);
        }
    }
}

proof fn lemma_roots_at_depth_zero(tree: ThreadTree, tm: Seq<TurnModel>, items: Seq<RolloutItem>)
    requires
        is_tree_of(tree, items),
        tm == tree_turns(items),
        tree.turns@.len() <= usize::MAX,
    ensures
        forall|k: int|
            0 <= k < tree.roots@.len() ==> #[trigger] tree.turns@[tree.roots@[k] as int].depth == 0,
{
    assert(turns_model(tree.turns@).len() == tree.turns@.len());
    crate::tree_laws::lemma_indices_with_parent_members(tm, None, tm.len() as int);
    assert forall|k: int| 0 <= k < tree.roots@.len() implies #[trigger] tree.turns@[tree.roots@[k] as int].depth
        == 0 by {
        law_child_is_one_deeper(tm, tree.roots@[k] as int);
    }
}

proof fn lemma_children_one_deeper(tree: ThreadTree, tm: Seq<TurnModel>, items: Seq<RolloutItem>)
    requires
        is_tree_of(tree, items),
        tm == tree_turns(items),
        tree.turns@.len() <= usize::MAX,
        forall|j: int| 0 <= j < tm.len() ==> #[trigger] depth_walk(tm, j, tm.len()) is Some,
    ensures
        forall|p: int, k: int|
            0 <= p < tree.turns@.len() && 0 <= k < tree.turns@[p].children@.len()
                ==> #[trigger] tree.turns@[tree.turns@[p].children@[k] as int].depth == tree.turns@[p].depth
                + 1,
{
    assert(turns_model(tree.turns@).len() == tree.turns@.len());
    let m = tm.len() as int;
    assert forall|p: int, k: int|
        0 <= p < tree.turns@.len() && 0 <= k < tree.turns@[p].children@.len() implies #[trigger] tree.turns@[tree.turns@[p].children@[k] as int].depth
        == tree.turns@[p].depth + 1 by {
        crate::tree_laws::lemma_indices_with_parent_members(tm, Some(p), m);
        let c = tree.turns@[p].children@[k] as int;
        assert(tree.turns@[p].children@ == crate::tree_spec::children_of(tm, p));
        law_child_is_one_deeper(tm, c);
        assert(depth_walk(tm, p, m as nat) is Some);
    }
}

/// The turns read never share an id: after every item up to which the
/// rollout can be read, the turns closed so far (the pending one closed too)
/// carry different ids.
pub open spec fn ids_stay_distinct(items: Seq<RolloutItem>) -> bool {
    forall|k: nat|
        k <= items.len() ==> (#[trigger] fold_prefix(items, k) matches Some(s) ==> ids_distinct(
            finish(s).turns,
        ))
}

/// With parent ids that name earlier turns, all ids different, a rollback
/// from a leaf that names a turn ends within one step more than the index of
/// that turn.
proof fn lemma_rollback_ends_backward(turns: Seq<TurnModel>, leaf: Option<Seq<char>>, r: nat, fuel: nat)
    requires
        parents_earlier(turns),
        ids_distinct(turns),
        names_turn(turns, leaf),
        resolve(turns, leaf) matches Some(i) ==> i < fuel,
    ensures
        rollback_walk(turns, leaf, r, fuel) is Some,
    decreases fuel,
{
    if r > 0 {
        if let Some(i) = resolve(turns, leaf) {
            crate::tree_lemmas::lemma_resolve_in_range(turns, leaf);
            lemma_parent_before(turns, i);
            let id = turns[i].parent_turn_id;
            assert(names_turn(turns.take(i), id));
            if let Some(x) = id {
                let m = choose|m: int| 0 <= m < turns.take(i).len() && (#[trigger] turns.take(i)[m]).turn_id
                    == x;
                assert(turns[m].turn_id == x);
            }
            let r2 = if turns[i].user_message is Some {
                (r - 1) as nat
            } else {
                r
            };
            lemma_rollback_ends_backward(turns, id, r2, (fuel - 1) as nat);
        }
    }
}

proof fn lemma_fold_some_backward(items: Seq<RolloutItem>, k: nat)
    requires
        k <= items.len(),
        ids_stay_distinct(items),
        navigation_names_read_turns(items),
    ensures
        fold_prefix(items, k) is Some,
    decreases k,
{
    if k > 0 {
        let i = (k - 1) as nat;
        lemma_fold_some_backward(items, i);
        let s = fold_prefix(items, i)->0;
        lemma_fold_backward(items, i);
        lemma_finish_backward(s);
        let s1 = finish(s);
        assert(ids_distinct(s1.turns)) by {
            assert(fold_prefix(items, i) matches Some(x) ==> ids_distinct(finish(x).turns));
        }
        match items[i as int] {
            RolloutItem::EventMsg(EventMsg::ThreadRolledBack(e)) => {
                let r = e.num_turns as nat;
                crate::tree_lemmas::lemma_resolve_in_range(s1.turns, s1.leaf);
                lemma_rollback_ends_backward(s1.turns, s1.leaf, r, s1.turns.len());
                assert(rollback_walk(s1.turns, s1.leaf, r, s1.turns.len()) is Some);
            },
            _ => {},
        }
    }
}

/// A rollout whose turns never share an id and whose navigations name turns
/// already read always gives a tree: every rollback ends, and so does the
/// walk up from the final active leaf; the ids of its turns are all
/// different.
pub proof fn law_backward_rollouts_give_a_tree(items: Seq<RolloutItem>)
    requires
        ids_stay_distinct(items),
        navigation_names_read_turns(items),
    ensures
        tree_defined(items),
        ids_distinct(tree_turns(items)),
{
    let n = items.len();
    lemma_fold_some_backward(items, n);
    lemma_fold_backward(items, n);
    lemma_finish_backward(fold_prefix(items, n)->0);
    assert(fold_prefix(items, n) matches Some(x) ==> ids_distinct(finish(x).turns));
    let tm = tree_turns(items);
    lemma_active_walk_below(tm, tree_leaf(items), tm.len());
    assert(active_walk(tm, tree_leaf(items), tm.len()) is None);
}

/// In a tree read from a rollout whose turns never share an id and whose
/// navigations name turns already read (such a rollout always gives a tree),
/// every turn's parent links reach a root; roots have depth 0 and each child
/// is one deeper than its parent; and the walk up from the active leaf ends,
/// so a turn is on the active path exactly when the leaf or one of its
/// ancestors.
pub proof fn law_distinct_ids_give_a_forest(tree: ThreadTree, items: Seq<RolloutItem>)
    requires
        ids_stay_distinct(items),
        navigation_names_read_turns(items),
        is_tree_of(tree, items),
        tree.turns@.len() <= usize::MAX,
    ensures
        tree_defined(items),
        forall|j: int|
            0 <= j < tree.turns@.len() ==> #[trigger] depth_walk(
                tree_turns(items),
                j,
                tree.turns@.len() as nat,
            ) is Some,
        forall|k: int|
            0 <= k < tree.roots@.len() ==> #[trigger] tree.turns@[tree.roots@[k] as int].depth == 0,
        forall|p: int, k: int|
            0 <= p < tree.turns@.len() && 0 <= k < tree.turns@[p].children@.len()
                ==> #[trigger] tree.turns@[tree.turns@[p].children@[k] as int].depth == tree.turns@[p].depth
                + 1,
        forall|j: int|
            0 <= j < tree.turns@.len() ==> (#[trigger] tree.turns@[j]).is_active_path
                == crate::tree_spec::on_active_path(tree_turns(items), tree_leaf(items), j),
{
    law_backward_rollouts_give_a_tree(items);
    let n = items.len();
    let tm = tree_turns(items);
    lemma_fold_backward(items, n);
    lemma_finish_backward(fold_prefix(items, n)->0);
    assert(turns_model(tree.turns@).len() == tree.turns@.len());
    let m = tm.len() as int;
    assert forall|j: int| 0 <= j < m implies #[trigger] depth_walk(tm, j, m as nat) is Some by {
        lemma_depth_walk_ends(tm, j, m as nat);
    }
    lemma_roots_at_depth_zero(tree, tm, items);
    lemma_children_one_deeper(tree, tm, items);
}

/// Every turn closed in `s` (the pending one closed too) is still there, with
/// its id, in `t`.
pub open spec fn keeps_ids(s: BuildState, t: BuildState) -> bool {
    &&& finish(s).turns.len() <= finish(t).turns.len()
    &&& forall|m: int|
        0 <= m < finish(s).turns.len() ==> (#[trigger] finish(t).turns[m]).turn_id == finish(
            s,
        ).turns[m].turn_id
}

proof fn lemma_keeps_trans(a: BuildState, b: BuildState, c: BuildState)
    requires
        keeps_ids(a, b),
        keeps_ids(b, c),
    ensures
        keeps_ids(a, c),
{
    assert forall|m: int| 0 <= m < finish(a).turns.len() implies (#[trigger] finish(c).turns[m]).turn_id
        == finish(a).turns[m].turn_id by {
        assert(finish(b).turns[m].turn_id == finish(a).turns[m].turn_id);
    }
}

proof fn lemma_keeps_finish(s: BuildState, t: BuildState)
    requires
        t.turns.len() >= finish(s).turns.len(),
        forall|m: int|
            0 <= m < finish(s).turns.len() ==> (#[trigger] t.turns[m]).turn_id == finish(
                s,
            ).turns[m].turn_id,
    ensures
        keeps_ids(s, t),
{
    if let Some(p) = t.pending {
        assert forall|m: int| 0 <= m < finish(s).turns.len() implies (#[trigger] finish(t).turns[m]).turn_id
            == finish(s).turns[m].turn_id by {
            assert(finish(t).turns[m] == t.turns[m]);
        }
    }
}

proof fn lemma_step_keeps_ids(s: BuildState, index: int, item: RolloutItem)
    requires
        step(s, index, item) is Some,
    ensures
        keeps_ids(s, step(s, index, item)->0),
{
    let t = step(s, index, item)->0;
    let f = finish(s);
    match item {
        RolloutItem::SessionMeta => {
            crate::tree_lemmas::lemma_resolve_in_range(s.turns, s.leaf);
            if let Some(p) = s.pending {
                assert forall|m: int| 0 <= m < f.turns.len() implies (#[trigger] finish(t).turns[m]).turn_id
                    == f.turns[m].turn_id by {
                    if m < s.turns.len() {
                        assert(finish(t).turns[m] == t.turns[m]);
                    }
                }
            } else {
                lemma_keeps_finish(s, t);
            }
        },
        RolloutItem::EventMsg(EventMsg::TurnStarted(_)) => {
            lemma_keeps_finish(s, t);
        },
        RolloutItem::EventMsg(EventMsg::ThreadRolledBack(_)) => {
            lemma_keeps_finish(s, t);
        },
        RolloutItem::EventMsg(EventMsg::ThreadNavigated(_)) => {
            lemma_keeps_finish(s, t);
        },
        RolloutItem::EventMsg(EventMsg::TurnComplete(_)) => {
            lemma_keeps_finish(s, t);
        },
        RolloutItem::EventMsg(EventMsg::TurnAborted(_)) => {
            lemma_keeps_finish(s, t);
        },
        _ => {
            crate::tree_lemmas::lemma_resolve_in_range(s.turns, s.leaf);
            if s.pending is Some {
                assert forall|m: int| 0 <= m < f.turns.len() implies (#[trigger] finish(t).turns[m]).turn_id
                    == f.turns[m].turn_id by {
                    if m < s.turns.len() {
                        assert(finish(t).turns[m] == t.turns[m]);
                    }
                }
            } else {
                lemma_keeps_finish(s, t);
            }
        },
    }
}

proof fn lemma_fold_keeps_ids(items: Seq<RolloutItem>, j: nat, k: nat)
    requires
        j <= k <= items.len(),
        fold_prefix(items, k) is Some,
    ensures
        fold_prefix(items, j) is Some,
        keeps_ids(fold_prefix(items, j)->0, fold_prefix(items, k)->0),
    decreases k - j,
{
    crate::tree_lemmas::lemma_fold_some_prefix(items, k, j);
    if j < k {
        lemma_fold_keeps_ids(items, j + 1, k);
        crate::tree_lemmas::lemma_fold_some_prefix(items, k, j + 1);
        lemma_step_keeps_ids(fold_prefix(items, j)->0, j as int, items[j as int]);
        lemma_keeps_trans(
            fold_prefix(items, j)->0,
            fold_prefix(items, j + 1)->0,
            fold_prefix(items, k)->0,
        );
    }
}

/// An explicit turn start at an index before `k` carries the id.
pub open spec fn started_before(items: Seq<RolloutItem>, k: int, t: Seq<char>) -> bool {
    exists|j: int|
        0 <= j < k && match #[trigger] items[j] {
            RolloutItem::EventMsg(EventMsg::TurnStarted(e)) => e.turn_id@ == t,
            _ => false,
        }
}

/// Every navigation that names a turn names one whose explicit start comes
/// earlier in the rollout.
pub open spec fn navigation_targets_started_earlier(items: Seq<RolloutItem>) -> bool {
    forall|k: int|
        0 <= k < items.len() ==> match #[trigger] items[k] {
            RolloutItem::EventMsg(EventMsg::ThreadNavigated(e)) => match e.target_turn_id {
                Some(t) => started_before(items, k, t@),
                None => true,
            },
            _ => true,
        }
}

/// A navigation to a turn whose start comes earlier names a turn already
/// read.
pub proof fn law_earlier_targets_are_read(items: Seq<RolloutItem>)
    requires
        navigation_targets_started_earlier(items),
    ensures
        navigation_names_read_turns(items),
{
    assert forall|k: int| 0 <= k < items.len() implies match #[trigger] items[k] {
        RolloutItem::EventMsg(EventMsg::ThreadNavigated(e)) => fold_prefix(items, k as nat) matches Some(
            s,
        ) ==> names_turn(finish(s).turns, crate::text::opt_str(e.target_turn_id)),
        _ => true,
    } by {
        match items[k] {
            RolloutItem::EventMsg(EventMsg::ThreadNavigated(e)) => {
                if let Some(t) = e.target_turn_id {
                    if fold_prefix(items, k as nat) is Some {
                        let j = choose|j: int|
                            0 <= j < k && match #[trigger] items[j] {
                                RolloutItem::EventMsg(EventMsg::TurnStarted(e)) => e.turn_id@ == t@,
                                _ => false,
                            };
                        lemma_fold_keeps_ids(items, (j + 1) as nat, k as nat);
                        crate::tree_lemmas::lemma_fold_some_prefix(items, k as nat, j as nat);
                        let sj = fold_prefix(items, j as nat)->0;
                        let s1 = fold_prefix(items, (j + 1) as nat)->0;
                        let last = finish(s1).turns.len() - 1;
                        assert(finish(s1).turns[last].turn_id == t@);
                        assert(finish(fold_prefix(items, k as nat)->0).turns[last].turn_id == t@);
                    }
                }
            },
            _ => {},
        }
    }
}

/// When the whole rollout can be read and the turns of its tree carry
/// different ids, the turns read never shared an id along the way.
pub proof fn law_distinct_final_ids_stay_distinct(items: Seq<RolloutItem>)
    requires
        fold_prefix(items, items.len()) is Some,
        ids_distinct(tree_turns(items)),
    ensures
        ids_stay_distinct(items),
{
    let n = items.len();
    assert forall|k: nat| k <= n implies (#[trigger] fold_prefix(items, k) matches Some(s)
        ==> ids_distinct(finish(s).turns)) by {
        lemma_fold_keeps_ids(items, k, n);
        let a = finish(fold_prefix(items, k)->0).turns;
        let b = tree_turns(items);
        assert forall|x: int, y: int| 0 <= x < y < a.len() implies (#[trigger] a[x]).turn_id != (
        #[trigger] a[y]).turn_id by {
            assert(b[x].turn_id == a[x].turn_id && b[y].turn_id == a[y].turn_id);
        }
    }
}

} // verus!
