//! Lemmas about the model of the thread tree.
use vstd::prelude::*;

use crate::rollout::{EventMsg, RolloutItem};
use crate::tree_spec::{
    active_walk, extend_leaf, finish, fold_prefix, last_index_of, pending_end, resolve,
    state_wf, step, BuildState, PendingModel, TurnModel,
};

verus! {

pub proof fn lemma_finish_wf(s: BuildState, read: int)
    requires
        state_wf(s, read),
    ensures
        state_wf(finish(s), read),
{
    if let Some(p) = s.pending {
        let t = s.turns.push(p.turn);
        assert forall|i: int| 0 <= i < t.len() implies 0 <= (#[trigger] t[i]).rollout_start_index
            < t[i].rollout_end_index <= read by {
            if i < s.turns.len() {
                assert(t[i] == s.turns[i]);
            }
        }
    }
}

pub proof fn lemma_wf_grow(s: BuildState, read: int)
    requires
        state_wf(s, read),
    ensures
        state_wf(s, read + 1),
{
}

pub proof fn lemma_extend_leaf_wf(s: BuildState, read: int)
    requires
        state_wf(s, read),
        read >= 0,
    ensures
        state_wf(extend_leaf(s, read + 1), read + 1),
{
    if let Some(i) = resolve(s.turns, s.leaf) {
        lemma_resolve_in_range(s.turns, s.leaf);
        let t = extend_leaf(s, read + 1).turns;
        assert forall|k: int| 0 <= k < t.len() implies 0 <= (#[trigger] t[k]).rollout_start_index
            < t[k].rollout_end_index <= read + 1 by {
            if k != i {
                assert(t[k] == s.turns[k]);
            }
        }
    }
}

pub proof fn lemma_last_index_in_range(turns: Seq<TurnModel>, id: Seq<char>)
    ensures
        last_index_of(turns, id) matches Some(i) ==> 0 <= i < turns.len() && turns[i].turn_id
            == id,
    decreases turns.len(),
{
    if turns.len() > 0 && turns.last().turn_id != id {
        lemma_last_index_in_range(turns.drop_last(), id);
    }
}

pub proof fn lemma_resolve_in_range(turns: Seq<TurnModel>, id: Option<Seq<char>>)
    ensures
        resolve(turns, id) matches Some(i) ==> 0 <= i < turns.len(),
{
    if let Some(x) = id {
        lemma_last_index_in_range(turns, x);
    }
}

pub proof fn lemma_step_wf(s: BuildState, index: int, item: RolloutItem)
    requires
        state_wf(s, index),
        index >= 0,
        step(s, index, item) is Some,
    ensures
        state_wf(step(s, index, item)->0, index + 1),
{
    lemma_finish_wf(s, index);
    lemma_wf_grow(s, index);
    lemma_finish_wf(s, index + 1);
    lemma_extend_leaf_wf(s, index);
    match item {
        RolloutItem::EventMsg(EventMsg::TurnComplete(e)) => {
            let s1 = match s.pending {
                Some(p) => BuildState {
                    pending: Some(
                        PendingModel {
                            turn: TurnModel {
                                completed_at: if p.turn.turn_id == e.turn_id@ {
                                    e.completed_at
                                } else {
                                    p.turn.completed_at
                                },
                                rollout_end_index: index + 1,
                                ..p.turn
                            },
                            ..p
                        },
                    ),
                    ..s
                },
                None => s,
            };
            assert(state_wf(s1, index + 1));
            lemma_finish_wf(s1, index + 1);
        },
        RolloutItem::EventMsg(EventMsg::TurnAborted(_)) => {
            lemma_finish_wf(pending_end(s, index + 1), index + 1);
        },
        _ => {},
    }
}

pub proof fn lemma_fold_some_prefix(items: Seq<RolloutItem>, n: nat, k: nat)
    requires
        fold_prefix(items, n) is Some,
        k <= n,
    ensures
        fold_prefix(items, k) is Some,
    decreases n - k,
{
    if k < n {
        lemma_fold_some_prefix(items, n, (k + 1) as nat);
    }
}

pub proof fn lemma_active_walk_stays_none(turns: Seq<TurnModel>, leaf: Option<Seq<char>>, k: nat)
    requires
        active_walk(turns, leaf, k) is None,
    ensures
        forall|m: nat| m >= k ==> #[trigger] active_walk(turns, leaf, m) is None,
{
    assert forall|m: nat| m >= k implies #[trigger] active_walk(turns, leaf, m) is None by {
        lemma_active_walk_none_at(turns, leaf, k, m);
    }
}

proof fn lemma_active_walk_none_at(turns: Seq<TurnModel>, leaf: Option<Seq<char>>, k: nat, m: nat)
    requires
        active_walk(turns, leaf, k) is None,
        m >= k,
    ensures
        active_walk(turns, leaf, m) is None,
    decreases m - k,
{
    if m > k {
        lemma_active_walk_none_at(turns, leaf, k, (m - 1) as nat);
    }
}

/// Every state reached by reading items is well formed.
pub proof fn lemma_fold_wf(items: Seq<RolloutItem>, k: nat)
    requires
        fold_prefix(items, k) is Some,
    ensures
        state_wf(fold_prefix(items, k)->0, k as int),
    decreases k,
{
    if k > 0 {
        lemma_fold_wf(items, (k - 1) as nat);
        lemma_step_wf(fold_prefix(items, (k - 1) as nat)->0, k - 1, items[k - 1]);
    }
}

} // verus!
