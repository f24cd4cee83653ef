//! The mathematical model of the thread tree: how a rollout, read item by item,
//! gives the turns, and how the turns give the tree (roots, children, depths,
//! active path) and the items of the active branch.
use vstd::prelude::*;

use crate::rollout::{ContentItem, EventMsg, ResponseItem, RolloutItem};
use crate::text::{decimal, join_lines, opt_str};

verus! {

/// What the tree keeps of one turn while the rollout is read.
pub struct TurnModel {
    pub turn_id: Seq<char>,
    pub parent_turn_id: Option<Seq<char>>,
    pub user_message: Option<Seq<char>>,
    pub started_at: Option<i64>,
    pub completed_at: Option<i64>,
    pub rollout_start_index: int,
    pub rollout_end_index: int,
}

/// The turn being read, not yet added to the tree.
pub struct PendingModel {
    pub turn: TurnModel,
    pub started_explicitly: bool,
    pub started_from_response_item: bool,
}

/// The state of the reader: the finished turns, the active leaf and the
/// pending turn.
pub struct BuildState {
    pub turns: Seq<TurnModel>,
    pub leaf: Option<Seq<char>>,
    pub pending: Option<PendingModel>,
}

pub open spec fn initial_state() -> BuildState {
    BuildState { turns: Seq::empty(), leaf: None, pending: None }
}

/// The index under which a turn id is found: the last turn that carries it
/// (a later turn with the same id replaces an earlier one).
pub open spec fn last_index_of(turns: Seq<TurnModel>, id: Seq<char>) -> Option<int>
    decreases turns.len(),
{
    if turns.len() == 0 {
        None
    } else if turns.last().turn_id == id {
        Some(turns.len() - 1)
    } else {
        last_index_of(turns.drop_last(), id)
    }
}

/// The turn that an optional id names, if any.
pub open spec fn resolve(turns: Seq<TurnModel>, id: Option<Seq<char>>) -> Option<int> {
    match id {
        Some(id) => last_index_of(turns, id),
        None => None,
    }
}

/// The pending turn, if any, becomes the last turn and the active leaf.
pub open spec fn finish(s: BuildState) -> BuildState {
    match s.pending {
        Some(p) => BuildState {
            turns: s.turns.push(p.turn),
            leaf: Some(p.turn.turn_id),
            pending: None,
        },
        None => s,
    }
}

/// The pending turn, if any, reaches up to (not including) `end`.
pub open spec fn pending_end(s: BuildState, end: int) -> BuildState {
    match s.pending {
        Some(p) => BuildState {
            pending: Some(
                PendingModel { turn: TurnModel { rollout_end_index: end, ..p.turn }, ..p },
            ),
            ..s
        },
        None => s,
    }
}

pub open spec fn max_int(a: int, b: int) -> int {
    if a >= b {
        a
    } else {
        b
    }
}

/// The turn of the active leaf, if it is in the tree, reaches at least up to `end`.
pub open spec fn extend_leaf(s: BuildState, end: int) -> BuildState {
    match resolve(s.turns, s.leaf) {
        Some(i) => BuildState {
            turns: s.turns.update(
                i,
                TurnModel {
                    rollout_end_index: max_int(s.turns[i].rollout_end_index, end),
                    ..s.turns[i]
                },
            ),
            ..s
        },
        None => s,
    }
}

/// The id given to a turn that no explicit start opened: `rollout-<index>`.
pub open spec fn fallback_id(index: int) -> Seq<char> {
    "rollout-"@ + decimal(index as nat)
}

/// A user message opens a new implicit turn when the pending turn already
/// has a user message, was not started explicitly, and the message is not the
/// response-item copy of the message that opened it.
pub open spec fn opens_implicit_turn(p: Option<PendingModel>, message: Seq<char>) -> bool {
    match p {
        Some(p) => {
            &&& p.turn.user_message is Some
            &&& !p.started_explicitly
            &&& !(p.started_from_response_item && p.turn.user_message == Some(message))
        },
        None => false,
    }
}

/// Reading a user message (from an event, or from a response item when
/// `from_response` holds) at `index`.
pub open spec fn user_message_step(
    s: BuildState,
    index: int,
    message: Seq<char>,
    from_response: bool,
) -> BuildState {
    let s1 = if opens_implicit_turn(s.pending, message) {
        finish(s)
    } else {
        s
    };
    let p = match s1.pending {
        Some(p) => p,
        None => PendingModel {
            turn: TurnModel {
                turn_id: fallback_id(index),
                parent_turn_id: s1.leaf,
                user_message: None,
                started_at: None,
                completed_at: None,
                rollout_start_index: index,
                rollout_end_index: index + 1,
            },
            started_explicitly: false,
            started_from_response_item: from_response,
        },
    };
    let msg = if p.turn.user_message is None {
        Some(message)
    } else {
        p.turn.user_message
    };
    BuildState {
        pending: Some(
            PendingModel {
                turn: TurnModel { user_message: msg, rollout_end_index: index + 1, ..p.turn },
                ..p
            },
        ),
        ..s1
    }
}

/// The texts of the text parts of a message, in order.
pub open spec fn content_texts(content: Seq<ContentItem>) -> Seq<Seq<char>>
    decreases content.len(),
{
    if content.len() == 0 {
        Seq::empty()
    } else {
        let rest = content_texts(content.drop_last());
        match content.last() {
            ContentItem::InputText { text } => rest.push(text@),
            ContentItem::OutputText { text } => rest.push(text@),
            ContentItem::InputImage { .. } => rest,
        }
    }
}

/// The user message that a response item carries: the texts of a message
/// whose role is `user`, joined by newlines, when that is not empty.
pub open spec fn response_user_message(item: ResponseItem) -> Option<Seq<char>> {
    match item {
        ResponseItem::Message { role, content } => {
            let text = join_lines(content_texts(content@));
            if role@ == "user"@ && text.len() > 0 {
                Some(text)
            } else {
                None
            }
        },
        ResponseItem::Other => None,
    }
}

/// One step of a rollback: from the turn that `leaf` names to its parent;
/// a turn with a user message counts. `Some(r)` is the outcome when the
/// walk ends within `fuel` steps.
pub open spec fn rollback_walk(
    turns: Seq<TurnModel>,
    leaf: Option<Seq<char>>,
    remaining: nat,
    fuel: nat,
) -> Option<Option<Seq<char>>>
    decreases fuel,
{
    if remaining == 0 {
        Some(leaf)
    } else {
        match resolve(turns, leaf) {
            None => Some(None),
            Some(i) => if fuel == 0 {
                None
            } else {
                rollback_walk(
                    turns,
                    turns[i].parent_turn_id,
                    if turns[i].user_message is Some {
                        (remaining - 1) as nat
                    } else {
                        remaining
                    },
                    (fuel - 1) as nat,
                )
            },
        }
    }
}

/// A rollback of `remaining` user turns from `leaf` comes to an end (it does
/// not when it walks round a cycle of turns without a user message).
pub open spec fn rollback_ends(turns: Seq<TurnModel>, leaf: Option<Seq<char>>, remaining: nat) -> bool {
    exists|fuel: nat| #[trigger] rollback_walk(turns, leaf, remaining, fuel) is Some
}

/// Where a rollback that comes to an end leaves the active leaf.
pub open spec fn rollback_result(
    turns: Seq<TurnModel>,
    leaf: Option<Seq<char>>,
    remaining: nat,
) -> Option<Seq<char>> {
    rollback_walk(
        turns,
        leaf,
        remaining,
        choose|fuel: nat| #[trigger] rollback_walk(turns, leaf, remaining, fuel) is Some,
    )->0
}

/// Reading item `index`; `None` when a rollback does not come to an end.
pub open spec fn step(s: BuildState, index: int, item: RolloutItem) -> Option<BuildState> {
    match item {
        RolloutItem::EventMsg(EventMsg::TurnStarted(e)) => {
            let s1 = finish(s);
            Some(
                BuildState {
                    pending: Some(
                        PendingModel {
                            turn: TurnModel {
                                turn_id: e.turn_id@,
                                parent_turn_id: s1.leaf,
                                user_message: None,
                                started_at: e.started_at,
                                completed_at: None,
                                rollout_start_index: index,
                                rollout_end_index: index + 1,
                            },
                            started_explicitly: true,
                            started_from_response_item: false,
                        },
                    ),
                    ..s1
                },
            )
        },
        RolloutItem::EventMsg(EventMsg::UserMessage(e)) => Some(
            user_message_step(s, index, e.message@, false),
        ),
        RolloutItem::EventMsg(EventMsg::TurnComplete(e)) => {
            let s1 = match s.pending {
                Some(p) => BuildState {
                    pending: Some(
                        PendingModel {
                            turn: TurnModel {
                                completed_at: if p.turn.turn_id == e.turn_id@ {
                                    e.completed_at
                                } else {
                                    p.turn.completed_at
                                },
                                rollout_end_index: index + 1,
                                ..p.turn
                            },
                            ..p
                        },
                    ),
                    ..s
                },
                None => s,
            };
            Some(finish(s1))
        },
        RolloutItem::EventMsg(EventMsg::TurnAborted(_)) => Some(finish(pending_end(s, index + 1))),
        RolloutItem::EventMsg(EventMsg::ThreadRolledBack(e)) => {
            let s1 = finish(s);
            if rollback_ends(s1.turns, s1.leaf, e.num_turns as nat) {
                Some(
                    BuildState {
                        leaf: rollback_result(s1.turns, s1.leaf, e.num_turns as nat),
                        ..s1
                    },
                )
            } else {
                None
            }
        },
        RolloutItem::EventMsg(EventMsg::ThreadNavigated(e)) => Some(
            BuildState { leaf: opt_str(e.target_turn_id), ..finish(s) },
        ),
        RolloutItem::ResponseItem(r) => match response_user_message(r) {
            Some(m) => Some(user_message_step(s, index, m, true)),
            None => Some(pending_end(s, index + 1)),
        },
        RolloutItem::SessionMeta => Some(extend_leaf(s, index + 1)),
        _ => Some(
            if s.pending is Some {
                pending_end(s, index + 1)
            } else {
                extend_leaf(s, index + 1)
            },
        ),
    }
}

/// The state after reading the first `k` items.
pub open spec fn fold_prefix(items: Seq<RolloutItem>, k: nat) -> Option<BuildState>
    decreases k,
{
    if k == 0 {
        Some(initial_state())
    } else {
        match fold_prefix(items, (k - 1) as nat) {
            Some(s) => step(s, k - 1, items[k - 1]),
            None => None,
        }
    }
}

/// The state after reading all items and closing the pending turn.
pub open spec fn final_state(items: Seq<RolloutItem>) -> BuildState {
    finish(fold_prefix(items, items.len())->0)
}

/// The turns of the tree, in the order in which they were closed.
pub open spec fn tree_turns(items: Seq<RolloutItem>) -> Seq<TurnModel> {
    final_state(items).turns
}

/// The active leaf of the tree.
pub open spec fn tree_leaf(items: Seq<RolloutItem>) -> Option<Seq<char>> {
    final_state(items).leaf
}

/// The parent of turn `j`: the turn that its parent id names.
pub open spec fn parent_index(turns: Seq<TurnModel>, j: int) -> Option<int> {
    resolve(turns, turns[j].parent_turn_id)
}

/// The turns below `k` whose parent is `p` (`None`: the roots), in order.
pub open spec fn indices_with_parent(turns: Seq<TurnModel>, p: Option<int>, k: int) -> Seq<usize>
    decreases k,
{
    if k <= 0 {
        Seq::empty()
    } else {
        let rest = indices_with_parent(turns, p, k - 1);
        if parent_index(turns, k - 1) == p {
            rest.push((k - 1) as usize)
        } else {
            rest
        }
    }
}

/// The roots: the turns whose parent is not in the tree, in order.
pub open spec fn roots_of(turns: Seq<TurnModel>) -> Seq<usize> {
    indices_with_parent(turns, None, turns.len() as int)
}

/// The children of turn `i`, in order.
pub open spec fn children_of(turns: Seq<TurnModel>, i: int) -> Seq<usize> {
    indices_with_parent(turns, Some(i), turns.len() as int)
}

/// The number of parent links from `j` up to a root, when that takes at most `fuel` links.
pub open spec fn depth_walk(turns: Seq<TurnModel>, j: int, fuel: nat) -> Option<nat>
    decreases fuel,
{
    match parent_index(turns, j) {
        None => Some(0),
        Some(p) => if fuel == 0 {
            None
        } else {
            match depth_walk(turns, p, (fuel - 1) as nat) {
                Some(d) => Some(d + 1),
                None => None,
            }
        },
    }
}

/// The depth of turn `j`: its distance from a root; 0 for a turn whose
/// parent links never reach a root (they run round a cycle).
pub open spec fn depth_of(turns: Seq<TurnModel>, j: int) -> nat {
    match depth_walk(turns, j, turns.len()) {
        Some(d) => d,
        None => 0,
    }
}

/// The turn reached from the active leaf after `k` parent links.
pub open spec fn active_walk(turns: Seq<TurnModel>, leaf: Option<Seq<char>>, k: nat) -> Option<int>
    decreases k,
{
    if k == 0 {
        resolve(turns, leaf)
    } else {
        match active_walk(turns, leaf, (k - 1) as nat) {
            Some(i) => resolve(turns, turns[i].parent_turn_id),
            None => None,
        }
    }
}

/// Turn `j` is on the active path: the active leaf or one of its ancestors.
pub open spec fn on_active_path(turns: Seq<TurnModel>, leaf: Option<Seq<char>>, j: int) -> bool {
    exists|k: nat| #[trigger] active_walk(turns, leaf, k) == Some(j)
}

/// The walk up from the active leaf ends (it does not when it runs round a cycle).
pub open spec fn active_walk_ends(turns: Seq<TurnModel>, leaf: Option<Seq<char>>) -> bool {
    exists|k: nat| #[trigger] active_walk(turns, leaf, k) is None
}

/// The rollouts from which a tree can be built: every rollback comes to an
/// end, and so does the walk up from the final active leaf.
pub open spec fn tree_defined(items: Seq<RolloutItem>) -> bool {
    &&& fold_prefix(items, items.len()) is Some
    &&& active_walk_ends(tree_turns(items), tree_leaf(items))
}

/// Every turn, closed or pending, covers a nonempty range of the first
/// `read` items.
pub open spec fn state_wf(s: BuildState, read: int) -> bool {
    &&& forall|i: int|
        0 <= i < s.turns.len() ==> 0 <= (#[trigger] s.turns[i]).rollout_start_index
            < s.turns[i].rollout_end_index <= read
    &&& (s.pending matches Some(p) ==> 0 <= p.turn.rollout_start_index
        < p.turn.rollout_end_index <= read)
}

} // verus!
