//! Building the conversation tree from a rollout.
use vstd::prelude::*;

use crate::rollout::{ContentItem, EventMsg, ResponseItem, RolloutItem, TurnCompleteEvent};
use crate::text::{copy_opt_string, copy_string, join_lines, opt_str, push_char, push_decimal};
use crate::tree_lemmas::{
    lemma_active_walk_stays_none, lemma_finish_wf, lemma_fold_some_prefix, lemma_step_wf,
};
use crate::tree_laws::lemma_depth_walk_chain;
use crate::tree_view::{law_built_tree_is_listable, listable};
use crate::tree_spec::{
    active_walk, active_walk_ends, children_of, content_texts, depth_of, depth_walk,
    extend_leaf, fallback_id, finish, fold_prefix, indices_with_parent, last_index_of,
    on_active_path, parent_index, pending_end, resolve, response_user_message, rollback_ends,
    rollback_result, rollback_walk, roots_of, state_wf, step, tree_defined, tree_leaf,
    tree_turns, user_message_step, BuildState, PendingModel, TurnModel,
};

verus! {

/// The conversation as a tree of turns. `roots` and each turn's `children`
/// index into `turns`; `active_leaf_turn_id` names the turn at the end of the
/// active branch (`None`: before the first turn).
#[derive(Debug, Clone, PartialEq, Eq)]
pub struct ThreadTree {
    pub turns: Vec<ThreadTreeTurn>,
    pub roots: Vec<usize>,
    pub active_leaf_turn_id: Option<String>,
}

/// One turn of the tree. `rollout_start_index..rollout_end_index` are the
/// rollout items that belong to it.
#[derive(Debug, Clone, PartialEq, Eq)]
pub struct ThreadTreeTurn {
    pub turn_id: String,
    pub parent_turn_id: Option<String>,
    pub children: Vec<usize>,
    pub depth: usize,
    pub user_message: Option<String>,
    pub started_at: Option<i64>,
    pub completed_at: Option<i64>,
    pub is_active_path: bool,
    pub rollout_start_index: usize,
    pub rollout_end_index: usize,
}

/// The turn being read, before it is added to the tree.
pub struct PendingTurn {
    pub turn_id: String,
    pub parent_turn_id: Option<String>,
    pub user_message: Option<String>,
    pub started_at: Option<i64>,
    pub completed_at: Option<i64>,
    pub started_explicitly: bool,
    pub started_from_response_item: bool,
    pub rollout_start_index: usize,
    pub rollout_end_index: usize,
}

/// The reader's state while the rollout is read.
struct TreeReader {
    turns: Vec<ThreadTreeTurn>,
    current_leaf_turn_id: Option<String>,
    pending_turn: Option<PendingTurn>,
}

pub open spec fn opt_int(o: Option<usize>) -> Option<int> {
    match o {
        Some(i) => Some(i as int),
        None => None,
    }
}

/// What the model keeps of a turn of the tree.
pub open spec fn turn_model(t: ThreadTreeTurn) -> TurnModel {
    TurnModel {
        turn_id: t.turn_id@,
        parent_turn_id: opt_str(t.parent_turn_id),
        user_message: opt_str(t.user_message),
        started_at: t.started_at,
        completed_at: t.completed_at,
        rollout_start_index: t.rollout_start_index as int,
        rollout_end_index: t.rollout_end_index as int,
    }
}

pub open spec fn turns_model(ts: Seq<ThreadTreeTurn>) -> Seq<TurnModel> {
    ts.map_values(|t: ThreadTreeTurn| turn_model(t))
}

/// `tree` is the tree of `items`: its turns are the turns that reading the
/// items gives, in the order in which they were closed; the roots are the
/// turns whose parent is not in the tree and each turn's children are the
/// turns whose parent it is, both in order; each depth is the distance from
/// a root; a turn is on the active path when it is the active leaf or one of
/// its ancestors.
pub open spec fn is_tree_of(tree: ThreadTree, items: Seq<RolloutItem>) -> bool {
    let turns = tree_turns(items);
    let leaf = tree_leaf(items);
    &&& turns_model(tree.turns@) == turns
    &&& tree.roots@ == roots_of(turns)
    &&& opt_str(tree.active_leaf_turn_id) == leaf
    &&& forall|j: int|
        #![trigger tree.turns@[j]]
        0 <= j < turns.len() ==> {
            &&& tree.turns@[j].children@ == children_of(turns, j)
            &&& tree.turns@[j].depth == depth_of(turns, j)
            &&& tree.turns@[j].is_active_path == on_active_path(turns, leaf, j)
        }
}

/// Turns not yet linked: no children, depth 0, not on the active path.
pub open spec fn fresh(ts: Seq<ThreadTreeTurn>) -> bool {
    forall|j: int|
        0 <= j < ts.len() ==> (#[trigger] ts[j]).children@.len() == 0 && ts[j].depth == 0
            && !ts[j].is_active_path
}

/// The turn that closing the pending turn `p` adds to the tree: its fields,
/// no children, depth 0, not on the active path.
pub open spec fn closed_turn(t: ThreadTreeTurn, p: PendingTurn) -> bool {
    &&& t.turn_id == p.turn_id
    &&& t.parent_turn_id == p.parent_turn_id
    &&& t.user_message == p.user_message
    &&& t.started_at == p.started_at
    &&& t.completed_at == p.completed_at
    &&& t.rollout_start_index == p.rollout_start_index
    &&& t.rollout_end_index == p.rollout_end_index
    &&& t.children@.len() == 0
    &&& t.depth == 0
    &&& !t.is_active_path
}

pub open spec fn pending_model(p: PendingTurn) -> PendingModel {
    PendingModel {
        turn: TurnModel {
            turn_id: p.turn_id@,
            parent_turn_id: opt_str(p.parent_turn_id),
            user_message: opt_str(p.user_message),
            started_at: p.started_at,
            completed_at: p.completed_at,
            rollout_start_index: p.rollout_start_index as int,
            rollout_end_index: p.rollout_end_index as int,
        },
        started_explicitly: p.started_explicitly,
        started_from_response_item: p.started_from_response_item,
    }
}

pub open spec fn opt_pending_model(p: Option<PendingTurn>) -> Option<PendingModel> {
    match p {
        Some(p) => Some(pending_model(p)),
        None => None,
    }
}

impl TreeReader {
    spec fn model(&self) -> BuildState {
        BuildState {
            turns: turns_model(self.turns@),
            leaf: opt_str(self.current_leaf_turn_id),
            pending: opt_pending_model(self.pending_turn),
        }
    }

    spec fn inv(&self, read: int) -> bool {
        &&& fresh(self.turns@)
        &&& state_wf(self.model(), read)
    }

    fn finish_pending_turn(&mut self)
        requires
            fresh(old(self).turns@),
        ensures
            final(self).model() == finish(old(self).model()),
            fresh(final(self).turns@),
    {
        let ghost before = self.turns@;
        finish_pending_turn(&mut self.pending_turn, &mut self.turns, &mut self.current_leaf_turn_id);
        assert forall|j: int| 0 <= j < self.turns@.len() implies (#[trigger] self.turns@[j]).children@.len()
            == 0 && self.turns@[j].depth == 0 && !self.turns@[j].is_active_path by {
            if j < before.len() {
                assert(self.turns@[j] == before[j]);
            }
        }
    }

    fn set_pending_end(&mut self, end: usize)
        ensures
            final(self).model() == pending_end(old(self).model(), end as int),
            final(self).turns == old(self).turns,
    {
        let pending = self.pending_turn.take();
        match pending {
            None => {},
            Some(mut turn) => {
                turn.rollout_end_index = end;
                self.pending_turn = Some(turn);
            },
        }
    }

    fn extend_current_leaf_rollout_end(&mut self, rollout_end_index: usize)
        requires
            fresh(old(self).turns@),
        ensures
            final(self).model() == extend_leaf(old(self).model(), rollout_end_index as int),
            fresh(final(self).turns@),
    {
        let ghost before = self.turns@;
        extend_current_leaf_rollout_end(&mut self.turns, &self.current_leaf_turn_id, rollout_end_index);
        assert forall|j: int| 0 <= j < self.turns@.len() implies (#[trigger] self.turns@[j]).children@.len()
            == 0 && self.turns@[j].depth == 0 && !self.turns@[j].is_active_path by {
            assert(self.turns@[j].children == before[j].children);
        }
    }

    fn read_user_message(&mut self, index: usize, message: String, from_response: bool)
        requires
            fresh(old(self).turns@),
            index < usize::MAX,
        ensures
            final(self).model() == user_message_step(
                old(self).model(),
                index as int,
                message@,
                from_response,
            ),
            fresh(final(self).turns@),
    {
        let opens = match &self.pending_turn {
            Some(turn) => match &turn.user_message {
                Some(existing) => !turn.started_explicitly && !(turn.started_from_response_item
                    && *existing == message),
                None => false,
            },
            None => false,
        };
        if opens {
            self.finish_pending_turn();
        }
        let ghost s1 = self.model();
        let pending = self.pending_turn.take();
        let mut turn = match pending {
            Some(turn) => turn,
            None => PendingTurn {
                turn_id: fallback_turn_id(index),
                parent_turn_id: copy_opt_string(&self.current_leaf_turn_id),
                user_message: None,
                started_at: None,
                completed_at: None,
                started_explicitly: false,
                started_from_response_item: from_response,
                rollout_start_index: index,
                rollout_end_index: index + 1,
            },
        };
        if turn.user_message.is_none() {
            turn.user_message = Some(message);
        }
        turn.rollout_end_index = index + 1;
        self.pending_turn = Some(turn);
    }

    fn read_turn_complete(&mut self, index: usize, event: &TurnCompleteEvent)
        requires
            fresh(old(self).turns@),
            index < usize::MAX,
        ensures
            step(
                old(self).model(),
                index as int,
                RolloutItem::EventMsg(EventMsg::TurnComplete(*event)),
            ) == Some(final(self).model()),
            fresh(final(self).turns@),
    {
        let pending = self.pending_turn.take();
        match pending {
            None => {},
            Some(mut turn) => {
                if turn.turn_id == event.turn_id {
                    turn.completed_at = event.completed_at;
                }
                turn.rollout_end_index = index + 1;
                self.pending_turn = Some(turn);
            },
        }
        self.finish_pending_turn();
    }

    fn read_rollback(&mut self, num_turns: u32)
        requires
            fresh(old(self).turns@),
            rollback_ends(
                finish(old(self).model()).turns,
                finish(old(self).model()).leaf,
                num_turns as nat,
            ),
        ensures
            final(self).model() == (BuildState {
                leaf: rollback_result(
                    finish(old(self).model()).turns,
                    finish(old(self).model()).leaf,
                    num_turns as nat,
                ),
                ..finish(old(self).model())
            }),
            fresh(final(self).turns@),
    {
        self.finish_pending_turn();
        let leaf = self.current_leaf_turn_id.take();
        self.current_leaf_turn_id = rollback_leaf(&self.turns, leaf, num_turns);
    }

    fn read_item(&mut self, index: usize, item: &RolloutItem)
        requires
            old(self).inv(index as int),
            index < usize::MAX,
            step(old(self).model(), index as int, *item) is Some,
        ensures
            step(old(self).model(), index as int, *item) == Some(final(self).model()),
            final(self).inv(index + 1),
    {
        proof {
            lemma_step_wf(old(self).model(), index as int, *item);
        }
        match item {
            RolloutItem::EventMsg(EventMsg::TurnStarted(event)) => {
                self.finish_pending_turn();
                self.pending_turn = Some(
                    PendingTurn {
                        turn_id: copy_string(&event.turn_id),
                        parent_turn_id: copy_opt_string(&self.current_leaf_turn_id),
                        user_message: None,
                        started_at: event.started_at,
                        completed_at: None,
                        started_explicitly: true,
                        started_from_response_item: false,
                        rollout_start_index: index,
                        rollout_end_index: index + 1,
                    },
                );
            },
            RolloutItem::EventMsg(EventMsg::UserMessage(event)) => {
                self.read_user_message(index, copy_string(&event.message), false);
            },
            RolloutItem::EventMsg(EventMsg::TurnComplete(event)) => {
                self.read_turn_complete(index, event);
            },
            RolloutItem::EventMsg(EventMsg::TurnAborted(_)) => {
                self.set_pending_end(index + 1);
                self.finish_pending_turn();
            },
            RolloutItem::EventMsg(EventMsg::ThreadRolledBack(event)) => {
                self.read_rollback(event.num_turns);
            },
            RolloutItem::EventMsg(EventMsg::ThreadNavigated(event)) => {
                self.finish_pending_turn();
                self.current_leaf_turn_id = copy_opt_string(&event.target_turn_id);
            },
            RolloutItem::ResponseItem(response_item) => {
                match user_message_from_response_item(response_item) {
                    Some(message) => {
                        self.read_user_message(index, message, true);
                    },
                    None => {
                        self.set_pending_end(index + 1);
                    },
                }
            },
            RolloutItem::SessionMeta => {
                self.extend_current_leaf_rollout_end(index + 1);
            },
            _ => {
                if self.pending_turn.is_some() {
                    self.set_pending_end(index + 1);
                } else {
                    self.extend_current_leaf_rollout_end(index + 1);
                }
            },
        }
    }
}

/// The reader's state as the model sees it.
pub open spec fn state_model(
    turns: Seq<ThreadTreeTurn>,
    current_leaf_turn_id: Option<String>,
    pending_turn: Option<PendingTurn>,
) -> BuildState {
    BuildState {
        turns: turns_model(turns),
        leaf: opt_str(current_leaf_turn_id),
        pending: opt_pending_model(pending_turn),
    }
}

/// Closes the pending turn, if any: it becomes the last turn of the tree and
/// the active leaf.
pub fn finish_pending_turn(
    pending_turn: &mut Option<PendingTurn>,
    turns: &mut Vec<ThreadTreeTurn>,
    current_leaf_turn_id: &mut Option<String>,
)
    ensures
        state_model(final(turns)@, *final(current_leaf_turn_id), *final(pending_turn)) == finish(
            state_model(old(turns)@, *old(current_leaf_turn_id), *old(pending_turn)),
        ),
        *final(pending_turn) is None,
        *old(pending_turn) is None ==> *final(turns) == *old(turns) && *final(current_leaf_turn_id)
            == *old(current_leaf_turn_id),
        *old(pending_turn) matches Some(p) ==> {
            &&& final(turns)@.len() == old(turns)@.len() + 1
            &&& forall|j: int| 0 <= j < old(turns)@.len() ==> #[trigger] final(turns)@[j] == old(
                turns,
            )@[j]
            &&& closed_turn(final(turns)@[old(turns)@.len() as int], p)
            &&& *final(current_leaf_turn_id) == Some(p.turn_id)
        },
{
    let pending = pending_turn.take();
    match pending {
        None => {},
        Some(turn) => {
            let ghost old_turns = turns@;
            let id_copy = copy_string(&turn.turn_id);
            *current_leaf_turn_id = Some(id_copy);
            let new_turn = ThreadTreeTurn {
                turn_id: turn.turn_id,
                parent_turn_id: turn.parent_turn_id,
                children: Vec::new(),
                depth: 0,
                user_message: turn.user_message,
                started_at: turn.started_at,
                completed_at: turn.completed_at,
                is_active_path: false,
                rollout_start_index: turn.rollout_start_index,
                rollout_end_index: turn.rollout_end_index,
            };
            turns.push(new_turn);
            assert(turns_model(turns@) =~= turns_model(old_turns).push(turn_model(new_turn)));
        },
    }
}

/// Makes the turn of the active leaf, if it is in the tree, reach at least
/// up to `rollout_end_index`.
pub fn extend_current_leaf_rollout_end(
    turns: &mut Vec<ThreadTreeTurn>,
    current_leaf_turn_id: &Option<String>,
    rollout_end_index: usize,
)
    ensures
        turns_model(final(turns)@) == extend_leaf(
            state_model(old(turns)@, *current_leaf_turn_id, None),
            rollout_end_index as int,
        ).turns,
        final(turns)@.len() == old(turns)@.len(),
        forall|j: int|
            #![trigger final(turns)@[j]]
            0 <= j < old(turns)@.len() ==> {
                &&& final(turns)@[j].children == old(turns)@[j].children
                &&& final(turns)@[j].depth == old(turns)@[j].depth
                &&& final(turns)@[j].is_active_path == old(turns)@[j].is_active_path
            },
{
    let found = match current_leaf_turn_id {
        Some(id) => turn_index_by_id(turns, id),
        None => None,
    };
    match found {
        None => {},
        Some(index) => {
            let ghost old_turns = turns@;
            let current = turns[index].rollout_end_index;
            let end = if current >= rollout_end_index {
                current
            } else {
                rollout_end_index
            };
            turns[index].rollout_end_index = end;
            assert(turns_model(turns@) =~= turns_model(old_turns).update(
                index as int,
                TurnModel { rollout_end_index: end as int, ..turns_model(old_turns)[index as int] },
            ));
        },
    }
}

/// The turn that `id` names: the last turn that carries it.
pub fn turn_index_by_id(turns: &Vec<ThreadTreeTurn>, id: &String) -> (r: Option<usize>)
    ensures
        opt_int(r) == last_index_of(turns_model(turns@), id@),
        r matches Some(i) ==> i < turns@.len(),
{
    let mut k = turns.len();
    assert(turns_model(turns@).take(k as int) =~= turns_model(turns@));
    while k > 0
        invariant
            k <= turns@.len(),
            last_index_of(turns_model(turns@), id@) == last_index_of(
                turns_model(turns@).take(k as int),
                id@,
            ),
        decreases k,
    {
        let ghost m = turns_model(turns@).take(k as int);
        assert(m.drop_last() =~= turns_model(turns@).take(k - 1));
        if turns[k - 1].turn_id == *id {
            return Some(k - 1);
        }
        k = k - 1;
    }
    assert(turns_model(turns@).take(0) =~= Seq::<TurnModel>::empty());
    None
}

/// The id of a turn that no explicit start opened: `rollout-<index>`.
pub fn fallback_turn_id(index: usize) -> (r: String)
    ensures
        r@ == fallback_id(index as int),
{
    let mut s = String::from_str("rollout-");
    push_decimal(&mut s, index);
    s
}

/// The user message of a response item (see `response_user_message`).
pub fn user_message_from_response_item(item: &ResponseItem) -> (r: Option<String>)
    ensures
        opt_str(r) == response_user_message(*item),
{
    match item {
        ResponseItem::Message { role, content } => {
            let user = String::from_str("user");
            let mut text = String::new();
            let mut any = false;
            let mut k: usize = 0;
            while k < content.len()
                invariant
                    k <= content@.len(),
                    text@ == join_lines(content_texts(content@.take(k as int))),
                    any == (content_texts(content@.take(k as int)).len() > 0),
                decreases content@.len() - k,
            {
                let ghost before = content_texts(content@.take(k as int));
                assert(content@.take(k + 1).drop_last() =~= content@.take(k as int));
                let piece: Option<&String> = match &content[k] {
                    ContentItem::InputText { text } => Some(text),
                    ContentItem::OutputText { text } => Some(text),
                    ContentItem::InputImage { .. } => None,
                };
                match piece {
                    Some(part) => {
                        if any {
                            push_char(&mut text, '\n');
                        }
                        text.append(part.as_str());
                        proof {
                            let after = before.push(part@);
                            assert(content_texts(content@.take(k + 1)) == after);
                            if before.len() > 0 {
                                assert(after.drop_last() =~= before);
                            } else {
                                assert(join_lines(after) == part@);
                            }
                        }
                        any = true;
                    },
                    None => {},
                }
                k = k + 1;
            }
            assert(content@.take(content@.len() as int) =~= content@);
            if *role == user && !text.as_str().is_empty() {
                Some(text)
            } else {
                None
            }
        },
        ResponseItem::Other => None,
    }
}

/// Where a rollback of `num_turns` user turns from `leaf_turn_id` leaves the
/// active leaf.
pub fn rollback_leaf(turns: &Vec<ThreadTreeTurn>, leaf_turn_id: Option<String>, num_turns: u32) -> (r:
    Option<String>)
    requires
        rollback_ends(turns_model(turns@), opt_str(leaf_turn_id), num_turns as nat),
    ensures
        opt_str(r) == rollback_result(turns_model(turns@), opt_str(leaf_turn_id), num_turns as nat),
{
    let ghost tm = turns_model(turns@);
    let ghost fuel0 = choose|fuel: nat|
        #[trigger] rollback_walk(tm, opt_str(leaf_turn_id), num_turns as nat, fuel) is Some;
    let ghost target = rollback_result(tm, opt_str(leaf_turn_id), num_turns as nat);
    let mut leaf = leaf_turn_id;
    let mut remaining: usize = num_turns as usize;
    let ghost mut fuel: nat = fuel0;
    while remaining > 0
        invariant
            tm == turns_model(turns@),
            target == rollback_result(tm, opt_str(leaf_turn_id), num_turns as nat),
            rollback_walk(tm, opt_str(leaf), remaining as nat, fuel) == Some(target),
        decreases fuel,
    {
        let found = match &leaf {
            Some(id) => turn_index_by_id(turns, id),
            None => None,
        };
        match found {
            None => {
                assert(resolve(tm, opt_str(leaf)) is None);
                return None;
            },
            Some(index) => {
                if turns[index].user_message.is_some() {
                    remaining = remaining - 1;
                }
                leaf = copy_opt_string(&turns[index].parent_turn_id);
                proof {
                    fuel = (fuel - 1) as nat;
                }
            },
        }
    }
    leaf
}

/// The parent of every turn, as an index.
fn parent_indices(turns: &Vec<ThreadTreeTurn>) -> (r: Vec<Option<usize>>)
    ensures
        r@.len() == turns@.len(),
        forall|j: int|
            0 <= j < turns@.len() ==> opt_int(#[trigger] r@[j]) == parent_index(
                turns_model(turns@),
                j,
            ),
        forall|j: int|
            0 <= j < turns@.len() ==> (#[trigger] r@[j] matches Some(p) ==> p < turns@.len()),
{
    let mut r: Vec<Option<usize>> = Vec::new();
    let mut j: usize = 0;
    while j < turns.len()
        invariant
            j <= turns@.len(),
            r@.len() == j,
            forall|i: int|
                0 <= i < j ==> opt_int(#[trigger] r@[i]) == parent_index(turns_model(turns@), i),
            forall|i: int| 0 <= i < j ==> (#[trigger] r@[i] matches Some(p) ==> p < turns@.len()),
        decreases turns@.len() - j,
    {
        let p = match &turns[j].parent_turn_id {
            Some(id) => turn_index_by_id(turns, id),
            None => None,
        };
        r.push(p);
        j = j + 1;
    }
    r
}

/// Links every turn to its parent (or makes it a root).
fn link_children(turns: &mut Vec<ThreadTreeTurn>, parents: &Vec<Option<usize>>) -> (roots: Vec<
    usize,
>)
    requires
        fresh(old(turns)@),
        parents@.len() == old(turns)@.len(),
        forall|j: int|
            0 <= j < old(turns)@.len() ==> opt_int(#[trigger] parents@[j]) == parent_index(
                turns_model(old(turns)@),
                j,
            ),
        forall|j: int|
            0 <= j < old(turns)@.len() ==> (#[trigger] parents@[j] matches Some(p) ==> p < old(
                turns,
            )@.len()),
    ensures
        turns_model(final(turns)@) == turns_model(old(turns)@),
        roots@ == roots_of(turns_model(old(turns)@)),
        final(turns)@.len() == old(turns)@.len(),
        forall|j: int|
            #![trigger final(turns)@[j]]
            0 <= j < final(turns)@.len() ==> {
                &&& final(turns)@[j].children@ == children_of(turns_model(old(turns)@), j)
                &&& !final(turns)@[j].is_active_path
                &&& final(turns)@[j].depth == 0
            },
{
    let ghost tm = turns_model(turns@);
    let n = turns.len();
    let mut roots: Vec<usize> = Vec::new();
    let mut j: usize = 0;
    while j < n
        invariant
            n == turns@.len(),
            j <= n,
            tm == turns_model(turns@),
            parents@.len() == n,
            forall|i: int|
                0 <= i < n ==> opt_int(#[trigger] parents@[i]) == parent_index(tm, i),
            forall|i: int| 0 <= i < n ==> (#[trigger] parents@[i] matches Some(p) ==> p < n),
            roots@ == indices_with_parent(tm, None, j as int),
            forall|i: int|
                #![trigger turns@[i]]
                0 <= i < n ==> {
                    &&& turns@[i].children@ == indices_with_parent(tm, Some(i), j as int)
                    &&& !turns@[i].is_active_path
                    &&& turns@[i].depth == 0
                },
        decreases n - j,
    {
        let ghost before = turns@;
        match parents[j] {
            Some(p) => {
                turns[p].children.push(j);
                assert(turns_model(turns@) =~= turns_model(before));
                assert forall|i: int| #![trigger turns@[i]] 0 <= i < n implies turns@[i].children@
                    == indices_with_parent(tm, Some(i), j + 1) by {
                    assert(opt_int(parents@[j as int]) == parent_index(tm, j as int));
                }
            },
            None => {
                roots.push(j);
                assert forall|i: int| #![trigger turns@[i]] 0 <= i < n implies turns@[i].children@
                    == indices_with_parent(tm, Some(i), j + 1) by {
                    assert(opt_int(parents@[j as int]) == parent_index(tm, j as int));
                }
            },
        }
        assert(opt_int(parents@[j as int]) == parent_index(tm, j as int));
        j = j + 1;
    }
    roots
}

/// Gives every turn whose parent links reach a root its depth: the number of
/// those links. A turn whose parent links never reach a root (they run round
/// a cycle) keeps its depth.
pub fn assign_depths(turns: &mut Vec<ThreadTreeTurn>, parents: &Vec<Option<usize>>)
    requires
        parents@.len() == old(turns)@.len(),
        forall|j: int|
            0 <= j < old(turns)@.len() ==> opt_int(#[trigger] parents@[j]) == parent_index(
                turns_model(old(turns)@),
                j,
            ),
        forall|j: int|
            0 <= j < old(turns)@.len() ==> (#[trigger] parents@[j] matches Some(p) ==> p < old(
                turns,
            )@.len()),
    ensures
        turns_model(final(turns)@) == turns_model(old(turns)@),
        final(turns)@.len() == old(turns)@.len(),
        forall|j: int|
            #![trigger final(turns)@[j]]
            0 <= j < final(turns)@.len() ==> {
                &&& final(turns)@[j].children == old(turns)@[j].children
                &&& final(turns)@[j].is_active_path == old(turns)@[j].is_active_path
                &&& final(turns)@[j].depth == match depth_walk(
                    turns_model(old(turns)@),
                    j,
                    old(turns)@.len() as nat,
                ) {
                    Some(d) => d as usize,
                    None => old(turns)@[j].depth,
                }
            },
{
    let ghost tm = turns_model(turns@);
    let ghost orig = turns@;
    let n = turns.len();
    let mut j: usize = 0;
    while j < n
        invariant
            n == turns@.len(),
            n == orig.len(),
            j <= n,
            tm == turns_model(turns@),
            tm == turns_model(orig),
            parents@.len() == n,
            forall|i: int|
                0 <= i < n ==> opt_int(#[trigger] parents@[i]) == parent_index(tm, i),
            forall|i: int| 0 <= i < n ==> (#[trigger] parents@[i] matches Some(p) ==> p < n),
            forall|i: int|
                #![trigger turns@[i]]
                0 <= i < n ==> {
                    &&& turns@[i].children == orig[i].children
                    &&& turns@[i].is_active_path == orig[i].is_active_path
                    &&& turns@[i].depth == if i < j {
                        match depth_walk(tm, i, n as nat) {
                            Some(d) => d as usize,
                            None => orig[i].depth,
                        }
                    } else {
                        orig[i].depth
                    }
                },
        decreases n - j,
    {
        match depth_by_parents(parents, j, Ghost(tm)) {
            Some(d) => {
                let ghost before = turns@;
                turns[j].depth = d;
                assert(turns_model(turns@) =~= turns_model(before));
            },
            None => {},
        }
        j = j + 1;
    }
}

/// The number of parent links from turn `j` up to a root, following the
/// parent indices; `None` when they never reach one.
fn depth_by_parents(parents: &Vec<Option<usize>>, j: usize, Ghost(tm): Ghost<Seq<TurnModel>>) -> (d:
    Option<usize>)
    requires
        parents@.len() == tm.len(),
        j < tm.len(),
        forall|i: int| 0 <= i < tm.len() ==> opt_int(#[trigger] parents@[i]) == parent_index(tm, i),
        forall|i: int| 0 <= i < tm.len() ==> (#[trigger] parents@[i] matches Some(p) ==> p < tm.len()),
    ensures
        match d {
            Some(x) => depth_walk(tm, j as int, tm.len()) == Some(x as nat),
            None => depth_walk(tm, j as int, tm.len()) is None,
        },
{
    let n = parents.len();
    let mut cur = j;
    let mut steps: usize = 0;
    let mut fuel: usize = n;
    loop
        invariant
            n == tm.len(),
            parents@.len() == n,
            cur < n,
            steps + fuel == n,
            forall|i: int| 0 <= i < n ==> opt_int(#[trigger] parents@[i]) == parent_index(tm, i),
            forall|i: int| 0 <= i < n ==> (#[trigger] parents@[i] matches Some(p) ==> p < n),
            depth_walk(tm, j as int, n as nat) == (match depth_walk(tm, cur as int, fuel as nat) {
                Some(x) => Some((x + steps) as nat),
                None => None,
            }),
        decreases fuel,
    {
        assert(opt_int(parents@[cur as int]) == parent_index(tm, cur as int));
        match parents[cur] {
            None => {
                return Some(steps);
            },
            Some(p) => {
                if fuel == 0 {
                    return None;
                }
                cur = p;
                steps = steps + 1;
                fuel = fuel - 1;
            },
        }
    }
}

/// Marks the active leaf and all its ancestors as on the active path.
pub fn mark_active_path(turns: &mut Vec<ThreadTreeTurn>, leaf_turn_id: &Option<String>)
    requires
        active_walk_ends(turns_model(old(turns)@), opt_str(*leaf_turn_id)),
    ensures
        turns_model(final(turns)@) == turns_model(old(turns)@),
        final(turns)@.len() == old(turns)@.len(),
        forall|j: int|
            #![trigger final(turns)@[j]]
            0 <= j < final(turns)@.len() ==> {
                &&& final(turns)@[j].children == old(turns)@[j].children
                &&& final(turns)@[j].depth == old(turns)@[j].depth
                &&& final(turns)@[j].is_active_path == (old(turns)@[j].is_active_path
                    || on_active_path(turns_model(old(turns)@), opt_str(*leaf_turn_id), j))
            },
{
    let ghost tm = turns_model(turns@);
    let ghost orig = turns@;
    let ghost leaf0 = opt_str(*leaf_turn_id);
    let ghost bound = choose|k: nat| #[trigger] active_walk(tm, leaf0, k) is None;
    let mut leaf = copy_opt_string(leaf_turn_id);
    let ghost mut k: nat = 0;
    loop
        invariant
            tm == turns_model(turns@),
            tm == turns_model(orig),
            orig == old(turns)@,
            leaf0 == opt_str(*leaf_turn_id),
            turns@.len() == orig.len(),
            active_walk(tm, leaf0, bound) is None,
            resolve(tm, opt_str(leaf)) == active_walk(tm, leaf0, k),
            k <= bound,
            forall|i: int|
                #![trigger turns@[i]]
                0 <= i < turns@.len() ==> {
                    &&& turns@[i].children == orig[i].children
                    &&& turns@[i].depth == orig[i].depth
                    &&& turns@[i].is_active_path == (orig[i].is_active_path || exists|m: nat|
                        m < k && #[trigger] active_walk(tm, leaf0, m) == Some(i))
                },
        decreases bound - k,
    {
        let found = match &leaf {
            Some(id) => turn_index_by_id(turns, id),
            None => None,
        };
        match found {
            None => {
                proof {
                    lemma_active_walk_stays_none(tm, leaf0, k);
                    assert forall|i: int|
                        #![trigger turns@[i]]
                        0 <= i < turns@.len() implies turns@[i].is_active_path == (
                        orig[i].is_active_path || on_active_path(tm, leaf0, i)) by {
                        if on_active_path(tm, leaf0, i) {
                            let m = choose|m: nat| #[trigger] active_walk(tm, leaf0, m) == Some(i);
                            if m >= k {
                                assert(active_walk(tm, leaf0, m) is None);
                            }
                        }
                    }
                }
                return;
            },
            Some(index) => {
                proof {
                    if k == bound {
                        assert(false);
                    }
                }
                let ghost before = turns@;
                turns[index].is_active_path = true;
                assert(turns_model(turns@) =~= turns_model(before));
                leaf = copy_opt_string(&turns[index].parent_turn_id);
                proof {
                    assert forall|i: int|
                        #![trigger turns@[i]]
                        0 <= i < turns@.len() implies turns@[i].is_active_path == (
                        orig[i].is_active_path || exists|m: nat|
                            m < k + 1 && #[trigger] active_walk(tm, leaf0, m) == Some(i)) by {
                        if i == index {
                            assert(active_walk(tm, leaf0, k) == Some(i));
                        } else {
                            if exists|m: nat| m < k + 1 && #[trigger] active_walk(tm, leaf0, m) == Some(i) {
                                let m = choose|m: nat| m < k + 1 && #[trigger] active_walk(tm, leaf0, m) == Some(i);
                                if m == k {
                                    assert(false);
                                }
                            }
                        }
                    }
                    assert(active_walk(tm, leaf0, k + 1) == resolve(tm, tm[index as int].parent_turn_id));
                    k = k + 1;
                }
            },
        }
    }
}

/// Builds the conversation tree of a rollout.
///
/// Explicit turn starts open turns; user messages outside an explicit turn
/// open implicit turns (`rollout-<index>`); a rollback moves the active leaf
/// back over the given number of user turns and a navigation moves it to the
/// given turn, so that the next turn starts a new branch there.
pub fn build_thread_tree(items: &[RolloutItem]) -> (tree: ThreadTree)
    requires
        tree_defined(items@),
    ensures
        is_tree_of(tree, items@),
        listable(tree),
        forall|j: int|
            0 <= j < tree.turns@.len() ==> {
                &&& (#[trigger] tree.turns@[j]).rollout_start_index < tree.turns@[j].rollout_end_index
                &&& tree.turns@[j].rollout_end_index <= items@.len()
            },
{
    let mut reader = TreeReader {
        turns: Vec::new(),
        current_leaf_turn_id: None,
        pending_turn: None,
    };
    let n = items.len();
    let mut index: usize = 0;
    proof {
        assert(turns_model(reader.turns@) =~= Seq::<TurnModel>::empty());
        lemma_fold_some_prefix(items@, items@.len(), 0);
    }
    while index < n
        invariant
            n == items@.len(),
            index <= n,
            fold_prefix(items@, n as nat) is Some,
            fold_prefix(items@, index as nat) == Some(reader.model()),
            reader.inv(index as int),
        decreases n - index,
    {
        proof {
            lemma_fold_some_prefix(items@, n as nat, (index + 1) as nat);
        }
        reader.read_item(index, &items[index]);
        index = index + 1;
    }
    reader.finish_pending_turn();
    proof {
        lemma_finish_wf(fold_prefix(items@, n as nat)->0, n as int);
    }
    let mut turns = reader.turns;
    let leaf = reader.current_leaf_turn_id;
    let ghost tm = turns_model(turns@);
    let parents = parent_indices(&turns);
    let roots = link_children(&mut turns, &parents);
    let ghost linked = turns@;
    let linked_count = turns.len();
    assign_depths(&mut turns, &parents);
    proof {
        assert(turns_model(linked) == tm);
        assert(linked.len() == linked_count);
        assert forall|j: int| 0 <= j < turns@.len() implies #[trigger] turns@[j].depth == depth_of(
            tm,
            j,
        ) by {
            assert(linked[j].depth == 0);
            assert(turns@[j].depth == match depth_walk(tm, j, linked.len() as nat) {
                Some(d) => d as usize,
                None => linked[j].depth,
            });
            if depth_walk(tm, j, tm.len()) is Some {
                lemma_depth_walk_chain(tm, j, tm.len());
            }
        }
    }
    mark_active_path(&mut turns, &leaf);
    let tree = ThreadTree { turns, roots, active_leaf_turn_id: leaf };
    assert forall|j: int|
        0 <= j < tree.turns@.len() implies {
            &&& (#[trigger] tree.turns@[j]).rollout_start_index < tree.turns@[j].rollout_end_index
            &&& tree.turns@[j].rollout_end_index <= items@.len()
        } by {
        assert(turns_model(tree.turns@)[j] == turn_model(tree.turns@[j]));
    }
    let turn_count = tree.turns.len();
    proof {
        assert(tree.turns@.len() == turn_count);
        law_built_tree_is_listable(tree, items@);
    }
    tree
}

proof fn lemma_fold_none_stays(items: Seq<RolloutItem>, k: nat, m: nat)
    requires
        fold_prefix(items, k) is None,
        k <= m,
    ensures
        fold_prefix(items, m) is None,
    decreases m - k,
{
    if k < m {
        lemma_fold_none_stays(items, k, (m - 1) as nat);
    }
}

/// Whether a tree can be built from `items` (see `tree_defined`): every
/// rollback ends, and so does the walk up from the final active leaf.
pub fn tree_is_defined(items: &[RolloutItem]) -> (b: bool)
    ensures
        b == tree_defined(items@),
{
    let mut reader = TreeReader {
        turns: Vec::new(),
        current_leaf_turn_id: None,
        pending_turn: None,
    };
    let n = items.len();
    let mut index: usize = 0;
    proof {
        assert(turns_model(reader.turns@) =~= Seq::<TurnModel>::empty());
    }
    while index < n
        invariant
            n == items@.len(),
            index <= n,
            fold_prefix(items@, index as nat) == Some(reader.model()),
            reader.inv(index as int),
        decreases n - index,
    {
        let ghost s_old = reader.model();
        match &items[index] {
            RolloutItem::EventMsg(EventMsg::ThreadRolledBack(event)) => {
                reader.finish_pending_turn();
                proof {
                    lemma_finish_wf(s_old, index as int);
                }
                if !crate::walk_checks::rollback_would_end(
                    &reader.turns,
                    &reader.current_leaf_turn_id,
                    event.num_turns,
                ) {
                    proof {
                        assert(step(s_old, index as int, items@[index as int]) is None);
                        assert(fold_prefix(items@, (index + 1) as nat) is None);
                        lemma_fold_none_stays(items@, (index + 1) as nat, n as nat);
                    }
                    return false;
                }
                assert(step(reader.model(), index as int, items@[index as int]) == step(
                    s_old,
                    index as int,
                    items@[index as int],
                ));
            },
            _ => {},
        }
        reader.read_item(index, &items[index]);
        index = index + 1;
    }
    reader.finish_pending_turn();
    crate::walk_checks::active_walk_would_end(&reader.turns, &reader.current_leaf_turn_id)
}

} // verus!
