//! The items of a rollout (the persisted record of a conversation) that the
//! thread tree reads: turn lifecycle events, user messages in their two forms,
//! branch navigation markers, and the other records that only extend a turn.
use vstd::prelude::*;

use crate::text::{copy_opt_string, copy_string};

verus! {

/// A turn began; its id names it in the tree.
#[derive(Debug, Clone)]
pub struct TurnStartedEvent {
    pub turn_id: String,
    pub started_at: Option<i64>,
}

/// A message typed by the user.
#[derive(Debug, Clone)]
pub struct UserMessageEvent {
    pub message: String,
}

/// A turn ended normally.
#[derive(Debug, Clone)]
pub struct TurnCompleteEvent {
    pub turn_id: String,
    pub completed_at: Option<i64>,
}

/// A turn was interrupted.
#[derive(Debug, Clone)]
pub struct TurnAbortedEvent {
    pub turn_id: Option<String>,
}

/// The user undid the last `num_turns` user turns of the active branch.
#[derive(Debug, Clone)]
pub struct ThreadRolledBackEvent {
    pub num_turns: u32,
}

/// The user moved the active leaf to another turn (or to the root when
/// `target_turn_id` is `None`).
#[derive(Debug, Clone)]
pub struct ThreadNavigatedEvent {
    pub previous_leaf_turn_id: Option<String>,
    pub target_turn_id: Option<String>,
}

/// A message written by the agent.
#[derive(Debug, Clone)]
pub struct AgentMessageEvent {
    pub message: String,
}

/// The events of a rollout; `Other` stands for every event kind that the
/// tree does not tell apart.
#[derive(Debug, Clone)]
pub enum EventMsg {
    TurnStarted(TurnStartedEvent),
    UserMessage(UserMessageEvent),
    TurnComplete(TurnCompleteEvent),
    TurnAborted(TurnAbortedEvent),
    ThreadRolledBack(ThreadRolledBackEvent),
    ThreadNavigated(ThreadNavigatedEvent),
    AgentMessage(AgentMessageEvent),
    Other,
}

/// One part of a model message.
#[derive(Debug, Clone)]
pub enum ContentItem {
    InputText { text: String },
    OutputText { text: String },
    InputImage { image_url: String },
}

/// An item of the model conversation; `Other` stands for tool calls,
/// reasoning and the like.
#[derive(Debug, Clone)]
pub enum ResponseItem {
    Message { role: String, content: Vec<ContentItem> },
    Other,
}

/// A summary that replaced earlier history.
#[derive(Debug, Clone)]
pub struct CompactedItem {
    pub message: String,
}

/// One line of a rollout.
#[derive(Debug, Clone)]
pub enum RolloutItem {
    SessionMeta,
    ResponseItem(ResponseItem),
    Compacted(CompactedItem),
    TurnContext,
    EventMsg(EventMsg),
}

/// Two content parts are the same: same kind, same text.
pub open spec fn same_content(a: ContentItem, b: ContentItem) -> bool {
    match (a, b) {
        (ContentItem::InputText { text: x }, ContentItem::InputText { text: y }) => x@ == y@,
        (ContentItem::OutputText { text: x }, ContentItem::OutputText { text: y }) => x@ == y@,
        (ContentItem::InputImage { image_url: x }, ContentItem::InputImage { image_url: y }) => x@
            == y@,
        _ => false,
    }
}

/// Two response items are the same, part by part.
pub open spec fn same_response(a: ResponseItem, b: ResponseItem) -> bool {
    match (a, b) {
        (
            ResponseItem::Message { role: ra, content: ca },
            ResponseItem::Message { role: rb, content: cb },
        ) => {
            &&& ra@ == rb@
            &&& ca@.len() == cb@.len()
            &&& forall|k: int| 0 <= k < ca@.len() ==> #[trigger] same_content(ca@[k], cb@[k])
        },
        (ResponseItem::Other, ResponseItem::Other) => true,
        _ => false,
    }
}

/// Two rollout items carry the same data. (`==` on values that hold a `Vec`
/// is not extensional, so copies are compared by this relation.)
pub open spec fn same_item(a: RolloutItem, b: RolloutItem) -> bool {
    match (a, b) {
        (RolloutItem::ResponseItem(x), RolloutItem::ResponseItem(y)) => same_response(x, y),
        _ => a == b,
    }
}

/// The item is a branch navigation marker (a rollback or a navigation).
pub open spec fn is_navigation(item: RolloutItem) -> bool {
    match item {
        RolloutItem::EventMsg(EventMsg::ThreadRolledBack(_)) => true,
        RolloutItem::EventMsg(EventMsg::ThreadNavigated(_)) => true,
        _ => false,
    }
}

/// The item can open a turn: an explicit start, a user message, or any
/// response item.
pub open spec fn starts_turn(item: RolloutItem) -> bool {
    match item {
        RolloutItem::EventMsg(EventMsg::TurnStarted(_)) => true,
        RolloutItem::EventMsg(EventMsg::UserMessage(_)) => true,
        RolloutItem::ResponseItem(_) => true,
        _ => false,
    }
}

pub fn is_branch_navigation_item(item: &RolloutItem) -> (r: bool)
    ensures
        r == is_navigation(*item),
{
    match item {
        RolloutItem::EventMsg(EventMsg::ThreadRolledBack(_)) => true,
        RolloutItem::EventMsg(EventMsg::ThreadNavigated(_)) => true,
        _ => false,
    }
}

pub fn turn_starts(item: &RolloutItem) -> (r: bool)
    ensures
        r == starts_turn(*item),
{
    match item {
        RolloutItem::EventMsg(EventMsg::TurnStarted(_)) => true,
        RolloutItem::EventMsg(EventMsg::UserMessage(_)) => true,
        RolloutItem::ResponseItem(_) => true,
        _ => false,
    }
}

fn copy_content(c: &ContentItem) -> (r: ContentItem)
    ensures
        same_content(r, *c),
{
    match c {
        ContentItem::InputText { text } => ContentItem::InputText { text: copy_string(text) },
        ContentItem::OutputText { text } => ContentItem::OutputText { text: copy_string(text) },
        ContentItem::InputImage { image_url } => ContentItem::InputImage {
            image_url: copy_string(image_url),
        },
    }
}

fn copy_response(r: &ResponseItem) -> (out: ResponseItem)
    ensures
        same_response(out, *r),
{
    match r {
        ResponseItem::Message { role, content } => {
            let mut copied: Vec<ContentItem> = Vec::new();
            let mut k: usize = 0;
            while k < content.len()
                invariant
                    k <= content@.len(),
                    copied@.len() == k,
                    forall|j: int| 0 <= j < k ==> #[trigger] same_content(copied@[j], content@[j]),
                decreases content@.len() - k,
            {
                copied.push(copy_content(&content[k]));
                k = k + 1;
            }
            ResponseItem::Message { role: copy_string(role), content: copied }
        },
        ResponseItem::Other => ResponseItem::Other,
    }
}

fn copy_event(e: &EventMsg) -> (r: EventMsg)
    ensures
        r == *e,
{
    match e {
        EventMsg::TurnStarted(x) => EventMsg::TurnStarted(
            TurnStartedEvent { turn_id: copy_string(&x.turn_id), started_at: x.started_at },
        ),
        EventMsg::UserMessage(x) => EventMsg::UserMessage(
            UserMessageEvent { message: copy_string(&x.message) },
        ),
        EventMsg::TurnComplete(x) => EventMsg::TurnComplete(
            TurnCompleteEvent { turn_id: copy_string(&x.turn_id), completed_at: x.completed_at },
        ),
        EventMsg::TurnAborted(x) => EventMsg::TurnAborted(
            TurnAbortedEvent { turn_id: copy_opt_string(&x.turn_id) },
        ),
        EventMsg::ThreadRolledBack(x) => EventMsg::ThreadRolledBack(
            ThreadRolledBackEvent { num_turns: x.num_turns },
        ),
        EventMsg::ThreadNavigated(x) => EventMsg::ThreadNavigated(
            ThreadNavigatedEvent {
                previous_leaf_turn_id: copy_opt_string(&x.previous_leaf_turn_id),
                target_turn_id: copy_opt_string(&x.target_turn_id),
            },
        ),
        EventMsg::AgentMessage(x) => EventMsg::AgentMessage(
            AgentMessageEvent { message: copy_string(&x.message) },
        ),
        EventMsg::Other => EventMsg::Other,
    }
}

/// A copy of a rollout item that carries the same data.
pub fn copy_item(item: &RolloutItem) -> (r: RolloutItem)
    ensures
        same_item(r, *item),
{
    match item {
        RolloutItem::SessionMeta => RolloutItem::SessionMeta,
        RolloutItem::ResponseItem(x) => RolloutItem::ResponseItem(copy_response(x)),
        RolloutItem::Compacted(x) => RolloutItem::Compacted(
            CompactedItem { message: copy_string(&x.message) },
        ),
        RolloutItem::TurnContext => RolloutItem::TurnContext,
        RolloutItem::EventMsg(e) => RolloutItem::EventMsg(copy_event(e)),
    }
}

} // verus!
