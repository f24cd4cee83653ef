use codex_thread_tree::active_branch::active_branch_items;
use codex_thread_tree::active_branch::thread_tree_contains_turn_id;
use codex_thread_tree::rollout::AgentMessageEvent;
use codex_thread_tree::rollout::CompactedItem;
use codex_thread_tree::rollout::ContentItem;
use codex_thread_tree::rollout::EventMsg;
use codex_thread_tree::rollout::ResponseItem;
use codex_thread_tree::rollout::RolloutItem;
use codex_thread_tree::rollout::ThreadNavigatedEvent;
use codex_thread_tree::rollout::ThreadRolledBackEvent;
use codex_thread_tree::rollout::TurnAbortedEvent;
use codex_thread_tree::rollout::TurnCompleteEvent;
use codex_thread_tree::rollout::TurnStartedEvent;
use codex_thread_tree::rollout::UserMessageEvent;
use codex_thread_tree::thread_tree::assign_depths;
use codex_thread_tree::thread_tree::build_thread_tree;
use codex_thread_tree::thread_tree::extend_current_leaf_rollout_end;
use codex_thread_tree::thread_tree::finish_pending_turn;
use codex_thread_tree::thread_tree::tree_is_defined;
use codex_thread_tree::thread_tree::PendingTurn;
use codex_thread_tree::thread_tree::ThreadTreeTurn;

fn turn_started(turn_id: &str) -> RolloutItem {
    RolloutItem::EventMsg(EventMsg::TurnStarted(TurnStartedEvent {
        turn_id: turn_id.to_string(),
        started_at: None,
    }))
}

fn user_message(message: &str) -> RolloutItem {
    RolloutItem::EventMsg(EventMsg::UserMessage(UserMessageEvent {
        message: message.to_string(),
    }))
}

fn turn_complete(turn_id: &str) -> RolloutItem {
    RolloutItem::EventMsg(EventMsg::TurnComplete(TurnCompleteEvent {
        turn_id: turn_id.to_string(),
        completed_at: None,
    }))
}

fn turn(turn_id: &str, message: &str) -> Vec<RolloutItem> {
    vec![
        turn_started(turn_id),
        user_message(message),
        turn_complete(turn_id),
    ]
}

fn empty_turn(turn_id: &str) -> Vec<RolloutItem> {
    vec![turn_started(turn_id), turn_complete(turn_id)]
}

fn rolled_back(num_turns: u32) -> RolloutItem {
    RolloutItem::EventMsg(EventMsg::ThreadRolledBack(ThreadRolledBackEvent { num_turns }))
}

fn response_user_message(text: &str) -> RolloutItem {
    RolloutItem::ResponseItem(ResponseItem::Message {
        role: "user".to_string(),
        content: vec![ContentItem::InputText {
            text: text.to_string(),
        }],
    })
}

fn response_assistant_message(text: &str) -> RolloutItem {
    RolloutItem::ResponseItem(ResponseItem::Message {
        role: "assistant".to_string(),
        content: vec![ContentItem::OutputText {
            text: text.to_string(),
        }],
    })
}

fn compacted_item(message: &str) -> RolloutItem {
    RolloutItem::Compacted(CompactedItem {
        message: message.to_string(),
    })
}

fn event_user_messages(items: &[RolloutItem]) -> Vec<String> {
    active_branch_items(items)
        .iter()
        .filter_map(|item| match item {
            RolloutItem::EventMsg(EventMsg::UserMessage(event)) => Some(event.message.clone()),
            _ => None,
        })
        .collect()
}

fn active_branch_user_messages(items: &[RolloutItem]) -> Vec<String> {
    active_branch_items(items)
        .iter()
        .filter_map(|item| match item {
            RolloutItem::EventMsg(EventMsg::UserMessage(event)) => Some(event.message.clone()),
            RolloutItem::ResponseItem(ResponseItem::Message { role, content }) if role == "user" => {
                Some(
                    content
                        .iter()
                        .filter_map(|item| match item {
                            ContentItem::InputText { text } | ContentItem::OutputText { text } => {
                                Some(text.as_str())
                            }
                            ContentItem::InputImage { .. } => None,
                        })
                        .collect::<Vec<_>>()
                        .join("\n"),
                )
            }
            _ => None,
        })
        .collect()
}

#[test]
fn rollback_creates_branch_for_later_turn() {
    let mut items = Vec::new();
    items.extend(turn("turn-1", "first"));
    items.extend(turn("turn-2a", "second A"));
    items.push(rolled_back(1));
    items.extend(turn("turn-2b", "second B"));

    let tree = build_thread_tree(&items);

    assert_eq!(tree.active_leaf_turn_id.as_deref(), Some("turn-2b"));
    assert_eq!(tree.roots.len(), 1);
    let root = &tree.turns[tree.roots[0]];
    assert_eq!(root.turn_id, "turn-1");
    assert_eq!(root.children.len(), 2);
    assert_eq!(event_user_messages(&items), vec!["first", "second B"]);
}

#[test]
fn navigation_selects_existing_inactive_branch() {
    let mut items = Vec::new();
    items.extend(turn("turn-1", "first"));
    items.extend(turn("turn-2a", "second A"));
    items.push(rolled_back(1));
    items.extend(turn("turn-2b", "second B"));
    items.push(RolloutItem::EventMsg(EventMsg::ThreadNavigated(
        ThreadNavigatedEvent {
            previous_leaf_turn_id: Some("turn-2b".to_string()),
            target_turn_id: Some("turn-2a".to_string()),
        },
    )));

    let tree = build_thread_tree(&items);

    assert_eq!(tree.active_leaf_turn_id.as_deref(), Some("turn-2a"));
    assert_eq!(event_user_messages(&items), vec!["first", "second A"]);
}

#[test]
fn active_branch_keeps_turn_aborted_marker() {
    let items = vec![
        turn_started("turn-1"),
        user_message("first"),
        RolloutItem::EventMsg(EventMsg::TurnAborted(TurnAbortedEvent {
            turn_id: Some("turn-1".to_string()),
        })),
    ];

    assert!(active_branch_items(&items)
        .iter()
        .any(|item| matches!(item, RolloutItem::EventMsg(EventMsg::TurnAborted(_)))));
}

#[test]
fn legacy_user_messages_are_separate_implicit_turns() {
    let mut items = vec![
        user_message("first"),
        user_message("second"),
        user_message("third"),
    ];
    items.push(rolled_back(1));

    assert_eq!(event_user_messages(&items), vec!["first", "second"]);
}

#[test]
fn response_item_user_messages_are_separate_implicit_turns() {
    let mut items = vec![
        response_user_message("first"),
        response_assistant_message("first response"),
        response_user_message("second"),
        response_assistant_message("second response"),
    ];
    items.push(rolled_back(1));

    let tree = build_thread_tree(&items);

    assert_eq!(tree.turns.len(), 2);
    assert_eq!(tree.active_leaf_turn_id.as_deref(), Some("rollout-0"));
    assert_eq!(active_branch_user_messages(&items), vec!["first"]);
}

#[test]
fn active_branch_keeps_inter_turn_compacted_item() {
    let mut items = Vec::new();
    items.extend(turn("turn-1", "first"));
    items.push(compacted_item("summary between turns"));
    items.extend(turn("turn-2", "second"));

    assert!(active_branch_items(&items).iter().any(|item| matches!(
        item,
        RolloutItem::Compacted(compacted)
            if compacted.message == "summary between turns"
    )));
}

#[test]
fn rollback_from_no_user_leaf_counts_user_turns_only() {
    let mut items = Vec::new();
    items.extend(turn("turn-1", "first"));
    items.extend(empty_turn("turn-2"));
    items.push(rolled_back(1));

    let tree = build_thread_tree(&items);

    assert_eq!(tree.active_leaf_turn_id, None);
    assert_eq!(active_branch_user_messages(&items), Vec::<String>::new());
}

#[test]
fn legacy_user_turn_keeps_following_agent_message() {
    let items = vec![
        user_message("before rollback"),
        RolloutItem::EventMsg(EventMsg::AgentMessage(AgentMessageEvent {
            message: "after rollback".to_string(),
        })),
    ];

    let active_messages = active_branch_items(&items)
        .into_iter()
        .filter_map(|item| match item {
            RolloutItem::EventMsg(EventMsg::UserMessage(event)) => Some(event.message),
            RolloutItem::EventMsg(EventMsg::AgentMessage(event)) => Some(event.message),
            _ => None,
        })
        .collect::<Vec<_>>();

    assert_eq!(
        active_messages,
        vec!["before rollback".to_string(), "after rollback".to_string(),]
    );
}

#[test]
fn tree_links_depths_and_active_path() {
    let mut items = Vec::new();
    items.extend(turn("turn-1", "first"));
    items.extend(turn("turn-2a", "second A"));
    items.push(rolled_back(1));
    items.extend(turn("turn-2b", "second B"));
    items.extend(turn("turn-3", "third"));

    let tree = build_thread_tree(&items);

    assert_eq!(tree.roots, vec![0]);
    assert_eq!(tree.turns[0].children, vec![1, 2]);
    assert_eq!(tree.turns[2].children, vec![3]);
    let depths: Vec<usize> = tree.turns.iter().map(|t| t.depth).collect();
    assert_eq!(depths, vec![0, 1, 1, 2]);
    let active: Vec<bool> = tree.turns.iter().map(|t| t.is_active_path).collect();
    assert_eq!(active, vec![true, false, true, true]);
    assert_eq!(tree.turns[1].parent_turn_id.as_deref(), Some("turn-1"));
    assert_eq!(tree.turns[2].parent_turn_id.as_deref(), Some("turn-1"));
    assert_eq!(tree.turns[0].rollout_start_index, 0);
    assert_eq!(tree.turns[0].rollout_end_index, 3);
    assert_eq!(tree.turns[2].rollout_start_index, 7);
    assert_eq!(tree.turns[2].rollout_end_index, 10);
}

#[test]
fn contains_turn_id_looks_at_every_branch() {
    let mut items = Vec::new();
    items.extend(turn("turn-1", "first"));
    items.extend(turn("turn-2a", "second A"));
    items.push(rolled_back(1));
    items.extend(turn("turn-2b", "second B"));

    assert!(thread_tree_contains_turn_id(&items, "turn-2a"));
    assert!(thread_tree_contains_turn_id(&items, "turn-2b"));
    assert!(!thread_tree_contains_turn_id(&items, "turn-3"));
}

#[test]
fn no_turns_keeps_everything_but_navigation() {
    let items = vec![
        compacted_item("only"),
        rolled_back(3),
        RolloutItem::SessionMeta,
    ];

    let active = active_branch_items(&items);
    assert_eq!(active.len(), 2);
    assert!(matches!(active[0], RolloutItem::Compacted(_)));
    assert!(matches!(active[1], RolloutItem::SessionMeta));
}

#[test]
fn response_copy_of_user_message_stays_in_same_turn() {
    let items = vec![
        response_user_message("hello"),
        user_message("hello"),
        user_message("again"),
    ];

    let tree = build_thread_tree(&items);

    assert_eq!(tree.turns.len(), 2);
    assert_eq!(tree.turns[0].turn_id, "rollout-0");
    assert_eq!(tree.turns[0].user_message.as_deref(), Some("hello"));
    assert_eq!(tree.turns[1].turn_id, "rollout-2");
    assert_eq!(tree.turns[1].parent_turn_id.as_deref(), Some("rollout-0"));
}

#[test]
fn multi_part_response_message_is_joined_by_newlines() {
    let items = vec![RolloutItem::ResponseItem(ResponseItem::Message {
        role: "user".to_string(),
        content: vec![
            ContentItem::InputText {
                text: "one".to_string(),
            },
            ContentItem::InputImage {
                image_url: "data:".to_string(),
            },
            ContentItem::OutputText {
                text: "two".to_string(),
            },
        ],
    })];

    let tree = build_thread_tree(&items);

    assert_eq!(tree.turns.len(), 1);
    assert_eq!(tree.turns[0].user_message.as_deref(), Some("one\ntwo"));
}

#[test]
fn rollout_index_ids_count_in_decimal() {
    let mut items: Vec<RolloutItem> = (0..12).map(|_| RolloutItem::TurnContext).collect();
    items.push(user_message("late"));

    let tree = build_thread_tree(&items);

    assert_eq!(tree.turns.len(), 1);
    assert_eq!(tree.turns[0].turn_id, "rollout-12");
}

#[test]
fn navigation_to_root_clears_active_leaf() {
    let mut items = Vec::new();
    items.extend(turn("turn-1", "first"));
    items.push(RolloutItem::EventMsg(EventMsg::ThreadNavigated(
        ThreadNavigatedEvent {
            previous_leaf_turn_id: Some("turn-1".to_string()),
            target_turn_id: None,
        },
    )));
    items.extend(turn("turn-2", "second"));

    let tree = build_thread_tree(&items);

    assert_eq!(tree.roots, vec![0, 1]);
    assert!(!tree.turns[0].is_active_path);
    assert!(tree.turns[1].is_active_path);
}

#[test]
fn session_meta_extends_the_active_leaf() {
    let mut items = Vec::new();
    items.extend(turn("turn-1", "first"));
    items.push(RolloutItem::SessionMeta);

    let tree = build_thread_tree(&items);

    assert_eq!(tree.turns[0].rollout_end_index, 4);
}

fn plain_turn(turn_id: &str, parent: Option<&str>, depth: usize) -> ThreadTreeTurn {
    ThreadTreeTurn {
        turn_id: turn_id.to_string(),
        parent_turn_id: parent.map(str::to_string),
        children: Vec::new(),
        depth,
        user_message: None,
        started_at: None,
        completed_at: None,
        is_active_path: false,
        rollout_start_index: 0,
        rollout_end_index: 1,
    }
}

#[test]
fn depths_follow_parents_and_cycles_keep_theirs() {
    let mut looped = vec![plain_turn("self", Some("self"), 5)];
    looped[0].children = vec![0];
    assign_depths(&mut looped, &vec![Some(0)]);
    assert_eq!(looped[0].depth, 5);

    let mut turns = vec![
        plain_turn("a", None, 9),
        plain_turn("b", Some("a"), 9),
        plain_turn("c", Some("b"), 9),
    ];
    assign_depths(&mut turns, &vec![None, Some(0), Some(1)]);
    let depths: Vec<usize> = turns.iter().map(|t| t.depth).collect();
    assert_eq!(depths, vec![0, 1, 2]);
}

#[test]
fn closing_a_pending_turn_appends_a_fresh_turn() {
    let mut pending = Some(PendingTurn {
        turn_id: "t".to_string(),
        parent_turn_id: Some("p".to_string()),
        user_message: Some("hi".to_string()),
        started_at: Some(3),
        completed_at: None,
        started_explicitly: true,
        started_from_response_item: false,
        rollout_start_index: 4,
        rollout_end_index: 6,
    });
    let mut turns = vec![plain_turn("p", None, 0)];
    turns[0].children = vec![7];
    turns[0].is_active_path = true;
    let mut leaf = None;
    finish_pending_turn(&mut pending, &mut turns, &mut leaf);
    assert!(pending.is_none());
    assert_eq!(leaf.as_deref(), Some("t"));
    assert_eq!(turns.len(), 2);
    assert_eq!(turns[0].children, vec![7]);
    assert!(turns[0].is_active_path);
    assert_eq!(turns[1].depth, 0);
    assert!(turns[1].children.is_empty());
    assert_eq!(turns[1].user_message.as_deref(), Some("hi"));
    assert_eq!((turns[1].rollout_start_index, turns[1].rollout_end_index), (4, 6));

    finish_pending_turn(&mut pending, &mut turns, &mut leaf);
    assert_eq!(turns.len(), 2);
}

#[test]
fn leaf_end_only_grows_and_keeps_other_fields() {
    let mut turns = vec![plain_turn("a", None, 2), plain_turn("b", Some("a"), 3)];
    turns[1].children = vec![0];
    turns[1].is_active_path = true;
    extend_current_leaf_rollout_end(&mut turns, &Some("b".to_string()), 8);
    assert_eq!(turns[1].rollout_end_index, 8);
    assert_eq!(turns[1].depth, 3);
    assert_eq!(turns[1].children, vec![0]);
    assert!(turns[1].is_active_path);
    extend_current_leaf_rollout_end(&mut turns, &Some("b".to_string()), 5);
    assert_eq!(turns[1].rollout_end_index, 8);
    extend_current_leaf_rollout_end(&mut turns, &Some("zz".to_string()), 50);
    assert_eq!(turns[0].rollout_end_index, 1);
    assert_eq!(turns[1].rollout_end_index, 8);
}

#[test]
fn turns_open_in_order_and_are_listed_once() {
    let mut items = Vec::new();
    items.push(compacted_item("before"));
    items.extend(turn("t1", "one"));
    items.push(user_message("implicit"));
    items.push(rolled_back(1));
    items.extend(turn("t3", "three"));
    let tree = build_thread_tree(&items);
    let starts: Vec<usize> = tree.turns.iter().map(|t| t.rollout_start_index).collect();
    assert_eq!(starts, vec![1, 4, 6]);
    for start in starts {
        assert!(matches!(
            items[start],
            RolloutItem::EventMsg(EventMsg::TurnStarted(_))
                | RolloutItem::EventMsg(EventMsg::UserMessage(_))
                | RolloutItem::ResponseItem(_)
        ));
    }
    let mut listed: Vec<usize> = tree.roots.clone();
    for turn in &tree.turns {
        listed.extend(turn.children.iter().copied());
    }
    listed.sort();
    assert_eq!(listed, vec![0, 1, 2]);
}

#[test]
fn trees_with_endless_walks_are_not_defined() {
    let mut items = Vec::new();
    items.extend(turn("t1", "one"));
    items.push(rolled_back(1));
    items.extend(turn("t2", "two"));
    assert!(tree_is_defined(&items));
    assert!(tree_is_defined(&[]));

    let mut looping_leaf = Vec::new();
    looping_leaf.extend(empty_turn("x"));
    looping_leaf.extend(empty_turn("y"));
    looping_leaf.extend(empty_turn("x"));
    assert!(!tree_is_defined(&looping_leaf));

    let mut looping_rollback = looping_leaf.clone();
    looping_rollback.push(rolled_back(1));
    assert!(!tree_is_defined(&looping_rollback));

    let mut counted = Vec::new();
    counted.extend(turn("x", "a"));
    counted.extend(turn("y", "b"));
    counted.extend(turn("x", "c"));
    counted.push(rolled_back(5));
    assert!(!tree_is_defined(&counted));
    counted.push(RolloutItem::EventMsg(EventMsg::ThreadNavigated(
        ThreadNavigatedEvent {
            previous_leaf_turn_id: None,
            target_turn_id: None,
        },
    )));
    assert!(tree_is_defined(&counted));
}

#[test]
fn navigating_ahead_to_a_turn_gives_no_tree() {
    let mut items = vec![RolloutItem::EventMsg(EventMsg::ThreadNavigated(
        ThreadNavigatedEvent {
            previous_leaf_turn_id: None,
            target_turn_id: Some("x".to_string()),
        },
    ))];
    items.extend(turn("x", "ahead"));
    assert!(!tree_is_defined(&items));

    let mut backward = Vec::new();
    backward.extend(turn("a", "one"));
    backward.extend(turn("b", "two"));
    backward.push(RolloutItem::EventMsg(EventMsg::ThreadNavigated(
        ThreadNavigatedEvent {
            previous_leaf_turn_id: Some("b".to_string()),
            target_turn_id: Some("a".to_string()),
        },
    )));
    backward.extend(turn("c", "three"));
    assert!(tree_is_defined(&backward));
    let tree = build_thread_tree(&backward);
    let depths: Vec<usize> = tree.turns.iter().map(|t| t.depth).collect();
    assert_eq!(depths, vec![0, 1, 1]);
    assert_eq!(tree.turns[0].children, vec![1, 2]);
}
