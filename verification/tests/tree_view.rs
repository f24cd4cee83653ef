use codex_thread_tree::thread_tree::build_thread_tree;
use codex_thread_tree::thread_tree::ThreadTree;
use codex_thread_tree::thread_tree::ThreadTreeTurn;
use codex_thread_tree::rollout::EventMsg;
use codex_thread_tree::rollout::RolloutItem;
use codex_thread_tree::rollout::ThreadRolledBackEvent;
use codex_thread_tree::rollout::TurnCompleteEvent;
use codex_thread_tree::rollout::TurnStartedEvent;
use codex_thread_tree::rollout::UserMessageEvent;
use codex_thread_tree::listing_check::tree_is_listable;
use codex_thread_tree::tree_view::build_thread_tree_params;
use codex_thread_tree::tree_view::flattened_turns;
use codex_thread_tree::tree_view::ordered_children;
use codex_thread_tree::tree_view::ordered_roots;
use codex_thread_tree::tree_view::short_turn_id;
use codex_thread_tree::tree_view::shorten_message;

fn tree_turn(
    turn_id: &str,
    parent: Option<&str>,
    children: Vec<usize>,
    depth: usize,
    message: &str,
    is_active_path: bool,
    index: usize,
) -> ThreadTreeTurn {
    ThreadTreeTurn {
        turn_id: turn_id.to_string(),
        parent_turn_id: parent.map(str::to_string),
        children,
        depth,
        user_message: Some(message.to_string()),
        started_at: None,
        completed_at: None,
        is_active_path,
        rollout_start_index: index,
        rollout_end_index: index + 1,
    }
}

fn rows_of(tree: &ThreadTree) -> String {
    let params = build_thread_tree_params(tree);
    params
        .items
        .iter()
        .map(|item| format!("{}{} -- {}", item.name_prefix, item.name, item.description))
        .collect::<Vec<_>>()
        .join("\n")
}

fn branch_tree() -> ThreadTree {
    ThreadTree {
        active_leaf_turn_id: Some("turn-3b".to_string()),
        roots: vec![0],
        turns: vec![
            tree_turn("turn-1", None, vec![1, 2], 0, "first", true, 0),
            tree_turn("turn-2a", Some("turn-1"), Vec::new(), 1, "second A", false, 1),
            tree_turn("turn-3b", Some("turn-1"), Vec::new(), 1, "second B", true, 2),
        ],
    }
}

#[test]
fn renders_branch_labels() {
    let tree = branch_tree();
    assert_eq!(
        rows_of(&tree),
        "root -- Before the first user turn\n\
         first -- turn turn-1 - 2 branches - active path\n\
         |- second B -- turn turn-3b - active path\n\
         `- second A -- turn turn-2a"
    );
}

#[test]
fn active_leaf_is_current_and_selected() {
    let tree = branch_tree();
    let params = build_thread_tree_params(&tree);
    assert_eq!(params.initial_selected_idx, Some(2));
    let current: Vec<bool> = params.items.iter().map(|item| item.is_current).collect();
    assert_eq!(current, vec![false, false, true, false]);
    assert_eq!(params.items[0].target_turn_id, None);
    assert_eq!(params.items[0].search_value, "root start beginning");
    assert_eq!(params.items[2].target_turn_id.as_deref(), Some("turn-3b"));
    assert_eq!(params.items[2].search_value, "turn-3b second B");
    assert_eq!(params.title, "Conversation Tree");
    assert_eq!(params.subtitle, "Select a turn to make that branch active");
    assert_eq!(params.search_placeholder, "Search branches");
}

#[test]
fn without_active_leaf_root_is_current() {
    let mut tree = branch_tree();
    tree.active_leaf_turn_id = None;
    let params = build_thread_tree_params(&tree);
    assert_eq!(params.initial_selected_idx, None);
    assert!(params.items[0].is_current);
    assert!(params.items[1..].iter().all(|item| !item.is_current));
}

#[test]
fn turn_without_message_and_deep_prefixes() {
    let mut turns = vec![
        tree_turn("a", None, vec![1, 3], 0, "top", false, 0),
        tree_turn("b", Some("a"), vec![2], 1, "mid", false, 1),
        tree_turn("c", Some("b"), Vec::new(), 2, "low", false, 2),
        tree_turn("d", Some("a"), Vec::new(), 1, "side", false, 3),
    ];
    turns[2].user_message = None;
    let tree = ThreadTree {
        active_leaf_turn_id: None,
        roots: vec![0],
        turns,
    };
    assert_eq!(
        rows_of(&tree),
        "root -- Before the first user turn\n\
         top -- turn a - 2 branches\n\
         |- mid -- turn b\n\
         |  `- (no user message) -- turn c\n\
         `- side -- turn d"
    );
    let flat: Vec<(usize, String)> = flattened_turns(&tree)
        .into_iter()
        .map(|turn| (turn.index, turn.prefix))
        .collect();
    assert_eq!(
        flat,
        vec![
            (0, String::new()),
            (1, "|- ".to_string()),
            (2, "|  `- ".to_string()),
            (3, "`- ".to_string()),
        ]
    );
}

#[test]
fn order_puts_active_path_then_start_time_then_index() {
    let mut turns = vec![
        tree_turn("r0", None, Vec::new(), 0, "r0", false, 0),
        tree_turn("r1", None, Vec::new(), 0, "r1", false, 1),
        tree_turn("r2", None, Vec::new(), 0, "r2", true, 2),
        tree_turn("r3", None, Vec::new(), 0, "r3", false, 3),
    ];
    turns[0].started_at = Some(5);
    turns[1].started_at = Some(3);
    let tree = ThreadTree {
        active_leaf_turn_id: Some("r2".to_string()),
        roots: vec![0, 1, 2, 3],
        turns,
    };
    assert_eq!(ordered_roots(&tree), vec![2, 3, 1, 0]);
    assert_eq!(ordered_children(&tree, 0), Vec::<usize>::new());
}

#[test]
fn built_tree_lists_every_turn_once() {
    let item = |e: EventMsg| RolloutItem::EventMsg(e);
    let mut items = Vec::new();
    for (id, message) in [("t1", "one"), ("t2", "two")] {
        items.push(item(EventMsg::TurnStarted(TurnStartedEvent {
            turn_id: id.to_string(),
            started_at: None,
        })));
        items.push(item(EventMsg::UserMessage(UserMessageEvent {
            message: message.to_string(),
        })));
        items.push(item(EventMsg::TurnComplete(TurnCompleteEvent {
            turn_id: id.to_string(),
            completed_at: None,
        })));
    }
    items.push(item(EventMsg::ThreadRolledBack(ThreadRolledBackEvent {
        num_turns: 1,
    })));
    items.push(item(EventMsg::TurnStarted(TurnStartedEvent {
        turn_id: "t3".to_string(),
        started_at: None,
    })));
    items.push(item(EventMsg::UserMessage(UserMessageEvent {
        message: "three".to_string(),
    })));
    let tree = build_thread_tree(&items);
    assert_eq!(
        rows_of(&tree),
        "root -- Before the first user turn\n\
         one -- turn t1 - 2 branches - active path\n\
         |- three -- turn t3 - active path\n\
         `- two -- turn t2"
    );
    assert_eq!(
        build_thread_tree_params(&tree).initial_selected_idx,
        Some(2)
    );
}

#[test]
fn shorten_message_takes_first_trimmed_line() {
    assert_eq!(shorten_message("  hello  \nsecond"), "hello");
    assert_eq!(shorten_message(""), "");
    let long: String = "x".repeat(81);
    let short = shorten_message(&long);
    assert_eq!(short.chars().count(), 80);
    assert!(short.ends_with("..."));
    assert_eq!(&short[..77], &long[..77]);
    let exact: String = "y".repeat(80);
    assert_eq!(shorten_message(&exact), exact);
}

#[test]
fn short_turn_id_keeps_eight_bytes() {
    assert_eq!(short_turn_id("0123456789abcdef"), "01234567");
    assert_eq!(short_turn_id("turn-1"), "turn-1");
    assert_eq!(short_turn_id("12345678"), "12345678");
    assert_eq!(short_turn_id("1234567\u{e9}x"), "1234567\u{e9}x");
    assert_eq!(short_turn_id("123456\u{e9}x"), "123456\u{e9}");
}

#[test]
fn turns_off_every_root_are_not_listed() {
    let tree = ThreadTree {
        active_leaf_turn_id: Some("a".to_string()),
        roots: vec![0],
        turns: vec![
            tree_turn("a", None, Vec::new(), 0, "root turn", true, 0),
            tree_turn("b", Some("c"), vec![2], 0, "loop one", false, 1),
            tree_turn("c", Some("b"), vec![1], 0, "loop two", false, 2),
        ],
    };
    let listed: Vec<usize> = flattened_turns(&tree)
        .into_iter()
        .map(|turn| turn.index)
        .collect();
    assert_eq!(listed, vec![0]);
    assert_eq!(
        rows_of(&tree),
        "root -- Before the first user turn\n\
         root turn -- turn a - active path"
    );
}

#[test]
fn listable_trees_are_told_apart() {
    assert!(tree_is_listable(&branch_tree()));

    let mut looped = branch_tree();
    looped.turns[2].children = vec![0];
    assert!(!tree_is_listable(&looped));

    let mut dangling = branch_tree();
    dangling.turns[1].children = vec![7];
    assert!(!tree_is_listable(&dangling));

    let mut bad_root = branch_tree();
    bad_root.roots = vec![3];
    assert!(!tree_is_listable(&bad_root));
}

#[test]
fn unreached_turns_are_not_read() {
    let mut tree = branch_tree();
    tree.turns.push(tree_turn("stray", Some("gone"), vec![42], 0, "stray", false, 3));
    assert!(tree_is_listable(&tree));
    assert_eq!(
        rows_of(&tree),
        "root -- Before the first user turn\n\
         first -- turn turn-1 - 2 branches - active path\n\
         |- second B -- turn turn-3b - active path\n\
         `- second A -- turn turn-2a"
    );
}
