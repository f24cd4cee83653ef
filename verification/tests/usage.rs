use std::collections::HashMap;
use std::path::PathBuf;

use codex_thread_tree::usage::file_change_line_counts;
use codex_thread_tree::usage::file_edit_usage_for_changes;
use codex_thread_tree::usage::line_count;
use codex_thread_tree::usage::merge_usage;
use codex_thread_tree::usage::model_read_usage_for_content_items;
use codex_thread_tree::usage::model_read_usage_for_payload;
use codex_thread_tree::usage::model_read_usage_for_text;
use codex_thread_tree::usage::unified_diff_line_counts;
use codex_thread_tree::usage::usize_to_i64;
use codex_thread_tree::usage::FileChange;
use codex_thread_tree::usage::FunctionCallOutputBody;
use codex_thread_tree::usage::ToolUsage;

#[test]
fn model_read_usage_counts_text_lines() {
    assert_eq!(
        model_read_usage_for_text("one\ntwo\n"),
        ToolUsage {
            model_read_line_count: Some(2),
            ..Default::default()
        }
    );
}

#[test]
fn file_edit_usage_counts_added_deleted_and_files() {
    let changes = HashMap::from([
        (
            PathBuf::from("added.txt"),
            FileChange::Add {
                content: "a\nb\n".to_string(),
            },
        ),
        (
            PathBuf::from("deleted.txt"),
            FileChange::Delete {
                content: "old\n".to_string(),
            },
        ),
        (
            PathBuf::from("updated.txt"),
            FileChange::Update {
                unified_diff: "@@ -1,2 +1,2 @@\n same\n-old\n+new\n".to_string(),
                move_path: None,
            },
        ),
    ]);
    let per_file: Vec<FileChange> = changes.into_values().collect();

    assert_eq!(
        file_edit_usage_for_changes(&per_file),
        ToolUsage {
            file_edit_line_count: Some(5),
            file_edit_added_line_count: Some(3),
            file_edit_deleted_line_count: Some(2),
            file_edit_file_count: Some(3),
            ..Default::default()
        }
    );
}

#[test]
fn line_count_follows_str_lines() {
    assert_eq!(line_count(""), 0);
    assert_eq!(line_count("one"), 1);
    assert_eq!(line_count("one\n"), 1);
    assert_eq!(line_count("one\r\ntwo"), 2);
    assert_eq!(line_count("\n\n"), 2);
    assert_eq!(line_count("a\n\nb"), 3);
}

#[test]
fn usize_to_i64_caps_at_the_largest_i64() {
    assert_eq!(usize_to_i64(0), 0);
    assert_eq!(usize_to_i64(42), 42);
    assert_eq!(usize_to_i64(i64::MAX as usize), i64::MAX);
    assert_eq!(usize_to_i64(usize::MAX), i64::MAX);
}

#[test]
fn diff_headers_are_not_counted() {
    let diff = "--- a/file\n+++ b/file\n@@ -1 +1 @@\n-before\n+after\n+more\n";
    assert_eq!(unified_diff_line_counts(diff), (2, 1));
    assert_eq!(unified_diff_line_counts(""), (0, 0));
    assert_eq!(unified_diff_line_counts(" context\n"), (0, 0));
}

#[test]
fn each_change_kind_counts_its_own_side() {
    let add = FileChange::Add {
        content: "x\ny\nz".to_string(),
    };
    let delete = FileChange::Delete {
        content: "gone\n".to_string(),
    };
    let update = FileChange::Update {
        unified_diff: "-a\n-b\n+c\n".to_string(),
        move_path: Some("moved.txt".to_string()),
    };
    assert_eq!(file_change_line_counts(&add), (3, 0));
    assert_eq!(file_change_line_counts(&delete), (0, 1));
    assert_eq!(file_change_line_counts(&update), (1, 2));
}

#[test]
fn no_changes_give_zero_counts() {
    assert_eq!(
        file_edit_usage_for_changes(&[]),
        ToolUsage {
            file_edit_line_count: Some(0),
            file_edit_added_line_count: Some(0),
            file_edit_deleted_line_count: Some(0),
            file_edit_file_count: Some(0),
            ..Default::default()
        }
    );
}

#[test]
fn content_items_without_text_read_no_lines() {
    assert_eq!(
        model_read_usage_for_content_items(None),
        ToolUsage {
            model_read_line_count: Some(0),
            ..Default::default()
        }
    );
    assert_eq!(
        model_read_usage_for_content_items(Some("a\nb\nc")),
        ToolUsage {
            model_read_line_count: Some(3),
            ..Default::default()
        }
    );
}

#[test]
fn payload_usage_goes_by_body_kind() {
    let text = FunctionCallOutputBody::Text("1\n2\n3\n4\n".to_string());
    assert_eq!(
        model_read_usage_for_payload(&text).model_read_line_count,
        Some(4)
    );
    let items = FunctionCallOutputBody::ContentItems(Some("only".to_string()));
    assert_eq!(
        model_read_usage_for_payload(&items).model_read_line_count,
        Some(1)
    );
    let no_text = FunctionCallOutputBody::ContentItems(None);
    assert_eq!(
        model_read_usage_for_payload(&no_text).model_read_line_count,
        Some(0)
    );
}

#[test]
fn merge_prefers_overlay_measures() {
    let base = ToolUsage {
        model_read_line_count: Some(1),
        file_edit_line_count: Some(2),
        file_edit_added_line_count: None,
        file_edit_deleted_line_count: Some(4),
        file_edit_file_count: None,
    };
    let overlay = ToolUsage {
        model_read_line_count: None,
        file_edit_line_count: Some(20),
        file_edit_added_line_count: Some(30),
        file_edit_deleted_line_count: None,
        file_edit_file_count: None,
    };
    assert_eq!(
        merge_usage(base, overlay),
        ToolUsage {
            model_read_line_count: Some(1),
            file_edit_line_count: Some(20),
            file_edit_added_line_count: Some(30),
            file_edit_deleted_line_count: Some(4),
            file_edit_file_count: None,
        }
    );
    assert_eq!(merge_usage(base, ToolUsage::default()), base);
    assert_eq!(merge_usage(ToolUsage::default(), overlay), overlay);
    assert_eq!(merge_usage(base, base), base);
}
