//! Tool usage measures: how many lines a tool result hands the model, and how
//! many lines a file edit adds and deletes.
use vstd::prelude::*;

use crate::text::{lines, lines_of};

verus! {

/// Usage measures of one tool call; `None` where a measure does not apply.
#[derive(Debug, Clone, Copy, PartialEq, Eq, Structural)]
pub struct ToolUsage {
    pub model_read_line_count: Option<i64>,
    pub file_edit_line_count: Option<i64>,
    pub file_edit_added_line_count: Option<i64>,
    pub file_edit_deleted_line_count: Option<i64>,
    pub file_edit_file_count: Option<i64>,
}

impl ToolUsage {
    /// No measure set.
    pub open spec fn empty() -> ToolUsage {
        ToolUsage {
            model_read_line_count: None,
            file_edit_line_count: None,
            file_edit_added_line_count: None,
            file_edit_deleted_line_count: None,
            file_edit_file_count: None,
        }
    }
}

impl Default for ToolUsage {
    fn default() -> (r: ToolUsage)
        ensures
            r == ToolUsage::empty(),
    {
        ToolUsage {
            model_read_line_count: None,
            file_edit_line_count: None,
            file_edit_added_line_count: None,
            file_edit_deleted_line_count: None,
            file_edit_file_count: None,
        }
    }
}

/// The output of a tool as the model receives it: plain text, or content
/// items given by their text form (`None` when they have no text).
pub enum FunctionCallOutputBody {
    Text(String),
    ContentItems(Option<String>),
}

/// One file change of an edit.
pub enum FileChange {
    Add { content: String },
    Delete { content: String },
    Update { unified_diff: String, move_path: Option<String> },
}

pub open spec fn i64_max() -> int {
    0x7fff_ffff_ffff_ffff
}

/// `n` capped at `i64::MAX`.
pub open spec fn capped(n: int) -> int {
    if n > i64_max() {
        i64_max()
    } else {
        n
    }
}

/// The number of lines of a text, capped at `i64::MAX`.
pub open spec fn line_count_of(s: Seq<char>) -> int {
    capped(lines_of(s).len() as int)
}

/// A diff line that adds: it begins with `+` but not with the `+++` header.
pub open spec fn is_added_line(l: Seq<char>) -> bool {
    &&& l.len() >= 1
    &&& l[0] == '+'
    &&& !(l.len() >= 3 && l[1] == '+' && l[2] == '+')
}

/// A diff line that deletes: it begins with `-` but not with the `---` header.
pub open spec fn is_deleted_line(l: Seq<char>) -> bool {
    &&& l.len() >= 1
    &&& l[0] == '-'
    &&& !(l.len() >= 3 && l[1] == '-' && l[2] == '-')
}

/// How many of the lines are added lines.
pub open spec fn count_added(ls: Seq<Seq<char>>) -> nat
    decreases ls.len(),
{
    if ls.len() == 0 {
        0
    } else {
        count_added(ls.drop_last()) + if is_added_line(ls.last()) {
            1nat
        } else {
            0nat
        }
    }
}

/// How many of the lines are deleted lines.
pub open spec fn count_deleted(ls: Seq<Seq<char>>) -> nat
    decreases ls.len(),
{
    if ls.len() == 0 {
        0
    } else {
        count_deleted(ls.drop_last()) + if is_deleted_line(ls.last()) {
            1nat
        } else {
            0nat
        }
    }
}

/// The lines added and deleted by a file change: all lines of an added or a
/// deleted file, the `+` and `-` lines of a diff.
pub open spec fn change_counts(change: FileChange) -> (int, int) {
    match change {
        FileChange::Add { content } => (line_count_of(content@), 0),
        FileChange::Delete { content } => (0, line_count_of(content@)),
        FileChange::Update { unified_diff, .. } => (
            capped(count_added(lines_of(unified_diff@)) as int),
            capped(count_deleted(lines_of(unified_diff@)) as int),
        ),
    }
}

/// The lines added by the first `k` changes.
pub open spec fn total_added(changes: Seq<FileChange>, k: int) -> int
    decreases k,
{
    if k <= 0 {
        0
    } else {
        total_added(changes, k - 1) + change_counts(changes[k - 1]).0
    }
}

/// The lines deleted by the first `k` changes.
pub open spec fn total_deleted(changes: Seq<FileChange>, k: int) -> int
    decreases k,
{
    if k <= 0 {
        0
    } else {
        total_deleted(changes, k - 1) + change_counts(changes[k - 1]).1
    }
}

/// The overlay's measure where it has one, else the base's.
pub open spec fn or_else(overlay: Option<i64>, base: Option<i64>) -> Option<i64> {
    match overlay {
        Some(v) => Some(v),
        None => base,
    }
}

/// Each measure of the overlay that is set replaces the base's.
pub open spec fn merged(base: ToolUsage, overlay: ToolUsage) -> ToolUsage {
    ToolUsage {
        model_read_line_count: or_else(overlay.model_read_line_count, base.model_read_line_count),
        file_edit_line_count: or_else(overlay.file_edit_line_count, base.file_edit_line_count),
        file_edit_added_line_count: or_else(
            overlay.file_edit_added_line_count,
            base.file_edit_added_line_count,
        ),
        file_edit_deleted_line_count: or_else(
            overlay.file_edit_deleted_line_count,
            base.file_edit_deleted_line_count,
        ),
        file_edit_file_count: or_else(overlay.file_edit_file_count, base.file_edit_file_count),
    }
}

/// A count as an `i64`, `i64::MAX` when it does not fit.
pub fn usize_to_i64(value: usize) -> (r: i64)
    ensures
        r == capped(value as int),
{
    let wide: u64 = value as u64;
    if wide > 0x7fff_ffff_ffff_ffffu64 {
        0x7fff_ffff_ffff_ffffi64
    } else {
        wide as i64
    }
}

/// The number of lines of a text (as `str::lines` counts them).
pub fn line_count(text: &str) -> (r: i64)
    ensures
        r == line_count_of(text@),
{
    let ls = lines(text);
    usize_to_i64(ls.len())
}

fn add_one_saturating(v: i64) -> (r: i64)
    requires
        v >= 0,
    ensures
        r == capped(v + 1),
{
    if v < 0x7fff_ffff_ffff_ffffi64 {
        v + 1
    } else {
        v
    }
}

/// Two non-negative counts added, capped at `i64::MAX`.
fn add_saturating(a: i64, b: i64) -> (r: i64)
    requires
        a >= 0,
        b >= 0,
    ensures
        r == capped(a + b),
{
    if a > 0x7fff_ffff_ffff_ffffi64 - b {
        0x7fff_ffff_ffff_ffffi64
    } else {
        a + b
    }
}

/// The lines a unified diff adds and deletes; the `+++` and `---` header
/// lines do not count.
pub fn unified_diff_line_counts(diff: &str) -> (r: (i64, i64))
    ensures
        r.0 == capped(count_added(lines_of(diff@)) as int),
        r.1 == capped(count_deleted(lines_of(diff@)) as int),
{
    let ls = lines(diff);
    let ghost spec_lines = lines_of(diff@);
    let mut added: i64 = 0;
    let mut deleted: i64 = 0;
    let mut k: usize = 0;
    while k < ls.len()
        invariant
            k <= ls@.len(),
            ls@.len() == spec_lines.len(),
            forall|x: int| 0 <= x < ls@.len() ==> (#[trigger] ls@[x])@ == spec_lines[x],
            added == capped(count_added(spec_lines.take(k as int)) as int),
            deleted == capped(count_deleted(spec_lines.take(k as int)) as int),
        decreases ls@.len() - k,
    {
        assert(spec_lines.take(k + 1).drop_last() =~= spec_lines.take(k as int));
        let line = &ls[k];
        let n = line.len();
        let header = n >= 3 && ((line[0] == '+' && line[1] == '+' && line[2] == '+') || (line[0]
            == '-' && line[1] == '-' && line[2] == '-'));
        if !header && n >= 1 && line[0] == '+' {
            added = add_one_saturating(added);
        } else if !header && n >= 1 && line[0] == '-' {
            deleted = add_one_saturating(deleted);
        }
        k = k + 1;
    }
    assert(spec_lines.take(ls@.len() as int) =~= spec_lines);
    (added, deleted)
}

/// The lines added and deleted by one file change.
pub fn file_change_line_counts(change: &FileChange) -> (r: (i64, i64))
    ensures
        r.0 == change_counts(*change).0,
        r.1 == change_counts(*change).1,
{
    match change {
        FileChange::Add { content } => (line_count(content.as_str()), 0),
        FileChange::Delete { content } => (0, line_count(content.as_str())),
        FileChange::Update { unified_diff, .. } => unified_diff_line_counts(unified_diff.as_str()),
    }
}

/// The usage of a tool whose output is `text`: the lines the model reads.
pub fn model_read_usage_for_text(text: &str) -> (r: ToolUsage)
    ensures
        r == (ToolUsage { model_read_line_count: Some(line_count_of(text@) as i64), ..ToolUsage::empty() }),
{
    ToolUsage {
        model_read_line_count: Some(line_count(text)),
        file_edit_line_count: None,
        file_edit_added_line_count: None,
        file_edit_deleted_line_count: None,
        file_edit_file_count: None,
    }
}

/// The usage of a tool whose output is content items, given by their text
/// form: the lines of that text, 0 when there is none.
pub fn model_read_usage_for_content_items(items_text: Option<&str>) -> (r: ToolUsage)
    ensures
        r == (ToolUsage {
            model_read_line_count: Some(
                match items_text {
                    Some(t) => line_count_of(t@) as i64,
                    None => 0i64,
                },
            ),
            ..ToolUsage::empty()
        }),
{
    let count = match items_text {
        Some(text) => line_count(text),
        None => 0,
    };
    ToolUsage {
        model_read_line_count: Some(count),
        file_edit_line_count: None,
        file_edit_added_line_count: None,
        file_edit_deleted_line_count: None,
        file_edit_file_count: None,
    }
}

/// The usage of a tool output, by its kind.
pub fn model_read_usage_for_payload(body: &FunctionCallOutputBody) -> (r: ToolUsage)
    ensures
        r == (ToolUsage {
            model_read_line_count: Some(
                match body {
                    FunctionCallOutputBody::Text(t) => line_count_of(t@) as i64,
                    FunctionCallOutputBody::ContentItems(Some(t)) => line_count_of(t@) as i64,
                    FunctionCallOutputBody::ContentItems(None) => 0i64,
                },
            ),
            ..ToolUsage::empty()
        }),
{
    match body {
        FunctionCallOutputBody::Text(text) => model_read_usage_for_text(text.as_str()),
        FunctionCallOutputBody::ContentItems(Some(text)) => model_read_usage_for_content_items(
            Some(text.as_str()),
        ),
        FunctionCallOutputBody::ContentItems(None) => model_read_usage_for_content_items(None),
    }
}

fn first_set(overlay: Option<i64>, base: Option<i64>) -> (r: Option<i64>)
    ensures
        r == or_else(overlay, base),
{
    match overlay {
        Some(v) => Some(v),
        None => base,
    }
}

/// The base usage with each measure that the overlay sets replaced.
pub fn merge_usage(base: ToolUsage, overlay: ToolUsage) -> (r: ToolUsage)
    ensures
        r == merged(base, overlay),
{
    ToolUsage {
        model_read_line_count: first_set(overlay.model_read_line_count, base.model_read_line_count),
        file_edit_line_count: first_set(overlay.file_edit_line_count, base.file_edit_line_count),
        file_edit_added_line_count: first_set(
            overlay.file_edit_added_line_count,
            base.file_edit_added_line_count,
        ),
        file_edit_deleted_line_count: first_set(
            overlay.file_edit_deleted_line_count,
            base.file_edit_deleted_line_count,
        ),
        file_edit_file_count: first_set(overlay.file_edit_file_count, base.file_edit_file_count),
    }
}

/// The usage of a file edit: the lines added and deleted over all changes
/// (each capped at `i64::MAX`), their sum, and the number of files changed.
/// `changes` holds one change per file.
pub fn file_edit_usage_for_changes(changes: &[FileChange]) -> (r: ToolUsage)
    ensures
        r == (ToolUsage {
            file_edit_line_count: Some(
                capped(
                    capped(total_added(changes@, changes@.len() as int)) + capped(
                        total_deleted(changes@, changes@.len() as int),
                    ),
                ) as i64,
            ),
            file_edit_added_line_count: Some(
                capped(total_added(changes@, changes@.len() as int)) as i64,
            ),
            file_edit_deleted_line_count: Some(
                capped(total_deleted(changes@, changes@.len() as int)) as i64,
            ),
            file_edit_file_count: Some(capped(changes@.len() as int) as i64),
            ..ToolUsage::empty()
        }),
{
    let mut added: i64 = 0;
    let mut deleted: i64 = 0;
    let mut k: usize = 0;
    while k < changes.len()
        invariant
            k <= changes@.len(),
            added == capped(total_added(changes@, k as int)),
            deleted == capped(total_deleted(changes@, k as int)),
            total_added(changes@, k as int) >= 0,
            total_deleted(changes@, k as int) >= 0,
        decreases changes@.len() - k,
    {
        let (change_added, change_deleted) = file_change_line_counts(&changes[k]);
        added = add_saturating(added, change_added);
        deleted = add_saturating(deleted, change_deleted);
        k = k + 1;
    }
    ToolUsage {
        model_read_line_count: None,
        file_edit_line_count: Some(add_saturating(added, deleted)),
        file_edit_added_line_count: Some(added),
        file_edit_deleted_line_count: Some(deleted),
        file_edit_file_count: Some(usize_to_i64(changes.len())),
    }
}

/// Each measure that the overlay sets is the merged measure; only a measure
/// the overlay leaves unset shows the base's.
pub proof fn law_overlay_measures_win(base: ToolUsage, overlay: ToolUsage)
    ensures
        overlay.model_read_line_count matches Some(v) ==> merged(base, overlay).model_read_line_count
            == Some(v),
        overlay.model_read_line_count is None ==> merged(base, overlay).model_read_line_count
            == base.model_read_line_count,
        overlay.file_edit_line_count matches Some(v) ==> merged(base, overlay).file_edit_line_count
            == Some(v),
        overlay.file_edit_line_count is None ==> merged(base, overlay).file_edit_line_count
            == base.file_edit_line_count,
        overlay.file_edit_added_line_count matches Some(v) ==> merged(
            base,
            overlay,
        ).file_edit_added_line_count == Some(v),
        overlay.file_edit_added_line_count is None ==> merged(base, overlay).file_edit_added_line_count
            == base.file_edit_added_line_count,
        overlay.file_edit_deleted_line_count matches Some(v) ==> merged(
            base,
            overlay,
        ).file_edit_deleted_line_count == Some(v),
        overlay.file_edit_deleted_line_count is None ==> merged(
            base,
            overlay,
        ).file_edit_deleted_line_count == base.file_edit_deleted_line_count,
        overlay.file_edit_file_count matches Some(v) ==> merged(base, overlay).file_edit_file_count
            == Some(v),
        overlay.file_edit_file_count is None ==> merged(base, overlay).file_edit_file_count
            == base.file_edit_file_count,
{
}

/// Merging with an overlay that sets nothing keeps the base.
pub proof fn law_merge_with_empty_overlay(base: ToolUsage)
    ensures
        merged(base, ToolUsage::empty()) == base,
{
}

/// Merging over a base that sets nothing gives the overlay.
pub proof fn law_merge_over_empty_base(overlay: ToolUsage)
    ensures
        merged(ToolUsage::empty(), overlay) == overlay,
{
}

/// Merging a usage with itself changes nothing.
pub proof fn law_merge_idempotent(u: ToolUsage)
    ensures
        merged(u, u) == u,
{
}

/// Merging in steps is merging at once: the latest overlay that sets a
/// measure wins.
pub proof fn law_merge_associative(a: ToolUsage, b: ToolUsage, c: ToolUsage)
    ensures
        merged(merged(a, b), c) == merged(a, merged(b, c)),
{
}

} // verus!
