use codex_thread_tree::btw_panel::BodyLine;
use codex_thread_tree::btw_panel::BtwPanel;
use codex_thread_tree::btw_panel::BtwPanelContent;
use codex_thread_tree::btw_panel::BtwPanelStatus;
use codex_thread_tree::btw_panel::KeyCode;
use codex_thread_tree::btw_panel::KeyEvent;
use codex_thread_tree::btw_panel::KeyEventKind;
use codex_thread_tree::btw_panel::LineStyle;
use codex_thread_tree::btw_panel::PanelArea;
use codex_thread_tree::btw_panel::BTW_PANEL_MAX_ROWS;

fn row_text(line: &BodyLine) -> String {
    let mut row = " ".repeat(line.indent);
    if line.marked {
        row.push_str("/btw");
    }
    row.push_str(&line.text);
    row
}

/// The screen rows of a panel drawn in a `width` x `height` area at the top
/// left, placed by the panel's layout (every line in these tests fits the
/// width).
fn render_rows(panel: &mut BtwPanel, width: u16, height: u16) -> Vec<String> {
    let area = PanelArea {
        x: 0,
        y: 0,
        width,
        height,
    };
    let mut rows = vec![String::new(); height as usize];
    let Some(layout) = panel.layout(area) else {
        return rows;
    };
    let lines = panel.body_source_lines();
    let scroll = panel.note_drawn(layout.body.height, lines.len());
    for (offset, line) in lines
        .iter()
        .skip(scroll)
        .take(layout.body.height as usize)
        .enumerate()
    {
        rows[layout.body.y as usize + offset] = row_text(line);
    }
    rows[layout.hint.y as usize] = row_text(&panel.hint_line());
    rows
}

fn press(code: KeyCode) -> KeyEvent {
    KeyEvent {
        code,
        kind: KeyEventKind::Press,
    }
}

#[test]
fn renders_question_detail_and_hint() {
    let mut panel = BtwPanel::new();
    panel.set_content(BtwPanelContent::completed(
        "what path we in".to_string(),
        "The current working directory is:\n\n/tmp/demo".to_string(),
    ));

    let line_count = panel.body_source_lines().len();
    let height = panel.desired_height(60, line_count);
    let rendered = render_rows(&mut panel, 60, height).join("\n");
    assert!(rendered.contains("/btw what path we in"));
    assert!(rendered.contains("The current working directory is:"));
    assert!(rendered.contains("/tmp/demo"));
    assert!(rendered.contains("Space, Enter, or Escape to dismiss"));
}

#[test]
fn down_scrolls_and_enter_dismisses_panel() {
    let mut panel = BtwPanel::new();
    panel.set_content(BtwPanelContent::completed(
        "long response".to_string(),
        (0..20)
            .map(|idx| format!("line {idx}"))
            .collect::<Vec<_>>()
            .join("\n"),
    ));

    let line_count = panel.body_source_lines().len();
    let height = panel.desired_height(40, line_count);
    let _ = render_rows(&mut panel, 40, height);
    let down = press(KeyCode::Down);
    assert!(panel.handle_key_event(&down));
    assert_eq!(panel.scroll_offset(), 1);

    let enter = press(KeyCode::Enter);
    assert!(panel.handle_key_event(&enter));
    assert!(!panel.is_visible());
}

#[test]
fn body_lines_of_a_completed_answer() {
    let mut panel = BtwPanel::new();
    panel.set_content(BtwPanelContent::completed(
        "q".to_string(),
        "first\n\nsecond\n".to_string(),
    ));
    let rows: Vec<String> = panel.body_source_lines().iter().map(row_text).collect();
    assert_eq!(
        rows,
        vec![
            "  /btw q".to_string(),
            String::new(),
            "    first".to_string(),
            String::new(),
            "    second".to_string(),
        ]
    );
    let styles: Vec<LineStyle> = panel
        .body_source_lines()
        .iter()
        .map(|line| line.style)
        .collect();
    assert_eq!(
        styles,
        vec![
            LineStyle::Plain,
            LineStyle::Plain,
            LineStyle::Plain,
            LineStyle::Plain,
            LineStyle::Plain,
        ]
    );
}

#[test]
fn running_answer_is_dim_and_failed_answer_red() {
    let mut panel = BtwPanel::new();
    panel.set_content(BtwPanelContent::running("q".to_string()));
    let lines = panel.body_source_lines();
    assert_eq!(lines.len(), 3);
    assert_eq!(lines[2].text, "Running /btw in parallel...");
    assert_eq!(lines[2].style, LineStyle::Dim);

    panel.set_content(BtwPanelContent::failed(
        "q".to_string(),
        "boom".to_string(),
    ));
    let lines = panel.body_source_lines();
    assert_eq!(lines[2].text, "boom");
    assert_eq!(lines[2].style, LineStyle::Red);
    assert_eq!(
        panel.content().as_ref().map(|c| c.status),
        Some(BtwPanelStatus::Failed)
    );
}

#[test]
fn hidden_panel_takes_no_key_and_has_no_body() {
    let mut panel = BtwPanel::new();
    assert!(!panel.handle_key_event(&press(KeyCode::Enter)));
    assert!(!panel.handle_key_event(&press(KeyCode::Down)));
    assert!(panel.body_source_lines().is_empty());
    assert_eq!(panel.desired_height(80, 5), 0);
    assert_eq!(panel.body_height(80, 20), None);
}

#[test]
fn release_is_taken_but_changes_nothing() {
    let mut panel = BtwPanel::new();
    panel.set_content(BtwPanelContent::completed("q".to_string(), "a".to_string()));
    let release = KeyEvent {
        code: KeyCode::Esc,
        kind: KeyEventKind::Release,
    };
    assert!(panel.handle_key_event(&release));
    assert!(panel.is_visible());
    assert!(panel.handle_key_event(&press(KeyCode::Char(' '))));
    assert!(!panel.is_visible());
}

#[test]
fn other_keys_are_not_taken() {
    let mut panel = BtwPanel::new();
    panel.set_content(BtwPanelContent::completed("q".to_string(), "a".to_string()));
    assert!(!panel.handle_key_event(&press(KeyCode::Char('x'))));
    assert!(!panel.handle_key_event(&press(KeyCode::Other)));
    assert!(panel.is_visible());
}

#[test]
fn scrolling_stays_within_the_drawn_lines() {
    let mut panel = BtwPanel::new();
    panel.set_content(BtwPanelContent::completed("q".to_string(), "a".to_string()));
    assert!(panel.handle_key_event(&press(KeyCode::Up)));
    assert_eq!(panel.scroll_offset(), 0);
    assert!(panel.handle_key_event(&press(KeyCode::Down)));
    assert_eq!(panel.scroll_offset(), 0);

    assert_eq!(panel.note_drawn(3, 5), 0);
    for _ in 0..5 {
        panel.handle_key_event(&press(KeyCode::Down));
    }
    assert_eq!(panel.scroll_offset(), 2);
    assert!(panel.handle_key_event(&press(KeyCode::Up)));
    assert_eq!(panel.scroll_offset(), 1);
    assert_eq!(panel.note_drawn(4, 5), 1);
    assert_eq!(panel.note_drawn(5, 5), 0);
    assert_eq!(panel.scroll_offset(), 0);
}

#[test]
fn desired_height_adds_footer_and_caps() {
    let mut panel = BtwPanel::new();
    panel.set_content(BtwPanelContent::completed("q".to_string(), "a".to_string()));
    assert_eq!(panel.desired_height(60, 3), 5);
    assert_eq!(panel.desired_height(60, 7), BTW_PANEL_MAX_ROWS);
    assert_eq!(panel.desired_height(60, 100), BTW_PANEL_MAX_ROWS);
    assert_eq!(panel.desired_height(7, 3), 0);
    assert_eq!(panel.body_height(60, 2), None);
    assert_eq!(panel.body_height(7, 10), None);
    assert_eq!(panel.body_height(8, 10), Some(8));
}

#[test]
fn layout_puts_hint_on_the_last_row() {
    let mut panel = BtwPanel::new();
    let area = PanelArea {
        x: 2,
        y: 10,
        width: 40,
        height: 6,
    };
    assert_eq!(panel.layout(area), None);
    panel.set_content(BtwPanelContent::completed("q".to_string(), "a".to_string()));
    let layout = panel.layout(area).unwrap();
    assert_eq!(
        layout.body,
        PanelArea {
            x: 2,
            y: 10,
            width: 40,
            height: 4
        }
    );
    assert_eq!(
        layout.hint,
        PanelArea {
            x: 2,
            y: 15,
            width: 40,
            height: 1
        }
    );
    assert_eq!(
        panel.layout(PanelArea {
            x: 0,
            y: 0,
            width: 40,
            height: 2
        }),
        None
    );
    assert_eq!(
        panel.layout(PanelArea {
            x: 0,
            y: 65530,
            width: 40,
            height: 10
        })
        .map(|l| l.hint.y),
        Some(65535)
    );
}
