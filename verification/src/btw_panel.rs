//! The `/btw` side panel: what it shows, and how it scrolls and is dismissed.
use vstd::prelude::*;
use vstd::string::*;

use crate::text::{lines, lines_of, string_of};

verus! {

#[derive(Clone, Copy, Debug, PartialEq, Eq, Structural)]
pub enum BtwPanelStatus {
    Running,
    Completed,
    Failed,
}

/// The question asked with `/btw` and the answer (or progress, or error) shown under it.
#[derive(Clone, Debug, PartialEq, Eq)]
pub struct BtwPanelContent {
    pub question: String,
    pub detail: String,
    pub status: BtwPanelStatus,
}

/// The text shown while the side question runs.
pub open spec fn running_detail() -> Seq<char> {
    "Running /btw in parallel..."@
}

impl BtwPanelContent {
    /// A question still being answered.
    pub fn running(question: String) -> (r: BtwPanelContent)
        ensures
            r.question == question,
            r.detail@ == running_detail(),
            r.status == BtwPanelStatus::Running,
    {
        BtwPanelContent {
            question,
            detail: String::from_str("Running /btw in parallel..."),
            status: BtwPanelStatus::Running,
        }
    }

    /// A question with its answer.
    pub fn completed(question: String, detail: String) -> (r: BtwPanelContent)
        ensures
            r.question == question,
            r.detail == detail,
            r.status == BtwPanelStatus::Completed,
    {
        BtwPanelContent { question, detail, status: BtwPanelStatus::Completed }
    }

    /// A question whose answer failed, with the error.
    pub fn failed(question: String, detail: String) -> (r: BtwPanelContent)
        ensures
            r.question == question,
            r.detail == detail,
            r.status == BtwPanelStatus::Failed,
    {
        BtwPanelContent { question, detail, status: BtwPanelStatus::Failed }
    }
}

/// The keys the panel reacts to; `Other` stands for every other key.
#[derive(Clone, Copy, Debug, PartialEq, Eq, Structural)]
pub enum KeyCode {
    Esc,
    Enter,
    Char(char),
    Up,
    Down,
    Other,
}

#[derive(Clone, Copy, Debug, PartialEq, Eq, Structural)]
pub enum KeyEventKind {
    Press,
    Repeat,
    Release,
}

#[derive(Clone, Copy, Debug, PartialEq, Eq, Structural)]
pub struct KeyEvent {
    pub code: KeyCode,
    pub kind: KeyEventKind,
}

/// The tallest the panel asks to be, footer included.
pub const BTW_PANEL_MAX_ROWS: u16 = 9;

/// Below this width the panel draws nothing.
pub const BTW_PANEL_MIN_WIDTH: u16 = 8;

/// The panel: its content (none when hidden), how far it is scrolled, and
/// the furthest it could scroll when it was last drawn.
pub struct BtwPanel {
    content: Option<BtwPanelContent>,
    scroll_offset: usize,
    last_max_scroll: usize,
}

/// What the panel is, abstractly.
pub struct PanelView {
    pub content: Option<BtwPanelContent>,
    pub scroll_offset: nat,
    pub last_max_scroll: nat,
}

impl PanelView {
    /// The offset never passes the furthest scroll of the last drawing.
    pub open spec fn wf(self) -> bool {
        self.scroll_offset <= self.last_max_scroll
    }
}

impl View for BtwPanel {
    type V = PanelView;

    closed spec fn view(&self) -> PanelView {
        PanelView {
            content: self.content,
            scroll_offset: self.scroll_offset as nat,
            last_max_scroll: self.last_max_scroll as nat,
        }
    }
}

/// The key dismisses the panel: Escape, Enter or Space.
pub open spec fn is_dismiss_key(code: KeyCode) -> bool {
    match code {
        KeyCode::Esc => true,
        KeyCode::Enter => true,
        KeyCode::Char(c) => c == ' ',
        _ => false,
    }
}

/// The event acts: a press or a repeat (a release only reports the key as handled).
pub open spec fn acts(kind: KeyEventKind) -> bool {
    kind == KeyEventKind::Press || kind == KeyEventKind::Repeat
}

/// The panel after a key event, and whether the panel handled the key.
pub open spec fn after_key(p: PanelView, key: KeyEvent) -> (PanelView, bool) {
    if p.content is None {
        (p, false)
    } else if is_dismiss_key(key.code) {
        (
            if acts(key.kind) {
                PanelView { content: None, scroll_offset: 0, last_max_scroll: 0 }
            } else {
                p
            },
            true,
        )
    } else if key.code == KeyCode::Up {
        (
            if acts(key.kind) {
                PanelView {
                    scroll_offset: if p.scroll_offset > 0 {
                        (p.scroll_offset - 1) as nat
                    } else {
                        0
                    },
                    ..p
                }
            } else {
                p
            },
            true,
        )
    } else if key.code == KeyCode::Down {
        (
            if acts(key.kind) {
                PanelView {
                    scroll_offset: if p.scroll_offset + 1 <= p.last_max_scroll {
                        p.scroll_offset + 1
                    } else {
                        p.last_max_scroll
                    },
                    ..p
                }
            } else {
                p
            },
            true,
        )
    } else {
        (p, false)
    }
}

/// The rows left for the body in an area of the given size, when the panel
/// draws at all: it needs content, a width of at least the minimum, and a
/// height above the two footer rows.
pub open spec fn body_height_in(p: PanelView, width: u16, height: u16) -> Option<u16> {
    if width == 0 || height == 0 || width < BTW_PANEL_MIN_WIDTH || p.content is None {
        None
    } else if height <= 2 {
        None
    } else {
        Some((height - 2) as u16)
    }
}

/// A rectangle of terminal cells.
#[derive(Clone, Copy, Debug, PartialEq, Eq, Structural)]
pub struct PanelArea {
    pub x: u16,
    pub y: u16,
    pub width: u16,
    pub height: u16,
}

/// Where the panel draws: its body, and the one row of its hint.
#[derive(Clone, Copy, Debug, PartialEq, Eq, Structural)]
pub struct PanelLayout {
    pub body: PanelArea,
    pub hint: PanelArea,
}

/// `a + b`, held at `u16::MAX`.
pub open spec fn saturating_add_u16(a: int, b: int) -> int {
    if a + b > 65535 {
        65535
    } else {
        a + b
    }
}

/// The layout of the panel in `area`, when it draws at all (see
/// `body_height_in`): the body at the top of the area, the rows of the area
/// but the last two; an empty row; the hint in the row after it.
pub open spec fn layout_in(p: PanelView, area: PanelArea) -> Option<PanelLayout> {
    match body_height_in(p, area.width, area.height) {
        None => None,
        Some(h) => Some(
            PanelLayout {
                body: PanelArea { x: area.x, y: area.y, width: area.width, height: h },
                hint: PanelArea {
                    x: area.x,
                    y: saturating_add_u16(saturating_add_u16(area.y as int, h as int), 1) as u16,
                    width: area.width,
                    height: 1,
                },
            },
        ),
    }
}

impl BtwPanel {
    /// Where the panel draws in `area` (see `layout_in`); `None` when it
    /// draws nothing.
    pub fn layout(&self, area: PanelArea) -> (r: Option<PanelLayout>)
        ensures
            r == layout_in(self@, area),
    {
        match self.body_height(area.width, area.height) {
            None => None,
            Some(h) => {
                let below_body = if area.y > 65535 - h {
                    65535
                } else {
                    area.y + h
                };
                let hint_y = if below_body == 65535 {
                    65535
                } else {
                    below_body + 1
                };
                Some(
                    PanelLayout {
                        body: PanelArea { x: area.x, y: area.y, width: area.width, height: h },
                        hint: PanelArea { x: area.x, y: hint_y, width: area.width, height: 1 },
                    },
                )
            },
        }
    }

    /// A hidden panel.
    pub fn new() -> (r: BtwPanel)
        ensures
            r@ == (PanelView { content: None, scroll_offset: 0, last_max_scroll: 0 }),
            r@.wf(),
    {
        BtwPanel { content: None, scroll_offset: 0, last_max_scroll: 0 }
    }

    /// Whether the panel shows something.
    pub fn is_visible(&self) -> (r: bool)
        ensures
            r == (self@.content is Some),
    {
        self.content.is_some()
    }

    /// The current scroll offset.
    pub fn scroll_offset(&self) -> (r: usize)
        ensures
            r == self@.scroll_offset,
    {
        self.scroll_offset
    }

    /// The content shown, if any.
    pub fn content(&self) -> (r: &Option<BtwPanelContent>)
        ensures
            *r == self@.content,
    {
        &self.content
    }

    /// Shows new content, scrolled to the top.
    pub fn set_content(&mut self, content: BtwPanelContent)
        ensures
            final(self)@ == (PanelView { content: Some(content), scroll_offset: 0, last_max_scroll: 0 }),
            final(self)@.wf(),
    {
        self.content = Some(content);
        self.scroll_offset = 0;
        self.last_max_scroll = 0;
    }

    /// Hides the panel.
    pub fn clear(&mut self)
        ensures
            final(self)@ == (PanelView { content: None, scroll_offset: 0, last_max_scroll: 0 }),
            final(self)@.wf(),
    {
        self.content = None;
        self.scroll_offset = 0;
        self.last_max_scroll = 0;
    }

    /// Reacts to a key: Escape, Enter and Space dismiss the panel, Up and
    /// Down scroll it; the result says whether the panel took the key (it
    /// takes none while hidden).
    pub fn handle_key_event(&mut self, key_event: &KeyEvent) -> (handled: bool)
        ensures
            (final(self)@, handled) == after_key(old(self)@, *key_event),
            old(self)@.wf() ==> final(self)@.wf(),
    {
        if self.content.is_none() {
            return false;
        }
        let acting = match key_event.kind {
            KeyEventKind::Press => true,
            KeyEventKind::Repeat => true,
            KeyEventKind::Release => false,
        };
        match key_event.code {
            KeyCode::Esc | KeyCode::Enter => {
                if acting {
                    self.clear();
                }
                true
            },
            KeyCode::Char(c) => {
                if c == ' ' {
                    if acting {
                        self.clear();
                    }
                    true
                } else {
                    false
                }
            },
            KeyCode::Up => {
                if acting && self.scroll_offset > 0 {
                    self.scroll_offset = self.scroll_offset - 1;
                }
                true
            },
            KeyCode::Down => {
                if acting {
                    let next = if self.scroll_offset < self.last_max_scroll {
                        self.scroll_offset + 1
                    } else {
                        self.last_max_scroll
                    };
                    self.scroll_offset = next;
                }
                true
            },
            KeyCode::Other => false,
        }
    }

    /// The rows for the body when the panel draws in an area of the given
    /// size (see `body_height_in`); `None` when it draws nothing.
    pub fn body_height(&self, width: u16, height: u16) -> (r: Option<u16>)
        ensures
            r == body_height_in(self@, width, height),
    {
        if width == 0 || height == 0 || width < BTW_PANEL_MIN_WIDTH || self.content.is_none() {
            return None;
        }
        if height <= 2 {
            return None;
        }
        Some(height - 2)
    }

    /// Records a drawing of `line_count` body lines in `body_height` rows:
    /// the furthest scroll becomes the lines that do not fit, and the offset
    /// is held within it. Returns the offset to draw from.
    pub fn note_drawn(&mut self, body_height: u16, line_count: usize) -> (scroll: usize)
        ensures
            final(self)@.content == old(self)@.content,
            final(self)@.last_max_scroll == (if line_count > body_height {
                line_count - body_height
            } else {
                0
            }),
            final(self)@.scroll_offset == (if old(self)@.scroll_offset <= final(self)@.last_max_scroll {
                old(self)@.scroll_offset
            } else {
                final(self)@.last_max_scroll
            }),
            scroll == final(self)@.scroll_offset,
            final(self)@.wf(),
    {
        let rows = body_height as usize;
        let max_scroll = if line_count > rows {
            line_count - rows
        } else {
            0
        };
        self.last_max_scroll = max_scroll;
        let scroll = if self.scroll_offset <= max_scroll {
            self.scroll_offset
        } else {
            max_scroll
        };
        self.scroll_offset = scroll;
        scroll
    }

    /// The height the panel asks for when its body has `body_line_count`
    /// lines at `width`: the body and two footer rows, at most
    /// `BTW_PANEL_MAX_ROWS`; 0 when hidden or too narrow. (The line count is
    /// taken modulo 2^16, as a cast to `u16` does.)
    pub fn desired_height(&self, width: u16, body_line_count: usize) -> (h: u16)
        ensures
            h == (if self@.content is None || width < BTW_PANEL_MIN_WIDTH {
                0
            } else {
                let rows = body_line_count % 65536;
                let with_footer = if rows + 2 > 65535 {
                    65535
                } else {
                    rows + 2
                };
                if with_footer < BTW_PANEL_MAX_ROWS {
                    with_footer
                } else {
                    BTW_PANEL_MAX_ROWS as int
                }
            }),
    {
        if self.content.is_none() || width < BTW_PANEL_MIN_WIDTH {
            return 0;
        }
        let rows: u16 = (body_line_count % 65536) as u16;
        let with_footer: u16 = if rows > 65533 {
            65535
        } else {
            rows + 2
        };
        if with_footer < BTW_PANEL_MAX_ROWS {
            with_footer
        } else {
            BTW_PANEL_MAX_ROWS
        }
    }
}

/// Where the area ends inside the screen's coordinates, the panel draws only
/// inside it: the body is its top rows but the last two, and the hint is its
/// last row, below an empty one.
pub proof fn law_layout_stays_inside_area(p: PanelView, area: PanelArea)
    requires
        area.y + area.height <= 65535,
        layout_in(p, area) is Some,
    ensures
        ({
            let l = layout_in(p, area)->0;
            &&& l.body.x == area.x && l.body.width == area.width
            &&& l.body.y == area.y
            &&& l.body.height + 2 == area.height
            &&& l.hint.x == area.x && l.hint.width == area.width && l.hint.height == 1
            &&& l.hint.y == area.y + area.height - 1
        }),
{
}

/// Holding Up or Down (a repeat) scrolls the panel exactly as pressing the
/// key does.
pub proof fn law_repeat_scrolls_like_press(p: PanelView)
    ensures
        after_key(p, KeyEvent { code: KeyCode::Down, kind: KeyEventKind::Repeat }) == after_key(
            p,
            KeyEvent { code: KeyCode::Down, kind: KeyEventKind::Press },
        ),
        after_key(p, KeyEvent { code: KeyCode::Up, kind: KeyEventKind::Repeat }) == after_key(
            p,
            KeyEvent { code: KeyCode::Up, kind: KeyEventKind::Press },
        ),
{
}

/// On a shown panel that can scroll further, Down (pressed or held) moves one
/// line down and Up (pressed or held) one line back up from any line but the
/// first; both are taken.
pub proof fn law_arrows_move_one_line(p: PanelView, kind: KeyEventKind)
    requires
        p.content is Some,
        kind != KeyEventKind::Release,
    ensures
        p.scroll_offset < p.last_max_scroll ==> after_key(p, KeyEvent { code: KeyCode::Down, kind })
            == (PanelView { scroll_offset: p.scroll_offset + 1, ..p }, true),
        p.scroll_offset > 0 ==> after_key(p, KeyEvent { code: KeyCode::Up, kind }) == (PanelView {
            scroll_offset: (p.scroll_offset - 1) as nat,
            ..p
        }, true),
{
}

/// A hidden panel takes no key and stays as it is.
pub proof fn law_hidden_panel_ignores_keys(p: PanelView, key: KeyEvent)
    requires
        p.content is None,
    ensures
        after_key(p, key) == (p, false),
{
}

/// Escape, Enter or Space pressed on a shown panel hides it.
pub proof fn law_dismiss_hides_panel(p: PanelView, key: KeyEvent)
    requires
        p.content is Some,
        is_dismiss_key(key.code),
        acts(key.kind),
    ensures
        after_key(p, key).1,
        after_key(p, key).0.content is None,
{
}

/// No key moves the offset past the furthest scroll of the last drawing.
pub proof fn law_keys_keep_scroll_in_range(p: PanelView, key: KeyEvent)
    requires
        p.wf(),
    ensures
        after_key(p, key).0.wf(),
{
}

/// Scrolling down one line and back up returns to where the panel was,
/// when it could scroll further down.
pub proof fn law_down_then_up_returns(p: PanelView, kind: KeyEventKind)
    requires
        p.content is Some,
        p.scroll_offset < p.last_max_scroll,
        acts(kind),
    ensures
        after_key(after_key(p, KeyEvent { code: KeyCode::Down, kind }).0, KeyEvent { code: KeyCode::Up, kind }).0 == p,
{
}

/// How a body line is drawn.
#[derive(Clone, Copy, Debug, PartialEq, Eq, Structural)]
pub enum LineStyle {
    Plain,
    Dim,
    Red,
}

/// A line of the panel's body before it is wrapped to the width: an indent
/// repeated on each wrapped row, the `/btw` marker (drawn in magenta) when
/// `marked`, then the text in the given style.
pub struct BodyLine {
    pub indent: usize,
    pub marked: bool,
    pub text: String,
    pub style: LineStyle,
}

/// A body line, abstractly.
pub struct BodyLineModel {
    pub indent: nat,
    pub marked: bool,
    pub text: Seq<char>,
    pub style: LineStyle,
}

pub open spec fn body_line_model(l: BodyLine) -> BodyLineModel {
    BodyLineModel { indent: l.indent as nat, marked: l.marked, text: l.text@, style: l.style }
}

/// The style of the answer's lines: dim while running, red on failure.
pub open spec fn detail_style(status: BtwPanelStatus) -> LineStyle {
    match status {
        BtwPanelStatus::Running => LineStyle::Dim,
        BtwPanelStatus::Completed => LineStyle::Plain,
        BtwPanelStatus::Failed => LineStyle::Red,
    }
}

/// A line of the answer: an empty line stays empty and unindented; any
/// other is indented by four.
pub open spec fn detail_line(line: Seq<char>, status: BtwPanelStatus) -> BodyLineModel {
    if line.len() == 0 {
        BodyLineModel { indent: 0, marked: false, text: Seq::empty(), style: LineStyle::Plain }
    } else {
        BodyLineModel { indent: 4, marked: false, text: line, style: detail_style(status) }
    }
}

/// The body: `/btw <question>` indented by two, an empty line, then the
/// lines of the answer.
pub open spec fn body_source(c: BtwPanelContent) -> Seq<BodyLineModel> {
    seq![
        BodyLineModel { indent: 2, marked: true, text: " "@ + c.question@, style: LineStyle::Plain },
        BodyLineModel { indent: 0, marked: false, text: Seq::empty(), style: LineStyle::Plain },
    ] + lines_of(c.detail@).map_values(|l: Seq<char>| detail_line(l, c.status))
}

/// The footer: how to scroll and how to dismiss, dim, indented by two.
pub open spec fn hint() -> BodyLineModel {
    BodyLineModel {
        indent: 2,
        marked: false,
        text: "↑/↓ to scroll · Space, Enter, or Escape to dismiss"@,
        style: LineStyle::Dim,
    }
}

impl BtwPanel {
    /// The footer line (see `hint`).
    pub fn hint_line(&self) -> (r: BodyLine)
        ensures
            body_line_model(r) == hint(),
    {
        BodyLine {
            indent: 2,
            marked: false,
            text: String::from_str("↑/↓ to scroll · Space, Enter, or Escape to dismiss"),
            style: LineStyle::Dim,
        }
    }

    /// The lines of the body before wrapping (see `body_source`); none while
    /// the panel is hidden.
    pub fn body_source_lines(&self) -> (r: Vec<BodyLine>)
        ensures
            r@.map_values(|l: BodyLine| body_line_model(l)) == match self@.content {
                Some(c) => body_source(c),
                None => Seq::empty(),
            },
    {
        let mut out: Vec<BodyLine> = Vec::new();
        let content = match &self.content {
            Some(c) => c,
            None => {
                assert(out@.map_values(|l: BodyLine| body_line_model(l)) =~= Seq::<BodyLineModel>::empty());
                return out;
            },
        };
        let mut question = String::from_str(" ");
        question.append(content.question.as_str());
        out.push(BodyLine { indent: 2, marked: true, text: question, style: LineStyle::Plain });
        out.push(BodyLine { indent: 0, marked: false, text: String::new(), style: LineStyle::Plain });
        let style = match content.status {
            BtwPanelStatus::Running => LineStyle::Dim,
            BtwPanelStatus::Completed => LineStyle::Plain,
            BtwPanelStatus::Failed => LineStyle::Red,
        };
        let ls = lines(content.detail.as_str());
        let ghost head = out@.map_values(|l: BodyLine| body_line_model(l));
        let ghost detail = lines_of(content.detail@);
        let mut k: usize = 0;
        while k < ls.len()
            invariant
                k <= ls@.len(),
                ls@.len() == detail.len(),
                forall|x: int| 0 <= x < ls@.len() ==> (#[trigger] ls@[x])@ == detail[x],
                style == detail_style(content.status),
                out@.map_values(|l: BodyLine| body_line_model(l)) == head + detail.take(
                    k as int,
                ).map_values(|l: Seq<char>| detail_line(l, content.status)),
            decreases ls@.len() - k,
        {
            let ghost before = out@.map_values(|l: BodyLine| body_line_model(l));
            let line = &ls[k];
            if line.len() == 0 {
                out.push(BodyLine { indent: 0, marked: false, text: String::new(), style: LineStyle::Plain });
            } else {
                out.push(BodyLine { indent: 4, marked: false, text: string_of(line), style });
            }
            assert(out@.map_values(|l: BodyLine| body_line_model(l)) =~= before.push(
                detail_line(detail[k as int], content.status),
            ));
            assert(detail.take(k + 1).map_values(|l: Seq<char>| detail_line(l, content.status))
                =~= detail.take(k as int).map_values(|l: Seq<char>| detail_line(l, content.status)).push(
                detail_line(detail[k as int], content.status),
            ));
            k = k + 1;
        }
        assert(detail.take(k as int) =~= detail);
        out
    }
}

} // verus!
