//! The editor: the text as lines, the cursor, scrolling, the status message,
//! and what each key press does to them.
use std::time::Instant;
use vstd::prelude::*;
use crate::Position;
use crate::fmt::{decimal, decimal_string, pad_right, pad_to};
use crate::keyboard::{KeyCode, KeyEvent, CONTROL, NONE, SHIFT};
use crate::raw::{
    lemma_render_len,
    fits_drawn, law_del_char_undoes_insert_char, lemma_renderable_empty, prefix_col, renderable, render_of, Raw,
};
use crate::screen::{bar_status, paint_view, Paint, Screen};
use crate::text::{
    all_ascii, byte_len, char_index, char_width, lemma_ascii_boundary, lemma_ascii_remove, lemma_boundary,
    lemma_char_width, lemma_insert_bytes, lemma_byte_len_concat, lemma_char_index_of_prefix, lemma_byte_len_push, lemma_len_le_byte_len, on_boundary,
    boundary_at, char_index_at, push_all, str_len, string_len, string_of, string_push,
};
use vstd::string::StrSliceExecFns;

verus! {

/// How many times Ctrl+q must be pressed again to quit with unsaved changes.
pub const QUIT_TIME: usize = 3;

#[verifier::external_type_specification]
#[verifier::external_body]
pub struct ExInstant(Instant);

/// `Instant::now`: the current time; nothing is known of its value.
#[verifier::external_body]
fn instant_now() -> Instant {
    Instant::now()
}

/// `Instant::elapsed`, converted to nanoseconds; it depends on the clock,
/// so nothing is known of its value.
#[verifier::external_body]
fn elapsed_nanos(t: &Instant) -> u128 {
    t.elapsed().as_nanos()
}

/// A cursor move.
#[derive(Clone, Copy, PartialEq, Eq, Structural, Debug)]
pub enum EditorKey {
    Up,
    Right,
    Left,
    Down,
}

/// What the caller of `process_key` has to do next.
#[derive(Clone, Copy, PartialEq, Eq, Structural, Debug)]
pub enum KeyAction {
    /// Go on reading keys.
    Continue,
    /// Save the text (see `Editor::save_to`), then go on.
    Save,
    /// Leave the editor.
    Quit,
}

/// The state of the editor as values.
#[verifier::ext_equal]
pub struct EditorView {
    pub filename: Seq<char>,
    pub width: u16,
    pub hight: u16,
    pub status_msg: Seq<char>,
    pub cx: u16,
    pub cy: u16,
    pub render_x: u16,
    pub rows: Seq<Seq<char>>,
    pub rowsoff: u16,
    pub coloff: u16,
    pub dirty: usize,
    pub quit_time: usize,
}

/// The smaller of two `u16`.
pub open spec fn min16(a: u16, b: u16) -> u16 {
    if a <= b {
        a
    } else {
        b
    }
}

/// The lines of a text read as `data`: a last empty line, which a final
/// line break leaves, is dropped.
pub open spec fn loaded_rows(data: Seq<Seq<char>>) -> Seq<Seq<char>> {
    if data.len() == 0 {
        data
    } else if data.last().len() == 0 {
        data.drop_last()
    } else {
        data
    }
}

/// `s` cut at every line break.
pub open spec fn split_lines(s: Seq<char>) -> Seq<Seq<char>>
    decreases s.len(),
{
    if s.len() == 0 {
        seq![Seq::empty()]
    } else {
        let lines = split_lines(s.drop_last());
        if s.last() == '\n' {
            lines.push(Seq::empty())
        } else {
            lines.update(lines.len() - 1, lines.last().push(s.last()))
        }
    }
}

/// The text of `rows`, each followed by a line break.
pub open spec fn rows_text(rows: Seq<Seq<char>>) -> Seq<char>
    decreases rows.len(),
{
    if rows.len() == 0 {
        Seq::empty()
    } else {
        rows_text(rows.drop_last()) + rows.last().push('\n')
    }
}

/// The warning shown when Ctrl+q is pressed with unsaved changes.
pub open spec fn quit_warning(quit_time: nat) -> Seq<char> {
    "warning!!! filename unsaved changes.Press Ctrl + q "@ + decimal(quit_time)
        + " more time to quit"@
}

/// How long a status message stays, in nanoseconds.
pub const STATUS_LIFETIME: u128 = 5_000_000_000;

/// The status message `msg` once it is `age` nanoseconds old: cleared after
/// five seconds.
pub open spec fn expired_status(msg: Seq<char>, age: u128) -> Seq<char> {
    if msg.len() > 0 && age > STATUS_LIFETIME {
        Seq::empty()
    } else {
        msg
    }
}

/// The help shown when the editor starts.
pub open spec fn help_message() -> Seq<char> {
    "HELP: Ctrl+q = quit  && Ctrl+s = save"@
}

/// The left part of the status bar: the file name (or `[No None]`) padded
/// to twenty characters, the number of lines and of changes.
pub open spec fn bar_left(filename: Seq<char>, lines: nat, dirty: nat) -> Seq<char> {
    pad_right(if filename.len() == 0 { "[No None]"@ } else { filename }, 20) + " - "@
        + decimal(lines) + " lines "@ + decimal(dirty) + " "@ + (if dirty > 0 {
        "(modified)"@
    } else {
        ""@
    })
}

/// The right part of the status bar: the cursor as `x/y`.
pub open spec fn bar_right(x: nat, y: nat) -> Seq<char> {
    decimal(x) + "/"@ + decimal(y)
}

impl EditorView {
    /// The cursor is on a line of the text or just after the last one, and
    /// not past the end of its line.
    pub open spec fn cursor_in_text(self) -> bool {
        self.cy <= self.rows.len() && self.cx <= self.current_row_len()
    }

    pub open spec fn with_cursor(self, x: u16, y: u16) -> EditorView {
        EditorView { cx: x, cy: y, ..self }
    }

    /// The cursor line is before the last line (counted as a `u16`).
    pub open spec fn above(self) -> bool {
        self.cy < (self.rows.len() as u16)
    }

    /// The length in bytes of the cursor line, 0 past the text.
    pub open spec fn current_row_len(self) -> u16 {
        if self.above() {
            byte_len(self.rows[self.cy as int]) as u16
        } else {
            0
        }
    }

    /// A move needs the line above when it goes left from a line start.
    pub open spec fn move_ok(self, key: EditorKey) -> bool {
        key == EditorKey::Left && self.cx == 0 && self.cy > 0 ==> self.cy - 1 < self.rows.len()
    }

    /// The cursor moved by `key`, then kept within its line.
    pub open spec fn moved(self, key: EditorKey) -> EditorView {
        let x = self.cx;
        let y = self.cy;
        let n = self.rows.len();
        let m = match key {
            EditorKey::Left => if x != 0 {
                self.with_cursor((x - 1) as u16, y)
            } else if y > 0 {
                self.with_cursor(byte_len(self.rows[y - 1]) as u16, (y - 1) as u16)
            } else {
                self
            },
            EditorKey::Right => if (y as int) < n {
                if x < (byte_len(self.rows[y as int]) as u16) {
                    self.with_cursor((x + 1) as u16, y)
                } else if y < (n as u16) {
                    self.with_cursor(0, (y + 1) as u16)
                } else {
                    self
                }
            } else {
                self
            },
            EditorKey::Up => self.with_cursor(x, if y > 0 { (y - 1) as u16 } else { 0 }),
            EditorKey::Down => if y < (n as u16) {
                self.with_cursor(x, (y + 1) as u16)
            } else {
                self
            },
        };
        m.with_cursor(min16(m.cx, m.current_row_len()), m.cy)
    }

    /// `n` moves by `key`.
    pub open spec fn moved_times(self, key: EditorKey, n: nat) -> EditorView
        decreases n,
    {
        if n == 0 {
            self
        } else {
            self.moved(key).moved_times(key, (n - 1) as nat)
        }
    }

    /// A new line `s` before line `at`; nothing past the last line.
    pub open spec fn row_inserted(self, at: int, s: Seq<char>) -> EditorView {
        if at > self.rows.len() {
            self
        } else {
            EditorView { rows: self.rows.insert(at, s), dirty: (self.dirty + 1) as usize, ..self }
        }
    }

    /// The line `at` removed.
    pub open spec fn row_removed(self, at: int) -> EditorView {
        EditorView { rows: self.rows.remove(at), dirty: (self.dirty + 1) as usize, ..self }
    }

    /// The text after `insert_char` adds the line it needs.
    pub open spec fn with_line_for_char(self) -> EditorView {
        if !self.above() {
            self.row_inserted(self.rows.len() as int, Seq::empty())
        } else {
            self
        }
    }

    /// The cursor line once `c` is typed.
    pub open spec fn line_with_char(self, c: char) -> Seq<char> {
        let v = self.with_line_for_char();
        let row = v.rows[v.cy as int];
        if v.cx >= byte_len(row) {
            row.push(c)
        } else {
            row.insert(char_index(row, v.cx as int), c)
        }
    }

    /// `c` typed at the cursor.
    pub open spec fn char_inserted(self, c: char) -> EditorView {
        let v = self.with_line_for_char();
        EditorView {
            rows: v.rows.update(v.cy as int, self.line_with_char(c)),
            cx: (v.cx + 1) as u16,
            dirty: (v.dirty + 1) as usize,
            ..v
        }
    }

    pub open spec fn insert_char_ok(self, c: char) -> bool {
        let v = self.with_line_for_char();
        let row = v.rows[v.cy as int];
        &&& (v.cy as int) < v.rows.len()
        &&& self.cx < u16::MAX
        &&& self.dirty + (if self.above() { 1int } else { 2int }) <= usize::MAX
        &&& v.cx < byte_len(row) ==> on_boundary(row, v.cx as int)
        &&& renderable(self.line_with_char(c))
    }

    /// The character before the cursor removed; at a line start, the line
    /// joined to the one above.
    pub open spec fn char_deleted(self) -> EditorView {
        let x = self.cx;
        let y = self.cy as int;
        if !self.above() || (x == 0 && y == 0) {
            self
        } else if x > 0 {
            let row = self.rows[y];
            if x - 1 >= byte_len(row) {
                self
            } else {
                EditorView {
                    rows: self.rows.update(y, row.remove(char_index(row, x - 1))),
                    cx: (x - 1) as u16,
                    dirty: (self.dirty + 1) as usize,
                    ..self
                }
            }
        } else {
            EditorView {
                rows: self.rows.update(y - 1, self.rows[y - 1] + self.rows[y]).remove(y),
                cx: byte_len(self.rows[y - 1]) as u16,
                cy: (y - 1) as u16,
                dirty: (self.dirty + 2) as usize,
                ..self
            }
        }
    }

    pub open spec fn del_char_ok(self) -> bool {
        let x = self.cx;
        let y = self.cy as int;
        self.above() && !(x == 0 && y == 0) ==> {
            &&& x > 0 && x - 1 < byte_len(self.rows[y]) ==> {
                &&& self.dirty + 1 <= usize::MAX
                &&& on_boundary(self.rows[y], x - 1)
                &&& renderable(self.rows[y].remove(char_index(self.rows[y], x - 1)))
            }
            &&& x == 0 ==> {
                &&& self.dirty + 2 <= usize::MAX
                &&& renderable(self.rows[y - 1] + self.rows[y])
            }
        }
    }

    /// The cursor line cut at the cursor, the cursor at the start of the
    /// new next line.
    pub open spec fn newline_inserted(self) -> EditorView {
        let y = self.cy as int;
        let v = if self.cx == 0 {
            self.row_inserted(y, Seq::empty())
        } else {
            let row = self.rows[y];
            let k = char_index(row, self.cx as int);
            EditorView { rows: self.rows.update(y, row.take(k)), ..self }.row_inserted(
                y + 1,
                row.skip(k),
            )
        };
        v.with_cursor(0, (self.cy + 1) as u16)
    }

    pub open spec fn newline_ok(self) -> bool {
        let y = self.cy as int;
        &&& self.cy < u16::MAX
        &&& self.dirty + 1 <= usize::MAX
        &&& self.cx != 0 ==> {
            &&& y < self.rows.len()
            &&& on_boundary(self.rows[y], self.cx as int)
            &&& renderable(self.rows[y].take(char_index(self.rows[y], self.cx as int)))
            &&& renderable(self.rows[y].skip(char_index(self.rows[y], self.cx as int)))
        }
    }

    pub open spec fn is_ctrl(key: KeyEvent, c: char) -> bool {
        key.code == KeyCode::Char(c) && key.modifiers == CONTROL
    }

    pub open spec fn is_delete_key(key: KeyEvent) -> bool {
        Self::is_ctrl(key, 'h') || key.code == KeyCode::Backspace || key.code == KeyCode::Delete
    }

    pub open spec fn is_typed_char(key: KeyEvent) -> bool {
        key.code is Char && (key.modifiers == NONE || key.modifiers == SHIFT)
    }

    /// The state after `key`, before the quit counter is reset.
    pub open spec fn key_effect(self, key: KeyEvent) -> EditorView {
        if Self::is_ctrl(key, 's') || Self::is_ctrl(key, 'l') || key.code == KeyCode::Esc {
            self
        } else if Self::is_delete_key(key) {
            (if key.code == KeyCode::Delete {
                self.moved(EditorKey::Right)
            } else {
                self
            }).char_deleted()
        } else if Self::is_typed_char(key) {
            self.char_inserted(key.code->Char_0)
        } else {
            match key.code {
                KeyCode::Enter => self.newline_inserted(),
                KeyCode::Home => self.with_cursor(0, self.cy),
                KeyCode::End => self.with_cursor(self.current_row_len(), self.cy),
                KeyCode::Up => self.moved(EditorKey::Up),
                KeyCode::Down => self.moved(EditorKey::Down),
                KeyCode::Right => self.moved(EditorKey::Right),
                KeyCode::Left => self.moved(EditorKey::Left),
                KeyCode::PageUp => self.with_cursor(self.cx, self.rowsoff).moved_times(
                    EditorKey::Up,
                    self.hight as nat,
                ),
                KeyCode::PageDown => self.with_cursor(
                    self.cx,
                    min16((self.rowsoff + self.hight - 1) as u16, self.rows.len() as u16),
                ).moved_times(EditorKey::Down, self.hight as nat),
                _ => self,
            }
        }
    }

    /// The state after the key `key`.
    pub open spec fn after_key(self, key: KeyEvent) -> EditorView {
        if Self::is_ctrl(key, 'q') {
            if self.dirty > 0 && self.quit_time > 0 {
                EditorView {
                    status_msg: quit_warning(self.quit_time as nat),
                    quit_time: (self.quit_time - 1) as usize,
                    ..self
                }
            } else {
                self
            }
        } else {
            EditorView { quit_time: QUIT_TIME, ..self.key_effect(key) }
        }
    }

    /// What the caller does after the key `key`.
    pub open spec fn key_action(self, key: KeyEvent) -> KeyAction {
        if Self::is_ctrl(key, 'q') {
            if self.dirty > 0 && self.quit_time > 0 {
                KeyAction::Continue
            } else {
                KeyAction::Quit
            }
        } else if Self::is_ctrl(key, 's') {
            KeyAction::Save
        } else {
            KeyAction::Continue
        }
    }

    /// The key `key` can be handled without overflow, with every cut on a
    /// character boundary, and with every changed line drawable.
    pub open spec fn key_ok(self, key: KeyEvent) -> bool {
        if Self::is_ctrl(key, 'q') || Self::is_ctrl(key, 's') || Self::is_ctrl(key, 'l')
            || key.code == KeyCode::Esc {
            true
        } else if Self::is_delete_key(key) {
            (if key.code == KeyCode::Delete {
                self.moved(EditorKey::Right)
            } else {
                self
            }).del_char_ok()
        } else if Self::is_typed_char(key) {
            self.insert_char_ok(key.code->Char_0)
        } else {
            match key.code {
                KeyCode::Enter => self.newline_ok(),
                KeyCode::Left => self.move_ok(EditorKey::Left),
                KeyCode::PageDown => 1 <= self.rowsoff + self.hight <= u16::MAX,
                _ => true,
            }
        }
    }

    /// The drawn column of the cursor, 0 past the text.
    pub open spec fn cursor_col(self) -> u16 {
        if self.above() {
            prefix_col(self.rows[self.cy as int], self.cx as int) as u16
        } else {
            0
        }
    }

    pub open spec fn rowsoff_step(self) -> u16 {
        if self.cy < self.rowsoff {
            self.cy
        } else {
            self.rowsoff
        }
    }

    pub open spec fn coloff_step(self) -> u16 {
        if self.cursor_col() < self.coloff {
            self.cursor_col()
        } else {
            self.coloff
        }
    }

    /// The scrolling that keeps the cursor on the screen.
    pub open spec fn scrolled(self) -> EditorView {
        let rx = self.cursor_col();
        let ro = self.rowsoff_step();
        let co = self.coloff_step();
        EditorView {
            render_x: rx,
            rowsoff: if self.cy >= ro + self.hight {
                (self.cy - self.hight + 1) as u16
            } else {
                ro
            },
            coloff: if rx >= co + self.width {
                (rx - self.width + 1) as u16
            } else {
                co
            },
            ..self
        }
    }

    pub open spec fn scroll_ok(self) -> bool {
        let rx = self.cursor_col();
        let ro = self.rowsoff_step();
        let co = self.coloff_step();
        &&& ro + self.hight <= u16::MAX
        &&& self.cy >= ro + self.hight ==> self.cy - self.hight + 1 <= u16::MAX
        &&& co + self.width <= u16::MAX
        &&& rx >= co + self.width ==> rx - self.width + 1 <= u16::MAX
    }
}

/// What one refresh draws.
pub struct Frame {
    /// The text area, line by line.
    pub paints: Vec<Paint>,
    /// The status bar.
    pub bar: Paint,
    /// The age of the status message when the frame was made, in
    /// nanoseconds.
    pub status_age: u128,
}

pub struct Editor {
    filename: String,
    screen: Screen,
    status_msg: String,
    status_time: Instant,
    cursor: Position,
    render_x: u16,
    rows: Vec<Raw>,
    rowsoff: u16,
    coloff: u16,
    dirty: usize,
    quit_time: usize,
}

impl View for Editor {
    type V = EditorView;

    closed spec fn view(&self) -> EditorView {
        EditorView {
            filename: self.filename@,
            width: self.screen.spec_width(),
            hight: self.screen.spec_hight(),
            status_msg: self.status_msg@,
            cx: self.cursor.x,
            cy: self.cursor.y,
            render_x: self.render_x,
            rows: self.rows@.map_values(|r: Raw| r.chars@),
            rowsoff: self.rowsoff,
            coloff: self.coloff,
            dirty: self.dirty,
            quit_time: self.quit_time,
        }
    }
}

impl Editor {
    /// Every line is drawn from its characters, and can be.
    pub closed spec fn wf(&self) -> bool {
        forall|i: int|
            #![trigger self.rows@[i]]
            0 <= i < self.rows@.len() ==> (self.rows@[i].wf() && renderable(self.rows@[i].chars@))
    }

    proof fn lemma_same_rows_wf(a: &Editor, b: &Editor)
        requires
            a.wf(),
            a.rows@ == b.rows@,
        ensures
            b.wf(),
    {
        assert forall|i: int| 0 <= i < b.rows@.len() implies #[trigger] b.rows@[i].wf()
            && renderable(b.rows@[i].chars@) by {
            assert(0 <= i < a.rows@.len());
            assert(a.rows@[i].wf());
            assert(renderable(a.rows@[i].chars@));
            assert(a.rows@[i] == b.rows@[i]);
        }
    }

    /// The screen that the editor draws on.
    pub closed spec fn spec_screen(&self) -> Screen {
        self.screen
    }

    /// The drawn lines, in order.
    pub closed spec fn spec_rows(&self) -> Seq<Raw> {
        self.rows@
    }
}

impl Editor {
    /// The length in bytes of the cursor line, 0 past the text.
    fn current_row_len(&self) -> (r: u16)
        ensures
            r == self@.current_row_len(),
    {
        if self.cursor.above(self.rows.len()) {
            self.rows[self.cursor.y as usize].len() as u16
        } else {
            0
        }
    }

    fn move_cursor(&mut self, key: EditorKey)
        requires
            old(self).wf(),
            old(self)@.move_ok(key),
        ensures
            final(self).wf(),
            final(self)@ == old(self)@.moved(key),
    {
        self.cursor = self.moved_cursor(key);
        proof {
            Self::lemma_same_rows_wf(old(self), self);
        }
    }

    /// The length in bytes of the line `y`, 0 past the text.
    fn row_len_at(&self, y: u16) -> (r: u16)
        ensures
            r == self@.with_cursor(0, y).current_row_len(),
    {
        let p = Position { x: 0, y };
        if p.above(self.rows.len()) {
            self.rows[y as usize].len() as u16
        } else {
            0
        }
    }

    /// Where the move `key` takes the cursor.
    fn moved_cursor(&self, key: EditorKey) -> (r: Position)
        requires
            self@.move_ok(key),
        ensures
            self@.moved(key) == self@.with_cursor(r.x, r.y),
    {
        let mut cursor = self.cursor;
        match key {
            EditorKey::Left => {
                if cursor.x != 0 {
                    cursor.x -= 1;
                } else if cursor.y > 0 {
                    cursor.y -= 1;
                    cursor.x = self.rows[cursor.raw()].len() as u16;
                }
            },
            EditorKey::Right => {
                if (cursor.y as usize) < self.rows.len() {
                    let idx = cursor.raw();
                    if cursor.left_off(self.rows[idx].len()) {
                        cursor.x += 1;
                    } else if cursor.above(self.rows.len()) {
                        cursor.y += 1;
                        cursor.x = 0;
                    }
                }
            },
            EditorKey::Up => {
                cursor.y = cursor.y.saturating_sub(1);
            },
            EditorKey::Down => {
                if cursor.y < (self.rows.len()) as u16 {
                    cursor.y += 1;
                }
            },
        }
        let row_len = self.row_len_at(cursor.y);
        if row_len < cursor.x {
            cursor.x = row_len;
        }
        cursor
    }

    /// Scrolls so that the cursor is on the screen.
    fn scroll(&mut self)
        requires
            old(self).wf(),
            old(self)@.scroll_ok(),
        ensures
            final(self).wf(),
            final(self).spec_rows() == old(self).spec_rows(),
            final(self).spec_screen() == old(self).spec_screen(),
            final(self)@ == old(self)@.scrolled(),
    {
        self.render_x = if self.cursor.above(self.rows.len()) {
            self.rows[self.cursor.y as usize].cx_to_rx(self.cursor.x)
        } else {
            0
        };
        let bounds = self.screen.bound();
        if (self.cursor.y) < self.rowsoff {
            self.rowsoff = self.cursor.y;
        }
        if (self.cursor.y) >= (self.rowsoff + (bounds.y)) {
            self.rowsoff = self.cursor.y - bounds.y + 1;
        }
        if self.render_x < self.coloff {
            self.coloff = self.render_x;
        }
        if (self.render_x) >= (self.coloff + (bounds.x)) {
            self.coloff = self.render_x - bounds.x + 1;
        }
        proof {
            assert forall|i: int| 0 <= i < self.rows@.len() implies #[trigger] self.rows@[i].wf()
                && renderable(self.rows@[i].chars@) by {
                assert(old(self).rows@[i].wf());
            }
        }
    }

    fn insert_row(&mut self, at: usize, s: String)
        requires
            old(self).wf(),
            renderable(s@),
            at <= old(self)@.rows.len() ==> old(self).dirty < usize::MAX,
        ensures
            final(self).wf(),
            final(self)@ == old(self)@.row_inserted(at as int, s@),
    {
        if at > self.rows.len() {
            return;
        }
        let ghost old_rows = self.rows@;
        self.rows.insert(at, Raw::new(s));
        self.dirty += 1;
        proof {
            assert(self.rows@.map_values(|r: Raw| r.chars@) =~= old_rows.map_values(
                |r: Raw| r.chars@,
            ).insert(at as int, s@));
            assert forall|i: int| 0 <= i < self.rows@.len() implies #[trigger] self.rows@[i].wf()
                && renderable(self.rows@[i].chars@) by {
                if i < at {
                    assert(self.rows@[i] == old_rows[i]);
                } else if i > at {
                    assert(self.rows@[i] == old_rows[i - 1]);
                }
            }
        }
    }

    fn del_row(&mut self, at: usize) -> (r: Option<String>)
        requires
            old(self).wf(),
            at < old(self)@.rows.len() ==> old(self).dirty < usize::MAX,
        ensures
            final(self).wf(),
            at < old(self)@.rows.len() ==> (r matches Some(t) && t@ == old(self)@.rows[at as int]),
            at < old(self)@.rows.len() ==> final(self)@ == old(self)@.row_removed(at as int),
            at >= old(self)@.rows.len() ==> (r matches None),
            at >= old(self)@.rows.len() ==> final(self)@ == old(self)@,
    {
        if at >= self.rows.len() {
            None
        } else {
            let ghost old_rows = self.rows@;
            self.dirty += 1;
            let raw = self.rows.remove(at);
            proof {
                assert(self.rows@.map_values(|r: Raw| r.chars@) =~= old_rows.map_values(
                    |r: Raw| r.chars@,
                ).remove(at as int));
                assert forall|i: int| 0 <= i < self.rows@.len() implies #[trigger] self.rows@[i].wf()
                    && renderable(self.rows@[i].chars@) by {
                    if i < at {
                        assert(self.rows@[i] == old_rows[i]);
                        assert(old(self).rows@[i].wf());
                    } else {
                        assert(self.rows@[i] == old_rows[i + 1]);
                        assert(old(self).rows@[i + 1].wf());
                    }
                }
            }
            Some(raw.chars)
        }
    }
}

impl Editor {
    fn insert_char(&mut self, c: char)
        requires
            old(self).wf(),
            old(self)@.insert_char_ok(c),
        ensures
            final(self).wf(),
            final(self)@ == old(self)@.char_inserted(c),
    {
        if !self.cursor.above(self.rows.len()) {
            proof {
                lemma_renderable_empty();
            }
            self.insert_row(self.rows.len(), String::new());
        }
        let ghost mid = self@;
        let ghost mid_rows = self.rows@;
        let y = self.cursor.y as usize;
        proof {
            assert(mid_rows[y as int].chars@ == mid.rows[y as int]);
        }
        self.rows[y].insert_char(self.cursor.x as usize, c);
        self.cursor.x += 1;
        self.dirty += 1;
        proof {
            assert(self.rows@.map_values(|r: Raw| r.chars@) =~= mid.rows.update(
                y as int,
                old(self)@.line_with_char(c),
            ));
            assert forall|i: int| 0 <= i < self.rows@.len() implies #[trigger] self.rows@[i].wf()
                && renderable(self.rows@[i].chars@) by {
                if i != y {
                    assert(self.rows@[i] == mid_rows[i]);
                }
            }
        }
    }

    fn del_char(&mut self)
        requires
            old(self).wf(),
            old(self)@.del_char_ok(),
        ensures
            final(self).wf(),
            final(self)@ == old(self)@.char_deleted(),
    {
        if !self.cursor.above(self.rows.len()) {
            return;
        }
        if self.cursor.x == 0 && self.cursor.y == 0 {
            return;
        }
        if self.cursor.x > 0 {
            self.del_before_cursor();
        } else {
            self.join_with_previous();
        }
    }

    /// Removes the character before the cursor, inside its line.
    fn del_before_cursor(&mut self)
        requires
            old(self).wf(),
            old(self)@.del_char_ok(),
            old(self)@.above(),
            old(self)@.cx > 0,
        ensures
            final(self).wf(),
            final(self)@ == old(self)@.char_deleted(),
    {
        let ghost old_rows = self.rows@;
        let cur_row = self.cursor.y as usize;
        proof {
            assert(old_rows[cur_row as int].chars@ == old(self)@.rows[cur_row as int]);
        }
        let deleted = self.rows[cur_row].del_char(self.cursor.x as usize - 1);
        if deleted {
            self.dirty += 1;
            self.cursor.x -= 1;
            proof {
                assert(self.rows@.map_values(|r: Raw| r.chars@) =~= old(self)@.char_deleted().rows);
                assert forall|i: int| 0 <= i < self.rows@.len() implies #[trigger] self.rows@[i].wf()
                    && renderable(self.rows@[i].chars@) by {
                    if i != cur_row {
                        assert(self.rows@[i] == old_rows[i]);
                    } else {
                        let row = old(self)@.rows[i];
                        assert(self.rows@[i].chars@ == row.remove(
                            char_index(row, old(self)@.cx - 1),
                        ));
                    }
                }
            }
        } else {
            proof {
                assert(self.rows@ =~= old_rows);
                assert(self.rows@.map_values(|r: Raw| r.chars@) =~= old(self)@.rows);
                Self::lemma_same_rows_wf(old(self), self);
            }
        }
    }

    /// At a line start: the line joined to the end of the one above.
    fn join_with_previous(&mut self)
        requires
            old(self).wf(),
            old(self)@.del_char_ok(),
            old(self)@.above(),
            old(self)@.cx == 0,
            old(self)@.cy > 0,
        ensures
            final(self).wf(),
            final(self)@ == old(self)@.char_deleted(),
    {
        let ghost old_rows = self.rows@;
        let cur_row = self.cursor.y as usize;
        proof {
            assert(old_rows[cur_row as int].chars@ == old(self)@.rows[cur_row as int]);
            assert(old_rows[cur_row - 1].chars@ == old(self)@.rows[cur_row - 1]);
        }
        self.cursor.x = self.rows[cur_row - 1].len() as u16;
        let ghost before_del = self@;
        proof {
            assert(self@.rows.len() == self.rows@.len());
            assert(cur_row < self@.rows.len());
        }
        if let Some(row) = self.del_row(cur_row) {
            let ghost mid_rows = self.rows@;
            proof {
                assert(self@.rows == before_del.rows.remove(cur_row as int));
                assert(self@.rows.len() == self.rows@.len());
                assert(mid_rows[cur_row - 1].chars@ == self@.rows[cur_row - 1]);
                assert(self@.rows[cur_row - 1] == old(self)@.rows[cur_row - 1]);
                assert(row@ == old(self)@.rows[cur_row as int]);
                assert(forall|i: int|
                    0 <= i < mid_rows.len() ==> #[trigger] mid_rows[i].wf() && renderable(
                        mid_rows[i].chars@,
                    ));
            }
            self.rows[cur_row - 1].append_string(row.as_str());
            self.cursor.y -= 1;
            self.dirty += 1;
            proof {
                let y = cur_row as int;
                let ov = old(self)@.rows;
                let joined = ov[y - 1] + ov[y];
                assert(ov.update(y - 1, joined).remove(y) =~= ov.remove(y).update(y - 1, joined));
                assert(self.rows@.map_values(|r: Raw| r.chars@) =~= ov.remove(y).update(
                    y - 1,
                    joined,
                ));
                assert forall|i: int| 0 <= i < self.rows@.len() implies #[trigger] self.rows@[i].wf()
                    && renderable(self.rows@[i].chars@) by {
                    if i != cur_row - 1 {
                        assert(self.rows@[i] == mid_rows[i]);
                    } else {
                        assert(self.rows@[i].chars@ == joined);
                    }
                }
            }
        }
    }

    fn insert_newlines(&mut self)
        requires
            old(self).wf(),
            old(self)@.newline_ok(),
        ensures
            final(self).wf(),
            final(self)@ == old(self)@.newline_inserted(),
    {
        let row = self.cursor.y as usize;
        proof {
            lemma_renderable_empty();
        }
        if self.cursor.x == 0 {
            self.insert_row(row, String::new())
        } else {
            let ghost old_rows = self.rows@;
            proof {
                assert(old_rows[row as int].chars@ == old(self)@.rows[row as int]);
            }
            let new_row = self.rows[row].split(self.cursor.x as usize);
            proof {
                let k = char_index(old(self)@.rows[row as int], old(self)@.cx as int);
                assert(self.rows@.map_values(|r: Raw| r.chars@) =~= old(self)@.rows.update(
                    row as int,
                    old(self)@.rows[row as int].take(k),
                ));
                assert forall|i: int| 0 <= i < self.rows@.len() implies #[trigger] self.rows@[i].wf()
                    && renderable(self.rows@[i].chars@) by {
                    if i != row {
                        assert(self.rows@[i] == old_rows[i]);
                    }
                }
            }
            self.insert_row(row + 1, new_row);
        }
        self.cursor.y += 1;
        self.cursor.x = 0;
    }
}

/// `n` moves by `key`, then one more.
pub proof fn lemma_moved_times_step(v: EditorView, key: EditorKey, n: nat)
    ensures
        v.moved_times(key, n + 1) == v.moved_times(key, n).moved(key),
    decreases n,
{
    if n > 0 {
        lemma_moved_times_step(v.moved(key), key, (n - 1) as nat);
        assert(v.moved_times(key, n + 1) == v.moved(key).moved_times(key, n));
        assert(v.moved_times(key, n) == v.moved(key).moved_times(key, (n - 1) as nat));
    } else {
        assert(v.moved(key).moved_times(key, 0) == v.moved(key));
        assert(v.moved_times(key, 1) == v.moved(key).moved_times(key, 0));
    }
}

impl Editor {
    /// Shows `message` in the status bar from now on.
    pub fn set_status_msg(&mut self, message: String)
        ensures
            final(self)@ == (EditorView { status_msg: message@, ..old(self)@ }),
            final(self).spec_rows() == old(self).spec_rows(),
            final(self).spec_screen() == old(self).spec_screen(),
            old(self).wf() ==> final(self).wf(),
    {
        self.status_time = instant_now();
        self.status_msg = message;
        proof {
            if old(self).wf() {
                Self::lemma_same_rows_wf(old(self), self);
            }
        }
    }

    fn move_times(&mut self, key: EditorKey, n: u16)
        requires
            old(self).wf(),
            key == EditorKey::Up || key == EditorKey::Down,
        ensures
            final(self).wf(),
            final(self)@ == old(self)@.moved_times(key, n as nat),
    {
        let ghost start = self@;
        for i in 0..n
            invariant
                self.wf(),
                key == EditorKey::Up || key == EditorKey::Down,
                self@ == start.moved_times(key, i as nat),
        {
            proof {
                lemma_moved_times_step(start, key, i as nat);
            }
            self.move_cursor(key);
        }
    }

    /// Handles one key press and says what the caller does next: Ctrl+q
    /// quits (with unsaved changes, only after it is pressed again
    /// `QUIT_TIME` more times), Ctrl+s asks for a save, the arrows, Home,
    /// End, PageUp and PageDown move the cursor, Enter cuts the line,
    /// Backspace, Delete and Ctrl+h delete, and a plain or shifted character
    /// is typed.
    pub fn process_key(&mut self, key: KeyEvent) -> (r: KeyAction)
        requires
            old(self).wf(),
            old(self)@.key_ok(key),
        ensures
            final(self).wf(),
            final(self)@ == old(self)@.after_key(key),
            r == old(self)@.key_action(key),
    {
        if key.code == KeyCode::Char('q') && key.modifiers == CONTROL {
            if self.dirty > 0 && self.quit_time > 0 {
                let mut msg = string_of("warning!!! filename unsaved changes.Press Ctrl + q ");
                let n = decimal_string(self.quit_time as u64);
                push_all(&mut msg, n.as_str());
                push_all(&mut msg, " more time to quit");
                self.set_status_msg(msg);
                self.quit_time -= 1;
                return KeyAction::Continue;
            } else {
                return KeyAction::Quit;
            }
        }
        let mut action = KeyAction::Continue;
        if key.code == KeyCode::Char('s') && key.modifiers == CONTROL {
            action = KeyAction::Save;
        } else if (key.code == KeyCode::Char('l') && key.modifiers == CONTROL) || key.code
            == KeyCode::Esc {
        } else if (key.code == KeyCode::Char('h') && key.modifiers == CONTROL) || key.code
            == KeyCode::Backspace || key.code == KeyCode::Delete {
            if key.code == KeyCode::Delete {
                self.move_cursor(EditorKey::Right);
            }
            self.del_char();
        } else if EditorView::is_typed_char_exec(key) {
            match key.code {
                KeyCode::Char(k) => self.insert_char(k),
                _ => {},
            }
        } else {
            match key.code {
                KeyCode::Enter => {
                    self.insert_newlines();
                },
                KeyCode::Home => self.cursor.x = 0,
                KeyCode::End => self.cursor.x = self.current_row_len(),
                KeyCode::Up => self.move_cursor(EditorKey::Up),
                KeyCode::Down => self.move_cursor(EditorKey::Down),
                KeyCode::Right => self.move_cursor(EditorKey::Right),
                KeyCode::Left => self.move_cursor(EditorKey::Left),
                KeyCode::PageUp => {
                    let bounds = self.screen.bound();
                    self.cursor.y = self.rowsoff;
                    self.move_times(EditorKey::Up, bounds.y);
                },
                KeyCode::PageDown => {
                    let bounds = self.screen.bound();
                    let target = self.rowsoff + bounds.y - 1;
                    let last = self.rows.len() as u16;
                    self.cursor.y = if target <= last {
                        target
                    } else {
                        last
                    };
                    self.move_times(EditorKey::Down, bounds.y);
                },
                _ => {},
            }
        }
        self.quit_time = QUIT_TIME;
        action
    }
}

impl EditorView {
    /// A plain or shifted character key.
    pub fn is_typed_char_exec(key: KeyEvent) -> (r: bool)
        ensures
            r == Self::is_typed_char(key),
    {
        match key.code {
            KeyCode::Char(_) => key.modifiers == NONE || key.modifiers == SHIFT,
            _ => false,
        }
    }
}

/// The next step of a save.
pub enum SaveStep {
    /// Ask for a file name first.
    AskName,
    /// Write this text to the file.
    Write(String),
    /// No file name was given: nothing is saved.
    Stop,
}

/// What a key does while a prompt is shown.
#[derive(Clone, Copy, PartialEq, Eq, Structural, Debug)]
pub enum PromptStep {
    /// Keep asking.
    Continue,
    /// Enter: the answer is complete.
    Done,
    /// Esc: the prompt is abandoned.
    Cancelled,
}

/// The lines of `s`, one `String` per line break, the last one after the
/// last break.
pub fn split_text(s: &str) -> (r: Vec<String>)
    ensures
        r@.map_values(|t: String| t@) == split_lines(s@),
{
    let n = str_len(s);
    let ghost sv = s@;
    let mut lines: Vec<String> = Vec::new();
    let mut cur = String::new();
    let ghost mut start: int = 0;
    proof {
        assert(sv.take(0) =~= Seq::<char>::empty());
        assert(lines@.map_values(|t: String| t@).push(cur@) =~= split_lines(sv.take(0)));
    }
    for c in it: s.chars()
        invariant
            it.seq() == sv,
            sv == s@,
            n == byte_len(sv),
            n <= isize::MAX,
            0 <= it.index() <= sv.len(),
            0 <= start <= it.index(),
            cur@ == sv.subrange(start, it.index() as int),
            lines@.map_values(|t: String| t@).push(cur@) == split_lines(sv.take(it.index() as int)),
    {
        let ghost i = it.index() as int;
        let ghost before = lines@.map_values(|t: String| t@).push(cur@);
        proof {
            assert(sv.take(i + 1).drop_last() =~= sv.take(i));
            assert(sv.take(i + 1).last() == sv[i]);
        }
        if c == '\n' {
            lines.push(cur);
            cur = String::new();
            proof {
                start = i + 1;
                assert(cur@ =~= sv.subrange(start, i + 1));
                assert(lines@.map_values(|t: String| t@).push(cur@) =~= before.push(
                    Seq::<char>::empty(),
                ));
            }
        } else {
            proof {
                assert(sv =~= sv.take(start) + sv.subrange(start, i + 1) + sv.skip(i + 1));
                lemma_byte_len_concat(sv.take(start) + sv.subrange(start, i + 1), sv.skip(i + 1));
                lemma_byte_len_concat(sv.take(start), sv.subrange(start, i + 1));
                assert(sv.subrange(start, i + 1) =~= cur@.push(c));
                lemma_byte_len_push(cur@, c);
            }
            string_push(&mut cur, c);
            proof {
                assert(cur@ =~= sv.subrange(start, i + 1));
                assert(lines@.map_values(|t: String| t@).push(cur@) =~= before.update(
                    before.len() - 1,
                    before.last().push(c),
                ));
            }
        }
    }
    let ghost fin = lines@.map_values(|t: String| t@).push(cur@);
    lines.push(cur);
    proof {
        assert(sv.take(sv.len() as int) =~= sv);
        assert(lines@.map_values(|t: String| t@) =~= fin);
    }
    lines
}

impl Editor {
    /// An editor on the lines `data` (a last empty line is dropped), saved
    /// to `filename`, drawing on `screen`.
    pub fn build(data: &[String], filename: String, screen: Screen) -> (r: Editor)
        requires
            forall|i: int| 0 <= i < data@.len() ==> renderable(#[trigger] data@[i]@),
        ensures
            r.wf(),
            r.spec_screen() == screen,
            r@ == (EditorView {
                filename: filename@,
                width: screen.spec_width(),
                hight: screen.spec_hight(),
                status_msg: help_message(),
                cx: 0,
                cy: 0,
                render_x: 0,
                rows: loaded_rows(data@.map_values(|s: String| s@)),
                rowsoff: 0,
                coloff: 0,
                dirty: 0,
                quit_time: QUIT_TIME,
            }),
    {
        let ghost dv = data@.map_values(|s: String| s@);
        let mut rows: Vec<Raw> = Vec::new();
        if !data.is_empty() {
            for i in 0..data.len()
                invariant
                    dv == data@.map_values(|s: String| s@),
                    forall|j: int| 0 <= j < data@.len() ==> renderable(#[trigger] data@[j]@),
                    rows@.len() == i,
                    forall|j: int|
                        #![trigger rows@[j]]
                        0 <= j < i ==> rows@[j].wf() && renderable(rows@[j].chars@)
                            && rows@[j].chars@ == dv[j],
            {
                rows.push(Raw::new(data[i].clone()));
            }
            if rows[rows.len() - 1].len() == 0 {
                proof {
                    lemma_len_le_byte_len(rows@[rows@.len() - 1].chars@);
                }
                rows.pop();
            }
        }
        proof {
            assert(rows@.map_values(|r: Raw| r.chars@) =~= loaded_rows(dv));
        }
        let e = Editor {
            screen,
            status_msg: string_of("HELP: Ctrl+q = quit  && Ctrl+s = save"),
            status_time: instant_now(),
            cursor: Position { x: 0, y: 0 },
            rows,
            rowsoff: 0,
            coloff: 0,
            render_x: 0,
            filename,
            dirty: 0,
            quit_time: QUIT_TIME,
        };
        e
    }

    /// An empty editor without a file name.
    pub fn new(screen: Screen) -> (r: Editor)
        ensures
            r.wf(),
            r.spec_screen() == screen,
            r@ == (EditorView {
                filename: Seq::empty(),
                width: screen.spec_width(),
                hight: screen.spec_hight(),
                status_msg: help_message(),
                cx: 0,
                cy: 0,
                render_x: 0,
                rows: Seq::empty(),
                rowsoff: 0,
                coloff: 0,
                dirty: 0,
                quit_time: QUIT_TIME,
            }),
    {
        let data: Vec<String> = Vec::new();
        let r = Editor::build(data.as_slice(), String::new(), screen);
        proof {
            assert(data@.map_values(|s: String| s@) =~= Seq::<Seq<char>>::empty());
        }
        r
    }

    /// An editor on the text `contents` of the file `filename`, one line per
    /// line break.
    pub fn with_file(filename: String, contents: &str, screen: Screen) -> (r: Editor)
        requires
            forall|i: int|
                0 <= i < split_lines(contents@).len() ==> renderable(
                    #[trigger] split_lines(contents@)[i],
                ),
        ensures
            r.wf(),
            r.spec_screen() == screen,
            r@ == (EditorView {
                filename: filename@,
                width: screen.spec_width(),
                hight: screen.spec_hight(),
                status_msg: help_message(),
                cx: 0,
                cy: 0,
                render_x: 0,
                rows: loaded_rows(split_lines(contents@)),
                rowsoff: 0,
                coloff: 0,
                dirty: 0,
                quit_time: QUIT_TIME,
            }),
    {
        let lines = split_text(contents);
        proof {
            assert forall|i: int| 0 <= i < lines@.len() implies renderable(#[trigger] lines@[i]@) by {
                assert(lines@.map_values(|t: String| t@)[i] == lines@[i]@);
            }
        }
        Editor::build(lines.as_slice(), filename, screen)
    }

    /// The text: every line followed by a line break.
    pub fn rows_to_string(&self) -> (r: String)
        ensures
            r@ == rows_text(self@.rows),
    {
        let mut buf = String::new();
        let ghost rv = self@.rows;
        proof {
            reveal_strlit("\n");
            assert(rv.take(0) =~= Seq::<Seq<char>>::empty());
        }
        for i in 0..self.rows.len()
            invariant
                rv == self@.rows,
                rv.len() == self.rows@.len(),
                buf@ == rows_text(rv.take(i as int)),
                "\n"@ == seq!['\n'],
        {
            proof {
                assert(rv.take(i + 1).drop_last() =~= rv.take(i as int));
                assert(self.rows@[i as int].chars@ == rv[i as int]);
            }
            push_all(&mut buf, self.rows[i].chars.as_str());
            push_all(&mut buf, "\n");
            proof {
                assert(rv[i as int] + seq!['\n'] =~= rv[i as int].push('\n'));
                assert(buf@ =~= rows_text(rv.take(i + 1)));
            }
        }
        proof {
            assert(rv.take(rv.len() as int) =~= rv);
        }
        buf
    }
}

impl Editor {
    /// Scrolls to the cursor and says what to draw: the text area, and the
    /// status bar with the file name, the number of lines and of changes,
    /// and the cursor. A status message older than five seconds is cleared.
    pub fn refresh_screen(&mut self, version: &str) -> (f: Frame)
        requires
            old(self).wf(),
            old(self)@.scroll_ok(),
            old(self).spec_screen().drawable(
                old(self).spec_rows(),
                old(self)@.scrolled().rowsoff,
                old(self)@.scrolled().coloff,
                version@,
            ),
            byte_len(bar_right(old(self)@.cx as nat, old(self)@.cy as nat)) <= old(self)@.width,
        ensures
            final(self).wf(),
            final(self)@ == (EditorView {
                status_msg: expired_status(old(self)@.status_msg, f.status_age),
                ..old(self)@.scrolled()
            }),
            final(self).spec_rows() == old(self).spec_rows(),
            final(self).spec_screen() == old(self).spec_screen(),
            f.paints@.map_values(|p: Paint| paint_view(p)) == old(self).spec_screen().frame_paints(
                old(self).spec_rows(),
                old(self)@.scrolled().rowsoff,
                old(self)@.scrolled().coloff,
                version@,
                old(self)@.hight as int,
            ),
            f.bar.x == 0,
            f.bar.y == old(self)@.hight,
            f.bar.text@ == old(self).spec_screen().bar_text(
                bar_left(old(self)@.filename, old(self)@.rows.len(), old(self)@.dirty as nat),
                bar_right(old(self)@.cx as nat, old(self)@.cy as nat),
            ),
    {
        self.scroll();
        let paints = self.screen.draw_rows(self.rows.as_slice(), self.rowsoff, self.coloff, version);
        let status_age = elapsed_nanos(&self.status_time);
        self.expire_status(status_age);
        let mut left = if self.filename.as_str().is_empty() {
            pad_to("[No None]", 20)
        } else {
            pad_to(self.filename.as_str(), 20)
        };
        push_all(&mut left, " - ");
        let lines = decimal_string(self.rows.len() as u64);
        push_all(&mut left, lines.as_str());
        push_all(&mut left, " lines ");
        let changes = decimal_string(self.dirty as u64);
        push_all(&mut left, changes.as_str());
        push_all(&mut left, " ");
        if self.dirty > 0 {
            push_all(&mut left, "(modified)");
        } else {
            push_all(&mut left, "");
        }
        let mut right = decimal_string(self.cursor.x as u64);
        push_all(&mut right, "/");
        let y = decimal_string(self.cursor.y as u64);
        push_all(&mut right, y.as_str());
        proof {
            assert(left@ =~= bar_left(self@.filename, self@.rows.len(), self@.dirty as nat));
            assert(right@ =~= bar_right(self@.cx as nat, self@.cy as nat));
        }
        let bar = self.screen.draw_bar(left, right);
        Frame { paints, bar, status_age }
    }

    /// Clears the status message once it is older than five seconds;
    /// `elapsed_nanos` is its age.
    pub fn expire_status(&mut self, elapsed_nanos: u128)
        ensures
            final(self)@ == (EditorView {
                status_msg: expired_status(old(self)@.status_msg, elapsed_nanos),
                ..old(self)@
            }),
            final(self).spec_rows() == old(self).spec_rows(),
            final(self).spec_screen() == old(self).spec_screen(),
            old(self).wf() ==> final(self).wf(),
    {
        if !self.status_msg.as_str().is_empty() && elapsed_nanos > STATUS_LIFETIME {
            self.status_msg = String::new();
        }
        proof {
            if old(self).wf() {
                Self::lemma_same_rows_wf(old(self), self);
            }
        }
    }

    /// Shows the prompt `prompt` with the answer `buf` typed so far.
    pub fn prompt_status(&mut self, prompt: &str, buf: &str)
        ensures
            final(self)@ == (EditorView { status_msg: prompt@ + ":"@ + buf@, ..old(self)@ }),
            final(self).spec_rows() == old(self).spec_rows(),
            final(self).spec_screen() == old(self).spec_screen(),
            old(self).wf() ==> final(self).wf(),
    {
        let mut msg = string_of(prompt);
        push_all(&mut msg, ":");
        push_all(&mut msg, buf);
        self.set_status_msg(msg);
    }

    /// A key typed at a prompt whose answer so far is `buf`: Enter ends it,
    /// Esc abandons it (both clear the status message), a plain or shifted
    /// character is added to the answer, any other key is ignored.
    pub fn prompt_key(&mut self, buf: &mut String, key: KeyEvent) -> (r: PromptStep)
        requires
            EditorView::is_typed_char(key) && key.code != KeyCode::Enter ==> byte_len(old(buf)@)
                + char_width(key.code->Char_0) <= isize::MAX,
        ensures
            final(self).spec_rows() == old(self).spec_rows(),
            final(self).spec_screen() == old(self).spec_screen(),
            old(self).wf() ==> final(self).wf(),
            key.code == KeyCode::Enter ==> r == PromptStep::Done && final(self)@ == (EditorView {
                status_msg: Seq::empty(),
                ..old(self)@
            }) && final(buf)@ == old(buf)@,
            key.code == KeyCode::Esc ==> r == PromptStep::Cancelled && final(self)@ == (EditorView {
                status_msg: Seq::empty(),
                ..old(self)@
            }) && final(buf)@ == old(buf)@,
            key.code != KeyCode::Enter && key.code != KeyCode::Esc ==> r == PromptStep::Continue
                && final(self)@ == old(self)@,
            EditorView::is_typed_char(key) ==> final(buf)@ == old(buf)@.push(key.code->Char_0),
            key.code != KeyCode::Enter && key.code != KeyCode::Esc && !EditorView::is_typed_char(key)
                ==> final(buf)@ == old(buf)@,
    {
        match key.code {
            KeyCode::Enter => {
                self.set_status_msg(String::new());
                PromptStep::Done
            },
            KeyCode::Esc => {
                self.set_status_msg(String::new());
                PromptStep::Cancelled
            },
            KeyCode::Char(ch) => {
                if key.modifiers == NONE || key.modifiers == SHIFT {
                    string_push(buf, ch);
                }
                PromptStep::Continue
            },
            _ => PromptStep::Continue,
        }
    }

    /// Names the file that the text is saved to.
    pub fn set_filename(&mut self, filename: String)
        ensures
            final(self)@ == (EditorView { filename: filename@, ..old(self)@ }),
            final(self).spec_rows() == old(self).spec_rows(),
            final(self).spec_screen() == old(self).spec_screen(),
            old(self).wf() ==> final(self).wf(),
    {
        self.filename = filename;
        proof {
            if old(self).wf() {
                Self::lemma_same_rows_wf(old(self), self);
            }
        }
    }

    /// The text was saved, `len` bytes: no change is left unsaved.
    pub fn saved(&mut self, len: usize)
        ensures
            final(self)@ == (EditorView {
                dirty: 0,
                status_msg: decimal(len as nat) + " bytes written to disk"@,
                ..old(self)@
            }),
            final(self).spec_rows() == old(self).spec_rows(),
            final(self).spec_screen() == old(self).spec_screen(),
            old(self).wf() ==> final(self).wf(),
    {
        self.dirty = 0;
        let mut msg = decimal_string(len as u64);
        push_all(&mut msg, " bytes written to disk");
        self.set_status_msg(msg);
    }

    /// The text could not be saved, for the reason `error`.
    pub fn save_failed(&mut self, error: &str)
        ensures
            final(self)@ == (EditorView {
                status_msg: "can't save I/O error: "@ + error@,
                ..old(self)@
            }),
            final(self).spec_rows() == old(self).spec_rows(),
            final(self).spec_screen() == old(self).spec_screen(),
            old(self).wf() ==> final(self).wf(),
    {
        let mut msg = string_of("can't save I/O error: ");
        push_all(&mut msg, error);
        self.set_status_msg(msg);
    }
}

proof fn lemma_split_append_line(a: Seq<char>, t: Seq<char>)
    requires
        !t.contains('\n'),
    ensures
        split_lines(a + t) == split_lines(a).update(
            split_lines(a).len() - 1,
            split_lines(a).last() + t,
        ),
        split_lines(a + t).len() == split_lines(a).len(),
    decreases t.len(),
{
    let la = split_lines(a);
    lemma_split_nonempty(a);
    if t.len() == 0 {
        assert(a + t =~= a);
        assert(la.last() + t =~= la.last());
        assert(la.update(la.len() - 1, la.last()) =~= la);
    } else {
        let p = t.drop_last();
        assert(!p.contains('\n')) by {
            if p.contains('\n') {
                let i = choose|i: int| 0 <= i < p.len() && p[i] == '\n';
                assert(t[i] == '\n');
            }
        }
        lemma_split_append_line(a, p);
        assert((a + t).drop_last() =~= a + p);
        assert((a + t).last() == t.last());
        assert(t.last() != '\n') by {
            assert(t[t.len() - 1] == t.last());
        }
        let l = split_lines(a + p);
        assert(l.last() == la.last() + p);
        assert(la.last() + p + seq![t.last()] =~= la.last() + t) by {
            assert(t =~= p.push(t.last()));
        }
        assert(l.last().push(t.last()) =~= la.last() + t);
        assert(split_lines(a + t) == l.update(l.len() - 1, l.last().push(t.last())));
        assert(split_lines(a + t) =~= la.update(la.len() - 1, la.last() + t));
    }
}

proof fn lemma_split_nonempty(s: Seq<char>)
    ensures
        split_lines(s).len() >= 1,
    decreases s.len(),
{
    if s.len() > 0 {
        lemma_split_nonempty(s.drop_last());
    }
}

/// The text of lines without line breaks, cut at its line breaks, gives
/// the lines back and an empty last line.
proof fn lemma_split_rows_text(rows: Seq<Seq<char>>)
    requires
        forall|i: int| 0 <= i < rows.len() ==> !(#[trigger] rows[i]).contains('\n'),
    ensures
        split_lines(rows_text(rows)) == rows.push(Seq::empty()),
    decreases rows.len(),
{
    if rows.len() == 0 {
        assert(split_lines(rows_text(rows)) =~= rows.push(Seq::empty()));
    } else {
        let p = rows.drop_last();
        let r = rows.last();
        assert forall|i: int| 0 <= i < p.len() implies !(#[trigger] p[i]).contains('\n') by {
            assert(p[i] == rows[i]);
        }
        assert(!r.contains('\n')) by {
            assert(rows[rows.len() - 1] == r);
        }
        lemma_split_rows_text(p);
        let t = rows_text(p);
        lemma_split_append_line(t, r);
        assert(split_lines(t + r) =~= p.push(r));
        assert(rows_text(rows) =~= (t + r).push('\n'));
        assert((t + r).push('\n').drop_last() =~= t + r);
        assert(split_lines(rows_text(rows)) =~= p.push(r).push(Seq::empty()));
        assert(p.push(r) =~= rows);
    }
}

/// Saving the text and opening the saved file again gives the same lines,
/// when no line holds a line break.
pub proof fn law_saved_text_reloads(rows: Seq<Seq<char>>)
    requires
        forall|i: int| 0 <= i < rows.len() ==> !(#[trigger] rows[i]).contains('\n'),
    ensures
        loaded_rows(split_lines(rows_text(rows))) == rows,
{
    lemma_split_rows_text(rows);
    assert(rows.push(Seq::<char>::empty()).drop_last() =~= rows);
}

/// The lines of a text, each followed by a line break, give back the text
/// and a last line break; the last line is empty exactly when the text is
/// empty or ends with a line break.
proof fn lemma_rows_text_split(c: Seq<char>)
    ensures
        rows_text(split_lines(c)) == c.push('\n'),
        split_lines(c).len() >= 1,
        (split_lines(c).last().len() == 0) == (c.len() == 0 || c.last() == '\n'),
    decreases c.len(),
{
    if c.len() == 0 {
        let l = split_lines(c);
        assert(l =~= seq![Seq::<char>::empty()]);
        assert(l.drop_last() =~= Seq::<Seq<char>>::empty());
        assert(rows_text(l) == rows_text(l.drop_last()) + l.last().push('\n'));
        assert(rows_text(l.drop_last()) == Seq::<char>::empty());
        assert(rows_text(l) =~= c.push('\n'));
    } else {
        let p = c.drop_last();
        let ch = c.last();
        lemma_rows_text_split(p);
        let lp = split_lines(p);
        assert(c =~= p.push(ch));
        if ch == '\n' {
            let l = lp.push(Seq::empty());
            assert(l.drop_last() =~= lp);
            assert(rows_text(l) == rows_text(l.drop_last()) + l.last().push('\n'));
            assert(rows_text(l) =~= c.push('\n'));
        } else {
            let x = lp.last().push(ch);
            let l = lp.update(lp.len() - 1, x);
            assert(l.drop_last() =~= lp.drop_last());
            assert(l.last() == x);
            assert(rows_text(l) == rows_text(l.drop_last()) + l.last().push('\n'));
            assert(rows_text(lp) == rows_text(lp.drop_last()) + lp.last().push('\n'));
            assert(rows_text(lp.drop_last()) + lp.last() =~= p) by {
                assert(rows_text(lp.drop_last()) + lp.last().push('\n') =~= (rows_text(
                    lp.drop_last(),
                ) + lp.last()).push('\n'));
                assert(p.push('\n').drop_last() =~= p);
                assert((rows_text(lp.drop_last()) + lp.last()).push('\n').drop_last() =~= rows_text(
                    lp.drop_last(),
                ) + lp.last());
            }
            assert(rows_text(l) =~= c.push('\n'));
            assert(x.len() > 0);
        }
    }
}

/// Loading a text and saving it gives the text back, with a final line
/// break added when it has none.
pub proof fn law_loaded_text_saves_back(c: Seq<char>)
    ensures
        rows_text(loaded_rows(split_lines(c))) == (if c.len() == 0 || c.last() == '\n' {
            c
        } else {
            c.push('\n')
        }),
{
    lemma_rows_text_split(c);
    let l = split_lines(c);
    if c.len() == 0 || c.last() == '\n' {
        assert(l.last() =~= Seq::<char>::empty());
        assert(rows_text(l) == rows_text(l.drop_last()) + l.last().push('\n'));
        assert(l.last().push('\n') =~= seq!['\n']);
        assert(c.push('\n') =~= rows_text(l.drop_last()) + seq!['\n']);
        assert(rows_text(l.drop_last()) =~= c.push('\n').drop_last());
        assert(c.push('\n').drop_last() =~= c);
    }
}

/// The key event of a key pressed alone.
pub open spec fn plain_key(code: KeyCode) -> KeyEvent {
    KeyEvent { code, modifiers: NONE }
}

/// Ctrl+q.
pub open spec fn quit_key() -> KeyEvent {
    KeyEvent { code: KeyCode::Char('q'), modifiers: CONTROL }
}

/// With unsaved changes, Ctrl+q only warns `QUIT_TIME` times and quits on
/// the next press; without them it quits at once.
pub proof fn law_quit_confirmation(v: EditorView)
    requires
        v.quit_time == QUIT_TIME,
    ensures
        v.dirty > 0 ==> v.key_action(quit_key()) == KeyAction::Continue,
        v.dirty > 0 ==> v.after_key(quit_key()).key_action(quit_key()) == KeyAction::Continue,
        v.dirty > 0 ==> v.after_key(quit_key()).after_key(quit_key()).key_action(quit_key())
            == KeyAction::Continue,
        v.dirty > 0 ==> v.after_key(quit_key()).after_key(quit_key()).after_key(
            quit_key(),
        ).key_action(quit_key()) == KeyAction::Quit,
        v.dirty == 0 ==> v.key_action(quit_key()) == KeyAction::Quit,
{
}

/// Any other key restores the full count of Ctrl+q presses.
pub proof fn law_other_keys_reset_quit_count(v: EditorView, key: KeyEvent)
    requires
        key != quit_key(),
    ensures
        v.after_key(key).quit_time == QUIT_TIME,
{
}

/// After a cursor move the cursor is never past the end of its line.
pub proof fn law_moves_stay_in_line(v: EditorView, key: EditorKey)
    ensures
        v.moved(key).cx <= v.moved(key).current_row_len(),
{
}

/// A cursor move never takes the cursor past the line after the text.
pub proof fn law_moves_stay_in_text(v: EditorView, key: EditorKey)
    requires
        v.cy <= v.rows.len(),
        v.rows.len() <= usize::MAX,
        v.move_ok(key),
    ensures
        v.moved(key).cy <= v.rows.len(),
{
    let m = v.rows.len() as usize;
    assert((m as u16) <= m) by (bit_vector);
    assert(v.rows.len() as u16 == m as u16);
}

/// Scrolling brings the cursor on the screen.
pub proof fn law_scroll_shows_cursor(v: EditorView)
    requires
        v.scroll_ok(),
        v.hight > 0,
        v.width > 0,
    ensures
        v.scrolled().rowsoff <= v.scrolled().cy < v.scrolled().rowsoff + v.scrolled().hight,
        v.scrolled().coloff <= v.scrolled().render_x < v.scrolled().coloff + v.scrolled().width,
{
}

/// Enter followed by Backspace gives the text and the cursor back.
pub proof fn law_backspace_undoes_enter(v: EditorView)
    requires
        v.newline_ok(),
        v.cy < v.rows.len(),
        v.rows.len() < u16::MAX,
    ensures
        v.after_key(plain_key(KeyCode::Enter)).after_key(plain_key(KeyCode::Backspace)).rows
            == v.rows,
        v.after_key(plain_key(KeyCode::Enter)).after_key(plain_key(KeyCode::Backspace)).cx
            == v.cx,
        v.after_key(plain_key(KeyCode::Enter)).after_key(plain_key(KeyCode::Backspace)).cy
            == v.cy,
{
    let y = v.cy as int;
    let row = v.rows[y];
    let w = v.after_key(plain_key(KeyCode::Enter));
    assert(w == (EditorView { quit_time: QUIT_TIME, ..v.newline_inserted() }));
    assert(w.rows.len() == v.rows.len() + 1);
    assert(w.cy == v.cy + 1);
    assert(w.cx == 0);
    assert((w.rows.len() as u16) == w.rows.len());
    assert(w.above());
    let u = w.char_deleted();
    if v.cx == 0 {
        assert(w.rows =~= v.rows.insert(y, Seq::empty()));
        assert(w.rows[y] + w.rows[y + 1] =~= row);
        assert(u.rows =~= v.rows);
        assert(byte_len(w.rows[y]) == 0);
    } else {
        let k = char_index(row, v.cx as int);
        lemma_boundary(row, v.cx as int);
        assert(w.rows =~= v.rows.update(y, row.take(k)).insert(y + 1, row.skip(k)));
        assert(w.rows[y] + w.rows[y + 1] =~= row);
        assert(u.rows =~= v.rows);
        assert(byte_len(w.rows[y]) == v.cx);
    }
}

/// Typing a character and then Backspace gives the text and the cursor
/// back, in a line of the text with the cursor at most at its end.
pub proof fn law_backspace_undoes_typing(v: EditorView, c: char)
    requires
        v.insert_char_ok(c),
        v.cy < v.rows.len(),
        v.rows.len() <= u16::MAX,
        v.cx <= byte_len(v.rows[v.cy as int]),
    ensures
        v.after_key(plain_key(KeyCode::Char(c))).after_key(plain_key(KeyCode::Backspace)).rows
            == v.rows,
        v.after_key(plain_key(KeyCode::Char(c))).after_key(plain_key(KeyCode::Backspace)).cx
            == v.cx,
        v.after_key(plain_key(KeyCode::Char(c))).after_key(plain_key(KeyCode::Backspace)).cy
            == v.cy,
{
    let y = v.cy as int;
    let row = v.rows[y];
    let x = v.cx as int;
    assert((v.rows.len() as u16) == v.rows.len());
    assert(v.above());
    assert(v.with_line_for_char() == v);
    if x == byte_len(row) {
        lemma_char_index_of_prefix(row, row.len() as int);
        assert(row.take(row.len() as int) =~= row);
        assert(row.insert(row.len() as int, c) =~= row.push(c));
    }
    assert(on_boundary(row, x));
    law_del_char_undoes_insert_char(row, x, c);
    let w = v.after_key(plain_key(KeyCode::Char(c)));
    assert(w.rows == v.rows.update(y, row.insert(char_index(row, x), c)));
    assert(w.cx == v.cx + 1);
    let u = w.char_deleted();
    assert(u.rows =~= v.rows);
}

impl Editor {
    pub fn cursor(&self) -> (r: Position)
        ensures
            r.x == self@.cx,
            r.y == self@.cy,
    {
        self.cursor
    }

    pub fn render_x(&self) -> (r: u16)
        ensures
            r == self@.render_x,
    {
        self.render_x
    }

    pub fn rowsoff(&self) -> (r: u16)
        ensures
            r == self@.rowsoff,
    {
        self.rowsoff
    }

    pub fn coloff(&self) -> (r: u16)
        ensures
            r == self@.coloff,
    {
        self.coloff
    }

    pub fn dirty(&self) -> (r: usize)
        ensures
            r == self@.dirty,
    {
        self.dirty
    }

    pub fn quit_time(&self) -> (r: usize)
        ensures
            r == self@.quit_time,
    {
        self.quit_time
    }

    pub fn filename(&self) -> (r: &str)
        ensures
            r@ == self@.filename,
    {
        self.filename.as_str()
    }

    pub fn status_msg(&self) -> (r: &str)
        ensures
            r@ == self@.status_msg,
    {
        self.status_msg.as_str()
    }

    pub fn rows(&self) -> (r: &[Raw])
        ensures
            r@ == self.spec_rows(),
            r@.len() == self@.rows.len(),
            forall|i: int| 0 <= i < r@.len() ==> (#[trigger] r@[i]).chars@ == self@.rows[i],
            self.wf() ==> forall|i: int| 0 <= i < r@.len() ==> (#[trigger] r@[i]).wf(),
    {
        self.rows.as_slice()
    }

    pub fn screen(&self) -> (r: &Screen)
        ensures
            *r == self.spec_screen(),
            r.spec_width() == self@.width,
            r.spec_hight() == self@.hight,
    {
        &self.screen
    }
}

impl Editor {
    /// Whether deleting with the cursor at (`x`, `y`) stays within the
    /// limits that `del_char` needs.
    fn del_ok_at(&self, x: u16, y: u16) -> (r: bool)
        requires
            self.wf(),
        ensures
            r == self@.with_cursor(x, y).del_char_ok(),
    {
        let p = Position { x, y };
        if !p.above(self.rows.len()) || (x == 0 && y == 0) {
            return true;
        }
        let ghost v = self@.with_cursor(x, y);
        let row = self.rows[y as usize].chars.as_str();
        let n = row.unicode_len();
        proof {
            assert(row@ == v.rows[y as int]);
        }
        if x > 0 {
            let at = (x - 1) as usize;
            if at < string_len(&self.rows[y as usize].chars) {
                if self.dirty == usize::MAX || !boundary_at(row, at) {
                    return false;
                }
                let k = char_index_at(row, at);
                proof {
                    lemma_boundary(row@, at as int);
                    assert(row@.subrange(0, k as int) + Seq::<char>::empty() + row@.subrange(
                        k + 1,
                        n as int,
                    ) =~= row@.remove(k as int));
                }
                fits_drawn(row, 0, k, None, row, k + 1, n)
            } else {
                true
            }
        } else {
            if self.dirty > usize::MAX - 2 {
                return false;
            }
            let prev = self.rows[(y - 1) as usize].chars.as_str();
            let m = prev.unicode_len();
            proof {
                assert(prev@ == v.rows[y - 1]);
                assert(prev@.subrange(0, m as int) + Seq::<char>::empty() + row@.subrange(0, n as int)
                    =~= v.rows[y - 1] + v.rows[y as int]);
            }
            fits_drawn(prev, 0, m, None, row, 0, n)
        }
    }

    /// Whether typing `c` stays within the limits that `insert_char` needs.
    fn insert_ok(&self, c: char) -> (r: bool)
        requires
            self.wf(),
        ensures
            r == self@.insert_char_ok(c),
    {
        let len = self.rows.len();
        let above = self.cursor.above(len);
        let y = self.cursor.y as usize;
        let x = self.cursor.x;
        if !above && y > len {
            return false;
        }
        if x == u16::MAX || (above && self.dirty == usize::MAX) || (!above && self.dirty
            > usize::MAX - 2) {
            return false;
        }
        let ghost v = self@.with_line_for_char();
        if y < len {
            let row = self.rows[y].chars.as_str();
            let n = row.unicode_len();
            proof {
                assert(row@ == v.rows[y as int]);
            }
            if (x as usize) < string_len(&self.rows[y].chars) {
                if !boundary_at(row, x as usize) {
                    return false;
                }
                let k = char_index_at(row, x as usize);
                proof {
                    lemma_boundary(row@, x as int);
                    assert(row@.subrange(0, k as int) + seq![c] + row@.subrange(k as int, n as int)
                        =~= row@.insert(k as int, c));
                }
                fits_drawn(row, 0, k, Some(c), row, k, n)
            } else {
                proof {
                    assert(row@.subrange(0, n as int) + seq![c] + "".view().subrange(0, 0) =~= row@.push(c));
                }
                fits_drawn(row, 0, n, Some(c), "", 0, 0)
            }
        } else {
            proof {
                assert(v.rows[y as int] =~= Seq::<char>::empty());
                assert("".view().subrange(0, 0) + seq![c] + "".view().subrange(0, 0) =~= Seq::<
                    char,
                >::empty().push(c));
            }
            fits_drawn("", 0, 0, Some(c), "", 0, 0)
        }
    }

    /// Whether Enter stays within the limits that `insert_newlines` needs.
    fn newline_ok_exec(&self) -> (r: bool)
        requires
            self.wf(),
        ensures
            r == self@.newline_ok(),
    {
        if self.cursor.y == u16::MAX || self.dirty == usize::MAX {
            return false;
        }
        if self.cursor.x != 0 {
            let y = self.cursor.y as usize;
            if y >= self.rows.len() {
                return false;
            }
            let row = self.rows[y].chars.as_str();
            let n = row.unicode_len();
            proof {
                assert(row@ == self@.rows[y as int]);
            }
            if !boundary_at(row, self.cursor.x as usize) {
                return false;
            }
            let k = char_index_at(row, self.cursor.x as usize);
            proof {
                lemma_boundary(row@, self.cursor.x as int);
                assert(row@.subrange(0, k as int) + Seq::<char>::empty() + "".view().subrange(0, 0)
                    =~= row@.take(k as int));
                assert(row@.subrange(k as int, n as int) + Seq::<char>::empty() + "".view().subrange(
                    0,
                    0,
                ) =~= row@.skip(k as int));
            }
            fits_drawn(row, 0, k, None, "", 0, 0) && fits_drawn(row, k, n, None, "", 0, 0)
        } else {
            true
        }
    }

    /// Whether `process_key` can take `key` now: no overflow, every cut on a
    /// character boundary, every changed line drawable.
    pub fn key_ok(&self, key: KeyEvent) -> (r: bool)
        requires
            self.wf(),
        ensures
            r == self@.key_ok(key),
    {
        if (key.code == KeyCode::Char('q') && key.modifiers == CONTROL) || (key.code == KeyCode::Char(
            's',
        ) && key.modifiers == CONTROL) || (key.code == KeyCode::Char('l') && key.modifiers
            == CONTROL) || key.code == KeyCode::Esc {
            true
        } else if (key.code == KeyCode::Char('h') && key.modifiers == CONTROL) || key.code
            == KeyCode::Backspace || key.code == KeyCode::Delete {
            if key.code == KeyCode::Delete {
                let p = self.moved_cursor(EditorKey::Right);
                self.del_ok_at(p.x, p.y)
            } else {
                proof {
                    assert(self@.with_cursor(self@.cx, self@.cy) == self@);
                }
                self.del_ok_at(self.cursor.x, self.cursor.y)
            }
        } else if EditorView::is_typed_char_exec(key) {
            match key.code {
                KeyCode::Char(c) => self.insert_ok(c),
                _ => true,
            }
        } else {
            match key.code {
                KeyCode::Enter => self.newline_ok_exec(),
                KeyCode::Left => !(self.cursor.x == 0 && self.cursor.y > 0) || ((self.cursor.y
                    - 1) as usize) < self.rows.len(),
                KeyCode::PageDown => {
                    let total = self.rowsoff as u32 + self.screen.bound().y as u32;
                    1 <= total && total <= u16::MAX as u32
                },
                _ => true,
            }
        }
    }
}

impl Editor {
    /// The drawn column of the cursor, 0 past the text.
    fn cursor_col(&self) -> (r: u16)
        requires
            self.wf(),
        ensures
            r == self@.cursor_col(),
    {
        if self.cursor.above(self.rows.len()) {
            self.rows[self.cursor.y as usize].cx_to_rx(self.cursor.x)
        } else {
            0
        }
    }

    /// Whether `refresh_screen` can run now: scrolling stays within `u16`,
    /// every drawn line is cut on character boundaries, and the cursor
    /// coordinates fit in the status bar.
    pub fn can_refresh(&self, version: &str) -> (r: bool)
        requires
            self.wf(),
        ensures
            r == (self@.scroll_ok() && self.spec_screen().drawable(
                self.spec_rows(),
                self@.scrolled().rowsoff,
                self@.scrolled().coloff,
                version@,
            ) && byte_len(bar_right(self@.cx as nat, self@.cy as nat)) <= self@.width),
    {
        let bounds = self.screen.bound();
        let rx = self.cursor_col();
        let y = self.cursor.y;
        let ro = if y < self.rowsoff {
            y
        } else {
            self.rowsoff
        };
        let co = if rx < self.coloff {
            rx
        } else {
            self.coloff
        };
        if ro as u32 + bounds.y as u32 > u16::MAX as u32 || co as u32 + bounds.x as u32
            > u16::MAX as u32 {
            return false;
        }
        if y >= ro + bounds.y && y as u32 - bounds.y as u32 + 1 > u16::MAX as u32 {
            return false;
        }
        if rx >= co + bounds.x && rx as u32 - bounds.x as u32 + 1 > u16::MAX as u32 {
            return false;
        }
        let rowsoff = if y >= ro + bounds.y {
            y - bounds.y + 1
        } else {
            ro
        };
        let coloff = if rx >= co + bounds.x {
            rx - bounds.x + 1
        } else {
            co
        };
        if !self.screen.can_draw(self.rows.as_slice(), rowsoff, coloff, version) {
            return false;
        }
        let mut right = decimal_string(self.cursor.x as u64);
        push_all(&mut right, "/");
        let ys = decimal_string(self.cursor.y as u64);
        push_all(&mut right, ys.as_str());
        proof {
            assert(right@ =~= bar_right(self@.cx as nat, self@.cy as nat));
        }
        string_len(&right) <= bounds.x as usize
    }
}

impl Editor {
    /// The first step of a save: without a file name, ask for one; else
    /// write the text.
    pub fn begin_save(&self) -> (r: SaveStep)
        ensures
            self@.filename.len() == 0 ==> (r is AskName),
            self@.filename.len() > 0 ==> (r matches SaveStep::Write(t) && t@ == rows_text(self@.rows)),
    {
        if self.filename.as_str().is_empty() {
            SaveStep::AskName
        } else {
            SaveStep::Write(self.rows_to_string())
        }
    }

    /// The step after the file name prompt: with an answer, it becomes the
    /// file name and the text is written; without one, nothing is saved.
    pub fn name_given(&mut self, answer: Option<String>) -> (r: SaveStep)
        ensures
            answer is None ==> (r is Stop) && final(self)@ == old(self)@,
            answer matches Some(name) ==> final(self)@ == (EditorView {
                filename: name@,
                ..old(self)@
            }),
            answer is Some ==> (r matches SaveStep::Write(t) && t@ == rows_text(old(self)@.rows)),
            final(self).spec_rows() == old(self).spec_rows(),
            final(self).spec_screen() == old(self).spec_screen(),
            old(self).wf() ==> final(self).wf(),
    {
        match answer {
            Some(filename) => {
                self.set_filename(filename);
                SaveStep::Write(self.rows_to_string())
            },
            None => SaveStep::Stop,
        }
    }
}

/// Lines that the editor keeps in `u16` counts: fewer than `u16::MAX`
/// lines, each all ASCII and at most 30000 bytes long.
pub open spec fn small_ascii_text(rows: Seq<Seq<char>>) -> bool {
    &&& rows.len() < u16::MAX
    &&& forall|i: int|
        0 <= i < rows.len() ==> all_ascii(#[trigger] rows[i]) && byte_len(rows[i]) <= 30000
}

proof fn lemma_cast_fits(n: nat)
    requires
        n <= u16::MAX,
    ensures
        (n as u16) as nat == n,
{
}

/// In a small text, the line length and the line count need no cut.
proof fn lemma_current_row_len(v: EditorView)
    requires
        small_ascii_text(v.rows),
    ensures
        v.above() == (v.cy < v.rows.len()),
        v.above() ==> v.current_row_len() == byte_len(v.rows[v.cy as int]),
        !v.above() ==> v.current_row_len() == 0,
{
    lemma_cast_fits(v.rows.len());
    if v.cy < v.rows.len() {
        lemma_cast_fits(byte_len(v.rows[v.cy as int]));
    }
}

/// A move from a line of the text, or the line after it, ends in the text.
proof fn lemma_moved_in_text(v: EditorView, key: EditorKey)
    requires
        v.cy <= v.rows.len(),
        small_ascii_text(v.rows),
    ensures
        v.moved(key).cursor_in_text(),
        v.moved(key).rows == v.rows,
{
    law_moves_stay_in_text(v, key);
    law_moves_stay_in_line(v, key);
}

proof fn lemma_moved_times_in_text(v: EditorView, key: EditorKey, n: nat)
    requires
        n >= 1,
        v.cy <= v.rows.len(),
        small_ascii_text(v.rows),
    ensures
        v.moved_times(key, n).cursor_in_text(),
        v.moved_times(key, n).rows == v.rows,
    decreases n,
{
    lemma_moved_in_text(v, key);
    if n > 1 {
        lemma_moved_times_in_text(v.moved(key), key, (n - 1) as nat);
    } else {
        assert(v.moved(key).moved_times(key, 0) == v.moved(key));
    }
}

proof fn lemma_deleted_in_text(v: EditorView)
    requires
        v.cursor_in_text(),
        small_ascii_text(v.rows),
    ensures
        v.char_deleted().cursor_in_text(),
{
    lemma_current_row_len(v);
    let w = v.char_deleted();
    let y = v.cy as int;
    if v.above() && !(v.cx == 0 && y == 0) {
        if v.cx > 0 {
            let row = v.rows[y];
            let at = v.cx - 1;
            if at < byte_len(row) {
                lemma_len_le_byte_len(row);
                lemma_ascii_boundary(row, at);
                lemma_ascii_remove(row, at);
                assert(w.rows.len() == v.rows.len());
                lemma_cast_fits(w.rows.len());
                lemma_cast_fits(byte_len(w.rows[y]));
                assert(w.current_row_len() == byte_len(row.remove(at)));
            }
        } else {
            let joined = v.rows[y - 1] + v.rows[y];
            lemma_byte_len_concat(v.rows[y - 1], v.rows[y]);
            lemma_cast_fits(byte_len(v.rows[y - 1]));
            assert(w.rows[y - 1] == joined);
            lemma_cast_fits(w.rows.len());
            lemma_cast_fits(byte_len(joined));
        }
    }
}

proof fn lemma_inserted_in_text(v: EditorView, c: char)
    requires
        v.cursor_in_text(),
        small_ascii_text(v.rows),
        v.insert_char_ok(c),
    ensures
        v.char_inserted(c).cursor_in_text(),
{
    lemma_current_row_len(v);
    let u = v.with_line_for_char();
    let w = v.char_inserted(c);
    let y = v.cy as int;
    let row = u.rows[y];
    if !v.above() {
        assert(y == v.rows.len());
        assert(row =~= Seq::<char>::empty());
        assert(byte_len(row) == 0) by {
            assert(vstd::utf8::encode_utf8(row) =~= Seq::<u8>::empty());
        }
    } else {
        assert(row == v.rows[y]);
    }
    lemma_char_width(c);
    lemma_byte_len_push(row, c);
    let new_row = v.line_with_char(c);
    if v.cx < byte_len(row) {
        lemma_len_le_byte_len(row);
        lemma_boundary(row, v.cx as int);
        lemma_insert_bytes(row, char_index(row, v.cx as int), c);
    }
    assert(byte_len(new_row) >= v.cx + 1);
    assert(byte_len(new_row) <= 30004);
    assert(w.rows.len() <= v.rows.len() + 1);
    assert(w.rows[y] == new_row);
    lemma_cast_fits(w.rows.len());
    lemma_cast_fits(byte_len(new_row));
}

proof fn lemma_newline_in_text(v: EditorView)
    requires
        v.cursor_in_text(),
        small_ascii_text(v.rows),
    ensures
        v.newline_inserted().cursor_in_text(),
{
    lemma_current_row_len(v);
}

/// Every key keeps the cursor in the text and within its line, for a small
/// all-ASCII text, a screen of at least one line and a scroll offset within
/// the text; only Ctrl+q quits.
pub proof fn law_keys_keep_cursor_in_text(v: EditorView, key: KeyEvent)
    requires
        v.key_ok(key),
        v.cursor_in_text(),
        small_ascii_text(v.rows),
        v.hight >= 1,
        v.rowsoff <= v.rows.len(),
    ensures
        v.after_key(key).cursor_in_text(),
        v.key_action(key) == KeyAction::Quit ==> EditorView::is_ctrl(key, 'q'),
{
    lemma_current_row_len(v);
    if EditorView::is_ctrl(key, 'q') || EditorView::is_ctrl(key, 's') || EditorView::is_ctrl(
        key,
        'l',
    ) || key.code == KeyCode::Esc {
    } else if EditorView::is_delete_key(key) {
        if key.code == KeyCode::Delete {
            lemma_moved_in_text(v, EditorKey::Right);
            lemma_deleted_in_text(v.moved(EditorKey::Right));
        } else {
            lemma_deleted_in_text(v);
        }
    } else if EditorView::is_typed_char(key) {
        lemma_inserted_in_text(v, key.code->Char_0);
    } else {
        match key.code {
            KeyCode::Enter => lemma_newline_in_text(v),
            KeyCode::Up => lemma_moved_in_text(v, EditorKey::Up),
            KeyCode::Down => lemma_moved_in_text(v, EditorKey::Down),
            KeyCode::Right => lemma_moved_in_text(v, EditorKey::Right),
            KeyCode::Left => lemma_moved_in_text(v, EditorKey::Left),
            KeyCode::PageUp => {
                lemma_moved_times_in_text(
                    v.with_cursor(v.cx, v.rowsoff),
                    EditorKey::Up,
                    v.hight as nat,
                );
            },
            KeyCode::PageDown => {
                lemma_cast_fits(v.rows.len());
                lemma_moved_times_in_text(
                    v.with_cursor(
                        v.cx,
                        min16((v.rowsoff + v.hight - 1) as u16, v.rows.len() as u16),
                    ),
                    EditorKey::Down,
                    v.hight as nat,
                );
            },
            _ => {},
        }
    }
}

/// After scrolling, the cursor's drawn column is the width of the drawing
/// of the characters before it on its line (each tab reaching the next tab
/// stop).
pub proof fn law_scroll_column_is_drawn_width(v: EditorView)
    requires
        v.above(),
        v.cx <= v.rows[v.cy as int].len(),
        render_of(v.rows[v.cy as int].take(v.cx as int)).len() <= u16::MAX,
    ensures
        v.scrolled().render_x as int == render_of(v.rows[v.cy as int].take(v.cx as int)).len(),
{
    let row = v.rows[v.cy as int];
    lemma_render_len(row.take(v.cx as int));
    assert(row.take(row.len() as int) =~= row);
}

/// Past the text, the drawn column of the cursor is 0.
pub proof fn law_scroll_column_past_text(v: EditorView)
    requires
        !v.above(),
    ensures
        v.scrolled().render_x == 0,
{
}

/// Up from a line below the first goes to the line just above; on the
/// first line it stays there.
pub proof fn law_up_goes_one_line_up(v: EditorView)
    ensures
        v.cy > 0 ==> v.moved(EditorKey::Up).cy == v.cy - 1,
        v.cy == 0 ==> v.moved(EditorKey::Up).cy == 0,
{
}

/// Down from a line of the text goes to the next line, and Up brings the
/// cursor back to its line.
pub proof fn law_up_undoes_down(v: EditorView)
    requires
        v.cy < v.rows.len(),
        v.rows.len() <= u16::MAX,
    ensures
        v.moved(EditorKey::Down).cy == v.cy + 1,
        v.moved(EditorKey::Down).moved(EditorKey::Up).cy == v.cy,
{
    lemma_cast_fits(v.rows.len());
}

/// The status bar ends with the cursor column, `/`, and the cursor line,
/// whenever they fit beside its left part.
pub proof fn law_status_bar_shows_cursor(s: Screen, left: Seq<char>, x: u16, y: u16)
    requires
        byte_len(bar_status(left, s.spec_width() as int)) + byte_len(
            decimal(x as nat) + "/"@ + decimal(y as nat),
        ) < s.spec_width(),
    ensures
        ({
            let t = s.bar_text(left, bar_right(x as nat, y as nat));
            let r = decimal(x as nat) + "/"@ + decimal(y as nat);
            t.len() >= r.len() && t.skip(t.len() - r.len()) == r
        }),
{
    let t = s.bar_text(left, bar_right(x as nat, y as nat));
    let r = decimal(x as nat) + "/"@ + decimal(y as nat);
    assert(bar_right(x as nat, y as nat) == r);
    let st = bar_status(left, s.spec_width() as int);
    let sp = Seq::new((s.spec_width() - byte_len(r) - byte_len(st)) as nat, |i: int| ' ');
    assert(t == st + sp + r);
    assert(t.skip(t.len() - r.len()) =~= r);
}

/// Enter adds exactly one line and puts the cursor at the start of the next
/// line: the lines before the cursor stay, the cursor line is cut in two at
/// the cursor (on the line after the text, an empty line is added), and the
/// lines after it move down by one.
pub proof fn law_enter_adds_one_line(v: EditorView)
    requires
        v.cy <= v.rows.len(),
        v.newline_ok(),
    ensures
        v.newline_inserted().rows.len() == v.rows.len() + 1,
        v.newline_inserted().cy == v.cy + 1,
        v.newline_inserted().cx == 0,
        forall|i: int| 0 <= i < v.cy ==> v.newline_inserted().rows[i] == v.rows[i],
        v.cy < v.rows.len() ==> v.newline_inserted().rows[v.cy as int] + v.newline_inserted().rows[v.cy
            + 1] == v.rows[v.cy as int],
        v.cy == v.rows.len() ==> v.newline_inserted().rows[v.cy as int].len() == 0,
        forall|i: int|
            v.cy + 1 < i < v.rows.len() + 1 ==> v.newline_inserted().rows[i] == v.rows[i - 1],
{
    let w = v.newline_inserted();
    let y = v.cy as int;
    if v.cx != 0 {
        let row = v.rows[y];
        let k = char_index(row, v.cx as int);
        lemma_boundary(row, v.cx as int);
        assert(row.take(k) + row.skip(k) =~= row);
    }
}

/// Left and Right in a text whose counts fit in a `u16`: inside a line
/// they move by one byte; Right at the end of a line goes to the start of
/// the next one, Left at the start of a line to the end of the one above.
pub proof fn law_left_right_moves(v: EditorView)
    requires
        v.cy < v.rows.len(),
        v.rows.len() <= u16::MAX,
        forall|i: int| 0 <= i < v.rows.len() ==> byte_len(#[trigger] v.rows[i]) <= u16::MAX,
        v.cx <= byte_len(v.rows[v.cy as int]),
    ensures
        v.cx < byte_len(v.rows[v.cy as int]) ==> v.moved(EditorKey::Right).cx == v.cx + 1
            && v.moved(EditorKey::Right).cy == v.cy,
        v.cx == byte_len(v.rows[v.cy as int]) && v.cy + 1 < v.rows.len() ==> v.moved(
            EditorKey::Right,
        ).cx == 0 && v.moved(EditorKey::Right).cy == v.cy + 1,
        v.cx > 0 ==> v.moved(EditorKey::Left).cx == v.cx - 1 && v.moved(EditorKey::Left).cy == v.cy,
        v.cx == 0 && v.cy > 0 ==> v.moved(EditorKey::Left).cx == byte_len(v.rows[v.cy - 1])
            && v.moved(EditorKey::Left).cy == v.cy - 1,
{
    lemma_cast_fits(v.rows.len());
    lemma_cast_fits(byte_len(v.rows[v.cy as int]));
    if v.cy > 0 {
        lemma_cast_fits(byte_len(v.rows[v.cy - 1]));
    }
    if v.cy + 1 < v.rows.len() {
        lemma_cast_fits(byte_len(v.rows[v.cy + 1]));
    }
}

/// Home goes to the start of the line, End to its end.
pub proof fn law_home_end(v: EditorView)
    requires
        v.cy < v.rows.len(),
        v.rows.len() <= u16::MAX,
        byte_len(v.rows[v.cy as int]) <= u16::MAX,
    ensures
        v.after_key(plain_key(KeyCode::Home)).cx == 0,
        v.after_key(plain_key(KeyCode::End)).cx == byte_len(v.rows[v.cy as int]),
        v.after_key(plain_key(KeyCode::Home)).cy == v.cy,
        v.after_key(plain_key(KeyCode::End)).cy == v.cy,
{
    lemma_cast_fits(v.rows.len());
    lemma_cast_fits(byte_len(v.rows[v.cy as int]));
}

/// The left part of the status bar starts with the file name (or
/// `[No None]` without one), and ends with `(modified)` exactly when there
/// are unsaved changes.
pub proof fn law_status_bar_left(filename: Seq<char>, lines: nat, dirty: nat)
    ensures
        ({
            let name = if filename.len() == 0 {
                "[No None]"@
            } else {
                filename
            };
            let t = bar_left(filename, lines, dirty);
            t.len() >= name.len() && t.take(name.len() as int) == name
        }),
        dirty > 0 ==> ({
            let t = bar_left(filename, lines, dirty);
            t.len() >= 10 && t.skip(t.len() - 10) == "(modified)"@
        }),
        dirty == 0 ==> bar_left(filename, lines, dirty).last() == ' ',
{
    reveal_strlit("(modified)");
    reveal_strlit("");
    reveal_strlit(" ");
    reveal_strlit(" - ");
    reveal_strlit(" lines ");
    let name = if filename.len() == 0 {
        "[No None]"@
    } else {
        filename
    };
    let p = pad_right(name, 20);
    let mid = " - "@ + decimal(lines) + " lines "@ + decimal(dirty) + " "@;
    let tail = if dirty > 0 { "(modified)"@ } else { ""@ };
    let t = bar_left(filename, lines, dirty);
    assert(t =~= p + mid + tail);
    assert(p.take(name.len() as int) =~= name);
    assert(t.take(name.len() as int) =~= name);
    if dirty > 0 {
        assert(t.skip(t.len() - 10) =~= tail);
    } else {
        assert(tail =~= Seq::<char>::empty());
        assert(t.last() == ' ');
    }
}

} // verus!
