//! What the editor draws on the terminal: the text lines, the welcome line
//! of an empty buffer, the status bar and the cursor place.
use vstd::prelude::*;
use crate::Position;
use crate::raw::Raw;
use crate::fmt::{pad_right, pad_to};
use crate::text::{
    byte_len, char_index, lemma_boundary, lemma_len_le_byte_len, on_boundary, push_all, str_slice, string_len, string_of,
    string_truncate, boundary_at,
};

verus! {

/// The text area of the terminal: `width` columns and `hight` lines (the
/// last terminal line is left to the status bar).
pub struct Screen {
    width: u16,
    hight: u16,
}

/// Text to print with its first character at column `x` of line `y`.
pub struct Paint {
    pub x: u16,
    pub y: u16,
    pub text: String,
}

/// What a paint prints, and where.
pub open spec fn paint_view(p: Paint) -> (u16, u16, Seq<char>) {
    (p.x, p.y, p.text@)
}

/// The welcome line shown in an empty buffer.
pub open spec fn welcome(version: Seq<char>) -> Seq<char> {
    "diffany --version "@ + version
}

/// `s` cut to at most `n` bytes.
pub open spec fn truncated(s: Seq<char>, n: int) -> Seq<char> {
    if n >= byte_len(s) {
        s
    } else {
        s.take(char_index(s, n))
    }
}

/// The left part of the status bar: `left` padded with spaces to as many
/// characters as the smaller of its length in bytes and `width`.
pub open spec fn bar_status(left: Seq<char>, width: int) -> Seq<char> {
    pad_right(left, min_int(byte_len(left) as int, width) as nat)
}

/// The smaller of two integers.
pub open spec fn min_int(a: int, b: int) -> int {
    if a <= b {
        a
    } else {
        b
    }
}

impl Screen {
    pub closed spec fn spec_width(&self) -> u16 {
        self.width
    }

    pub closed spec fn spec_hight(&self) -> u16 {
        self.hight
    }

    /// The screen of a terminal with `columns` columns and `rows` lines.
    pub fn new(columns: u16, rows: u16) -> (r: Self)
        requires
            rows >= 1,
        ensures
            r.spec_width() == columns,
            r.spec_hight() == rows - 1,
    {
        Self { width: columns, hight: rows - 1 }
    }

    /// The width and the height of the text area.
    pub fn bound(&self) -> (r: Position)
        ensures
            r.x == self.spec_width(),
            r.y == self.spec_hight(),
    {
        Position { x: self.width, y: self.hight }
    }

    /// The paints of the screen line `raw`, for the lines `rows` drawn from
    /// the line `rowsoff` and the column `coloff` on.
    pub open spec fn line_paints(
        &self,
        rows: Seq<Raw>,
        rowsoff: u16,
        coloff: u16,
        version: Seq<char>,
        raw: int,
    ) -> Seq<(u16, u16, Seq<char>)> {
        let filerow = raw + rowsoff;
        if filerow >= rows.len() {
            if rows.len() == 0 && raw == self.spec_hight() / 3 {
                let w = truncated(welcome(version), self.spec_width() as int);
                if byte_len(w) < self.spec_width() {
                    seq![
                        (0u16, raw as u16, "~"@),
                        (((self.spec_width() - byte_len(w)) / 2) as u16, raw as u16, w),
                    ]
                } else {
                    seq![(0u16, raw as u16, w)]
                }
            } else {
                seq![(0u16, raw as u16, "~"@)]
            }
        } else {
            let r = rows[filerow].render@;
            let len = byte_len(r);
            if len < coloff {
                Seq::empty()
            } else {
                let end = coloff + min_int(len - coloff, self.spec_width() as int);
                seq![(0u16, raw as u16, r.subrange(char_index(r, coloff as int), char_index(r, end)))]
            }
        }
    }

    /// The paints of the first `n` screen lines, in order.
    pub open spec fn frame_paints(
        &self,
        rows: Seq<Raw>,
        rowsoff: u16,
        coloff: u16,
        version: Seq<char>,
        n: int,
    ) -> Seq<(u16, u16, Seq<char>)>
        decreases n,
    {
        if n <= 0 {
            Seq::empty()
        } else {
            self.frame_paints(rows, rowsoff, coloff, version, n - 1) + self.line_paints(
                rows,
                rowsoff,
                coloff,
                version,
                n - 1,
            )
        }
    }

    /// Drawing the screen line `raw` cuts texts on character boundaries.
    pub open spec fn line_drawable(
        &self,
        rows: Seq<Raw>,
        rowsoff: u16,
        coloff: u16,
        version: Seq<char>,
        raw: int,
    ) -> bool {
        let filerow = raw + rowsoff;
        if filerow >= rows.len() {
            rows.len() == 0 && raw == self.spec_hight() / 3 ==> (self.spec_width() >= byte_len(
                welcome(version),
            ) || on_boundary(welcome(version), self.spec_width() as int))
        } else {
            let r = rows[filerow].render@;
            let len = byte_len(r);
            len >= coloff ==> (on_boundary(r, coloff as int) && on_boundary(
                r,
                coloff + min_int(len - coloff, self.spec_width() as int),
            ))
        }
    }

    /// The whole screen can be drawn: line numbers fit in a `u16` and every
    /// line is cut on character boundaries.
    pub open spec fn drawable(&self, rows: Seq<Raw>, rowsoff: u16, coloff: u16, version: Seq<char>) -> bool {
        &&& self.spec_hight() == 0 || rowsoff + self.spec_hight() - 1 <= u16::MAX
        &&& forall|raw: int|
            0 <= raw < self.spec_hight() ==> #[trigger] self.line_drawable(
                rows,
                rowsoff,
                coloff,
                version,
                raw,
            )
    }

    /// The paints of the text area: the lines of `rows` from `rowsoff` on,
    /// cut to the columns from `coloff` on; `~` past the end of the text; in
    /// an empty text, the welcome line a third of the way down.
    pub fn draw_rows(&self, rows: &[Raw], rowsoff: u16, coloff: u16, version: &str) -> (r: Vec<Paint>)
        requires
            self.drawable(rows@, rowsoff, coloff, version@),
        ensures
            r@.map_values(|p: Paint| paint_view(p)) == self.frame_paints(
                rows@,
                rowsoff,
                coloff,
                version@,
                self.spec_hight() as int,
            ),
    {
        let mut out: Vec<Paint> = Vec::new();
        let mut raw: u16 = 0;
        while raw < self.hight
            invariant
                raw <= self.hight,
                self.drawable(rows@, rowsoff, coloff, version@),
                out@.map_values(|p: Paint| paint_view(p)) == self.frame_paints(
                    rows@,
                    rowsoff,
                    coloff,
                    version@,
                    raw as int,
                ),
            decreases self.hight - raw,
        {
            assert(self.line_drawable(rows@, rowsoff, coloff, version@, raw as int));
            let ghost before = out@;
            let filerow = (raw + rowsoff) as usize;
            if filerow >= rows.len() {
                if rows.len() == 0 && raw == self.hight / 3 {
                    let mut w = string_of("diffany --version ");
                    push_all(&mut w, version);
                    string_truncate(&mut w, self.width as usize);
                    let wl = string_len(&w);
                    if wl < self.width as usize {
                        let leftmost = ((self.width as usize - wl) / 2) as u16;
                        out.push(Paint { x: 0, y: raw, text: string_of("~") });
                        out.push(Paint { x: leftmost, y: raw, text: w });
                    } else {
                        out.push(Paint { x: 0, y: raw, text: w });
                    }
                } else {
                    out.push(Paint { x: 0, y: raw, text: string_of("~") });
                }
            } else {
                let row = &rows[filerow];
                let mut len = row.render_len();
                if len >= coloff as usize {
                    len -= coloff as usize;
                    let start = coloff as usize;
                    let end = start + if len >= self.width as usize {
                        self.width as usize
                    } else {
                        len
                    };
                    proof {
                        lemma_boundary(row.render@, start as int);
                        lemma_boundary(row.render@, end as int);
                    }
                    let part = str_slice(row.render.as_str(), start, end);
                    out.push(Paint { x: 0, y: raw, text: string_of(part) });
                }
            }
            proof {
                assert(out@.map_values(|p: Paint| paint_view(p)) =~= before.map_values(
                    |p: Paint| paint_view(p),
                ) + self.line_paints(rows@, rowsoff, coloff, version@, raw as int));
            }
            raw += 1;
        }
        out
    }

    /// The cursor place on the terminal for the cursor `pos` drawn at the
    /// column `render_x`, with the text scrolled by `rowsoff` lines and
    /// `coloff` columns.
    pub fn move_to(&self, pos: &Position, render_x: u16, rowsoff: u16, coloff: u16) -> (r: Position)
        requires
            coloff <= render_x,
            rowsoff <= pos.y,
        ensures
            r.x == render_x - coloff,
            r.y == pos.y - rowsoff,
    {
        Position { x: render_x - coloff, y: pos.y - rowsoff }
    }

    /// The status bar line: `left` (see `bar_status`), then, when there is
    /// room, spaces and `right` against the right edge.
    pub open spec fn bar_text(&self, left: Seq<char>, right: Seq<char>) -> Seq<char> {
        let status = bar_status(left, self.spec_width() as int);
        let room = self.spec_width() - byte_len(right);
        if byte_len(status) < room {
            status + Seq::new((room - byte_len(status)) as nat, |i: int| ' ') + right
        } else {
            status
        }
    }

    /// The status bar, printed on the line below the text area.
    pub fn draw_bar(&self, left: String, right: String) -> (r: Paint)
        requires
            byte_len(right@) <= self.spec_width(),
        ensures
            r.x == 0,
            r.y == self.spec_hight(),
            r.text@ == self.bar_text(left@, right@),
    {
        let left_len = string_len(&left);
        let right_width = string_len(&right);
        let srceen_width = self.width as usize;
        let status_width = if left_len < srceen_width {
            left_len
        } else {
            srceen_width
        };
        let mut status = pad_to(left.as_str(), status_width);
        let left_width = string_len(&status);
        let mut rstatus = String::new();
        if left_width < srceen_width - right_width {
            let mut len = left_width;
            proof {
                lemma_len_le_byte_len(right@);
            }
            while len < srceen_width
                invariant_except_break
                    rstatus@ == Seq::new((len - left_width) as nat, |i: int| ' '),
                invariant
                    left_width <= len <= srceen_width - right_width,
                    right_width <= srceen_width,
                    srceen_width == self.spec_width(),
                    right_width == byte_len(right@),
                    right@.len() <= right_width,
                ensures
                    rstatus@ == Seq::new((srceen_width - right_width - left_width) as nat, |i: int| ' ')
                        + right@,
                decreases srceen_width - len,
            {
                if srceen_width - len == right_width {
                    push_all(&mut rstatus, right.as_str());
                    break;
                } else {
                    push_all(&mut rstatus, " ");
                    proof {
                        reveal_strlit(" ");
                        assert(rstatus@ =~= Seq::new((len + 1 - left_width) as nat, |i: int| ' '));
                    }
                    len += 1;
                }
            }
        }
        proof {
            if !(left_width < srceen_width - right_width) {
                assert(rstatus@ =~= Seq::<char>::empty());
            }
        }
        let ghost st = status@;
        proof {
            assert(st == bar_status(left@, self.spec_width() as int));
        }
        push_all(&mut status, rstatus.as_str());
        proof {
            assert(status@ =~= self.bar_text(left@, right@));
        }
        Paint { x: 0, y: self.hight, text: status }
    }
}

impl Screen {
    /// Whether `draw_rows` can draw these lines: what `drawable` states.
    pub fn can_draw(&self, rows: &[Raw], rowsoff: u16, coloff: u16, version: &str) -> (r: bool)
        ensures
            r == self.drawable(rows@, rowsoff, coloff, version@),
    {
        if self.hight > 0 && rowsoff as u32 + self.hight as u32 - 1 > u16::MAX as u32 {
            return false;
        }
        let mut raw: u16 = 0;
        while raw < self.hight
            invariant
                raw <= self.hight,
                self.spec_hight() == 0 || rowsoff + self.spec_hight() - 1 <= u16::MAX,
                forall|j: int|
                    0 <= j < raw ==> #[trigger] self.line_drawable(rows@, rowsoff, coloff, version@, j),
            decreases self.hight - raw,
        {
            let filerow = (raw + rowsoff) as usize;
            if filerow >= rows.len() {
                if rows.len() == 0 && raw == self.hight / 3 {
                    let mut w = string_of("diffany --version ");
                    push_all(&mut w, version);
                    if (self.width as usize) < string_len(&w) && !boundary_at(w.as_str(), self.width as usize) {
                        proof {
                            assert(w@ == welcome(version@));
                            assert(!self.line_drawable(rows@, rowsoff, coloff, version@, raw as int));
                        }
                        return false;
                    }
                }
            } else {
                let render = rows[filerow].render.as_str();
                let len = string_len(&rows[filerow].render);
                if len >= coloff as usize {
                    let rest = len - coloff as usize;
                    let end = coloff as usize + if rest >= self.width as usize {
                        self.width as usize
                    } else {
                        rest
                    };
                    if !boundary_at(render, coloff as usize) || !boundary_at(render, end) {
                        proof {
                            assert(!self.line_drawable(rows@, rowsoff, coloff, version@, raw as int));
                        }
                        return false;
                    }
                }
            }
            raw += 1;
        }
        true
    }
}

} // verus!
