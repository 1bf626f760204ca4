//! One line of the edited text: its characters, how they are drawn (tabs
//! expanded to the next tab stop) and the highlight of each drawn cell.
use vstd::prelude::*;
use crate::fmt::{decimal, digit_char};
use crate::text::{
    all_ascii, byte_len, char_index, char_width, lemma_boundary, lemma_byte_len_concat,
    lemma_byte_len_single,
    char_len, lemma_byte_len_push, lemma_char_index_of_prefix, lemma_char_width, lemma_insert_bytes, lemma_len_le_byte_len, on_boundary,
    push_all, str_len, string_insert, string_len, string_push, string_remove, string_split_off,
};

verus! {

/// Distance between two tab stops.
pub const TAB_STOP: usize = 8;

#[derive(Clone, Copy, PartialEq, Eq, Structural, Debug)]
pub enum Highlight {
    Normal,
    Number,
}

/// The colors that highlights are drawn in.
#[derive(Clone, Copy, PartialEq, Eq, Structural, Debug)]
pub enum HighlightColor {
    White,
    Red,
}

impl Highlight {
    /// The color of the highlight: numbers in red, the rest in white.
    pub fn synatx_to_color(&self) -> (r: HighlightColor)
        ensures
            *self == Highlight::Normal ==> r == HighlightColor::White,
            *self == Highlight::Number ==> r == HighlightColor::Red,
    {
        match self {
            Highlight::Normal => HighlightColor::White,
            Highlight::Number => HighlightColor::Red,
        }
    }
}

pub struct Raw {
    pub chars: String,
    pub render: String,
    pub hl: Vec<Highlight>,
}

/// The column that follows a character `c` drawn at column `rx`: a tab moves
/// to the next tab stop, any other character takes one column.
pub open spec fn next_col(rx: nat, c: char) -> nat {
    if c == '\t' {
        (rx - rx % (TAB_STOP as nat) + TAB_STOP) as nat
    } else {
        rx + 1
    }
}

/// The number of columns taken by drawing `s`.
pub open spec fn render_col(s: Seq<char>) -> nat
    decreases s.len(),
{
    if s.len() == 0 {
        0
    } else {
        next_col(render_col(s.drop_last()), s.last())
    }
}

/// `n` spaces.
pub open spec fn spaces(n: nat) -> Seq<char> {
    Seq::new(n, |i: int| ' ')
}

/// How `s` is drawn: every tab becomes the spaces up to the next tab stop.
pub open spec fn render_of(s: Seq<char>) -> Seq<char>
    decreases s.len(),
{
    if s.len() == 0 {
        Seq::empty()
    } else {
        let p = s.drop_last();
        if s.last() == '\t' {
            render_of(p) + spaces((next_col(render_col(p), '\t') - render_col(p)) as nat)
        } else {
            render_of(p).push(s.last())
        }
    }
}

/// The drawing of `s` fits in a `String`.
#[verifier::opaque]
pub open spec fn renderable(s: Seq<char>) -> bool {
    byte_len(render_of(s)) <= isize::MAX
}

pub proof fn lemma_renderable_empty()
    ensures
        renderable(Seq::<char>::empty()),
{
    reveal(renderable);
    assert(render_of(Seq::<char>::empty()) =~= Seq::<char>::empty());
    assert(vstd::utf8::encode_utf8(Seq::<char>::empty()) =~= Seq::<u8>::empty());
}

/// A decimal digit `0`..`9`.
pub open spec fn is_digit(c: char) -> bool {
    '0' <= c && c <= '9'
}

/// One highlight per byte of the drawing: `Number` at the character
/// positions that hold a digit, `Normal` everywhere else.
pub open spec fn highlight_of(render: Seq<char>) -> Seq<Highlight> {
    Seq::new(
        byte_len(render),
        |i: int|
            if i < render.len() && is_digit(render[i]) {
                Highlight::Number
            } else {
                Highlight::Normal
            },
    )
}

/// The column reached after the first `cx` characters of `s` (all of them
/// when `s` is shorter).
pub open spec fn prefix_col(s: Seq<char>, cx: int) -> nat {
    if cx < s.len() {
        render_col(s.take(cx))
    } else {
        render_col(s)
    }
}

/// Some character of `s` ends past the column `rx`.
pub open spec fn reaches_past(s: Seq<char>, rx: int) -> bool {
    exists|k: int| 0 <= k < s.len() && #[trigger] render_col(s.take(k + 1)) > rx
}

/// The first character of `s` whose drawing ends past the column `rx`.
pub open spec fn first_past(s: Seq<char>, rx: int) -> int {
    choose|k: int|
        0 <= k < s.len() && #[trigger] render_col(s.take(k + 1)) > rx && forall|j: int|
            0 <= j < k ==> #[trigger] render_col(s.take(j + 1)) <= rx
}

/// Checks for a decimal digit, as `char::is_digit(10)` does.
pub fn is_decimal_digit(c: char) -> (r: bool)
    ensures
        r == is_digit(c),
{
    '0' <= c && c <= '9'
}

pub proof fn lemma_next_col(rx: nat, c: char)
    ensures
        rx < next_col(rx, c) <= rx + TAB_STOP,
{
}

/// The next tab stop is the only multiple of the tab width between a
/// column (excluded) and itself.
pub proof fn lemma_tab_stop(b: nat, idx: nat)
    requires
        b < idx <= next_col(b, '\t'),
    ensures
        next_col(b, '\t') % (TAB_STOP as nat) == 0,
        idx % (TAB_STOP as nat) == 0 ==> idx == next_col(b, '\t'),
{
    let t = next_col(b, '\t');
    assert(t == b - b % 8 + 8);
    assert(b == 8 * (b / 8) + b % 8) by (nonlinear_arith);
    assert(t == 8 * (b / 8 + 1));
    assert(t % 8 == 0) by (nonlinear_arith)
        requires
            t == 8 * (b / 8 + 1),
    ;
    if idx % 8 == 0 && idx < t {
        assert(idx == 8 * (idx / 8) + idx % 8) by (nonlinear_arith);
        let q = idx / 8;
        let p = b / 8;
        assert(8 * p <= b);
        assert(8 * p < 8 * q);
        assert(8 * q < 8 * (p + 1));
        assert(false) by (nonlinear_arith)
            requires
                8 * p < 8 * q,
                8 * q < 8 * (p + 1),
        ;
    }
}

pub proof fn lemma_render_len(s: Seq<char>)
    ensures
        render_of(s).len() == render_col(s),
    decreases s.len(),
{
    if s.len() > 0 {
        lemma_render_len(s.drop_last());
    }
}

/// One more character: the drawing grows by the cells of that character.
pub proof fn lemma_take_step(s: Seq<char>, i: int)
    requires
        0 <= i < s.len(),
    ensures
        s.take(i + 1).drop_last() == s.take(i),
        s.take(i + 1).last() == s[i],
        render_col(s.take(i + 1)) == next_col(render_col(s.take(i)), s[i]),
{
    assert(s.take(i + 1).drop_last() =~= s.take(i));
}

/// Columns only grow along a line.
pub proof fn lemma_render_col_mono(s: Seq<char>, j: int, k: int)
    requires
        0 <= j <= k <= s.len(),
    ensures
        render_col(s.take(j)) + (k - j) <= render_col(s.take(k)),
        render_col(s.take(k)) <= render_col(s.take(j)) + TAB_STOP * (k - j),
    decreases k - j,
{
    if j < k {
        lemma_render_col_mono(s, j, k - 1);
        lemma_take_step(s, k - 1);
        lemma_next_col(render_col(s.take(k - 1)), s[k - 1]);
    }
}

/// The drawing of a prefix is a prefix of the drawing.
pub proof fn lemma_render_prefix(s: Seq<char>, j: int, k: int)
    requires
        0 <= j <= k <= s.len(),
    ensures
        render_of(s.take(k)) =~= render_of(s.take(j)) + render_of(s.take(k)).skip(
            render_of(s.take(j)).len() as int,
        ),
        byte_len(render_of(s.take(j))) <= byte_len(render_of(s.take(k))),
    decreases k - j,
{
    let rj = render_of(s.take(j));
    let rk = render_of(s.take(k));
    if j < k {
        lemma_render_prefix(s, j, k - 1);
        lemma_take_step(s, k - 1);
        let rm = render_of(s.take(k - 1));
        assert(rk.take(rm.len() as int) =~= rm);
        assert(rm.take(rj.len() as int) =~= rj);
        assert(rk.take(rj.len() as int) =~= rj);
        assert(rk =~= rk.take(rj.len() as int) + rk.skip(rj.len() as int));
        assert(rk =~= rm + rk.skip(rm.len() as int));
        lemma_byte_len_concat(rm, rk.skip(rm.len() as int));
    } else {
        assert(rk =~= rj + rk.skip(rj.len() as int));
    }
}

/// A drawing is at most eight times as long as the line, in bytes.
pub proof fn lemma_render_bytes(s: Seq<char>)
    ensures
        byte_len(s) <= byte_len(render_of(s)) <= TAB_STOP * byte_len(s),
    decreases s.len(),
{
    if s.len() > 0 {
        let p = s.drop_last();
        let c = s.last();
        lemma_render_bytes(p);
        assert(s =~= p.push(c));
        lemma_byte_len_push(p, c);
        lemma_char_width(c);
        if c == '\t' {
            let n = (next_col(render_col(p), '\t') - render_col(p)) as nat;
            let sp = spaces(n);
            lemma_byte_len_concat(render_of(p), sp);
            assert(all_ascii(sp));
            lemma_len_le_byte_len(sp);
        } else {
            lemma_byte_len_push(render_of(p), c);
        }
    }
}

impl Raw {
    /// The drawing and the highlights agree with the characters.
    pub open spec fn wf(&self) -> bool {
        &&& self.render@ == render_of(self.chars@)
        &&& self.hl@ == highlight_of(self.render@)
    }

    pub fn new(chars: String) -> (res: Self)
        requires
            renderable(chars@),
        ensures
            res.chars@ == chars@,
            res.wf(),
    {
        let mut res = Self { chars, render: String::new(), hl: Vec::new() };
        res.render_raw();
        res
    }

    pub fn render_len(&self) -> (r: usize)
        ensures
            r == byte_len(self.render@),
    {
        string_len(&self.render)
    }

    pub fn len(&self) -> (r: usize)
        ensures
            r == byte_len(self.chars@),
    {
        string_len(&self.chars)
    }

    /// The drawn column of the character position `cx`.
    pub fn cx_to_rx(&self, cx: u16) -> (r: u16)
        ensures
            r == prefix_col(self.chars@, cx as int) as u16,
    {
        let mut rx: usize = 0;
        let mut i: u16 = 0;
        let ghost s = self.chars@;
        for c in it: self.chars.chars()
            invariant_except_break
                i as int == it.index(),
            invariant
                it.seq() == s,
                i <= cx,
                i <= s.len(),
                rx == render_col(s.take(i as int)),
                rx <= TAB_STOP * i,
                s == self.chars@,
            ensures
                i == cx || i == s.len(),
                rx == render_col(s.take(i as int)),
        {
            if i >= cx {
                break;
            }
            proof {
                lemma_take_step(s, i as int);
                lemma_next_col(rx as nat, c);
            }
            if c == '\t' {
                rx += (TAB_STOP - 1) - (rx % TAB_STOP);
            }
            rx += 1;
            i += 1;
        }
        proof {
            assert(s.take(s.len() as int) =~= s);
        }
        rx as u16
    }

    /// The character position drawn at the column `rx`: the first character
    /// whose drawing ends past `rx`, or the length in bytes when none does.
    pub fn rx_to_cx(&self, rx: usize) -> (r: u16)
        ensures
            reaches_past(self.chars@, rx as int) ==> r == first_past(self.chars@, rx as int) as u16,
            !reaches_past(self.chars@, rx as int) ==> r == byte_len(self.chars@) as u16,
    {
        let ghost s = self.chars@;
        let n = string_len(&self.chars);
        proof {
            lemma_len_le_byte_len(s);
        }
        let mut cur_rx: u128 = 0;
        let mut cx: usize = 0;
        for c in it: self.chars.chars()
            invariant
                it.seq() == s,
                cx as int == it.index(),
                s == self.chars@,
                n == byte_len(s),
                s.len() <= n,
                cur_rx == render_col(s.take(cx as int)),
                cur_rx <= TAB_STOP * cx,
                forall|j: int| 0 <= j < cx ==> #[trigger] render_col(s.take(j + 1)) <= rx,
        {
            proof {
                lemma_take_step(s, cx as int);
                lemma_next_col(cur_rx as nat, c);
            }
            if c == '\t' {
                cur_rx += (TAB_STOP as u128 - 1) - (cur_rx % TAB_STOP as u128);
            }
            cur_rx += 1;
            if cur_rx > rx as u128 {
                proof {
                    let k = first_past(s, rx as int);
                    assert(0 <= cx < s.len() && render_col(s.take(cx + 1)) > rx && forall|j: int|
                        0 <= j < cx ==> #[trigger] render_col(s.take(j + 1)) <= rx);
                    assert(reaches_past(s, rx as int));
                    if k < cx {
                        assert(render_col(s.take(k + 1)) <= rx);
                    } else if k > cx {
                        assert(render_col(s.take(cx + 1)) <= rx);
                    }
                }
                return cx as u16;
            }
            cx += 1;
        }
        proof {
            assert(!reaches_past(s, rx as int)) by {
                if reaches_past(s, rx as int) {
                    let k = choose|k: int|
                        0 <= k < s.len() && #[trigger] render_col(s.take(k + 1)) > rx;
                    assert(render_col(s.take(k + 1)) <= rx);
                }
            }
        }
        n as u16
    }

    /// Inserts `c` at the byte offset `at`, or appends it when `at` is past
    /// the end.
    pub fn insert_char(&mut self, at: usize, c: char)
        requires
            at >= byte_len(old(self).chars@) || on_boundary(old(self).chars@, at as int),
            renderable(
                if at >= byte_len(old(self).chars@) {
                    old(self).chars@.push(c)
                } else {
                    old(self).chars@.insert(char_index(old(self).chars@, at as int), c)
                },
            ),
        ensures
            final(self).chars@ == (if at >= byte_len(old(self).chars@) {
                old(self).chars@.push(c)
            } else {
                old(self).chars@.insert(char_index(old(self).chars@, at as int), c)
            }),
            final(self).wf(),
    {
        let ghost s = self.chars@;
        proof {
            reveal(renderable);
            lemma_byte_len_push(s, c);
            lemma_render_bytes(s.push(c));
            if at < byte_len(s) {
                lemma_boundary(s, at as int);
                let k = char_index(s, at as int);
                lemma_insert_bytes(s, k, c);
                lemma_render_bytes(s.insert(k, c));
            }
        }
        if at >= string_len(&self.chars) {
            string_push(&mut self.chars, c);
        } else {
            string_insert(&mut self.chars, at, c);
        }
        self.render_raw()
    }

    /// Removes the character that starts at the byte offset `at`; `false`,
    /// with nothing changed, when `at` is past the end.
    pub fn del_char(&mut self, at: usize) -> (r: bool)
        requires
            at >= byte_len(old(self).chars@) || on_boundary(old(self).chars@, at as int),
            at < byte_len(old(self).chars@) ==> renderable(
                old(self).chars@.remove(char_index(old(self).chars@, at as int)),
            ),
        ensures
            r == (at < byte_len(old(self).chars@)),
            r ==> final(self).chars@ == old(self).chars@.remove(
                char_index(old(self).chars@, at as int),
            ),
            r ==> final(self).wf(),
            !r ==> *final(self) == *old(self),
    {
        if at >= string_len(&self.chars) {
            false
        } else {
            proof {
                lemma_boundary(self.chars@, at as int);
            }
            string_remove(&mut self.chars, at);
            self.render_raw();
            true
        }
    }

    /// Cuts the line at the byte offset `at` and returns what followed it.
    pub fn split(&mut self, at: usize) -> (r: String)
        requires
            on_boundary(old(self).chars@, at as int),
            renderable(old(self).chars@.take(char_index(old(self).chars@, at as int))),
        ensures
            final(self).chars@ == old(self).chars@.take(char_index(old(self).chars@, at as int)),
            r@ == old(self).chars@.skip(char_index(old(self).chars@, at as int)),
            final(self).wf(),
    {
        let result = string_split_off(&mut self.chars, at);
        self.render_raw();
        result
    }

    pub fn append_string(&mut self, s: &str)
        requires
            renderable(old(self).chars@ + s@),
        ensures
            final(self).chars@ == old(self).chars@ + s@,
            final(self).wf(),
    {
        push_all(&mut self.chars, s);
        self.render_raw()
    }

    /// Redraws the line from its characters.
    pub fn render_raw(&mut self)
        requires
            renderable(old(self).chars@),
        ensures
            final(self).chars == old(self).chars,
            final(self).wf(),
    {
        let ghost s = self.chars@;
        let mut render = String::new();
        let mut idx: usize = 0;
        proof {
            assert(s.take(0) =~= Seq::<char>::empty());
            assert(render@ =~= render_of(s.take(0)));
            lemma_render_len(s.take(0));
        }
        for c in it: self.chars.chars()
            invariant
                it.seq() == s,
                s == self.chars@,
                renderable(s),
                0 <= it.index() <= s.len(),
                render@ == render_of(s.take(it.index())),
                idx == render@.len(),
                render@.len() <= byte_len(render@),
        {
            let ghost i = it.index();
            proof {
                reveal(renderable);
                lemma_take_step(s, i);
                lemma_render_len(s.take(i));
                lemma_render_len(s.take(i + 1));
                lemma_render_prefix(s, i + 1, s.len() as int);
                assert(s.take(s.len() as int) =~= s);
            }
            let ghost before = render@;
            if c == '\t' {
                let ghost target = next_col(idx as nat, '\t');
                proof {
                    lemma_tab_stop(idx as nat, (idx + 1) as nat);
                    lemma_len_le_byte_len(render_of(s.take(i + 1)));
                    lemma_byte_len_push(render@, ' ');
                    lemma_char_width(' ');
                    lemma_byte_len_concat(render@, spaces((target - idx) as nat));
                    assert(spaces(1) =~= seq![' ']);
                    assert(render@.push(' ') =~= before + spaces(1));
                    assert(render_of(s.take(i + 1)) =~= before + spaces((target - idx) as nat));
                }
                string_push(&mut render, ' ');
                idx += 1;
                while idx % TAB_STOP != 0
                    invariant
                        before.len() < idx <= target,
                        target == next_col(before.len(), '\t'),
                        render@ == before + spaces((idx - before.len()) as nat),
                        idx == render@.len(),
                        byte_len(before + spaces((target - before.len()) as nat)) <= isize::MAX,
                        (before + spaces((target - before.len()) as nat)).len() <= byte_len(
                            before + spaces((target - before.len()) as nat),
                        ),
                    decreases target - idx,
                {
                    proof {
                        lemma_tab_stop(before.len(), idx as nat);
                        assert(idx < target);
                        lemma_byte_len_push(render@, ' ');
                        lemma_char_width(' ');
                        assert(render@.push(' ') =~= before + spaces((idx + 1 - before.len()) as nat));
                        assert(spaces((idx + 1 - before.len()) as nat) =~= spaces(
                            (idx - before.len()) as nat,
                        ).push(' '));
                        assert(render@.push(' ') =~= before + spaces(
                            (idx + 1 - before.len()) as nat,
                        ));
                        assert(before + spaces((target - before.len()) as nat) =~= (before
                            + spaces((idx + 1 - before.len()) as nat)) + spaces(
                            (target - idx - 1) as nat,
                        ));
                        lemma_byte_len_concat(
                            before + spaces((idx + 1 - before.len()) as nat),
                            spaces((target - idx - 1) as nat),
                        );
                    }
                    string_push(&mut render, ' ');
                    idx += 1;
                }
            } else {
                proof {
                    lemma_byte_len_push(render@, c);
                    lemma_char_width(c);
                    lemma_len_le_byte_len(render_of(s.take(i + 1)));
                }
                string_push(&mut render, c);
                idx += 1;
            }
        }
        proof {
            assert(s.take(s.len() as int) =~= s);
        }
        self.render = render;
        self.update_synxtax();
    }

    fn update_synxtax(&mut self)
        ensures
            final(self).chars == old(self).chars,
            final(self).render == old(self).render,
            final(self).hl@ == highlight_of(old(self).render@),
    {
        let n = string_len(&self.render);
        let ghost r = self.render@;
        proof {
            lemma_len_le_byte_len(r);
        }
        let mut hl = vec![Highlight::Normal; n];
        let mut i: usize = 0;
        for c in it: self.render.chars()
            invariant
                it.seq() == r,
                r == self.render@,
                i as int == it.index(),
                r.len() <= n,
                n == byte_len(r),
                hl@.len() == n,
                forall|j: int|
                    0 <= j < n ==> #[trigger] hl@[j] == (if j < i && is_digit(r[j]) {
                        Highlight::Number
                    } else {
                        Highlight::Normal
                    }),
        {
            if is_decimal_digit(c) {
                hl.set(i, Highlight::Number);
            }
            i += 1;
        }
        proof {
            assert(hl@ =~= highlight_of(r));
        }
        self.hl = hl;
    }
}

/// Going from a character position to its drawn column and back gives the
/// position again (for a position inside the line whose column fits in a
/// `u16`).
pub proof fn law_rx_to_cx_inverts_cx_to_rx(s: Seq<char>, cx: int)
    requires
        0 <= cx < s.len(),
        prefix_col(s, cx) <= u16::MAX,
    ensures
        reaches_past(s, (prefix_col(s, cx) as u16) as int),
        first_past(s, (prefix_col(s, cx) as u16) as int) == cx,
{
    let r = render_col(s.take(cx));
    assert((prefix_col(s, cx) as u16) as int == r);
    lemma_take_step(s, cx);
    lemma_next_col(r, s[cx]);
    assert forall|j: int| 0 <= j < cx implies #[trigger] render_col(s.take(j + 1)) <= r by {
        lemma_render_col_mono(s, j + 1, cx);
    }
    assert(render_col(s.take(cx + 1)) > r);
    assert(reaches_past(s, r as int));
    let k = first_past(s, r as int);
    assert(0 <= cx < s.len() && render_col(s.take(cx + 1)) > r && forall|j: int|
        0 <= j < cx ==> #[trigger] render_col(s.take(j + 1)) <= r);
    if k < cx {
        assert(render_col(s.take(k + 1)) <= r);
    } else if k > cx {
        assert(render_col(s.take(cx + 1)) <= r);
    }
}

/// The column after the whole line is the width of its drawing.
pub proof fn law_line_end_column_is_drawn_width(s: Seq<char>)
    ensures
        prefix_col(s, s.len() as int) == render_of(s).len(),
{
    lemma_render_len(s);
}

/// Deleting at the offset where a character was just inserted gives the
/// line back.
pub proof fn law_del_char_undoes_insert_char(s: Seq<char>, at: int, c: char)
    requires
        on_boundary(s, at),
    ensures
        on_boundary(s.insert(char_index(s, at), c), at),
        at < byte_len(s.insert(char_index(s, at), c)),
        s.insert(char_index(s, at), c).remove(char_index(s.insert(char_index(s, at), c), at)) == s,
{
    lemma_boundary(s, at);
    let k = char_index(s, at);
    let t = s.insert(k, c);
    assert(t.take(k) =~= s.take(k));
    lemma_char_index_of_prefix(t, k);
    lemma_insert_bytes(s, k, c);
    lemma_char_width(c);
    assert(t.remove(k) =~= s);
}

/// Appending what `split` cut off gives the line back.
pub proof fn law_append_undoes_split(s: Seq<char>, at: int)
    requires
        on_boundary(s, at),
    ensures
        s.take(char_index(s, at)) + s.skip(char_index(s, at)) == s,
{
    lemma_boundary(s, at);
    assert(s.take(char_index(s, at)) + s.skip(char_index(s, at)) =~= s);
}

/// The bytes that drawing `c` at the column `col` adds.
pub open spec fn piece_bytes(col: nat, c: char) -> nat {
    if c == '\t' {
        (next_col(col, '\t') - col) as nat
    } else {
        char_width(c)
    }
}

pub proof fn lemma_render_push(s: Seq<char>, c: char)
    ensures
        render_col(s.push(c)) == next_col(render_col(s), c),
        byte_len(render_of(s.push(c))) == byte_len(render_of(s)) + piece_bytes(render_col(s), c),
{
    let t = s.push(c);
    assert(t.drop_last() =~= s);
    assert(t.last() == c);
    if c == '\t' {
        let n = (next_col(render_col(s), '\t') - render_col(s)) as nat;
        lemma_byte_len_concat(render_of(s), spaces(n));
        assert(all_ascii(spaces(n)));
        lemma_len_le_byte_len(spaces(n));
    } else {
        lemma_byte_len_push(render_of(s), c);
    }
}

/// One character more on a drawing that has reached the column `col` with
/// `size` bytes.
fn draw_step(col: u128, size: u128, c: char) -> (r: (u128, u128))
    requires
        col <= 0x1_0000_0000_0000_0000_0000,
        size <= 0x1_0000_0000_0000_0000_0000,
    ensures
        r.0 == next_col(col as nat, c),
        r.1 == size + piece_bytes(col as nat, c),
{
    if c == '\t' {
        let n = (TAB_STOP as u128) - col % (TAB_STOP as u128);
        (col + n, size + n)
    } else {
        (col + 1, size + char_len(c) as u128)
    }
}

/// Bytes of the part of `q` before `k` are at most those of `q`.
proof fn lemma_prefix_bytes(q: Seq<char>, k: int)
    requires
        0 <= k <= q.len(),
    ensures
        byte_len(q.take(k)) <= byte_len(q),
{
    assert(q =~= q.take(k) + q.skip(k));
    lemma_byte_len_concat(q.take(k), q.skip(k));
}

/// The drawing of `p` followed by the characters `s[from..to]`, from the
/// column and the size reached by `p`.
fn draw_feed(col: u128, size: u128, s: &str, from: usize, to: usize, Ghost(p): Ghost<Seq<char>>) -> (r: (u128, u128))
    requires
        from <= to <= s@.len(),
        col == render_col(p),
        size == byte_len(render_of(p)),
        byte_len(p + s@.subrange(from as int, to as int)) <= 0x2_0000_0000_0000_0000,
    ensures
        r.0 == render_col(p + s@.subrange(from as int, to as int)),
        r.1 == byte_len(render_of(p + s@.subrange(from as int, to as int))),
{
    let ghost sv = s@;
    let ghost full = p + sv.subrange(from as int, to as int);
    let _n = str_len(s);
    proof {
        lemma_len_le_byte_len(sv);
    }
    let mut col = col;
    let mut size = size;
    let mut i: usize = 0;
    proof {
        assert(sv.subrange(from as int, from as int) =~= Seq::<char>::empty());
        assert(p + sv.subrange(from as int, from as int) =~= p);
    }
    for c in it: s.chars()
        invariant
            it.seq() == sv,
            sv == s@,
            i as int == it.index(),
            from <= to <= sv.len(),
            full == p + sv.subrange(from as int, to as int),
            byte_len(full) <= 0x2_0000_0000_0000_0000,
            sv.len() <= isize::MAX,
            col == render_col(p + sv.subrange(from as int, if i < from { from as int } else if i < to { i as int } else { to as int })),
            size == byte_len(render_of(p + sv.subrange(from as int, if i < from { from as int } else if i < to { i as int } else { to as int }))),
    {
        if i >= from && i < to {
            let ghost q = p + sv.subrange(from as int, i as int);
            proof {
                assert(full.take(q.len() as int) =~= q);
                lemma_prefix_bytes(full, q.len() as int);
                lemma_len_le_byte_len(q);
                assert(q.take(q.len() as int) =~= q);
                lemma_render_col_mono(q, 0, q.len() as int);
                lemma_render_bytes(q);
                lemma_render_push(q, c);
                assert(p + sv.subrange(from as int, i + 1) =~= q.push(c));
            }
            let (c2, s2) = draw_step(col, size, c);
            col = c2;
            size = s2;
        }
        i += 1;
    }
    (col, size)
}

proof fn lemma_subrange_bytes(q: Seq<char>, i: int, j: int)
    requires
        0 <= i <= j <= q.len(),
    ensures
        byte_len(q.subrange(i, j)) <= byte_len(q),
{
    assert(q =~= q.take(i) + q.subrange(i, j) + q.skip(j));
    lemma_byte_len_concat(q.take(i) + q.subrange(i, j), q.skip(j));
    lemma_byte_len_concat(q.take(i), q.subrange(i, j));
}

/// Whether the line `a[a_from..a_to]`, then `mid` when there is one, then
/// `b[b_from..b_to]` (character positions) can be drawn.
pub fn fits_drawn(
    a: &str,
    a_from: usize,
    a_to: usize,
    mid: Option<char>,
    b: &str,
    b_from: usize,
    b_to: usize,
) -> (r: bool)
    requires
        a_from <= a_to <= a@.len(),
        b_from <= b_to <= b@.len(),
    ensures
        r == renderable(
            a@.subrange(a_from as int, a_to as int) + (match mid {
                Some(c) => seq![c],
                None => Seq::empty(),
            }) + b@.subrange(b_from as int, b_to as int),
        ),
{
    let ghost sa = a@.subrange(a_from as int, a_to as int);
    let ghost sm: Seq<char> = match mid {
        Some(c) => seq![c],
        None => Seq::empty(),
    };
    let ghost sb = b@.subrange(b_from as int, b_to as int);
    let _na = str_len(a);
    let _nb = str_len(b);
    proof {
        lemma_subrange_bytes(a@, a_from as int, a_to as int);
        lemma_subrange_bytes(b@, b_from as int, b_to as int);
        assert(Seq::<char>::empty() + sa =~= sa);
        assert(render_of(Seq::<char>::empty()) =~= Seq::<char>::empty());
        assert(vstd::utf8::encode_utf8(Seq::<char>::empty()) =~= Seq::<u8>::empty());
        lemma_byte_len_concat(sa, sm);
        lemma_byte_len_concat(sa + sm, sb);
        match mid {
            Some(c) => {
                lemma_byte_len_single(c);
                lemma_char_width(c);
            },
            None => {
                assert(vstd::utf8::encode_utf8(sm) =~= Seq::<u8>::empty());
            },
        }
    }
    let (c1, s1) = draw_feed(0, 0, a, a_from, a_to, Ghost(Seq::empty()));
    let (c2, s2) = match mid {
        Some(ch) => {
            proof {
                lemma_len_le_byte_len(sa);
                assert(sa.take(sa.len() as int) =~= sa);
                lemma_render_col_mono(sa, 0, sa.len() as int);
                lemma_render_bytes(sa);
                lemma_render_push(sa, ch);
                assert(sa + sm =~= sa.push(ch));
            }
            draw_step(c1, s1, ch)
        },
        None => {
            proof {
                assert(sa + sm =~= sa);
            }
            (c1, s1)
        },
    };
    let (_c3, s3) = draw_feed(c2, s2, b, b_from, b_to, Ghost(sa + sm));
    proof {
        reveal(renderable);
    }
    s3 <= isize::MAX as u128
}

/// The drawing and the highlights of a line depend on its characters only:
/// two drawn lines with the same characters draw alike.
pub proof fn law_drawing_depends_only_on_chars(r1: Raw, r2: Raw)
    requires
        r1.wf(),
        r2.wf(),
        r1.chars@ == r2.chars@,
    ensures
        r1.render@ == r2.render@,
        r1.hl@ == r2.hl@,
{
}

/// A column where a tab stop is.
pub open spec fn is_tab_stop(m: int) -> bool {
    m % 8 == 0
}

/// A tab moves the drawing to the next tab stop: the drawn width after it
/// is the least multiple of 8 above the width before it.
pub proof fn law_tab_reaches_next_tab_stop(s: Seq<char>)
    ensures
        render_of(s.push('\t')).len() % 8 == 0,
        render_of(s).len() < render_of(s.push('\t')).len() <= render_of(s).len() + 8,
        forall|m: int|
            render_of(s).len() < m < render_of(s.push('\t')).len() ==> !#[trigger] is_tab_stop(m),
        forall|i: int|
            render_of(s).len() <= i < render_of(s.push('\t')).len() ==> render_of(
                s.push('\t'),
            )[i] == ' ',
{
    let t = s.push('\t');
    assert(t.drop_last() =~= s);
    lemma_render_len(s);
    lemma_render_len(t);
    let b = render_col(s);
    lemma_tab_stop(b, next_col(b, '\t'));
    assert forall|m: int| render_of(s).len() < m < render_of(t).len() implies !#[trigger] is_tab_stop(
        m,
    ) by {
        if m % 8 == 0 {
            lemma_tab_stop(b, m as nat);
        }
    }
}

/// Any other character takes one drawn cell, and is drawn as itself.
pub proof fn law_other_char_takes_one_cell(s: Seq<char>, c: char)
    requires
        c != '\t',
    ensures
        render_of(s.push(c)).len() == render_of(s).len() + 1,
        render_of(s.push(c)).last() == c,
        render_of(s.push(c)).drop_last() == render_of(s),
{
    assert(s.push(c).drop_last() =~= s);
    assert(render_of(s).push(c).drop_last() =~= render_of(s));
}

/// Every drawn cell that holds a decimal digit (code 48 to 57) is
/// highlighted as a number, every other drawn cell as normal text.
pub proof fn law_digits_are_highlighted(r: Raw, i: int)
    requires
        r.wf(),
        0 <= i < r.render@.len(),
    ensures
        i < r.hl@.len(),
        (48 <= (r.render@[i] as u32) <= 57) ==> r.hl@[i] == Highlight::Number,
        !(48 <= (r.render@[i] as u32) <= 57) ==> r.hl@[i] == Highlight::Normal,
{
    lemma_len_le_byte_len(r.render@);
    lemma_is_digit_code(r.render@[i]);
}

/// `is_digit` in character codes.
proof fn lemma_is_digit_code(c: char)
    ensures
        is_digit(c) == (48 <= (c as u32) <= 57),
{
    assert(('0' as u32) == 48);
    assert(('9' as u32) == 57);
}

/// A line without tabs is drawn as itself.
pub proof fn law_no_tab_drawn_as_is(s: Seq<char>)
    requires
        forall|i: int| 0 <= i < s.len() ==> s[i] != '\t',
    ensures
        render_of(s) == s,
    decreases s.len(),
{
    if s.len() > 0 {
        let p = s.drop_last();
        assert forall|i: int| 0 <= i < p.len() implies p[i] != '\t' by {
            assert(p[i] == s[i]);
        }
        law_no_tab_drawn_as_is(p);
        assert(s[s.len() - 1] == s.last());
        assert(p.push(s.last()) =~= s);
    }
}

/// A number written in decimal is highlighted as a number in every cell.
pub proof fn law_numbers_are_highlighted(n: nat, i: int)
    requires
        0 <= i < decimal(n).len(),
    ensures
        render_of(decimal(n)) == decimal(n),
        highlight_of(decimal(n))[i] == Highlight::Number,
    decreases n,
{
    lemma_decimal_digits(n);
    assert forall|j: int| 0 <= j < decimal(n).len() implies decimal(n)[j] != '\t' by {
        assert(48 <= (decimal(n)[j] as u32) <= 57);
    }
    law_no_tab_drawn_as_is(decimal(n));
    lemma_len_le_byte_len(decimal(n));
    assert(48 <= (decimal(n)[i] as u32) <= 57);
    lemma_is_digit_code(decimal(n)[i]);
}

/// Every character of a decimal number is a digit (code 48 to 57).
proof fn lemma_decimal_digits(n: nat)
    ensures
        forall|j: int| 0 <= j < decimal(n).len() ==> 48 <= (#[trigger] decimal(n)[j] as u32) <= 57,
    decreases n,
{
    if n >= 10 {
        lemma_decimal_digits(n / 10);
        assert forall|j: int| 0 <= j < decimal(n).len() implies 48 <= (#[trigger] decimal(n)[j] as u32)
            <= 57 by {
            if j < decimal(n / 10).len() {
                assert(decimal(n)[j] == decimal(n / 10)[j]);
            } else {
                assert(decimal(n)[j] == digit_char(n % 10));
            }
        }
    } else {
        assert(decimal(n)[0] == digit_char(n));
    }
}

} // verus!
