use diffany::raw::{fits_drawn, Highlight, HighlightColor, Raw, TAB_STOP};
use diffany::text::{boundary_at, char_index_at, char_len, string_insert, string_split_off};
use diffany::Position;

fn raw(s: &str) -> Raw {
    Raw::new(s.to_string())
}

#[test]
fn new_renders_plain_text() {
    let r = raw("abc");
    assert_eq!(r.chars, "abc");
    assert_eq!(r.render, "abc");
    assert_eq!(r.hl, vec![Highlight::Normal; 3]);
    assert_eq!(r.len(), 3);
    assert_eq!(r.render_len(), 3);
}

#[test]
fn tabs_expand_to_next_stop() {
    let r = raw("\tx");
    assert_eq!(r.render, "        x");
    let r = raw("ab\tc");
    assert_eq!(r.render, "ab      c");
    let r = raw("abcdefgh\t");
    assert_eq!(r.render.len(), 16);
    assert_eq!(TAB_STOP, 8);
}

#[test]
fn digits_are_highlighted() {
    let r = raw("a1\t2");
    assert_eq!(r.render, "a1      2");
    let mut expected = vec![Highlight::Normal; 9];
    expected[1] = Highlight::Number;
    expected[8] = Highlight::Number;
    assert_eq!(r.hl, expected);
}

#[test]
fn highlights_cover_every_byte_of_multibyte_text() {
    let r = raw("é1");
    // two characters, three bytes: the digit is the second character
    assert_eq!(r.hl, vec![Highlight::Normal, Highlight::Number, Highlight::Normal]);
}

#[test]
fn cx_to_rx_counts_tab_stops() {
    let r = raw("a\tb");
    assert_eq!(r.cx_to_rx(0), 0);
    assert_eq!(r.cx_to_rx(1), 1);
    assert_eq!(r.cx_to_rx(2), 8);
    assert_eq!(r.cx_to_rx(3), 9);
    // past the end: the whole line
    assert_eq!(r.cx_to_rx(10), 9);
}

#[test]
fn rx_to_cx_finds_character_under_column() {
    let r = raw("a\tb");
    assert_eq!(r.rx_to_cx(0), 0);
    assert_eq!(r.rx_to_cx(1), 1);
    assert_eq!(r.rx_to_cx(7), 1);
    assert_eq!(r.rx_to_cx(8), 2);
    // no character reaches past: the length in bytes
    assert_eq!(r.rx_to_cx(9), 3);
    assert_eq!(r.rx_to_cx(100), 3);
}

#[test]
fn rx_to_cx_inverts_cx_to_rx() {
    let r = raw("x\t\tyz\tw");
    for cx in 0..7u16 {
        assert_eq!(r.rx_to_cx(r.cx_to_rx(cx) as usize), cx);
    }
}

#[test]
fn line_end_column_is_drawn_width() {
    let r = raw("ab\tcd\t");
    assert_eq!(r.cx_to_rx(6) as usize, r.render.chars().count());
}

#[test]
fn insert_char_in_middle_and_at_end() {
    let mut r = raw("ac");
    r.insert_char(1, 'b');
    assert_eq!(r.chars, "abc");
    assert_eq!(r.render, "abc");
    r.insert_char(3, '\t');
    assert_eq!(r.chars, "abc\t");
    assert_eq!(r.render, "abc     ");
    r.insert_char(100, 'z');
    assert_eq!(r.chars, "abc\tz");
}

#[test]
fn del_char_removes_and_reports() {
    let mut r = raw("a1c");
    assert!(r.del_char(1));
    assert_eq!(r.chars, "ac");
    assert_eq!(r.hl, vec![Highlight::Normal; 2]);
    assert!(!r.del_char(2));
    assert_eq!(r.chars, "ac");
    assert!(!r.del_char(50));
}

#[test]
fn del_char_undoes_insert_char() {
    let mut r = raw("hello");
    r.insert_char(2, 'X');
    assert_eq!(r.chars, "heXllo");
    assert!(r.del_char(2));
    assert_eq!(r.chars, "hello");
    let mut r = raw("aé");
    r.insert_char(1, 'ü');
    assert_eq!(r.chars, "aüé");
    assert!(r.del_char(1));
    assert_eq!(r.chars, "aé");
}

#[test]
fn split_and_append_string() {
    let mut r = raw("hello world");
    let rest = r.split(5);
    assert_eq!(r.chars, "hello");
    assert_eq!(rest, " world");
    assert_eq!(r.render, "hello");
    r.append_string(&rest);
    assert_eq!(r.chars, "hello world");
    assert_eq!(r.render, "hello world");
}

#[test]
fn split_at_ends() {
    let mut r = raw("ab");
    assert_eq!(r.split(2), "");
    assert_eq!(r.chars, "ab");
    assert_eq!(r.split(0), "ab");
    assert_eq!(r.chars, "");
    assert_eq!(r.render, "");
}

#[test]
fn render_raw_redraws_after_direct_change() {
    let mut r = raw("a");
    r.chars = "\t7".to_string();
    r.render_raw();
    assert_eq!(r.render, "        7");
    assert_eq!(r.hl[8], Highlight::Number);
}

#[test]
fn multibyte_lengths_are_bytes() {
    let r = raw("aé");
    assert_eq!(r.len(), 3);
    assert_eq!(r.cx_to_rx(2), 2);
    assert_eq!(r.rx_to_cx(5), 3);
}

#[test]
fn position_comparisons() {
    let p = Position { x: 3, y: 2 };
    assert!(p.above(3));
    assert!(!p.above(2));
    assert!(p.left_off(4));
    assert!(!p.left_off(3));
    assert_eq!(p.raw(), 2);
    // the count is compared as a u16
    assert!(!p.above(65536 + 1));
    assert!(p.above(65536 + 3));
    let d = Position::default();
    assert_eq!((d.x, d.y), (0, 0));
}

#[test]
fn text_helpers() {
    assert_eq!(char_len('a'), 1);
    assert_eq!(char_len('é'), 2);
    assert_eq!(char_len('€'), 3);
    assert_eq!(char_len('😀'), 4);
    assert!(boundary_at("aé", 0));
    assert!(boundary_at("aé", 1));
    assert!(!boundary_at("aé", 2));
    assert!(boundary_at("aé", 3));
    assert!(!boundary_at("aé", 4));
    assert_eq!(char_index_at("aéb", 3), 2);
    let mut s = "aé".to_string();
    string_insert(&mut s, 1, 'x');
    assert_eq!(s, "axé");
    let mut s = "abc".to_string();
    let t = string_split_off(&mut s, 1);
    assert_eq!((s.as_str(), t.as_str()), ("a", "bc"));
}

#[test]
fn fits_drawn_small_lines() {
    assert!(fits_drawn("ab", 0, 2, Some('c'), "de", 0, 2));
    assert!(fits_drawn("", 0, 0, None, "", 0, 0));
}

#[test]
fn highlight_colors() {
    assert_eq!(Highlight::Normal.synatx_to_color(), HighlightColor::White);
    assert_eq!(Highlight::Number.synatx_to_color(), HighlightColor::Red);
}

#[test]
fn drawing_depends_only_on_chars() {
    let mut a = raw("x\t1");
    let mut b = raw("zz");
    b.chars = "x\t1".to_string();
    b.render_raw();
    b.render_raw();
    a.render_raw();
    assert_eq!(a.render, b.render);
    assert_eq!(a.hl, b.hl);
}
