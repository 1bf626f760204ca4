use diffany::editor::{split_text, Editor, KeyAction, PromptStep, SaveStep, QUIT_TIME};
use diffany::keyboard::{KeyCode, KeyEvent, CONTROL, NONE, SHIFT};
use diffany::screen::Screen;

fn key(code: KeyCode) -> KeyEvent {
    KeyEvent::new(code, NONE)
}

fn ctrl(c: char) -> KeyEvent {
    KeyEvent::new(KeyCode::Char(c), CONTROL)
}

fn lines(e: &Editor) -> Vec<String> {
    e.rows().iter().map(|r| r.chars.clone()).collect()
}

fn editor(data: &[&str]) -> Editor {
    let data: Vec<String> = data.iter().map(|s| s.to_string()).collect();
    Editor::build(&data, "f.txt".to_string(), Screen::new(40, 11))
}

fn press(e: &mut Editor, k: KeyEvent) -> KeyAction {
    assert!(e.key_ok(k));
    e.process_key(k)
}

fn cursor(e: &Editor) -> (u16, u16) {
    let c = e.cursor();
    (c.x, c.y)
}

#[test]
fn build_drops_last_empty_line() {
    let e = editor(&["a", "b", ""]);
    assert_eq!(lines(&e), vec!["a", "b"]);
    assert_eq!(cursor(&e), (0, 0));
    assert_eq!(e.dirty(), 0);
    assert_eq!(e.quit_time(), QUIT_TIME);
    assert_eq!(e.status_msg(), "HELP: Ctrl+q = quit  && Ctrl+s = save");
    assert_eq!(e.filename(), "f.txt");
    let e = editor(&["a", "", "b"]);
    assert_eq!(lines(&e), vec!["a", "", "b"]);
}

#[test]
fn new_editor_is_empty() {
    let e = Editor::new(Screen::new(10, 5));
    assert_eq!(lines(&e).len(), 0);
    assert_eq!(e.filename(), "");
}

#[test]
fn with_file_splits_lines() {
    let e = Editor::with_file("x".to_string(), "one\ntwo\n", Screen::new(20, 5));
    assert_eq!(lines(&e), vec!["one", "two"]);
    let e = Editor::with_file("x".to_string(), "one\n\n", Screen::new(20, 5));
    assert_eq!(lines(&e), vec!["one", ""]);
    let e = Editor::with_file("x".to_string(), "", Screen::new(20, 5));
    assert_eq!(lines(&e).len(), 0);
    assert_eq!(split_text("a\nb"), vec!["a", "b"]);
    assert_eq!(split_text(""), vec![""]);
    assert_eq!(split_text("\n"), vec!["", ""]);
}

#[test]
fn saved_text_reloads() {
    let e = editor(&["first", "", "\tthird"]);
    let text = e.rows_to_string();
    assert_eq!(text, "first\n\n\tthird\n");
    let again = Editor::with_file("x".to_string(), &text, Screen::new(20, 5));
    assert_eq!(lines(&again), lines(&e));
    let empty = Editor::new(Screen::new(20, 5));
    assert_eq!(empty.rows_to_string(), "");
}

#[test]
fn typing_inserts_and_moves() {
    let mut e = Editor::new(Screen::new(40, 11));
    assert_eq!(press(&mut e, key(KeyCode::Char('h'))), KeyAction::Continue);
    press(&mut e, KeyEvent::new(KeyCode::Char('I'), SHIFT));
    assert_eq!(lines(&e), vec!["hI"]);
    assert_eq!(cursor(&e), (2, 0));
    assert_eq!(e.dirty(), 3);
    // a character with another modifier is ignored
    press(&mut e, KeyEvent::new(KeyCode::Char('x'), 4));
    assert_eq!(lines(&e), vec!["hI"]);
}

#[test]
fn enter_splits_and_backspace_joins() {
    let mut e = editor(&["hello"]);
    e.process_key(key(KeyCode::Right));
    e.process_key(key(KeyCode::Right));
    assert_eq!(cursor(&e), (2, 0));
    press(&mut e, key(KeyCode::Enter));
    assert_eq!(lines(&e), vec!["he", "llo"]);
    assert_eq!(cursor(&e), (0, 1));
    press(&mut e, key(KeyCode::Backspace));
    assert_eq!(lines(&e), vec!["hello"]);
    assert_eq!(cursor(&e), (2, 0));
}

#[test]
fn enter_at_line_start_adds_empty_line() {
    let mut e = editor(&["ab"]);
    press(&mut e, key(KeyCode::Enter));
    assert_eq!(lines(&e), vec!["", "ab"]);
    assert_eq!(cursor(&e), (0, 1));
    press(&mut e, key(KeyCode::Backspace));
    assert_eq!(lines(&e), vec!["ab"]);
    assert_eq!(cursor(&e), (0, 0));
}

#[test]
fn backspace_undoes_typing() {
    let mut e = editor(&["abc"]);
    press(&mut e, key(KeyCode::Right));
    press(&mut e, key(KeyCode::Char('Z')));
    assert_eq!(lines(&e), vec!["aZbc"]);
    press(&mut e, key(KeyCode::Backspace));
    assert_eq!(lines(&e), vec!["abc"]);
    assert_eq!(cursor(&e), (1, 0));
    press(&mut e, ctrl('h'));
    assert_eq!(lines(&e), vec!["bc"]);
    assert_eq!(cursor(&e), (0, 0));
    // nothing before the first character
    press(&mut e, key(KeyCode::Backspace));
    assert_eq!(lines(&e), vec!["bc"]);
}

#[test]
fn delete_removes_under_cursor() {
    let mut e = editor(&["abc", "de"]);
    press(&mut e, key(KeyCode::Delete));
    assert_eq!(lines(&e), vec!["bc", "de"]);
    assert_eq!(cursor(&e), (0, 0));
    press(&mut e, key(KeyCode::End));
    assert_eq!(cursor(&e), (2, 0));
    press(&mut e, key(KeyCode::Delete));
    assert_eq!(lines(&e), vec!["bcde"]);
    assert_eq!(cursor(&e), (2, 0));
}

#[test]
fn arrows_wrap_and_clamp() {
    let mut e = editor(&["abcd", "x"]);
    press(&mut e, key(KeyCode::End));
    assert_eq!(cursor(&e), (4, 0));
    press(&mut e, key(KeyCode::Down));
    assert_eq!(cursor(&e), (1, 1));
    press(&mut e, key(KeyCode::Right));
    assert_eq!(cursor(&e), (0, 2));
    press(&mut e, key(KeyCode::Down));
    assert_eq!(cursor(&e), (0, 2));
    press(&mut e, key(KeyCode::Left));
    assert_eq!(cursor(&e), (1, 1));
    press(&mut e, key(KeyCode::Left));
    press(&mut e, key(KeyCode::Left));
    assert_eq!(cursor(&e), (4, 0));
    press(&mut e, key(KeyCode::Up));
    assert_eq!(cursor(&e), (4, 0));
    press(&mut e, key(KeyCode::Home));
    assert_eq!(cursor(&e), (0, 0));
    press(&mut e, key(KeyCode::Left));
    assert_eq!(cursor(&e), (0, 0));
}

#[test]
fn page_keys_move_a_screen() {
    let data: Vec<String> = (0..30).map(|i| format!("line {i}")).collect();
    let mut e = Editor::build(&data, String::new(), Screen::new(40, 11));
    press(&mut e, key(KeyCode::PageDown));
    // rowsoff 0 + 10 - 1 = 9, then ten lines down
    assert_eq!(cursor(&e), (0, 19));
    press(&mut e, key(KeyCode::PageUp));
    assert_eq!(cursor(&e), (0, 0));
}

#[test]
fn quit_needs_confirmation_with_unsaved_changes() {
    let mut e = editor(&["a"]);
    press(&mut e, key(KeyCode::Char('b')));
    assert_eq!(press(&mut e, ctrl('q')), KeyAction::Continue);
    assert_eq!(
        e.status_msg(),
        "warning!!! filename unsaved changes.Press Ctrl + q 3 more time to quit"
    );
    assert_eq!(e.quit_time(), 2);
    assert_eq!(press(&mut e, ctrl('q')), KeyAction::Continue);
    assert_eq!(press(&mut e, ctrl('q')), KeyAction::Continue);
    assert_eq!(e.quit_time(), 0);
    assert_eq!(press(&mut e, ctrl('q')), KeyAction::Quit);
}

#[test]
fn other_keys_reset_quit_count() {
    let mut e = editor(&["a"]);
    press(&mut e, key(KeyCode::Char('b')));
    press(&mut e, ctrl('q'));
    assert_eq!(e.quit_time(), 2);
    press(&mut e, key(KeyCode::Esc));
    assert_eq!(e.quit_time(), QUIT_TIME);
}

#[test]
fn quit_at_once_without_changes() {
    let mut e = editor(&["a"]);
    assert_eq!(press(&mut e, ctrl('q')), KeyAction::Quit);
}

#[test]
fn ctrl_s_asks_for_save() {
    let mut e = editor(&["a"]);
    assert_eq!(press(&mut e, ctrl('s')), KeyAction::Save);
    assert_eq!(press(&mut e, ctrl('l')), KeyAction::Continue);
    assert_eq!(lines(&e), vec!["a"]);
}

#[test]
fn save_outcomes() {
    let mut e = editor(&["abc"]);
    press(&mut e, key(KeyCode::Char('x')));
    assert!(e.dirty() > 0);
    e.saved(5);
    assert_eq!(e.dirty(), 0);
    assert_eq!(e.status_msg(), "5 bytes written to disk");
    e.save_failed("No such file");
    assert_eq!(e.status_msg(), "can't save I/O error: No such file");
    e.set_filename("g.txt".to_string());
    assert_eq!(e.filename(), "g.txt");
}

#[test]
fn prompt_collects_answer() {
    let mut e = editor(&["abc"]);
    let mut buf = String::new();
    e.prompt_status("save as", &buf);
    assert_eq!(e.status_msg(), "save as:");
    assert_eq!(e.prompt_key(&mut buf, key(KeyCode::Char('n'))), PromptStep::Continue);
    assert_eq!(
        e.prompt_key(&mut buf, KeyEvent::new(KeyCode::Char('X'), SHIFT)),
        PromptStep::Continue
    );
    assert_eq!(e.prompt_key(&mut buf, ctrl('z')), PromptStep::Continue);
    assert_eq!(e.prompt_key(&mut buf, key(KeyCode::Left)), PromptStep::Continue);
    assert_eq!(buf, "nX");
    e.prompt_status("save as", &buf);
    assert_eq!(e.status_msg(), "save as:nX");
    assert_eq!(e.prompt_key(&mut buf, key(KeyCode::Enter)), PromptStep::Done);
    assert_eq!(e.status_msg(), "");
    let mut other = String::new();
    assert_eq!(e.prompt_key(&mut other, key(KeyCode::Esc)), PromptStep::Cancelled);
}

#[test]
fn set_status_msg_shows_message() {
    let mut e = editor(&["a"]);
    e.set_status_msg("hi".to_string());
    assert_eq!(e.status_msg(), "hi");
}

#[test]
fn refresh_draws_text_and_bar() {
    let mut e = editor(&["a\tb", "12"]);
    assert!(e.can_refresh("1.0"));
    let f = e.refresh_screen("1.0");
    let texts: Vec<(u16, u16, String)> =
        f.paints.iter().map(|p| (p.x, p.y, p.text.clone())).collect();
    assert_eq!(texts[0], (0, 0, "a       b".to_string()));
    assert_eq!(texts[1], (0, 1, "12".to_string()));
    assert_eq!(texts[2], (0, 2, "~".to_string()));
    assert_eq!(texts.len(), 10);
    assert_eq!((f.bar.x, f.bar.y), (0, 10));
    let left = format!("{:20} - {} lines {} {}", "f.txt", 2, 0, "");
    let right = "0/0";
    let expected = format!("{left}{}{right}", " ".repeat(40 - left.len() - right.len()));
    assert_eq!(f.bar.text, expected);
}

#[test]
fn refresh_shows_welcome_in_empty_text() {
    let mut e = Editor::new(Screen::new(40, 7));
    let f = e.refresh_screen("0.1.0");
    let texts: Vec<(u16, u16, String)> =
        f.paints.iter().map(|p| (p.x, p.y, p.text.clone())).collect();
    // the welcome line is on screen line 6 / 3 = 2
    assert_eq!(texts[2], (0, 2, "~".to_string()));
    let w = "diffany --version 0.1.0";
    assert_eq!(texts[3], (((40 - w.len()) / 2) as u16, 2, w.to_string()));
    assert_eq!(texts.len(), 7);
    let left = format!("{:20} - {} lines {} {}", "[No None]", 0, 0, "");
    assert!(f.bar.text.starts_with(&left));
    assert!(f.bar.text.ends_with("0/0"));
    assert_eq!(f.bar.text.len(), 40);
}

#[test]
fn refresh_scrolls_to_cursor() {
    let data: Vec<String> = (0..30).map(|i| format!("{i}")).collect();
    let mut e = Editor::build(&data, "n".to_string(), Screen::new(20, 6));
    for _ in 0..12 {
        press(&mut e, key(KeyCode::Down));
    }
    let f = e.refresh_screen("v");
    assert_eq!(e.rowsoff(), 8);
    assert_eq!(f.paints[0].text, "8");
    let pos = e.screen().move_to(&e.cursor(), e.render_x(), e.rowsoff(), e.coloff());
    assert_eq!((pos.x, pos.y), (0, 4));
}

#[test]
fn refresh_scrolls_columns() {
    let long = vec!["x".repeat(30)];
    let mut e = Editor::build(&long, "n".to_string(), Screen::new(10, 5));
    press(&mut e, key(KeyCode::End));
    let f = e.refresh_screen("v");
    assert_eq!(e.render_x(), 30);
    assert_eq!(e.coloff(), 21);
    // the line is drawn from column 21 on: nine characters remain
    assert_eq!(f.paints[0].text, "x".repeat(9));
}

#[test]
fn key_ok_refuses_cut_inside_character() {
    let mut e = editor(&["é"]);
    press(&mut e, key(KeyCode::Right));
    // the cursor counts bytes: it now stands inside 'é'
    assert_eq!(cursor(&e), (1, 0));
    assert!(!e.key_ok(key(KeyCode::Char('x'))));
    assert!(!e.key_ok(key(KeyCode::Enter)));
    press(&mut e, key(KeyCode::Right));
    assert_eq!(cursor(&e), (2, 0));
    assert!(e.key_ok(key(KeyCode::Char('x'))));
    // Backspace would remove at byte 1, inside 'é'
    assert!(!e.key_ok(key(KeyCode::Backspace)));
    press(&mut e, key(KeyCode::Left));
    assert_eq!(cursor(&e), (1, 0));
    assert!(e.key_ok(key(KeyCode::Backspace)));
    press(&mut e, key(KeyCode::Backspace));
    assert_eq!(lines(&e), vec![""]);
    assert_eq!(cursor(&e), (0, 0));
}

#[test]
fn can_refresh_refuses_too_narrow_bar() {
    let e = Editor::new(Screen::new(2, 5));
    assert!(!e.can_refresh("v"));
}

#[test]
fn bar_marks_modified_text() {
    let mut e = editor(&["a"]);
    press(&mut e, key(KeyCode::Char('b')));
    let f = e.refresh_screen("v");
    let left = format!("{:20} - {} lines {} {}", "f.txt", 1, 1, "(modified)");
    // the left part takes 43 columns of 40: the cursor part is left out
    assert_eq!(f.bar.text, left);
}

#[test]
fn refresh_keeps_fresh_status_message() {
    let mut e = editor(&["a"]);
    e.set_status_msg("fresh".to_string());
    e.refresh_screen("v");
    assert_eq!(e.status_msg(), "fresh");
}

#[test]
fn status_message_expires_after_five_seconds() {
    let mut e = editor(&["a"]);
    e.set_status_msg("note".to_string());
    e.expire_status(5_000_000_000);
    assert_eq!(e.status_msg(), "note");
    e.expire_status(5_000_000_001);
    assert_eq!(e.status_msg(), "");
    e.expire_status(u128::MAX);
    assert_eq!(e.status_msg(), "");
}

#[test]
fn refresh_reports_status_age() {
    let mut e = editor(&["a"]);
    e.set_status_msg("fresh".to_string());
    let f = e.refresh_screen("v");
    assert!(f.status_age < 5_000_000_000);
    assert_eq!(e.status_msg(), "fresh");
}

#[test]
fn save_steps() {
    let mut e = Editor::new(Screen::new(20, 5));
    assert!(matches!(e.begin_save(), SaveStep::AskName));
    assert!(matches!(e.name_given(None), SaveStep::Stop));
    assert_eq!(e.filename(), "");
    press(&mut e, key(KeyCode::Char('z')));
    match e.name_given(Some("out.txt".to_string())) {
        SaveStep::Write(t) => assert_eq!(t, "z\n"),
        _ => panic!("expected a write"),
    }
    assert_eq!(e.filename(), "out.txt");
    match e.begin_save() {
        SaveStep::Write(t) => assert_eq!(t, "z\n"),
        _ => panic!("expected a write"),
    }
}

#[test]
fn loaded_text_saves_back() {
    for text in ["", "a", "a\n", "a\nb", "\n\n", "x\n\ny"] {
        let e = Editor::with_file("x".to_string(), text, Screen::new(20, 5));
        let expected = if text.is_empty() || text.ends_with('\n') {
            text.to_string()
        } else {
            format!("{text}\n")
        };
        assert_eq!(e.rows_to_string(), expected);
    }
}

#[test]
fn keys_keep_cursor_in_text() {
    let mut e = editor(&["abc", "", "de"]);
    let keys = [
        KeyCode::End,
        KeyCode::Down,
        KeyCode::Right,
        KeyCode::Down,
        KeyCode::Delete,
        KeyCode::End,
        KeyCode::Down,
        KeyCode::PageDown,
        KeyCode::Backspace,
        KeyCode::PageUp,
        KeyCode::Enter,
        KeyCode::Left,
    ];
    for k in keys {
        press(&mut e, key(k));
        let (x, y) = cursor(&e);
        let rows = lines(&e);
        assert!(y as usize <= rows.len());
        let len = if (y as usize) < rows.len() { rows[y as usize].len() } else { 0 };
        assert!(x as usize <= len);
    }
}
