use diffany::raw::Raw;
use diffany::screen::Screen;
use diffany::Position;

#[test]
fn new_screen_keeps_a_line_for_the_bar() {
    let s = Screen::new(80, 24);
    let b = s.bound();
    assert_eq!((b.x, b.y), (80, 23));
}

#[test]
fn draw_bar_puts_right_part_at_edge() {
    let s = Screen::new(12, 3);
    let p = s.draw_bar("ab".to_string(), "1/2".to_string());
    assert_eq!((p.x, p.y), (0, 2));
    assert_eq!(p.text, "ab       1/2");
    // no room: only the left part
    let p = s.draw_bar("abcdefghij".to_string(), "1/2".to_string());
    assert_eq!(p.text, "abcdefghij");
    // an empty right part: spaces up to the edge
    let p = s.draw_bar("ab".to_string(), String::new());
    assert_eq!(p.text, "ab          ");
}

#[test]
fn draw_rows_cuts_columns() {
    let s = Screen::new(3, 3);
    let rows = vec![Raw::new("abcdef".to_string()), Raw::new("x".to_string())];
    let paints = s.draw_rows(&rows, 0, 2, "v");
    let texts: Vec<(u16, u16, String)> = paints.into_iter().map(|p| (p.x, p.y, p.text)).collect();
    // the second line is shorter than the offset: nothing drawn for it
    assert_eq!(texts, vec![(0, 0, "cde".to_string())]);
    let paints = s.draw_rows(&rows, 1, 0, "v");
    let texts: Vec<(u16, u16, String)> = paints.into_iter().map(|p| (p.x, p.y, p.text)).collect();
    assert_eq!(texts, vec![(0, 0, "x".to_string()), (0, 1, "~".to_string())]);
}

#[test]
fn welcome_is_cut_to_width() {
    let s = Screen::new(10, 4);
    let paints = s.draw_rows(&[], 0, 0, "1.0");
    let texts: Vec<(u16, u16, String)> = paints.into_iter().map(|p| (p.x, p.y, p.text)).collect();
    assert_eq!(
        texts,
        vec![
            (0, 0, "~".to_string()),
            (0, 1, "diffany --".to_string()),
            (0, 2, "~".to_string()),
        ]
    );
}

#[test]
fn move_to_subtracts_offsets() {
    let s = Screen::new(10, 4);
    let p = s.move_to(&Position { x: 7, y: 9 }, 12, 5, 4);
    assert_eq!((p.x, p.y), (8, 4));
}

#[test]
fn can_draw_checks_boundaries() {
    let s = Screen::new(1, 3);
    let rows = vec![Raw::new("é".to_string())];
    // a cut after one byte falls inside 'é'
    assert!(!s.can_draw(&rows, 0, 0, "v"));
    let s = Screen::new(2, 3);
    assert!(s.can_draw(&rows, 0, 0, "v"));
}

#[test]
fn draw_bar_pads_left_part_by_characters() {
    // "é" has two bytes: it is padded to two characters, which leaves no
    // room for the right part
    let s = Screen::new(4, 2);
    let p = s.draw_bar("é".to_string(), "x".to_string());
    assert_eq!(p.text, "é ");
    let s = Screen::new(6, 2);
    let p = s.draw_bar("é".to_string(), "x".to_string());
    assert_eq!(p.text, "é   x");
}
