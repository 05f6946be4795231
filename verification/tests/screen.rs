use crabsort::buffer::{Buffer, Cell, Color};
use crabsort::ui::{draw_box, draw_string_list_flat, fill_rect, Rect};

fn cell_at(buf: &Buffer, x: u16, y: u16) -> &Cell {
    &buf.current[(y as usize) * (buf.width as usize) + (x as usize)]
}

#[test]
fn new_buffer_is_blank() {
    let buf = Buffer::new(3, 2);
    assert_eq!(buf.current.len(), 6);
    assert!(buf.previous.is_empty());
    for c in &buf.current {
        assert_eq!(c.c, ' ');
        assert!(c.color == Color::Reset && c.bg == Color::Reset);
    }
}

#[test]
fn default_cell_is_blank() {
    let c = Cell::default();
    assert_eq!(c.c, ' ');
    assert!(c.color == Color::Reset);
    assert!(c.bg == Color::Reset);
}

#[test]
fn color_codes() {
    assert_eq!(Color::Reset.fg_code(), "0");
    assert_eq!(Color::White.fg_code(), "97");
    assert_eq!(Color::Black.fg_code(), "30");
    assert_eq!(Color::Grey.fg_code(), "90");
    assert_eq!(Color::Blue.fg_code(), "34");
    assert_eq!(Color::Cyan.fg_code(), "36");
    assert_eq!(Color::Yellow.fg_code(), "33");
    assert_eq!(Color::Green.fg_code(), "32");
    assert_eq!(Color::Reset.bg_code(), "0");
    assert_eq!(Color::White.bg_code(), "107");
    assert_eq!(Color::Black.bg_code(), "40");
    assert_eq!(Color::Grey.bg_code(), "100");
    assert_eq!(Color::Blue.bg_code(), "44");
    assert_eq!(Color::Cyan.bg_code(), "46");
    assert_eq!(Color::Yellow.bg_code(), "43");
    assert_eq!(Color::Green.bg_code(), "42");
}

#[test]
fn set_writes_one_cell_and_ignores_outside() {
    let mut buf = Buffer::new(3, 2);
    buf.set(1, 1, 'x', Color::Green, Color::Black);
    buf.set(3, 0, 'y', Color::Green, Color::Black);
    buf.set(0, 2, 'z', Color::Green, Color::Black);
    let c = cell_at(&buf, 1, 1);
    assert_eq!(c.c, 'x');
    assert!(c.color == Color::Green && c.bg == Color::Black);
    let others: usize = buf.current.iter().filter(|c| c.c != ' ').count();
    assert_eq!(others, 1);
}

#[test]
fn first_flush_draws_every_cell_column_by_column() {
    let mut buf = Buffer::new(2, 1);
    let out = buf.flush();
    assert_eq!(out, "\x1b[1;1H \x1b[1;2H \x1b[0m");
}

#[test]
fn flush_switches_colours_when_they_change() {
    let mut buf = Buffer::new(1, 2);
    buf.set(0, 1, 'a', Color::Yellow, Color::Black);
    let out = buf.flush();
    assert_eq!(out, "\x1b[1;1H \x1b[2;1H\x1b[0;33;40ma\x1b[0m");
}

#[test]
fn flush_of_an_unchanged_frame_only_resets() {
    let mut buf = Buffer::new(4, 3);
    buf.set(2, 2, 'q', Color::Cyan, Color::Blue);
    let _ = buf.flush();
    let out = buf.flush();
    assert_eq!(out, "\x1b[0m");
}

#[test]
fn flush_redraws_only_changed_cells() {
    let mut buf = Buffer::new(3, 3);
    let _ = buf.flush();
    buf.set(2, 1, 'k', Color::White, Color::Reset);
    let out = buf.flush();
    assert_eq!(out, "\x1b[2;3H\x1b[0;97;0mk\x1b[0m");
}

#[test]
fn clear_blanks_but_keeps_what_was_shown() {
    let mut buf = Buffer::new(2, 2);
    buf.set(0, 0, 'a', Color::White, Color::Black);
    let _ = buf.flush();
    buf.clear();
    assert!(buf.current.iter().all(|c| c.c == ' '));
    let out = buf.flush();
    assert_eq!(out, "\x1b[1;1H \x1b[0m");
}

#[test]
fn resize_forces_a_full_redraw() {
    let mut buf = Buffer::new(1, 1);
    let _ = buf.flush();
    buf.resize(1, 2);
    assert_eq!(buf.width, 1);
    assert_eq!(buf.height, 2);
    assert_eq!(buf.current.len(), 2);
    let out = buf.flush();
    assert_eq!(out, "\x1b[1;1H \x1b[2;1H \x1b[0m");
}

#[test]
fn put_str_writes_rightwards_and_clips() {
    let mut buf = Buffer::new(4, 1);
    buf.put_str(2, 0, "abc", Color::White, Color::Black);
    assert_eq!(cell_at(&buf, 2, 0).c, 'a');
    assert_eq!(cell_at(&buf, 3, 0).c, 'b');
    assert_eq!(cell_at(&buf, 1, 0).c, ' ');
}

#[test]
fn box_has_corners_edges_and_title() {
    let mut buf = Buffer::new(10, 4);
    let r = Rect::new(0, 0, 10, 4);
    draw_box(&mut buf, &r, "T", true);
    assert_eq!(cell_at(&buf, 0, 0).c, '┌');
    assert_eq!(cell_at(&buf, 9, 0).c, '┐');
    assert_eq!(cell_at(&buf, 0, 3).c, '└');
    assert_eq!(cell_at(&buf, 9, 3).c, '┘');
    assert_eq!(cell_at(&buf, 1, 0).c, '─');
    assert_eq!(cell_at(&buf, 0, 1).c, '│');
    assert_eq!(cell_at(&buf, 9, 2).c, '│');
    assert_eq!(cell_at(&buf, 3, 0).c, ' ');
    assert_eq!(cell_at(&buf, 4, 0).c, 'T');
    assert_eq!(cell_at(&buf, 5, 0).c, ' ');
    assert!(cell_at(&buf, 0, 0).color == Color::Yellow);
    assert!(cell_at(&buf, 0, 0).bg == Color::Black);
    assert_eq!(cell_at(&buf, 4, 1).c, ' ');
}

#[test]
fn unfocused_box_is_grey_and_title_is_cut() {
    let mut buf = Buffer::new(7, 3);
    let r = Rect::new(0, 0, 7, 3);
    draw_box(&mut buf, &r, "abcdef", false);
    assert!(cell_at(&buf, 0, 0).color == Color::Grey);
    assert_eq!(cell_at(&buf, 3, 0).c, ' ');
    assert_eq!(cell_at(&buf, 4, 0).c, 'a');
    assert_eq!(cell_at(&buf, 5, 0).c, 'b');
    assert_eq!(cell_at(&buf, 6, 0).c, '┐');
}

#[test]
fn fill_rect_covers_the_rectangle_only() {
    let mut buf = Buffer::new(4, 4);
    fill_rect(&mut buf, &Rect::new(1, 1, 2, 2), '#', Color::Blue, Color::Cyan);
    let filled: usize = buf.current.iter().filter(|c| c.c == '#').count();
    assert_eq!(filled, 4);
    assert_eq!(cell_at(&buf, 2, 2).c, '#');
    assert!(cell_at(&buf, 2, 2).bg == Color::Cyan);
    assert_eq!(cell_at(&buf, 3, 3).c, ' ');
}

#[test]
fn list_highlights_selects_and_scrolls() {
    let mut buf = Buffer::new(12, 5);
    let r = Rect::new(0, 0, 12, 5);
    let lines = vec!["one".to_string(), "two".to_string(), "three".to_string(), "four".to_string()];
    draw_string_list_flat(&mut buf, &r, "L", &lines, 1, 2, true, Some(vec![3]));
    assert_eq!(cell_at(&buf, 3, 1).c, 't');
    assert_eq!(cell_at(&buf, 4, 1).c, 'w');
    assert!(cell_at(&buf, 3, 1).color == Color::White && cell_at(&buf, 3, 1).bg == Color::Reset);
    assert_eq!(cell_at(&buf, 3, 2).c, 't');
    assert!(cell_at(&buf, 3, 2).color == Color::Black && cell_at(&buf, 3, 2).bg == Color::Yellow);
    assert!(cell_at(&buf, 8, 2).bg == Color::Yellow);
    assert_eq!(cell_at(&buf, 3, 3).c, 'f');
    assert!(cell_at(&buf, 3, 3).color == Color::Black && cell_at(&buf, 3, 3).bg == Color::Green);
}

#[test]
fn unfocused_list_colours() {
    let mut buf = Buffer::new(12, 5);
    let r = Rect::new(0, 0, 12, 5);
    let lines = vec!["aaaaaaaaaaaa".to_string(), "b".to_string()];
    draw_string_list_flat(&mut buf, &r, "", &lines, 0, 0, false, Some(vec![1]));
    assert!(cell_at(&buf, 3, 1).color == Color::Black && cell_at(&buf, 3, 1).bg == Color::Grey);
    assert_eq!(cell_at(&buf, 8, 1).c, 'a');
    assert_eq!(cell_at(&buf, 9, 1).c, ' ');
    assert!(cell_at(&buf, 3, 2).color == Color::Green && cell_at(&buf, 3, 2).bg == Color::Black);
}
