use crabsort::buffer::{Buffer, Color};
use crabsort::event_bus::EventBus;
use crabsort::layout::Layout;
use crabsort::term::{decode_key, Key};
use crabsort::ui::Rect;
use crabsort::widgets::ui_filelist::{FileTreeItem, UIFileList};
use crabsort::widgets::ui_input_dialog::UIInputDialog;
use crabsort::widgets::ui_menu::{draw_menu, MenuItem, UIMenu};
use crabsort::widgets::ui_progress_bar::UIProgressBar;
use crabsort::widgets::ui_status_bar::UIStatusBar;
use crabsort::widgets::widget::Widget;

fn ch(buf: &Buffer, x: u16, y: u16) -> char {
    buf.current[(y as usize) * (buf.width as usize) + (x as usize)].c
}

fn row(buf: &Buffer, y: u16, from: u16, n: u16) -> String {
    (from..from + n).map(|x| ch(buf, x, y)).collect()
}

fn leaf(p: &str) -> FileTreeItem {
    FileTreeItem { path: p.to_string(), children: vec![] }
}

fn group(p: &str, files: &[&str]) -> FileTreeItem {
    FileTreeItem { path: p.to_string(), children: files.iter().map(|f| leaf(f)).collect() }
}

#[test]
fn event_bus_hands_out_events_in_order() {
    let mut bus = EventBus::new();
    bus.push("a", "one".to_string());
    bus.push("b", "two".to_string());
    let evs = bus.drain();
    assert_eq!(evs.len(), 2);
    assert_eq!(evs[0].source, "a");
    assert_eq!(evs[0].payload, "one");
    assert_eq!(evs[1].source, "b");
    assert_eq!(evs[1].payload, "two");
    assert!(bus.drain().is_empty());
}

#[test]
fn keys_decode_from_bytes() {
    assert!(decode_key(&[]) == Key::NoKey);
    assert!(decode_key(&[9]) == Key::Tab);
    assert!(decode_key(&[13]) == Key::Enter);
    assert!(decode_key(&[32]) == Key::Space);
    assert!(decode_key(&[8]) == Key::Backspace);
    assert!(decode_key(&[0x7f]) == Key::Backspace);
    assert!(decode_key(&[0x1b]) == Key::Escape);
    assert!(decode_key(&[0x1b, 91, 65]) == Key::Up);
    assert!(decode_key(&[0x1b, 91, 66]) == Key::Down);
    assert!(decode_key(&[0x1b, 91, 67]) == Key::Right);
    assert!(decode_key(&[0x1b, 91, 68]) == Key::Left);
    assert!(decode_key(&[0x1b, 91, 69]) == Key::NoKey);
    assert!(decode_key(&[0x1b, 79]) == Key::Escape);
    assert!(decode_key(&[b'q']) == Key::Char('q'));
    assert!(decode_key(&[b'~']) == Key::Char('~'));
    assert!(decode_key(&[127 + 1]) == Key::NoKey);
    assert!(decode_key(&[1]) == Key::NoKey);
}

#[test]
fn layouts_place_widgets() {
    let r = Layout::MainMenu.rect(80, 24);
    assert_eq!((r.x, r.y, r.w, r.h), (2, 17, 76, 6));
    let r = Layout::DirList.rect(80, 24);
    assert_eq!((r.x, r.y, r.w, r.h), (2, 2, 76, 13));
    let r = Layout::ProgressBar.rect(80, 24);
    assert_eq!((r.x, r.y, r.w, r.h), (5, 9, 70, 7));
    let r = Layout::StatusBar.rect(80, 24);
    assert_eq!((r.x, r.y, r.w, r.h), (0, 23, 80, 1));
    let r = Layout::SortSupported.rect(80, 24);
    assert_eq!((r.x, r.y, r.w, r.h), (2, 2, 76, 6));
    let r = Layout::SortUnsupported.rect(80, 24);
    assert_eq!((r.x, r.y, r.w, r.h), (2, 10, 76, 5));
    let r = Layout::InputDialog.rect(80, 24);
    assert_eq!((r.x, r.y, r.w, r.h), (5, 10, 70, 5));
    assert!(!Layout::MainMenu.fits(80, 5));
    assert!(Layout::MainMenu.fits(80, 7));
}

#[test]
fn menu_moves_and_raises_the_selected_event() {
    let mut m = UIMenu::new("menu", "Title".to_string(), vec![], EventBus::new(), Layout::MainMenu);
    m.add_item("First".to_string(), "first".to_string());
    m.add_item("Second".to_string(), "second".to_string());
    m.handle_input(Key::Char('k'));
    m.handle_input(Key::Char('j'));
    m.handle_input(Key::Char('j'));
    m.handle_input(Key::Enter);
    let evs = m.take_events();
    assert_eq!(evs.len(), 1);
    assert_eq!(evs[0].source, "menu");
    assert_eq!(evs[0].payload, "second");
    m.handle_input(Key::Char('k'));
    m.handle_input(Key::Enter);
    let evs = m.take_events();
    assert_eq!(evs[0].payload, "first");
}

#[test]
fn menu_draws_entries_with_a_marker() {
    let mut buf = Buffer::new(20, 5);
    let items = vec![
        MenuItem { label: "Alpha".to_string(), event: "a".to_string() },
        MenuItem { label: "Beta".to_string(), event: "b".to_string() },
    ];
    draw_menu(&mut buf, &Rect::new(0, 0, 20, 5), "M", &items, 1, true);
    assert_eq!(row(&buf, 1, 2, 8), "   Alpha");
    assert_eq!(row(&buf, 2, 2, 7), " > Beta");
    let sel = &buf.current[2 * 20 + 4];
    assert!(sel.color == Color::Black && sel.bg == Color::Yellow);
}

#[test]
fn input_dialog_edits_and_submits() {
    let mut d = UIInputDialog::new("dlg", "Size".to_string(), Some("10".to_string()), EventBus::new(), Layout::InputDialog);
    d.handle_input(Key::Char('2'));
    d.handle_input(Key::Backspace);
    d.handle_input(Key::Char('4'));
    d.handle_input(Key::Enter);
    let evs = d.take_events();
    assert_eq!(evs.len(), 1);
    assert_eq!(evs[0].source, "dlg");
    assert_eq!(evs[0].payload, "104");
}

#[test]
fn input_dialog_escape_clears_then_cancels() {
    let mut d = UIInputDialog::new("dlg", "Size".to_string(), Some("7".to_string()), EventBus::new(), Layout::InputDialog);
    d.handle_input(Key::Escape);
    assert!(d.take_events().is_empty());
    d.handle_input(Key::Escape);
    let evs = d.take_events();
    assert_eq!(evs[0].payload, "cancel");
}

#[test]
fn input_dialog_draws_its_text() {
    let mut buf = Buffer::new(20, 10);
    let mut d = UIInputDialog::new("dlg", "Q".to_string(), Some("abc".to_string()), EventBus::new(), Layout::InputDialog);
    d.handle_buf_size_change(20, 10);
    d.draw(&mut buf, true);
    assert_eq!(row(&buf, 5, 7, 3), "abc");
}

#[test]
fn progress_bar_shows_count_and_bar() {
    let mut buf = Buffer::new(30, 10);
    let mut p = UIProgressBar::new("Work".to_string(), Layout::ProgressBar);
    p.update(1, 2, "file".to_string());
    p.handle_buf_size_change(30, 10);
    p.draw(&mut buf, true);
    // box of 20 x 7 at (5, 2)
    assert_eq!(row(&buf, 4, 7, 3), "1/2");
    assert_eq!(row(&buf, 5, 7, 4), "file");
    assert_eq!(row(&buf, 6, 7, 8), "████████");
    assert_eq!(ch(&buf, 15, 6), ' ');
}

#[test]
fn progress_bar_without_total_shows_count() {
    let mut buf = Buffer::new(30, 10);
    let mut p = UIProgressBar::new("Work".to_string(), Layout::ProgressBar);
    p.update(5, 0, String::new());
    p.set_title("Other".to_string());
    p.handle_buf_size_change(30, 10);
    p.draw(&mut buf, false);
    assert_eq!(row(&buf, 4, 7, 2), "5 ");
    assert_eq!(row(&buf, 2, 9, 5), "Other");
}

#[test]
fn status_bar_fills_the_last_row() {
    let mut buf = Buffer::new(10, 3);
    let mut s = UIStatusBar::new("hi there".to_string(), Layout::StatusBar);
    s.handle_buf_size_change(10, 3);
    s.draw(&mut buf, true);
    assert_eq!(row(&buf, 2, 0, 8), "hi there");
    assert!(buf.current[2 * 10 + 9].bg == Color::White);
}

#[test]
fn file_list_lists_groups_and_files() {
    let items = vec![group("g1", &["a", "b"]), group("g2", &["c"])];
    let mut l = UIFileList::new("T".to_string(), items, 2, None, false, Layout::Fixed(Rect::new(0, 0, 20, 8)));
    let mut buf = Buffer::new(20, 8);
    l.handle_buf_size_change(20, 8);
    l.draw(&mut buf, true);
    assert_eq!(row(&buf, 1, 3, 2), "g1");
    assert_eq!(row(&buf, 2, 3, 5), "    a");
    assert_eq!(row(&buf, 3, 3, 5), "    b");
    assert_eq!(row(&buf, 4, 3, 2), "g2");
    assert_eq!(row(&buf, 5, 3, 5), "    c");
}

#[test]
fn file_list_selects_files_and_publishes_the_selection() {
    let items = vec![group("g1", &["a", "b"]), group("g2", &["c"])];
    let out = vec![group("whole", &["x"])];
    let mut l = UIFileList::new("T".to_string(), items, 2, Some(out), false, Layout::Fixed(Rect::new(0, 0, 20, 8)));
    l.handle_buf_size_change(20, 8);
    let before = l.selection().unwrap();
    assert_eq!(before.len(), 1);
    assert_eq!(before[0].path, "whole");
    // on the group line nothing happens
    l.handle_input(Key::Space);
    assert_eq!(l.selection().unwrap()[0].path, "whole");
    l.handle_input(Key::Char('j'));
    l.handle_input(Key::Char('j'));
    l.handle_input(Key::Space);
    let sel = l.selection().unwrap();
    assert_eq!(sel.len(), 1);
    assert_eq!(sel[0].path, "g1");
    assert_eq!(sel[0].children.len(), 1);
    assert_eq!(sel[0].children[0].path, "b");
    l.handle_input(Key::Space);
    assert!(l.selection().unwrap().is_empty());
}

#[test]
fn file_list_with_everything_selected_publishes_groups() {
    let items = vec![group("g1", &["a", "b"]), group("g2", &["c"])];
    let mut l = UIFileList::new("T".to_string(), items, 2, Some(vec![]), true, Layout::Fixed(Rect::new(0, 0, 20, 8)));
    l.handle_buf_size_change(20, 8);
    l.handle_input(Key::Char('j'));
    l.handle_input(Key::Space);
    let sel = l.selection().unwrap();
    assert_eq!(sel.len(), 2);
    assert_eq!(sel[0].path, "g1");
    assert_eq!(sel[0].children.len(), 1);
    assert_eq!(sel[0].children[0].path, "b");
    assert_eq!(sel[1].path, "g2");
    assert_eq!(sel[1].children[0].path, "c");
}

#[test]
fn file_list_highlight_stays_on_the_list() {
    let items = vec![group("g1", &["a"])];
    let mut l = UIFileList::new("T".to_string(), items, 2, None, false, Layout::Fixed(Rect::new(0, 0, 20, 8)));
    l.handle_buf_size_change(20, 8);
    l.handle_input(Key::Char('j'));
    l.handle_input(Key::Char('j'));
    l.handle_input(Key::Char('j'));
    let mut buf = Buffer::new(20, 8);
    l.draw(&mut buf, true);
    let hl = &buf.current[2 * 20 + 3];
    assert!(hl.bg == Color::Yellow);
    let first = &buf.current[1 * 20 + 3];
    assert!(first.bg == Color::Reset);
}

#[test]
fn file_list_scrolls_down_with_the_highlight() {
    let items = vec![group("g", &["1", "2", "3", "4", "5", "6"])];
    let mut l = UIFileList::new("T".to_string(), items, 2, None, false, Layout::Fixed(Rect::new(0, 0, 20, 5)));
    l.handle_buf_size_change(20, 5);
    for _ in 0..4 {
        l.handle_input(Key::Char('j'));
    }
    let mut buf = Buffer::new(20, 5);
    l.draw(&mut buf, true);
    // 7 lines, 3 rows shown: the highlight is on line 4
    let shown: Vec<String> = (1..4).map(|y| row(&buf, y, 3, 5)).collect();
    assert!(shown.contains(&"    4".to_string()));
}

#[test]
fn file_list_lines_map_to_files() {
    // three groups of 2, 3 and 1 files: line 0 is the first group, lines 1 and 2 its files,
    // line 3 the second group, lines 4 to 6 its files, line 7 the third group, line 8 its file
    let items = vec![group("g0", &["a", "b"]), group("g1", &["c", "d", "e"]), group("g2", &["f"])];
    let mut l = UIFileList::new("T".to_string(), items, 2, Some(vec![]), false, Layout::Fixed(Rect::new(0, 0, 20, 14)));
    l.handle_buf_size_change(20, 14);
    let expected: [Option<(&str, &str)>; 9] = [
        None,
        Some(("g0", "a")),
        Some(("g0", "b")),
        None,
        Some(("g1", "c")),
        Some(("g1", "d")),
        Some(("g1", "e")),
        None,
        Some(("g2", "f")),
    ];
    for (line, want) in expected.iter().enumerate() {
        if line > 0 {
            l.handle_input(Key::Char('j'));
        }
        let before = l.selection().unwrap();
        l.handle_input(Key::Space);
        let after = l.selection().unwrap();
        match want {
            None => assert_eq!(before.len(), after.len()),
            Some((g, f)) => {
                assert_eq!(after.len(), 1);
                assert_eq!(after[0].path, *g);
                assert_eq!(after[0].children.len(), 1);
                assert_eq!(after[0].children[0].path, *f);
                l.handle_input(Key::Space);
                assert!(l.selection().unwrap().is_empty());
            }
        }
    }
}

#[test]
fn file_positions_and_lines_round_trip() {
    let items = vec![group("g0", &["a", "b"]), group("g1", &["c", "d", "e"]), group("g2", &["f"])];
    let l = UIFileList::new("T".to_string(), items, 2, None, false, Layout::DirList);
    assert_eq!(l.coords_to_flat(0, 0), 1);
    assert_eq!(l.coords_to_flat(1, 2), 6);
    assert_eq!(l.coords_to_flat(2, 0), 8);
    for (i, n) in [(0usize, 2usize), (1, 3), (2, 1)] {
        for j in 0..n {
            assert_eq!(l.flat_to_coords(l.coords_to_flat(i, j)), Some((i, j)));
        }
    }
    assert_eq!(l.flat_to_coords(0), None);
    assert_eq!(l.flat_to_coords(3), None);
    assert_eq!(l.flat_to_coords(7), None);
}
