use crabsort::duplicates::{FileInfo, HashGroup};
use crabsort::pages::{
    duplicates_page, duplicates_view, first_page, min_size_dialog, sort_page, sort_success_page,
    status_bar, visible_entries,
};
use crabsort::term::Key;
use crabsort::widgets::ui_filelist::{fits_two_levels, FileTreeItem};
use crabsort::widgets::widget::Widget;

fn leaf(p: &str) -> FileTreeItem {
    FileTreeItem { path: p.to_string(), children: vec![] }
}

fn group(p: &str, files: &[&str]) -> FileTreeItem {
    FileTreeItem { path: p.to_string(), children: files.iter().map(|f| leaf(f)).collect() }
}

fn info(path: &str, size: u64) -> FileInfo {
    FileInfo::new(path.to_string(), size, [0u8; 8192])
}

fn entered(menu: &mut dyn Widget, downs: usize) -> String {
    for _ in 0..downs {
        menu.handle_input(Key::Char('j'));
    }
    menu.handle_input(Key::Enter);
    let evs = menu.take_events();
    assert_eq!(evs.len(), 1);
    evs[0].payload.clone()
}

#[test]
fn hidden_entries_are_not_listed() {
    let items = visible_entries(vec!["a".to_string(), ".git".to_string(), "b".to_string()]);
    let names: Vec<&str> = items.iter().map(|i| i.path.as_str()).collect();
    assert_eq!(names, vec!["a", "b"]);
    assert!(items.iter().all(|i| i.children.is_empty()));
}

#[test]
fn first_page_menu_entries() {
    let items = vec![leaf("a")];
    assert!(fits_two_levels(&items));
    let (mut menu, _list) = first_page("dir".to_string(), items);
    assert_eq!(entered(&mut menu, 0), "sort");
    assert_eq!(entered(&mut menu, 1), "duplicates_min_size");
    assert_eq!(entered(&mut menu, 1), "quit");
    let evs = {
        menu.handle_input(Key::Enter);
        menu.take_events()
    };
    assert_eq!(evs[0].source, "main_menu");
}

#[test]
fn sort_page_publishes_the_whole_plan() {
    let plan = vec![group("d/images", &["a", "b"]), group("unsupported", &["c"])];
    let (mut menu, moved, _kept) = sort_page("d", plan);
    let sel = moved.selection().unwrap();
    assert_eq!(sel.len(), 2);
    assert_eq!(sel[1].path, "unsupported");
    assert_eq!(entered(&mut menu, 0), "confirm");
    assert_eq!(entered(&mut menu, 1), "no");
}

#[test]
fn success_page_counts_moved_files() {
    let plan = vec![group("d/images", &["a", "b"]), group("unsupported", &["c"]), group("d/code", &["e"])];
    let (mut menu, moved, kept) = sort_success_page(plan);
    let mut buf = crabsort::buffer::Buffer::new(60, 24);
    let mut menu_b = menu;
    menu_b.handle_buf_size_change(60, 24);
    menu_b.draw(&mut buf, true);
    let title: String = (6..26).map(|x| buf.current[17 * 60 + x].c).collect();
    assert_eq!(title, "Done! Moved 3 files.");
    assert!(moved.selection().is_none());
    assert!(kept.selection().is_none());
    menu = menu_b;
    assert_eq!(entered(&mut menu, 0), "back");
}

#[test]
fn duplicates_view_titles() {
    let mib = 1024 * 1024;
    let groups = vec![
        HashGroup { hash: "h1".to_string(), files: vec![info("a", 3 * mib), info("b", 3 * mib)] },
        HashGroup { hash: "h2".to_string(), files: vec![info("c", mib), info("d", mib), info("e", mib)] },
    ];
    let (title, items) = duplicates_view("dir", &groups).unwrap();
    assert_eq!(title, "dir | 2 groups | 5/9 MB");
    assert_eq!(items.len(), 2);
    assert_eq!(items[0].path, "Group 1 | 3 MB");
    assert_eq!(items[1].path, "Group 2 | 1 MB");
    let kids: Vec<&str> = items[1].children.iter().map(|c| c.path.as_str()).collect();
    assert_eq!(kids, vec!["c", "d", "e"]);
}

#[test]
fn duplicates_view_refuses_overflowing_sizes() {
    let groups = vec![HashGroup { hash: "h".to_string(), files: vec![info("a", u64::MAX), info("b", 1)] }];
    assert!(duplicates_view("dir", &groups).is_none());
}

#[test]
fn duplicates_page_menu_entries() {
    let (mut menu, _list) = duplicates_page("t".to_string(), vec![group("g", &["x", "y"])]);
    assert_eq!(entered(&mut menu, 0), "confirm");
    assert_eq!(entered(&mut menu, 1), "back");
    assert_eq!(entered(&mut menu, 1), "quit");
}

#[test]
fn size_dialog_starts_at_1024() {
    let mut d = min_size_dialog();
    d.handle_input(Key::Enter);
    let evs = d.take_events();
    assert_eq!(evs[0].source, "input_test");
    assert_eq!(evs[0].payload, "1024");
}

#[test]
fn status_bar_text() {
    let mut s = status_bar();
    let mut buf = crabsort::buffer::Buffer::new(80, 3);
    s.handle_buf_size_change(80, 3);
    s.draw(&mut buf, true);
    let text: String = (0..20).map(|x| buf.current[2 * 80 + x].c).collect();
    assert_eq!(text, " Tab:switch focus | ");
}
