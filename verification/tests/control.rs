use crabsort::control::{
    get_directory, key_outcome, min_size_bytes, parse_args, parse_u64, route_event, route_events,
    Action, ArgsError, Command, DirError, KeyOutcome, USAGE,
};
use crabsort::control::{Effect, Session};
use crabsort::event_bus::Event;
use crabsort::widgets::ui_filelist::FileTreeItem;
use crabsort::term::Key;

fn args(v: &[&str]) -> Vec<String> {
    v.iter().map(|s| s.to_string()).collect()
}

#[test]
fn no_argument_is_refused() {
    let e = parse_args(&args(&["crabsort"])).err().unwrap();
    assert!(matches!(e, ArgsError::DirRequired));
    assert_eq!(e.message(), "dir required");
    assert!(e.shows_usage());
}

#[test]
fn help_flags() {
    assert!(matches!(parse_args(&args(&["crabsort", "--help"])), Ok(Command::Help)));
    assert!(matches!(parse_args(&args(&["crabsort", "-h", "x"])), Ok(Command::Help)));
    assert!(USAGE.starts_with("Usage: crabsort <directory>"));
}

#[test]
fn directory_is_the_last_plain_argument() {
    match parse_args(&args(&["crabsort", "one", "two"])) {
        Ok(Command::Run(d)) => assert_eq!(d, "two"),
        _ => panic!("expected a directory"),
    }
}

#[test]
fn options_are_refused() {
    let e = parse_args(&args(&["crabsort", "dir", "--fast"])).err().unwrap();
    assert!(matches!(&e, ArgsError::UnknownOption(o) if o == "--fast"));
    assert_eq!(e.message(), "unknown option: --fast");
    assert!(!e.shows_usage());
}

#[test]
fn empty_directory_argument_is_refused() {
    let e = parse_args(&args(&["crabsort", ""])).err().unwrap();
    assert!(matches!(e, ArgsError::DirectoryArgumentRequired));
    assert_eq!(e.message(), "directory argument required");
}

#[test]
fn directory_checks() {
    assert!(get_directory(true, true).is_ok());
    let e = get_directory(false, false).err().unwrap();
    assert!(matches!(e, DirError::Missing));
    assert_eq!(e.message(), "path does not exist");
    let e = get_directory(true, false).err().unwrap();
    assert!(matches!(e, DirError::NotADirectory));
    assert_eq!(e.message(), "path is not a directory");
}

#[test]
fn numbers_parse_like_str_parse() {
    assert_eq!(parse_u64("1024"), Some(1024));
    assert_eq!(parse_u64("+7"), Some(7));
    assert_eq!(parse_u64("0"), Some(0));
    assert_eq!(parse_u64("18446744073709551615"), Some(u64::MAX));
    assert_eq!(parse_u64("18446744073709551616"), None);
    assert_eq!(parse_u64(""), None);
    assert_eq!(parse_u64("+"), None);
    assert_eq!(parse_u64("-1"), None);
    assert_eq!(parse_u64("12a"), None);
    assert_eq!(parse_u64(" 1"), None);
    for s in ["5", "+0", "99999", "x", "", "1 "] {
        assert_eq!(parse_u64(s), s.parse::<u64>().ok());
    }
}

#[test]
fn smallest_size_in_bytes() {
    assert_eq!(min_size_bytes(None), Some(102400));
    assert_eq!(min_size_bytes(Some("1024")), Some(1048576));
    assert_eq!(min_size_bytes(Some("abc")), None);
    assert_eq!(min_size_bytes(Some("18014398509481984")), None);
    assert_eq!(min_size_bytes(Some("18014398509481983")), Some(18014398509481983 * 1024));
}

#[test]
fn events_lead_to_actions() {
    assert!(route_event("anything", "quit") == Action::Quit);
    assert!(route_event("main_menu", "sort") == Action::SortByType);
    assert!(route_event("main_menu", "duplicates_min_size") == Action::AskMinSize);
    assert!(route_event("confirm_sort_menu", "confirm") == Action::ConfirmSort);
    assert!(route_event("confirm_sort_menu", "no") == Action::BackToStart);
    assert!(route_event("sort_success_menu", "back") == Action::BackToStart);
    assert!(route_event("duplicates_menu", "back") == Action::BackToStart);
    assert!(route_event("duplicates_menu", "confirm") == Action::Ignore);
    assert!(route_event("input_test", "cancel") == Action::CancelInput);
    assert!(route_event("input_test", "2048") == Action::FindDuplicates);
    assert!(route_event("main_menu", "back") == Action::Ignore);
}

#[test]
fn quit_ends_the_events() {
    let events = vec![
        Event { source: "main_menu", payload: "sort".to_string() },
        Event { source: "x", payload: "quit".to_string() },
        Event { source: "main_menu", payload: "sort".to_string() },
    ];
    let actions = route_events(&events);
    assert_eq!(actions.len(), 2);
    assert!(actions[0] == Action::SortByType);
    assert!(actions[1] == Action::Quit);
}

#[test]
fn focus_moves_with_tab() {
    assert!(matches!(key_outcome(&Key::Char('q'), 0, 2), KeyOutcome::Quit));
    assert!(matches!(key_outcome(&Key::Tab, 0, 2), KeyOutcome::Deliver(1)));
    assert!(matches!(key_outcome(&Key::Tab, 1, 2), KeyOutcome::Deliver(0)));
    assert!(matches!(key_outcome(&Key::Tab, 5, 2), KeyOutcome::Deliver(0)));
    assert!(matches!(key_outcome(&Key::Char('j'), 1, 3), KeyOutcome::Deliver(1)));
}

#[test]
fn events_change_the_session() {
    let mut s = Session::new();
    s.sort_selected = vec![FileTreeItem { path: "p".to_string(), children: vec![] }];
    let events = vec![
        Event { source: "main_menu", payload: "duplicates_min_size".to_string() },
        Event { source: "input_test", payload: "cancel".to_string() },
        Event { source: "sort_success_menu", payload: "back".to_string() },
        Event { source: "input_test", payload: "2".to_string() },
        Event { source: "x", payload: "quit".to_string() },
        Event { source: "main_menu", payload: "sort".to_string() },
    ];
    let effects = s.handle_events(&events);
    assert!(effects == vec![
        Effect::ShowSizeDialog,
        Effect::Nothing,
        Effect::ShowFirstPage,
        Effect::SearchDuplicates(2048),
        Effect::Stop,
    ]);
    assert!(s.quit);
    assert!(s.latest_input.is_none());
    assert!(!s.dialog_open);
    assert!(s.sort_selected.is_empty());
}
