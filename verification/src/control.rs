//! The application's decisions: reading the command line, what an event or a key press leads
//! to, and the smallest file size the duplicate search looks at.
use vstd::prelude::*;
use crate::event_bus::Event;
use crate::term::Key;
use crate::widgets::ui_filelist::FileTreeItem;
use crate::text::{chars_of, char_at, same_text, starts_with_char};

verus! {

/// How the program is used.
pub const USAGE: &'static str = "Usage: crabsort <directory>\n\nSort and deduplicate files interactively.\n";

/// What the command line asks for.
pub enum Command {
    /// Print the usage and stop.
    Help,
    /// Work on the directory at this path.
    Run(String),
}

/// Why the command line was refused.
pub enum ArgsError {
    /// No argument was given.
    DirRequired,
    /// An argument starting with `-` other than a leading help flag.
    UnknownOption(String),
    /// The arguments name no directory.
    DirectoryArgumentRequired,
}

/// The spec side of `Command`.
pub enum CommandView {
    Help,
    Run(Seq<char>),
}

/// The spec side of `ArgsError`.
pub enum ArgsErrorView {
    DirRequired,
    UnknownOption(Seq<char>),
    DirectoryArgumentRequired,
}

/// Whether an argument is an option (starts with `-`).
pub open spec fn is_option(arg: Seq<char>) -> bool {
    arg.len() > 0 && arg[0] == '-'
}

/// The first option among `args`, if any.
pub open spec fn first_option(args: Seq<Seq<char>>) -> Option<Seq<char>>
    decreases args.len(),
{
    if args.len() == 0 {
        None
    } else if is_option(args[0]) {
        Some(args[0])
    } else {
        first_option(args.drop_first())
    }
}

/// The last argument that is not an option, or the empty text where there is none.
pub open spec fn last_plain(args: Seq<Seq<char>>) -> Seq<char>
    decreases args.len(),
{
    if args.len() == 0 {
        Seq::empty()
    } else if !is_option(args.last()) {
        args.last()
    } else {
        last_plain(args.drop_last())
    }
}

/// What the command line `args` (the program's name first) gives: with no argument, an error;
/// a first argument `--help` or `-h` asks for help; otherwise the first option is refused, and
/// the directory is the last argument that is not an option, which must not be empty.
pub open spec fn parsed_args(args: Seq<Seq<char>>) -> Result<CommandView, ArgsErrorView> {
    if args.len() < 2 {
        Err(ArgsErrorView::DirRequired)
    } else if args[1] == "--help"@ || args[1] == "-h"@ {
        Ok(CommandView::Help)
    } else {
        let rest = args.drop_first();
        match first_option(rest) {
            Some(o) => Err(ArgsErrorView::UnknownOption(o)),
            None => if last_plain(rest).len() == 0 {
                Err(ArgsErrorView::DirectoryArgumentRequired)
            } else {
                Ok(CommandView::Run(last_plain(rest)))
            },
        }
    }
}

/// The texts of the arguments.
pub open spec fn arg_texts(args: Seq<String>) -> Seq<Seq<char>> {
    args.map_values(|a: String| a@)
}

impl Command {
    /// The command as spec values.
    pub open spec fn view(&self) -> CommandView {
        match self {
            Command::Help => CommandView::Help,
            Command::Run(d) => CommandView::Run(d@),
        }
    }
}

impl ArgsError {
    /// The error as spec values.
    pub open spec fn view(&self) -> ArgsErrorView {
        match self {
            ArgsError::DirRequired => ArgsErrorView::DirRequired,
            ArgsError::UnknownOption(o) => ArgsErrorView::UnknownOption(o@),
            ArgsError::DirectoryArgumentRequired => ArgsErrorView::DirectoryArgumentRequired,
        }
    }

    /// Whether the usage is printed with this error.
    pub fn shows_usage(&self) -> (b: bool)
        ensures
            b == !(self.view() is UnknownOption),
    {
        match self {
            ArgsError::UnknownOption(_) => false,
            _ => true,
        }
    }

    /// The message that explains the error.
    pub fn message(&self) -> (m: String)
        ensures
            m@ == match self.view() {
                ArgsErrorView::DirRequired => "dir required"@,
                ArgsErrorView::UnknownOption(o) => "unknown option: "@ + o,
                ArgsErrorView::DirectoryArgumentRequired => "directory argument required"@,
            },
    {
        match self {
            ArgsError::DirRequired => String::from_str("dir required"),
            ArgsError::UnknownOption(o) => {
                let mut m = String::from_str("unknown option: ");
                m.append(o.as_str());
                m
            },
            ArgsError::DirectoryArgumentRequired => String::from_str("directory argument required"),
        }
    }
}

proof fn lemma_first_option_step(args: Seq<Seq<char>>, i: int)
    requires
        0 <= i < args.len(),
        forall|k: int| 0 <= k < i ==> !is_option(#[trigger] args[k]),
    ensures
        first_option(args) == first_option(args.subrange(i, args.len() as int)),
    decreases i,
{
    if i > 0 {
        assert(args.drop_first().subrange(i - 1, args.len() - 1) =~= args.subrange(i, args.len() as int));
        assert forall|k: int| 0 <= k < i - 1 implies !is_option(#[trigger] args.drop_first()[k]) by {
            assert(args.drop_first()[k] == args[k + 1]);
        }
        lemma_first_option_step(args.drop_first(), i - 1);
    } else {
        assert(args.subrange(0, args.len() as int) =~= args);
    }
}

proof fn lemma_no_option(args: Seq<Seq<char>>)
    requires
        forall|k: int| 0 <= k < args.len() ==> !is_option(#[trigger] args[k]),
    ensures
        first_option(args) is None,
    decreases args.len(),
{
    if args.len() > 0 {
        assert forall|k: int| 0 <= k < args.drop_first().len() implies !is_option(#[trigger] args.drop_first()[k]) by {
            assert(args.drop_first()[k] == args[k + 1]);
        }
        lemma_no_option(args.drop_first());
    }
}

proof fn lemma_last_plain_push(args: Seq<Seq<char>>, a: Seq<char>)
    ensures
        last_plain(args.push(a)) == (if is_option(a) { last_plain(args) } else { a }),
{
    assert(args.push(a).drop_last() =~= args);
}

/// Reads the command line `args`, the program's name first.
pub fn parse_args(args: &Vec<String>) -> (res: Result<Command, ArgsError>)
    ensures
        match res {
            Ok(c) => parsed_args(arg_texts(args@)) == Ok::<CommandView, ArgsErrorView>(c.view()),
            Err(e) => parsed_args(arg_texts(args@)) == Err::<CommandView, ArgsErrorView>(e.view()),
        },
{
    let ghost texts = arg_texts(args@);
    if args.len() < 2 {
        return Err(ArgsError::DirRequired);
    }
    let command = args[1].as_str();
    proof {
        assert(texts[1] == command@);
    }
    if same_text(command, "--help") || same_text(command, "-h") {
        return Ok(Command::Help);
    }
    let ghost rest = texts.drop_first();
    let mut dir_arg: &str = "";
    let mut i: usize = 1;
    proof {
        reveal_strlit("");
        assert(rest.take(0) =~= Seq::<Seq<char>>::empty());
    }
    while i < args.len()
        invariant
            1 <= i <= args@.len(),
            args@.len() >= 2,
            texts == arg_texts(args@),
            texts[1] != "--help"@,
            texts[1] != "-h"@,
            rest == texts.drop_first(),
            forall|k: int| 0 <= k < i - 1 ==> !is_option(#[trigger] rest[k]),
            dir_arg@ == last_plain(rest.take(i - 1)),
        decreases args@.len() - i,
    {
        let arg = args[i].as_str();
        proof {
            assert(rest[i - 1] == arg@);
            assert(rest.take(i as int) =~= rest.take(i - 1).push(arg@));
            lemma_last_plain_push(rest.take(i - 1), arg@);
        }
        if starts_with_char(arg, '-') {
            proof {
                lemma_first_option_step(rest, i - 1);
                assert(rest.subrange(i - 1, rest.len() as int)[0] == arg@);
                assert(first_option(rest) == Some(arg@));
            }
            return Err(ArgsError::UnknownOption(args[i].clone()));
        }
        dir_arg = arg;
        i = i + 1;
    }
    proof {
        lemma_no_option(rest);
        assert(rest.take(rest.len() as int) =~= rest);
    }
    let empty = chars_of(dir_arg).len() == 0;
    if empty {
        return Err(ArgsError::DirectoryArgumentRequired);
    }
    Ok(Command::Run(dir_arg.to_owned()))
}

/// Why a path cannot be worked on.
pub enum DirError {
    /// Nothing exists at the path.
    Missing,
    /// The path names something other than a directory.
    NotADirectory,
}

impl DirError {
    /// The message that explains the error.
    pub fn message(&self) -> (m: &'static str)
        ensures
            m@ == match self {
                DirError::Missing => "path does not exist"@,
                DirError::NotADirectory => "path is not a directory"@,
            },
    {
        match self {
            DirError::Missing => "path does not exist",
            DirError::NotADirectory => "path is not a directory",
        }
    }
}

/// Whether a path that does (or does not) exist and is (or is not) a directory can be worked
/// on: it must exist, and be a directory.
pub fn get_directory(exists: bool, is_dir: bool) -> (res: Result<(), DirError>)
    ensures
        match res {
            Ok(()) => exists && is_dir,
            Err(DirError::Missing) => !exists,
            Err(DirError::NotADirectory) => exists && !is_dir,
        },
{
    if !exists {
        return Err(DirError::Missing);
    }
    if !is_dir {
        return Err(DirError::NotADirectory);
    }
    Ok(())
}

/// The value of a decimal digit character.
pub open spec fn digit_value(c: char) -> nat {
    (c as u32 - '0' as u32) as nat
}

/// Whether every character is a decimal digit.
pub open spec fn all_digits(ds: Seq<char>) -> bool {
    forall|i: int| 0 <= i < ds.len() ==> '0' <= #[trigger] ds[i] <= '9'
}

/// The number that the decimal digits `ds` write.
pub open spec fn digits_value(ds: Seq<char>) -> nat
    decreases ds.len(),
{
    if ds.len() == 0 {
        0
    } else {
        digits_value(ds.drop_last()) * 10 + digit_value(ds.last())
    }
}

/// The digits of a number written with an optional leading `+`.
pub open spec fn unsigned_digits(s: Seq<char>) -> Seq<char> {
    if s.len() > 0 && s[0] == '+' {
        s.drop_first()
    } else {
        s
    }
}

/// The unsigned 64-bit number that `s` writes, as `str::parse` reads it: an optional `+`, then
/// one or more decimal digits and nothing else, with a value that fits.
pub open spec fn parsed_u64(s: Seq<char>) -> Option<nat> {
    let ds = unsigned_digits(s);
    if ds.len() > 0 && all_digits(ds) && digits_value(ds) <= u64::MAX {
        Some(digits_value(ds))
    } else {
        None
    }
}

proof fn lemma_digits_grow(ds: Seq<char>, i: int)
    requires
        0 <= i <= ds.len(),
        all_digits(ds),
    ensures
        digits_value(ds.take(i)) <= digits_value(ds),
    decreases ds.len(),
{
    if i < ds.len() {
        let d = ds.drop_last();
        assert(d.take(i) =~= ds.take(i));
        assert forall|k: int| 0 <= k < d.len() implies '0' <= #[trigger] d[k] <= '9' by {
            assert(d[k] == ds[k]);
        }
        lemma_digits_grow(d, i);
    } else {
        assert(ds.take(i) =~= ds);
    }
}

/// Reads an unsigned 64-bit number as `str::parse` does.
pub fn parse_u64(s: &str) -> (n: Option<u64>)
    ensures
        match n {
            Some(v) => parsed_u64(s@) == Some(v as nat),
            None => parsed_u64(s@) is None,
        },
{
    let cs = chars_of(s);
    let mut start: usize = 0;
    if cs.len() > 0 && char_at(&cs, 0) == '+' {
        start = 1;
    }
    let ghost ds = unsigned_digits(s@);
    proof {
        assert(ds =~= cs@.subrange(start as int, cs@.len() as int));
    }
    if start >= cs.len() {
        return None;
    }
    let mut v: u64 = 0;
    let mut i: usize = start;
    while i < cs.len()
        invariant
            cs@ == s@,
            start <= i <= cs@.len(),
            ds == cs@.subrange(start as int, cs@.len() as int),
            ds == unsigned_digits(s@),
            all_digits(ds.take(i - start)),
            v == digits_value(ds.take(i - start)),
        decreases cs@.len() - i,
    {
        let c = char_at(&cs, i);
        let ghost k = i - start;
        proof {
            assert(ds[k] == c);
            assert(ds.take(k + 1).drop_last() =~= ds.take(k));
            assert(ds.take(k + 1).last() == c);
        }
        if !('0' <= c && c <= '9') {
            proof {
                assert(!all_digits(ds)) by {
                    assert(!('0' <= ds[k] <= '9'));
                }
            }
            return None;
        }
        let d = (c as u32 - '0' as u32) as u64;
        match v.checked_mul(10) {
            Some(t) => match t.checked_add(d) {
                Some(w) => {
                    v = w;
                },
                None => {
                    proof {
                        if all_digits(ds) {
                            lemma_digits_grow(ds, k + 1);
                        }
                    }
                    return None;
                },
            },
            None => {
                proof {
                    if all_digits(ds) {
                        lemma_digits_grow(ds, k + 1);
                    }
                }
                return None;
            },
        }
        proof {
            assert forall|j: int| 0 <= j < k + 1 implies '0' <= #[trigger] ds.take(k + 1)[j] <= '9' by {
                if j < k {
                    assert(ds.take(k + 1)[j] == ds.take(k)[j]);
                }
            }
        }
        i = i + 1;
    }
    proof {
        assert(ds.take(ds.len() as int) =~= ds);
    }
    Some(v)
}

/// The default smallest size the duplicate search looks at, in bytes: 100 KiB.
pub const DEFAULT_MIN_SIZE: u64 = 102400;
/// The largest size the duplicate search looks at, in bytes: 1 GiB.
pub const MAX_SEARCH_SIZE: u64 = 1073741824;

/// The smallest size in bytes that the duplicate search looks at, given what was typed (in
/// kilobytes) or nothing: the default without input, the typed number times 1024 otherwise,
/// and nothing where the input is not a number or the product does not fit.
pub open spec fn min_size_of(input: Option<Seq<char>>) -> Option<nat> {
    match input {
        None => Some(DEFAULT_MIN_SIZE as nat),
        Some(t) => match parsed_u64(t) {
            Some(kb) => if kb * 1024 <= u64::MAX {
                Some(kb * 1024)
            } else {
                None
            },
            None => None,
        },
    }
}

/// The text of an optional string.
pub open spec fn opt_text(input: Option<&str>) -> Option<Seq<char>> {
    match input {
        Some(t) => Some(t@),
        None => None,
    }
}

/// The smallest size in bytes that the duplicate search looks at (see `min_size_of`).
pub fn min_size_bytes(input: Option<&str>) -> (n: Option<u64>)
    ensures
        match n {
            Some(v) => min_size_of(opt_text(input)) == Some(v as nat),
            None => min_size_of(opt_text(input)) is None,
        },
{
    match input {
        None => Some(DEFAULT_MIN_SIZE),
        Some(t) => match parse_u64(t) {
            Some(kb) => kb.checked_mul(1024),
            None => None,
        },
    }
}

/// What the application does for an event.
#[derive(Clone, Copy, PartialEq, Eq, Structural)]
pub enum Action {
    /// Leave the program; later events are not handled.
    Quit,
    /// Plan sorting the directory by type and show the plan.
    SortByType,
    /// Ask for the smallest file size the duplicate search looks at.
    AskMinSize,
    /// Move the files of the plan.
    ConfirmSort,
    /// Forget the plan and show the first page.
    BackToStart,
    /// Close the size dialog without searching.
    CancelInput,
    /// Close the size dialog and search for duplicates with the entered text as the size.
    FindDuplicates,
    /// Nothing.
    Ignore,
}

/// What an event from `source` carrying `payload` leads to.
pub open spec fn action_of(source: Seq<char>, payload: Seq<char>) -> Action {
    if payload == "quit"@ {
        Action::Quit
    } else if source == "main_menu"@ && payload == "sort"@ {
        Action::SortByType
    } else if source == "main_menu"@ && payload == "duplicates_min_size"@ {
        Action::AskMinSize
    } else if source == "confirm_sort_menu"@ && payload == "confirm"@ {
        Action::ConfirmSort
    } else if (source == "confirm_sort_menu"@ && payload == "no"@) || (source == "sort_success_menu"@
        && payload == "back"@) || (source == "duplicates_menu"@ && payload == "back"@) {
        Action::BackToStart
    } else if source == "input_test"@ {
        if payload == "cancel"@ {
            Action::CancelInput
        } else {
            Action::FindDuplicates
        }
    } else {
        Action::Ignore
    }
}

/// What an event leads to.
pub fn route_event(source: &str, payload: &str) -> (a: Action)
    ensures
        a == action_of(source@, payload@),
{
    if same_text(payload, "quit") {
        Action::Quit
    } else if same_text(source, "main_menu") && same_text(payload, "sort") {
        Action::SortByType
    } else if same_text(source, "main_menu") && same_text(payload, "duplicates_min_size") {
        Action::AskMinSize
    } else if same_text(source, "confirm_sort_menu") && same_text(payload, "confirm") {
        Action::ConfirmSort
    } else if (same_text(source, "confirm_sort_menu") && same_text(payload, "no")) || (same_text(
        source,
        "sort_success_menu",
    ) && same_text(payload, "back")) || (same_text(source, "duplicates_menu") && same_text(
        payload,
        "back",
    )) {
        Action::BackToStart
    } else if same_text(source, "input_test") {
        if same_text(payload, "cancel") {
            Action::CancelInput
        } else {
            Action::FindDuplicates
        }
    } else {
        Action::Ignore
    }
}

/// What the events lead to, in order, up to and including the first `Quit`.
pub open spec fn actions_of(events: Seq<Event>) -> Seq<Action>
    decreases events.len(),
{
    if events.len() == 0 {
        Seq::empty()
    } else {
        let prev = actions_of(events.drop_last());
        if prev.len() > 0 && prev.last() == Action::Quit {
            prev
        } else {
            prev.push(action_of(events.last().source@, events.last().payload@))
        }
    }
}

proof fn lemma_actions_len(events: Seq<Event>)
    ensures
        actions_of(events).len() <= events.len(),
        forall|k: int| 0 <= k < actions_of(events).len() - 1 ==> #[trigger] actions_of(events)[k] != Action::Quit,
        actions_of(events).len() < events.len() ==> actions_of(events).len() > 0 && actions_of(events).last() == Action::Quit,
    decreases events.len(),
{
    if events.len() > 0 {
        lemma_actions_len(events.drop_last());
    }
}

/// What the events lead to, in order; the first `Quit` ends the list, since the events after
/// it are not handled. The action at each position is that of the event at the same position.
pub fn route_events(events: &Vec<Event>) -> (actions: Vec<Action>)
    ensures
        actions@ == actions_of(events@),
{
    let mut actions: Vec<Action> = Vec::new();
    let mut i: usize = 0;
    proof {
        assert(events@.take(0) =~= Seq::<Event>::empty());
    }
    while i < events.len()
        invariant
            i <= events@.len(),
            actions@ == actions_of(events@.take(i as int)),
            actions@.len() == i,
            forall|k: int| 0 <= k < actions@.len() ==> #[trigger] actions@[k] != Action::Quit,
        decreases events@.len() - i,
    {
        let e = &events[i];
        let a = route_event(e.source, e.payload.as_str());
        proof {
            assert(events@.take(i + 1).drop_last() =~= events@.take(i as int));
            assert(events@.take(i + 1).last() == events@[i as int]);
        }
        actions.push(a);
        if a == Action::Quit {
            proof {
                lemma_quit_ends(events@, i as int + 1);
            }
            return actions;
        }
        i = i + 1;
    }
    proof {
        assert(events@.take(events@.len() as int) =~= events@);
    }
    actions
}

proof fn lemma_quit_ends(events: Seq<Event>, n: int)
    requires
        0 < n <= events.len(),
        actions_of(events.take(n)).len() > 0,
        actions_of(events.take(n)).last() == Action::Quit,
    ensures
        actions_of(events) == actions_of(events.take(n)),
    decreases events.len() - n,
{
    if n < events.len() {
        assert(events.take(n + 1).drop_last() =~= events.take(n));
        lemma_quit_ends(events, n + 1);
    } else {
        assert(events.take(n) =~= events);
    }
}

/// What a key press does when no dialog holds the focus.
pub enum KeyOutcome {
    /// `q` leaves the program.
    Quit,
    /// The key goes to the widget at this position, which then has the focus.
    Deliver(usize),
}

/// Where the focus goes on a key press, with `count` widgets on the page and the one at
/// `selected` focused: `q` quits; Tab moves the focus to the next widget, from the last back
/// to the first; every key but `q` then goes to the focused widget.
pub fn key_outcome(key: &Key, selected: usize, count: usize) -> (o: KeyOutcome)
    requires
        count >= 1,
        *key == Key::Tab || *key == Key::Char('q') || selected < count,
    ensures
        *key == Key::Char('q') ==> o is Quit,
        *key == Key::Tab ==> o == KeyOutcome::Deliver(if selected < count - 1 { (selected + 1) as usize } else { 0 }),
        *key != Key::Tab && *key != Key::Char('q') ==> o == KeyOutcome::Deliver(selected),
        o matches KeyOutcome::Deliver(s) ==> s < count,
{
    match key {
        Key::Char('q') => KeyOutcome::Quit,
        Key::Tab => {
            if selected < count - 1 {
                KeyOutcome::Deliver(selected + 1)
            } else {
                KeyOutcome::Deliver(0)
            }
        },
        _ => KeyOutcome::Deliver(selected),
    }
}

/// What the application keeps from one event to the next.
pub struct Session {
    /// Whether the program is to stop.
    pub quit: bool,
    /// The size last entered in the dialog, until the search takes it.
    pub latest_input: Option<String>,
    /// Whether the size dialog is open.
    pub dialog_open: bool,
    /// The sorting plan being shown, published as the selection.
    pub sort_selected: Vec<FileTreeItem>,
}

/// The spec side of `Session`.
pub struct SessionView {
    pub quit: bool,
    pub latest_input: Option<Seq<char>>,
    pub dialog_open: bool,
    pub sort_selected: Seq<FileTreeItem>,
}

/// What the application does after an event, beyond the change of its session.
#[derive(Clone, Copy, PartialEq, Eq, Structural)]
pub enum Effect {
    /// Leave the program; later events are not handled.
    Stop,
    /// Plan sorting the directory and show the plan.
    PlanSort,
    /// Show the size dialog.
    ShowSizeDialog,
    /// Move the files of the plan.
    MoveFiles,
    /// Show the first page.
    ShowFirstPage,
    /// Search for duplicates among the files of at least this many bytes.
    SearchDuplicates(u64),
    /// Nothing.
    Nothing,
}

/// The session after an action taken on an event carrying `payload`, and what the application
/// then does:
/// - a quit stops the program;
/// - asking for the size opens the dialog;
/// - going back drops the sorting plan;
/// - cancelling the dialog closes it and forgets the last input;
/// - an entered size closes the dialog and starts the search with that many kilobytes (the
///   search takes the input, so none is left);
/// - the other actions leave the session as it is.
pub open spec fn step(v: SessionView, a: Action, payload: Seq<char>) -> (SessionView, Effect) {
    match a {
        Action::Quit => (SessionView { quit: true, ..v }, Effect::Stop),
        Action::SortByType => (v, Effect::PlanSort),
        Action::AskMinSize => (SessionView { dialog_open: true, ..v }, Effect::ShowSizeDialog),
        Action::ConfirmSort => (v, Effect::MoveFiles),
        Action::BackToStart => (SessionView { sort_selected: Seq::empty(), ..v }, Effect::ShowFirstPage),
        Action::CancelInput => (SessionView { latest_input: None, dialog_open: false, ..v }, Effect::Nothing),
        Action::FindDuplicates => (
            SessionView { latest_input: None, dialog_open: false, ..v },
            Effect::SearchDuplicates(
                match min_size_of(Some(payload)) {
                    Some(n) => n as u64,
                    None => 0,
                },
            ),
        ),
        Action::Ignore => (v, Effect::Nothing),
    }
}

/// The session after handling the events in order, and what the application does for each;
/// the first quit ends the handling, and the events after it are dropped.
pub open spec fn after_events(v: SessionView, events: Seq<Event>) -> (SessionView, Seq<Effect>)
    decreases events.len(),
{
    if events.len() == 0 {
        (v, Seq::empty())
    } else {
        let prev = after_events(v, events.drop_last());
        if prev.1.len() > 0 && prev.1.last() == Effect::Stop {
            prev
        } else {
            let next = step(prev.0, action_of(events.last().source@, events.last().payload@), events.last().payload@);
            (next.0, prev.1.push(next.1))
        }
    }
}

/// Every size entered before the first quit is a number of kilobytes whose byte count fits in
/// 64 bits (on other input the search cannot start).
pub open spec fn sizes_readable(events: Seq<Event>) -> bool {
    forall|k: int|
        0 <= k < events.len() && (forall|m: int| 0 <= m < k ==> action_of(events[m].source@, events[m].payload@) != Action::Quit)
            && action_of(#[trigger] events[k].source@, events[k].payload@) == Action::FindDuplicates
            ==> min_size_of(Some(events[k].payload@)) is Some
}

proof fn lemma_after_events_no_stop(v: SessionView, events: Seq<Event>)
    requires
        forall|m: int| 0 <= m < events.len() ==> action_of(#[trigger] events[m].source@, events[m].payload@) != Action::Quit,
    ensures
        after_events(v, events).1.len() == events.len(),
        forall|m: int| 0 <= m < events.len() ==> #[trigger] after_events(v, events).1[m] != Effect::Stop,
    decreases events.len(),
{
    if events.len() > 0 {
        let d = events.drop_last();
        assert forall|m: int| 0 <= m < d.len() implies action_of(#[trigger] d[m].source@, d[m].payload@) != Action::Quit by {
            assert(d[m] == events[m]);
        }
        lemma_after_events_no_stop(v, d);
        assert(events[events.len() - 1] == events.last());
    }
}

proof fn lemma_after_events_stopped(v: SessionView, events: Seq<Event>, n: int)
    requires
        0 < n <= events.len(),
        after_events(v, events.take(n)).1.len() > 0,
        after_events(v, events.take(n)).1.last() == Effect::Stop,
    ensures
        after_events(v, events) == after_events(v, events.take(n)),
    decreases events.len() - n,
{
    if n < events.len() {
        assert(events.take(n + 1).drop_last() =~= events.take(n));
        lemma_after_events_stopped(v, events, n + 1);
    } else {
        assert(events.take(n) =~= events);
    }
}

impl Session {
    /// The session as spec values.
    pub open spec fn view(&self) -> SessionView {
        SessionView {
            quit: self.quit,
            latest_input: match self.latest_input {
                Some(s) => Some(s@),
                None => None,
            },
            dialog_open: self.dialog_open,
            sort_selected: self.sort_selected@,
        }
    }

    /// The session at the start: running, no input, no dialog, no plan.
    pub fn new() -> (s: Self)
        ensures
            s.view() == (SessionView { quit: false, latest_input: None, dialog_open: false, sort_selected: Seq::empty() }),
    {
        Session { quit: false, latest_input: None, dialog_open: false, sort_selected: Vec::new() }
    }

    /// Takes `action` on an event carrying `payload` (see `step`).
    pub fn apply(&mut self, action: Action, payload: &str) -> (e: Effect)
        requires
            action == Action::FindDuplicates ==> min_size_of(Some(payload@)) is Some,
        ensures
            (final(self).view(), e) == step(old(self).view(), action, payload@),
    {
        match action {
            Action::Quit => {
                self.quit = true;
                Effect::Stop
            },
            Action::SortByType => Effect::PlanSort,
            Action::AskMinSize => {
                self.dialog_open = true;
                Effect::ShowSizeDialog
            },
            Action::ConfirmSort => Effect::MoveFiles,
            Action::BackToStart => {
                self.sort_selected = Vec::new();
                Effect::ShowFirstPage
            },
            Action::CancelInput => {
                self.latest_input = None;
                self.dialog_open = false;
                Effect::Nothing
            },
            Action::FindDuplicates => {
                self.latest_input = Some(String::from_str(payload));
                self.dialog_open = false;
                let entered = self.latest_input.take();
                let min = match &entered {
                    Some(t) => min_size_bytes(Some(t.as_str())),
                    None => None,
                };
                match min {
                    Some(m) => Effect::SearchDuplicates(m),
                    None => Effect::SearchDuplicates(0),
                }
            },
            Action::Ignore => Effect::Nothing,
        }
    }

    /// Handles the events in order (see `after_events`): each leads to an action (see
    /// `route_event`), which changes the session and gives what the application does next; the
    /// first quit ends the handling.
    pub fn handle_events(&mut self, events: &Vec<Event>) -> (effects: Vec<Effect>)
        requires
            sizes_readable(events@),
        ensures
            (final(self).view(), effects@) == after_events(old(self).view(), events@),
    {
        let ghost start = self.view();
        let mut effects: Vec<Effect> = Vec::new();
        let mut i: usize = 0;
        proof {
            assert(events@.take(0) =~= Seq::<Event>::empty());
        }
        while i < events.len()
            invariant
                i <= events@.len(),
                start == old(self).view(),
                sizes_readable(events@),
                forall|m: int| 0 <= m < i ==> action_of(#[trigger] events@[m].source@, events@[m].payload@) != Action::Quit,
                (self.view(), effects@) == after_events(start, events@.take(i as int)),
            decreases events@.len() - i,
        {
            let e = &events[i];
            let a = route_event(e.source, e.payload.as_str());
            proof {
                lemma_after_events_step(start, events@, i as int);
                if a == Action::FindDuplicates {
                    assert(action_of(events@[i as int].source@, events@[i as int].payload@) == Action::FindDuplicates);
                }
            }
            let eff = self.apply(a, e.payload.as_str());
            effects.push(eff);
            if a == Action::Quit {
                proof {
                    lemma_after_events_stopped(start, events@, i + 1);
                }
                return effects;
            }
            i = i + 1;
        }
        proof {
            assert(events@.take(events@.len() as int) =~= events@);
        }
        effects
    }
}

proof fn lemma_after_events_step(v: SessionView, events: Seq<Event>, i: int)
    requires
        0 <= i < events.len(),
        forall|m: int| 0 <= m < i ==> action_of(#[trigger] events[m].source@, events[m].payload@) != Action::Quit,
    ensures
        ({
            let prev = after_events(v, events.take(i));
            let next = step(prev.0, action_of(events[i].source@, events[i].payload@), events[i].payload@);
            after_events(v, events.take(i + 1)) == (next.0, prev.1.push(next.1))
        }),
{
    let t = events.take(i);
    assert forall|m: int| 0 <= m < t.len() implies action_of(#[trigger] t[m].source@, t[m].payload@) != Action::Quit by {
        assert(t[m] == events[m]);
    }
    lemma_after_events_no_stop(v, t);
    assert(events.take(i + 1).drop_last() =~= t);
    assert(events.take(i + 1).last() == events[i]);
}

proof fn lemma_effects_count(v: SessionView, events: Seq<Event>)
    ensures
        after_events(v, events).1.len() <= events.len(),
        !(after_events(v, events).1.len() > 0 && after_events(v, events).1.last() == Effect::Stop)
            ==> after_events(v, events).1.len() == events.len(),
    decreases events.len(),
{
    if events.len() > 0 {
        lemma_effects_count(v, events.drop_last());
    }
}

/// What each handled event leads to, told from the event itself: an event saying `quit`, from
/// any widget, stops the program; `sort` from the main menu plans the sorting; asking for the
/// size from the main menu shows the size dialog; `confirm` from the plan's menu moves the
/// files; `no` from the plan's menu and `back` from the menus after sorting and after the
/// search show the first page; `cancel` from the size dialog does nothing more; any other
/// answer from the size dialog starts the search with that many kilobytes, counted in bytes;
/// anything else does nothing. The effect at each position is that of the event at the same
/// position.
pub proof fn lemma_events_lead_to_effects(v: SessionView, events: Seq<Event>, k: int)
    requires
        0 <= k < after_events(v, events).1.len(),
    ensures
        ({
            let s = events[k].source@;
            let p = events[k].payload@;
            let eff = after_events(v, events).1[k];
            &&& p == "quit"@ ==> eff == Effect::Stop
            &&& p != "quit"@ && s == "main_menu"@ && p == "sort"@ ==> eff == Effect::PlanSort
            &&& p != "quit"@ && s == "main_menu"@ && p == "duplicates_min_size"@ ==> eff == Effect::ShowSizeDialog
            &&& p != "quit"@ && s == "confirm_sort_menu"@ && p == "confirm"@ ==> eff == Effect::MoveFiles
            &&& p != "quit"@ && ((s == "confirm_sort_menu"@ && p == "no"@) || (s == "sort_success_menu"@
                && p == "back"@) || (s == "duplicates_menu"@ && p == "back"@)) ==> eff == Effect::ShowFirstPage
            &&& p != "quit"@ && s == "input_test"@ && p == "cancel"@ ==> eff == Effect::Nothing
            &&& p != "quit"@ && s == "input_test"@ && p != "cancel"@ ==> (min_size_of(Some(p)) matches Some(n)
                ==> eff == Effect::SearchDuplicates(n as u64))
            &&& s != "main_menu"@ && s != "confirm_sort_menu"@ && s != "sort_success_menu"@ && s
                != "duplicates_menu"@ && s != "input_test"@ && p != "quit"@ ==> eff == Effect::Nothing
        }),
    decreases events.len(),
{
    reveal_strlit("quit");
    reveal_strlit("main_menu");
    reveal_strlit("sort");
    reveal_strlit("duplicates_min_size");
    reveal_strlit("confirm_sort_menu");
    reveal_strlit("confirm");
    reveal_strlit("no");
    reveal_strlit("sort_success_menu");
    reveal_strlit("back");
    reveal_strlit("duplicates_menu");
    reveal_strlit("input_test");
    reveal_strlit("cancel");
    let d = events.drop_last();
    let prev = after_events(v, d);
    lemma_effects_count(v, d);
    if k < prev.1.len() {
        lemma_events_lead_to_effects(v, d, k);
        assert(events[k] == d[k]);
        assert(after_events(v, events).1[k] == prev.1[k]);
    } else {
        assert(k == events.len() - 1);
        assert(events[k] == events.last());
    }
}

} // verus!
