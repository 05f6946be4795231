//! The pages of the application: which widgets each shows, with which titles and entries.
use vstd::prelude::*;
use crate::duplicates::{FileInfo, HashGroup, hash_entries};
use crate::event_bus::{Event, EventBus};
use crate::layout::Layout;
use crate::ui::empty_rect;
use crate::sorting::{
    file_count, files_to_move, split_supported_unsupported, supported_items, unsupported_items,
};
use crate::text::{decimal, push_decimal, starts_with_char};
use crate::widgets::ui_filelist::{
    FileTreeItem, UIFileList, copy_forest, flat_lines, group_offset, group_view, plan_view, same_forest,
    two_level_size_ok, two_levels, valid_coords,
};
use crate::widgets::ui_input_dialog::UIInputDialog;
use crate::widgets::ui_menu::{MenuItem, UIMenu};
use crate::widgets::ui_status_bar::UIStatusBar;

verus! {

/// A menu's entries as pairs of a label and the event it raises.
pub open spec fn menu_view(items: Seq<MenuItem>) -> Seq<(Seq<char>, Seq<char>)> {
    items.map_values(|m: MenuItem| (m.label@, m.event@))
}

/// The text of the status bar.
pub open spec fn status_text() -> Seq<char> {
    " Tab:switch focus | j/k:navigate | Space:toggle selection | q:quit"@
}

/// The status bar at the bottom of every page.
pub fn status_bar() -> (bar: UIStatusBar)
    ensures
        bar.text() == status_text(),
        bar.area() == empty_rect(),
        bar.layout() == Layout::StatusBar,
{
    UIStatusBar::new(
        String::from_str(" Tab:switch focus | j/k:navigate | Space:toggle selection | q:quit"),
        Layout::StatusBar,
    )
}

/// The names of a directory's entries that are shown: all but the hidden ones (starting with
/// a dot), in order.
pub open spec fn visible_names(names: Seq<Seq<char>>) -> Seq<Seq<char>>
    decreases names.len(),
{
    if names.len() == 0 {
        names
    } else if names.last().len() > 0 && names.last()[0] == '.' {
        visible_names(names.drop_last())
    } else {
        visible_names(names.drop_last()).push(names.last())
    }
}

/// The names of the strings.
pub open spec fn name_texts(names: Seq<String>) -> Seq<Seq<char>> {
    names.map_values(|n: String| n@)
}

/// The entries of a directory that the first page lists, one per name that is not hidden, with
/// nothing below them.
pub fn visible_entries(names: Vec<String>) -> (items: Vec<FileTreeItem>)
    ensures
        plan_view(items@) == visible_names(name_texts(names@)).map_values(
            |n: Seq<char>| (n, Seq::<Seq<char>>::empty()),
        ),
        forall|i: int| 0 <= i < items@.len() ==> (#[trigger] items@[i]).children@.len() == 0,
{
    let ghost all = names@;
    let mut items: Vec<FileTreeItem> = Vec::new();
    proof {
        assert(name_texts(all.take(0)) =~= Seq::<Seq<char>>::empty());
        assert(plan_view(items@) =~= visible_names(name_texts(all.take(0))).map_values(
            |n: Seq<char>| (n, Seq::<Seq<char>>::empty()),
        ));
    }
    for name in it: names.into_iter()
        invariant
            it.seq() == all,
            plan_view(items@) == visible_names(name_texts(all.take(it.index() as int))).map_values(
                |n: Seq<char>| (n, Seq::<Seq<char>>::empty()),
            ),
            forall|i: int| 0 <= i < items@.len() ==> (#[trigger] items@[i]).children@.len() == 0,
    {
        let ghost i = it.index() as int;
        let ghost before = items@;
        proof {
            assert(name_texts(all.take(i + 1)) =~= name_texts(all.take(i)).push(name@));
            assert(name_texts(all.take(i + 1)).drop_last() =~= name_texts(all.take(i)));
        }
        if !starts_with_char(name.as_str(), '.') {
            let item = FileTreeItem { path: name, children: Vec::new() };
            items.push(item);
            proof {
                assert(group_view(item) =~= (item.path@, Seq::<Seq<char>>::empty()));
                assert(plan_view(items@) =~= plan_view(before).push(group_view(item)));
            }
        }
    }
    proof {
        assert(all.take(all.len() as int) =~= all);
    }
    items
}

/// The entries of the main menu.
pub open spec fn main_menu_entries() -> Seq<(Seq<char>, Seq<char>)> {
    seq![
        ("Sort by type"@, "sort"@),
        ("Find duplicates"@, "duplicates_min_size"@),
        ("Quit"@, "quit"@),
    ]
}

/// The first page: the main menu, and the directory's entries under the directory's name.
pub fn first_page(dir: String, entries: Vec<FileTreeItem>) -> (page: (UIMenu, UIFileList))
    requires
        two_level_size_ok(entries@),
    ensures
        page.0.id()@ == "main_menu"@,
        page.0.title() == "crabsort"@,
        menu_view(page.0.entries()) == main_menu_entries(),
        page.0.selected() == 0,
        page.0.pending() == Seq::<Event>::empty(),
        page.0.layout() == Layout::MainMenu,
        page.0.area() == empty_rect(),
        page.1.title() == dir@,
        page.1.entries() == entries@,
        page.1.shown_lines() == flat_lines(entries@, 2, 0),
        page.1.highlighted() == 0,
        page.1.scroll() == 0,
        page.1.area() == empty_rect(),
        page.1.published() is None,
        page.1.chosen().len() == 0,
        page.1.layout() == Layout::DirList,
{
    let ghost items = entries@;
    let list = UIFileList::new(dir, entries, 2, None, false, Layout::DirList);
    let mut menu = UIMenu::new("main_menu", String::from_str("crabsort"), Vec::new(), EventBus::new(), Layout::MainMenu);
    menu.add_item(String::from_str("Sort by type"), String::from_str("sort"));
    menu.add_item(String::from_str("Find duplicates"), String::from_str("duplicates_min_size"));
    menu.add_item(String::from_str("Quit"), String::from_str("quit"));
    proof {
        assert(menu_view(menu.entries()) =~= main_menu_entries());
        lemma_none_chosen(list.chosen());
    }
    (menu, list)
}

proof fn lemma_none_chosen(sel: Seq<(usize, usize)>)
    requires
        forall|i: usize, j: usize| !(#[trigger] sel.contains((i, j))),
    ensures
        sel.len() == 0,
{
    if sel.len() > 0 {
        assert(sel.contains((sel[0].0, sel[0].1)));
    }
}

/// The entries of the menu under a sorting plan.
pub open spec fn confirm_sort_entries() -> Seq<(Seq<char>, Seq<char>)> {
    seq![("Confirm"@, "confirm"@), ("Cancel"@, "no"@)]
}

/// The page that shows a sorting plan: the menu to confirm or cancel it, the groups that are
/// moved (all their files selected, the whole plan published as the selection until the first
/// change), and the unsupported files, which stay.
pub fn sort_page(dir: &str, plan: Vec<FileTreeItem>) -> (page: (UIMenu, UIFileList, UIFileList))
    requires
        two_level_size_ok(supported_items(plan@)),
        two_level_size_ok(unsupported_items(plan@)),
    ensures
        page.0.id()@ == "confirm_sort_menu"@,
        page.0.title() == "Confirm action"@,
        menu_view(page.0.entries()) == confirm_sort_entries(),
        page.0.selected() == 0,
        page.0.pending() == Seq::<Event>::empty(),
        page.0.layout() == Layout::MainMenu,
        page.0.area() == empty_rect(),
        page.1.title() == dir@ + " | Files to move"@,
        page.1.entries() == supported_items(plan@),
        page.1.shown_lines() == flat_lines(supported_items(plan@), 2, 0),
        page.1.highlighted() == 0,
        page.1.scroll() == 0,
        page.1.area() == empty_rect(),
        forall|i: usize, j: usize| #[trigger] page.1.chosen().contains((i, j))
            <==> valid_coords(supported_items(plan@), i as int, j as int),
        page.1.published() matches Some(out) && forall|d: nat| #[trigger] same_forest(out@, plan@, d),
        page.1.layout() == Layout::SortSupported,
        page.2.title() == "Unsupported (not moved)"@,
        page.2.entries() == unsupported_items(plan@),
        page.2.shown_lines() == flat_lines(unsupported_items(plan@), 2, 0),
        page.2.highlighted() == 0,
        page.2.scroll() == 0,
        page.2.area() == empty_rect(),
        page.2.chosen().len() == 0,
        page.2.published() is None,
        page.2.layout() == Layout::SortUnsupported,
{
    let whole = copy_forest(&plan);
    let (supported, unsupported) = split_supported_unsupported(plan);
    let mut title = String::new();
    title.append(dir);
    title.append(" | Files to move");
    proof {
        reveal_strlit(" | Files to move");
    }
    let moved = UIFileList::new(title, supported, 2, Some(whole), true, Layout::SortSupported);
    let kept = UIFileList::new(
        String::from_str("Unsupported (not moved)"),
        unsupported,
        2,
        None,
        false,
        Layout::SortUnsupported,
    );
    let mut menu = UIMenu::new(
        "confirm_sort_menu",
        String::from_str("Confirm action"),
        Vec::new(),
        EventBus::new(),
        Layout::MainMenu,
    );
    menu.add_item(String::from_str("Confirm"), String::from_str("confirm"));
    menu.add_item(String::from_str("Cancel"), String::from_str("no"));
    proof {
        assert(menu_view(menu.entries()) =~= confirm_sort_entries());
        lemma_none_chosen(kept.chosen());
        assert(title@ =~= dir@ + " | Files to move"@);
    }
    (menu, moved, kept)
}

proof fn lemma_file_count_bound(items: Seq<FileTreeItem>)
    ensures
        file_count(items) + items.len() == group_offset(items, items.len() as int),
    decreases items.len(),
{
    if items.len() > 0 {
        let d = items.drop_last();
        lemma_file_count_bound(d);
        lemma_offset_of_prefix(items, items.len() - 1);
        assert(items[items.len() - 1] == items.last());
    }
}

proof fn lemma_offset_of_prefix(items: Seq<FileTreeItem>, k: int)
    requires
        0 <= k < items.len(),
    ensures
        group_offset(items, k) == group_offset(items.drop_last(), k),
    decreases k,
{
    if k > 0 {
        lemma_offset_of_prefix(items, k - 1);
    }
}

/// The menu title after moving `n` files.
pub open spec fn done_title(n: nat) -> Seq<char> {
    "Done! Moved "@ + decimal(n) + " files."@
}

/// The list title after moving `n` files.
pub open spec fn moved_title(n: nat) -> Seq<char> {
    "Moved "@ + decimal(n) + " files"@
}

/// The page shown once a plan has been carried out: a menu to go back, whose title counts the
/// moved files, the groups that were moved, and the unsupported files.
pub fn sort_success_page(plan: Vec<FileTreeItem>) -> (page: (UIMenu, UIFileList, UIFileList))
    requires
        two_level_size_ok(supported_items(plan@)),
        two_level_size_ok(unsupported_items(plan@)),
    ensures
        page.0.id()@ == "sort_success_menu"@,
        page.0.title() == done_title(file_count(supported_items(plan@))),
        menu_view(page.0.entries()) == seq![("Back"@, "back"@)],
        page.0.selected() == 0,
        page.0.pending() == Seq::<Event>::empty(),
        page.0.layout() == Layout::MainMenu,
        page.0.area() == empty_rect(),
        page.1.title() == moved_title(file_count(supported_items(plan@))),
        page.1.entries() == supported_items(plan@),
        page.1.shown_lines() == flat_lines(supported_items(plan@), 2, 0),
        page.1.highlighted() == 0,
        page.1.scroll() == 0,
        page.1.area() == empty_rect(),
        page.1.chosen().len() == 0,
        page.1.published() is None,
        page.1.layout() == Layout::SortSupported,
        page.2.title() == "Unsupported (not moved)"@,
        page.2.entries() == unsupported_items(plan@),
        page.2.shown_lines() == flat_lines(unsupported_items(plan@), 2, 0),
        page.2.highlighted() == 0,
        page.2.scroll() == 0,
        page.2.area() == empty_rect(),
        page.2.chosen().len() == 0,
        page.2.published() is None,
        page.2.layout() == Layout::SortUnsupported,
{
    proof {
        lemma_file_count_bound(supported_items(plan@));
    }
    let n = files_to_move(&plan);
    let (supported, unsupported) = split_supported_unsupported(plan);
    let mut title = String::from_str("Moved ");
    push_decimal(&mut title, n);
    title.append(" files");
    let mut done = String::from_str("Done! Moved ");
    push_decimal(&mut done, n);
    done.append(" files.");
    proof {
        reveal_strlit(" files");
        reveal_strlit(" files.");
        reveal_strlit("Moved ");
        reveal_strlit("Done! Moved ");
        assert(title@ =~= moved_title(n as nat));
        assert(done@ =~= done_title(n as nat));
    }
    let moved = UIFileList::new(title, supported, 2, None, false, Layout::SortSupported);
    let kept = UIFileList::new(
        String::from_str("Unsupported (not moved)"),
        unsupported,
        2,
        None,
        false,
        Layout::SortUnsupported,
    );
    let mut menu = UIMenu::new("sort_success_menu", done, Vec::new(), EventBus::new(), Layout::MainMenu);
    menu.add_item(String::from_str("Back"), String::from_str("back"));
    proof {
        assert(menu_view(menu.entries()) =~= seq![("Back"@, "back"@)]);
        lemma_none_chosen(moved.chosen());
        lemma_none_chosen(kept.chosen());
    }
    (menu, moved, kept)
}

/// The bytes that the files take together.
pub open spec fn bytes_of(files: Seq<FileInfo>) -> nat
    decreases files.len(),
{
    if files.len() == 0 {
        0
    } else {
        bytes_of(files.drop_last()) + files.last().size as nat
    }
}

/// The bytes that the files of all groups take together.
pub open spec fn total_bytes(groups: Seq<(Seq<char>, Seq<FileInfo>)>) -> nat
    decreases groups.len(),
{
    if groups.len() == 0 {
        0
    } else {
        total_bytes(groups.drop_last()) + bytes_of(groups.last().1)
    }
}

/// The bytes that deleting all but one file of each group frees, taking the size of each
/// group's first file for all of its files.
pub open spec fn saved_bytes(groups: Seq<(Seq<char>, Seq<FileInfo>)>) -> nat
    decreases groups.len(),
{
    if groups.len() == 0 {
        0
    } else {
        saved_bytes(groups.drop_last()) + (groups.last().1[0].size as nat) * ((groups.last().1.len() - 1) as nat)
    }
}

/// Whole mebibytes in `n` bytes.
pub open spec fn mib(n: nat) -> nat {
    n / 1024 / 1024
}

/// The line of duplicate group number `i` (counted from 1) whose first file has `size` bytes.
pub open spec fn group_title(i: nat, size: nat) -> Seq<char> {
    "Group "@ + decimal(i) + " | "@ + decimal(mib(size)) + " MB"@
}

/// The groups of the duplicates page: one line per group, its files' paths below it.
pub open spec fn duplicate_lines(groups: Seq<(Seq<char>, Seq<FileInfo>)>) -> Seq<(Seq<char>, Seq<Seq<char>>)> {
    Seq::new(
        groups.len(),
        |i: int| (group_title((i + 1) as nat, groups[i].1[0].size as nat), groups[i].1.map_values(|f: FileInfo| f.path@)),
    )
}

/// The title of the duplicates page.
pub open spec fn duplicates_title(dir: Seq<char>, groups: Seq<(Seq<char>, Seq<FileInfo>)>) -> Seq<char> {
    dir + " | "@ + decimal(groups.len()) + " groups | "@ + decimal(mib(saved_bytes(groups))) + "/"@
        + decimal(mib(total_bytes(groups))) + " MB"@
}

proof fn lemma_sums_grow(groups: Seq<(Seq<char>, Seq<FileInfo>)>, i: int)
    requires
        0 <= i <= groups.len(),
    ensures
        total_bytes(groups.take(i)) <= total_bytes(groups),
        saved_bytes(groups.take(i)) <= saved_bytes(groups),
    decreases groups.len(),
{
    if i < groups.len() {
        lemma_sums_grow(groups.drop_last(), i);
        assert(groups.drop_last().take(i) =~= groups.take(i));
    } else {
        assert(groups.take(i) =~= groups);
    }
}

proof fn lemma_bytes_grow(files: Seq<FileInfo>, i: int)
    requires
        0 <= i <= files.len(),
    ensures
        bytes_of(files.take(i)) <= bytes_of(files),
    decreases files.len(),
{
    if i < files.len() {
        lemma_bytes_grow(files.drop_last(), i);
        assert(files.drop_last().take(i) =~= files.take(i));
    } else {
        assert(files.take(i) =~= files);
    }
}

/// The title and the groups of the duplicates page, or nothing where the byte counts do not
/// fit in 64 bits.
pub fn duplicates_view(dir: &str, groups: &Vec<HashGroup>) -> (res: Option<(String, Vec<FileTreeItem>)>)
    requires
        forall|g: int| 0 <= g < groups@.len() ==> (#[trigger] groups@[g]).files@.len() >= 1,
    ensures
        match res {
            Some((title, items)) => {
                &&& title@ == duplicates_title(dir@, hash_entries(groups@))
                &&& plan_view(items@) == duplicate_lines(hash_entries(groups@))
                &&& two_levels(items@)
            },
            None => total_bytes(hash_entries(groups@)) > u64::MAX || saved_bytes(hash_entries(groups@))
                > u64::MAX,
        },
{
    let ghost gs = hash_entries(groups@);
    let mut total: u64 = 0;
    let mut saved: u64 = 0;
    let mut items: Vec<FileTreeItem> = Vec::new();
    let mut i: usize = 0;
    proof {
        assert(gs.take(0) =~= Seq::<(Seq<char>, Seq<FileInfo>)>::empty());
        assert(plan_view(items@) =~= duplicate_lines(gs).take(0));
    }
    while i < groups.len()
        invariant
            gs == hash_entries(groups@),
            i <= groups@.len(),
            forall|g: int| 0 <= g < groups@.len() ==> (#[trigger] groups@[g]).files@.len() >= 1,
            total == total_bytes(gs.take(i as int)),
            saved == saved_bytes(gs.take(i as int)),
            plan_view(items@) == duplicate_lines(gs).take(i as int),
            two_levels(items@),
        decreases groups@.len() - i,
    {
        let files = &groups[i].files;
        let ghost fs = files@;
        proof {
            assert(gs[i as int].1 == fs);
            assert(gs.take(i + 1).drop_last() =~= gs.take(i as int));
            assert(gs.take(i + 1).last() == gs[i as int]);
            lemma_sums_grow(gs, i + 1);
        }
        let mut group_bytes: u64 = 0;
        let mut children: Vec<FileTreeItem> = Vec::new();
        let mut j: usize = 0;
        proof {
            assert(fs.take(0) =~= Seq::<FileInfo>::empty());
            assert(total_bytes(gs.take(i + 1)) == total_bytes(gs.take(i as int)) + bytes_of(fs));
        }
        while j < files.len()
            invariant
                fs == files@,
                gs == hash_entries(groups@),
                bytes_of(fs) <= total_bytes(gs),
                j <= fs.len(),
                group_bytes == bytes_of(fs.take(j as int)),
                children@.len() == j,
                forall|k: int| 0 <= k < j ==> (#[trigger] children@[k]).path@ == fs[k].path@
                    && children@[k].children@.len() == 0,
            decreases fs.len() - j,
        {
            proof {
                assert(fs.take(j + 1).drop_last() =~= fs.take(j as int));
                assert(fs.take(j + 1).last() == fs[j as int]);
            }
            match group_bytes.checked_add(files[j].size) {
                Some(b) => {
                    group_bytes = b;
                },
                None => {
                    proof {
                        lemma_bytes_grow(fs, j + 1);
                    }
                    return None;
                },
            }
            children.push(FileTreeItem { path: files[j].path.clone(), children: Vec::new() });
            j = j + 1;
        }
        proof {
            assert(fs.take(j as int) =~= fs);
        }
        let size = files[0].size;
        let others = (files.len() - 1) as u64;
        match total.checked_add(group_bytes) {
            Some(t) => {
                total = t;
            },
            None => {
                return None;
            },
        }
        let part = match size.checked_mul(others) {
            Some(p) => p,
            None => {
                return None;
            },
        };
        match saved.checked_add(part) {
            Some(s) => {
                saved = s;
            },
            None => {
                return None;
            },
        }
        let mut line = String::from_str("Group ");
        push_decimal(&mut line, (i + 1) as u64);
        line.append(" | ");
        push_decimal(&mut line, size / 1024 / 1024);
        line.append(" MB");
        let ghost before = items@;
        let item = FileTreeItem { path: line, children };
        items.push(item);
        proof {
            reveal_strlit("Group ");
            reveal_strlit(" | ");
            reveal_strlit(" MB");
            assert(line@ =~= group_title((i + 1) as nat, size as nat));
            assert(item.children@.map_values(|c: FileTreeItem| c.path@) =~= fs.map_values(|f: FileInfo| f.path@));
            assert(fs[0] == files@[0]);
            assert(group_view(item) == duplicate_lines(gs)[i as int]);
            assert(plan_view(items@) =~= plan_view(before).push(group_view(item)));
            assert(plan_view(items@) =~= duplicate_lines(gs).take(i + 1));
            assert forall|a: int, b: int| 0 <= a < items@.len() && 0 <= b < items@[a].children@.len()
                implies #[trigger] items@[a].children@[b].children@.len() == 0 by {
                if a < before.len() {
                    assert(items@[a] == before[a]);
                }
            }
        }
        i = i + 1;
    }
    proof {
        assert(gs.take(gs.len() as int) =~= gs);
    }
    let mut title = String::new();
    title.append(dir);
    title.append(" | ");
    push_decimal(&mut title, groups.len() as u64);
    title.append(" groups | ");
    push_decimal(&mut title, saved / 1024 / 1024);
    title.append("/");
    push_decimal(&mut title, total / 1024 / 1024);
    title.append(" MB");
    proof {
        reveal_strlit(" | ");
        reveal_strlit(" groups | ");
        reveal_strlit("/");
        reveal_strlit(" MB");
        assert(title@ =~= duplicates_title(dir@, gs));
    }
    Some((title, items))
}

/// The entries of the menu of the duplicates page.
pub open spec fn duplicates_menu_entries() -> Seq<(Seq<char>, Seq<char>)> {
    seq![("Confirm"@, "confirm"@), ("Back"@, "back"@), ("Quit"@, "quit"@)]
}

/// The duplicates page: the groups found under the given title, and a menu.
pub fn duplicates_page(title: String, items: Vec<FileTreeItem>) -> (page: (UIMenu, UIFileList))
    requires
        two_level_size_ok(items@),
    ensures
        page.0.id()@ == "duplicates_menu"@,
        page.0.title() == "Duplicates deletion"@,
        menu_view(page.0.entries()) == duplicates_menu_entries(),
        page.0.selected() == 0,
        page.0.pending() == Seq::<Event>::empty(),
        page.0.layout() == Layout::MainMenu,
        page.0.area() == empty_rect(),
        page.1.title() == title@,
        page.1.entries() == items@,
        page.1.shown_lines() == flat_lines(items@, 2, 0),
        page.1.highlighted() == 0,
        page.1.scroll() == 0,
        page.1.area() == empty_rect(),
        page.1.chosen().len() == 0,
        page.1.published() is None,
        page.1.layout() == Layout::DirList,
{
    let list = UIFileList::new(title, items, 2, None, false, Layout::DirList);
    let mut menu = UIMenu::new(
        "duplicates_menu",
        String::from_str("Duplicates deletion"),
        Vec::new(),
        EventBus::new(),
        Layout::MainMenu,
    );
    menu.add_item(String::from_str("Confirm"), String::from_str("confirm"));
    menu.add_item(String::from_str("Back"), String::from_str("back"));
    menu.add_item(String::from_str("Quit"), String::from_str("quit"));
    proof {
        assert(menu_view(menu.entries()) =~= duplicates_menu_entries());
        lemma_none_chosen(list.chosen());
    }
    (menu, list)
}

/// The dialog that asks for the smallest file size of the duplicate search, in kilobytes,
/// holding 1024 to begin with.
pub fn min_size_dialog() -> (d: UIInputDialog)
    ensures
        d.id()@ == "input_test"@,
        d.title() == "Input min size (in kilobytes)"@,
        d.input() == "1024"@,
        d.pending() == Seq::<Event>::empty(),
        d.area() == empty_rect(),
        d.layout() == Layout::InputDialog,
{
    UIInputDialog::new(
        "input_test",
        String::from_str("Input min size (in kilobytes)"),
        Some(String::from_str("1024")),
        EventBus::new(),
        Layout::InputDialog,
    )
}

} // verus!
