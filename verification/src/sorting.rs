//! Sorting a directory by file type: which file goes to which folder, and how many move.
use vstd::prelude::*;
use crate::file_types::{FileType, folder_of, type_dir};
use crate::grouping::{
    first_keys, grouping, key_index, keys_of, lemma_first_keys_distinct, lemma_grouping_distinct,
    lemma_first_keys_contains, lemma_grouping_members_distinct, lemma_grouping_origin,
    lemma_grouping_push, lemma_key_index, lemma_select_member, select,
};
use crate::text::{same_text, starts_with_char};
use crate::widgets::ui_filelist::{FileTreeItem, group_view, plan_view, two_levels};

verus! {

/// The name of the group of files whose type could not be told; they are not moved.
pub open spec fn unsupported_key() -> Seq<char> {
    "unsupported"@
}

/// `base` joined with the relative path `rel` as `Path::join` does on Unix: a `/` goes between
/// them unless `base` is empty or already ends with one.
pub open spec fn join_text(base: Seq<char>, rel: Seq<char>) -> Seq<char> {
    if base.len() == 0 {
        rel
    } else if base.last() == '/' {
        base + rel
    } else {
        base + seq!['/'] + rel
    }
}

/// `base` joined with the relative path `rel`.
pub fn join_path(base: &str, rel: &str) -> (s: String)
    ensures
        s@ == join_text(base@, rel@),
{
    let mut s = String::new();
    let mut ends_with_slash = false;
    let mut empty = true;
    for c in it: base.chars()
        invariant
            s@ == it.seq().take(it.index() as int),
            it.seq() == base@,
            empty == (s@.len() == 0),
            ends_with_slash == (s@.len() > 0 && s@.last() == '/'),
    {
        s.push(c);
        ends_with_slash = c == '/';
        empty = false;
    }
    proof {
        assert(base@.take(base@.len() as int) =~= base@);
    }
    if !empty && !ends_with_slash {
        s.push('/');
    }
    let ghost mid = s@;
    for c in it: rel.chars()
        invariant
            s@ == mid + it.seq().take(it.index() as int),
            it.seq() == rel@,
    {
        s.push(c);
        proof {
            assert(mid + it.seq().take(it.index() + 1) =~= (mid + it.seq().take(it.index() as int)).push(c));
        }
    }
    proof {
        assert(rel@.take(rel@.len() as int) =~= rel@);
        if base@.len() > 0 && base@.last() != '/' {
            assert(mid =~= base@ + seq!['/']);
        }
        assert(s@ =~= join_text(base@, rel@));
    }
    s
}

/// What a look at one entry of the directory found.
pub struct DirEntryInfo {
    /// The entry's path, as shown.
    pub path: String,
    /// The entry's file name, where it is valid text.
    pub name: Option<String>,
    /// Whether the entry is a directory.
    pub is_dir: bool,
    /// The kind of file, where it could be told from its content.
    pub kind: Option<FileType>,
}

/// The group an entry of the directory `dir` goes to when sorting, if any: directories and
/// hidden files stay out; a file whose kind could not be told goes to the unsupported group;
/// a file of a kind without a folder (archives), or without a valid name, stays out; every
/// other file goes to the folder of its kind inside `dir`.
pub open spec fn sort_key(dir: Seq<char>, e: DirEntryInfo) -> Option<Seq<char>> {
    if e.is_dir {
        None
    } else if (e.name matches Some(n) && n@.len() > 0 && n@[0] == '.') {
        None
    } else {
        match e.kind {
            None => Some(unsupported_key()),
            Some(k) => match folder_of(k) {
                None => None,
                Some(f) => if e.name is Some {
                    Some(join_text(dir, f))
                } else {
                    None
                },
            },
        }
    }
}

/// The groups of the entries that are sorted, in order.
pub open spec fn sort_keys(dir: Seq<char>, entries: Seq<DirEntryInfo>) -> Seq<Seq<char>>
    decreases entries.len(),
{
    if entries.len() == 0 {
        Seq::empty()
    } else {
        let rest = sort_keys(dir, entries.drop_last());
        match sort_key(dir, entries.last()) {
            Some(k) => rest.push(k),
            None => rest,
        }
    }
}

/// The paths of the entries that are sorted, in order.
pub open spec fn sorted_paths(dir: Seq<char>, entries: Seq<DirEntryInfo>) -> Seq<Seq<char>>
    decreases entries.len(),
{
    if entries.len() == 0 {
        Seq::empty()
    } else {
        let rest = sorted_paths(dir, entries.drop_last());
        match sort_key(dir, entries.last()) {
            Some(_) => rest.push(entries.last().path@),
            None => rest,
        }
    }
}

proof fn lemma_sorted_push(dir: Seq<char>, entries: Seq<DirEntryInfo>, e: DirEntryInfo)
    ensures
        sort_keys(dir, entries.push(e)) == (match sort_key(dir, e) {
            Some(k) => sort_keys(dir, entries).push(k),
            None => sort_keys(dir, entries),
        }),
        sorted_paths(dir, entries.push(e)) == (match sort_key(dir, e) {
            Some(_) => sorted_paths(dir, entries).push(e.path@),
            None => sorted_paths(dir, entries),
        }),
{
    assert(entries.push(e).drop_last() =~= entries);
}

proof fn lemma_sorted_len(dir: Seq<char>, entries: Seq<DirEntryInfo>)
    ensures
        sort_keys(dir, entries).len() == sorted_paths(dir, entries).len(),
    decreases entries.len(),
{
    if entries.len() > 0 {
        lemma_sorted_len(dir, entries.drop_last());
    }
}

proof fn lemma_sorted_origin(dir: Seq<char>, entries: Seq<DirEntryInfo>, q: int)
    requires
        0 <= q < sorted_paths(dir, entries).len(),
    ensures
        exists|p: int| 0 <= p < entries.len() && entries[p].path@ == sorted_paths(dir, entries)[q]
            && sort_key(dir, entries[p]) == Some(sort_keys(dir, entries)[q]),
    decreases entries.len(),
{
    let d = entries.drop_last();
    lemma_sorted_len(dir, d);
    lemma_sorted_len(dir, entries);
    if q < sorted_paths(dir, d).len() {
        lemma_sorted_origin(dir, d, q);
        let p = choose|p: int| 0 <= p < d.len() && d[p].path@ == sorted_paths(dir, d)[q]
            && sort_key(dir, d[p]) == Some(sort_keys(dir, d)[q]);
        assert(entries[p] == d[p]);
        assert(sorted_paths(dir, entries)[q] == sorted_paths(dir, d)[q]);
        assert(sort_keys(dir, entries)[q] == sort_keys(dir, d)[q]);
    } else {
        let p = entries.len() - 1;
        assert(entries[p] == entries.last());
    }
}

/// What sorting promises of each planned file: it is an entry of the directory, and the group
/// it is planned in is the one `sort_key` gives that entry (the folder of its kind, or the
/// unsupported group).
pub proof fn lemma_plan_follows_kinds(dir: Seq<char>, entries: Seq<DirEntryInfo>, g: int, j: int)
    requires
        0 <= g < grouping(sort_keys(dir, entries), sorted_paths(dir, entries)).len(),
        0 <= j < grouping(sort_keys(dir, entries), sorted_paths(dir, entries))[g].1.len(),
    ensures
        exists|p: int| 0 <= p < entries.len() && #[trigger] entries[p].path@ == grouping(
            sort_keys(dir, entries),
            sorted_paths(dir, entries),
        )[g].1[j] && sort_key(dir, entries[p]) == Some(
            grouping(sort_keys(dir, entries), sorted_paths(dir, entries))[g].0,
        ),
{
    let ks = sort_keys(dir, entries);
    let ps = sorted_paths(dir, entries);
    lemma_sorted_len(dir, entries);
    lemma_grouping_origin(ks, ps, g, j);
    let q = choose|q: int| 0 <= q < ps.len() && ks[q] == grouping(ks, ps)[g].0 && ps[q] == grouping(ks, ps)[g].1[j];
    lemma_sorted_origin(dir, entries, q);
}

/// The paths of the entries.
pub open spec fn entry_paths(entries: Seq<DirEntryInfo>) -> Seq<Seq<char>> {
    entries.map_values(|e: DirEntryInfo| e.path@)
}

proof fn lemma_sorted_paths_distinct(dir: Seq<char>, entries: Seq<DirEntryInfo>)
    requires
        entry_paths(entries).no_duplicates(),
    ensures
        sorted_paths(dir, entries).no_duplicates(),
    decreases entries.len(),
{
    if entries.len() > 0 {
        let d = entries.drop_last();
        assert(entry_paths(d).no_duplicates()) by {
            assert forall|a: int, b: int| 0 <= a < d.len() && 0 <= b < d.len() && a != b
                implies entry_paths(d)[a] != entry_paths(d)[b] by {
                assert(entry_paths(d)[a] == entry_paths(entries)[a]);
                assert(entry_paths(d)[b] == entry_paths(entries)[b]);
            }
        }
        lemma_sorted_paths_distinct(dir, d);
        let rest = sorted_paths(dir, d);
        let last = entries.last();
        if sort_key(dir, last) is Some {
            assert forall|j: int| 0 <= j < rest.len() implies rest[j] != last.path@ by {
                lemma_sorted_origin(dir, d, j);
                let p = choose|p: int| 0 <= p < d.len() && d[p].path@ == rest[j]
                    && sort_key(dir, d[p]) == Some(sort_keys(dir, d)[j]);
                assert(entry_paths(entries)[p] == rest[j]);
                assert(entry_paths(entries)[entries.len() - 1] == last.path@);
            }
            let all = rest.push(last.path@);
            assert(sorted_paths(dir, entries) == all);
            assert forall|a: int, b: int| 0 <= a < all.len() && 0 <= b < all.len() && a != b
                implies all[a] != all[b] by {
                if a < rest.len() && b < rest.len() {
                    assert(all[a] == rest[a] && all[b] == rest[b]);
                } else if a < rest.len() {
                    assert(all[a] == rest[a]);
                } else {
                    assert(all[b] == rest[b]);
                }
            }
        }
    }
}

/// A sorting plan names each target folder once, and, when the directory's entries have
/// distinct paths, lists no file twice (with `two_levels` in the contract of
/// `fix_duplicates_in_dir`: every planned file has nothing below it).
pub proof fn lemma_plan_lists_each_once(dir: Seq<char>, entries: Seq<DirEntryInfo>)
    ensures
        keys_of(grouping(sort_keys(dir, entries), sorted_paths(dir, entries))).no_duplicates(),
        entry_paths(entries).no_duplicates() ==> forall|g1: int, j1: int, g2: int, j2: int|
            0 <= g1 < grouping(sort_keys(dir, entries), sorted_paths(dir, entries)).len()
                && 0 <= j1 < grouping(sort_keys(dir, entries), sorted_paths(dir, entries))[g1].1.len()
                && 0 <= g2 < grouping(sort_keys(dir, entries), sorted_paths(dir, entries)).len()
                && 0 <= j2 < grouping(sort_keys(dir, entries), sorted_paths(dir, entries))[g2].1.len()
                && (g1 != g2 || j1 != j2)
                ==> #[trigger] grouping(sort_keys(dir, entries), sorted_paths(dir, entries))[g1].1[j1]
                != #[trigger] grouping(sort_keys(dir, entries), sorted_paths(dir, entries))[g2].1[j2],
{
    let ks = sort_keys(dir, entries);
    let ps = sorted_paths(dir, entries);
    lemma_grouping_distinct(ks, ps);
    lemma_sorted_len(dir, entries);
    if entry_paths(entries).no_duplicates() {
        lemma_sorted_paths_distinct(dir, entries);
        lemma_grouping_members_distinct(ks, ps);
    }
}

proof fn lemma_folder_not_unsupported(dir: Seq<char>, k: FileType)
    requires
        folder_of(k) is Some,
    ensures
        join_text(dir, folder_of(k)->0) != unsupported_key(),
{
    reveal_strlit("unsupported");
    reveal_strlit("images");
    reveal_strlit("images/animated");
    reveal_strlit("videos");
    reveal_strlit("audios");
    reveal_strlit("documents");
    reveal_strlit("texts");
    reveal_strlit("tables");
    reveal_strlit("applications");
    reveal_strlit("code");
    let f = folder_of(k)->0;
    let u = unsupported_key();
    let j = join_text(dir, f);
    assert(u.len() == 11);
    assert(forall|i: int| 0 <= i < 11 ==> u[i] != '/');
    if dir.len() == 0 {
        assert(f.len() != 11);
    } else if dir.last() == '/' {
        if j == u {
            assert(j[dir.len() - 1] == '/');
        }
    } else {
        if j == u {
            assert(j[dir.len() as int] == '/');
        }
    }
}

/// Which entries go to the unsupported group: exactly the files, not hidden, whose kind could
/// not be told. A file of a kind that has no folder (an archive) goes to no group at all, and a
/// file of a kind that has one goes to that folder inside the directory, never to the
/// unsupported group.
pub proof fn lemma_unsupported_means_unknown_kind(dir: Seq<char>, e: DirEntryInfo)
    ensures
        sort_key(dir, e) == Some(unsupported_key()) <==> (!e.is_dir && !(e.name matches Some(n) && n@.len() > 0
            && n@[0] == '.') && e.kind is None),
        e.kind matches Some(k) ==> (folder_of(k) is None ==> sort_key(dir, e) is None),
        e.kind matches Some(k) ==> (folder_of(k) is Some && sort_key(dir, e) is Some ==> sort_key(dir, e)
            == Some(join_text(dir, folder_of(k)->0))),
{
    if let Some(k) = e.kind {
        if folder_of(k) is Some {
            lemma_folder_not_unsupported(dir, k);
        }
    }
}

/// A sorting plan leaves archives out: when the directory's entries have distinct paths, the
/// path of an entry whose kind has no folder is in no group of the plan.
pub proof fn lemma_plan_leaves_out_archives(dir: Seq<char>, entries: Seq<DirEntryInfo>, p: int)
    requires
        entry_paths(entries).no_duplicates(),
        0 <= p < entries.len(),
        entries[p].kind is Some,
        folder_of(entries[p].kind->0) is None,
    ensures
        forall|g: int, j: int|
            0 <= g < grouping(sort_keys(dir, entries), sorted_paths(dir, entries)).len()
                && 0 <= j < grouping(sort_keys(dir, entries), sorted_paths(dir, entries))[g].1.len()
                ==> #[trigger] grouping(sort_keys(dir, entries), sorted_paths(dir, entries))[g].1[j] != entries[p].path@,
{
    let gr = grouping(sort_keys(dir, entries), sorted_paths(dir, entries));
    lemma_unsupported_means_unknown_kind(dir, entries[p]);
    assert forall|g: int, j: int| 0 <= g < gr.len() && 0 <= j < gr[g].1.len()
        implies #[trigger] gr[g].1[j] != entries[p].path@ by {
        lemma_plan_follows_kinds(dir, entries, g, j);
        let q = choose|q: int| 0 <= q < entries.len() && #[trigger] entries[q].path@ == gr[g].1[j]
            && sort_key(dir, entries[q]) == Some(gr[g].0);
        if gr[g].1[j] == entries[p].path@ {
            assert(entry_paths(entries)[q] == entry_paths(entries)[p]);
            assert(q == p);
        }
    }
}

/// `path` is the path of an entry that is a file whose kind could not be told.
pub open spec fn unknown_kind_entry(entries: Seq<DirEntryInfo>, path: Seq<char>) -> bool {
    exists|q: int| 0 <= q < entries.len() && #[trigger] entries[q].path@ == path && entries[q].kind is None
        && !entries[q].is_dir
}

/// The unsupported group of a plan holds exactly the files, not hidden, whose kind could not be
/// told: each of its paths is such an entry's, and each such entry's path is in it.
pub proof fn lemma_unsupported_group_exact(dir: Seq<char>, entries: Seq<DirEntryInfo>)
    ensures
        forall|g: int, j: int|
            #![trigger grouping(sort_keys(dir, entries), sorted_paths(dir, entries))[g].1[j]]
            0 <= g < grouping(sort_keys(dir, entries), sorted_paths(dir, entries)).len()
                && 0 <= j < grouping(sort_keys(dir, entries), sorted_paths(dir, entries))[g].1.len()
                && grouping(sort_keys(dir, entries), sorted_paths(dir, entries))[g].0 == unsupported_key()
                ==> unknown_kind_entry(entries, grouping(sort_keys(dir, entries), sorted_paths(dir, entries))[g].1[j]),
        forall|q: int|
            0 <= q < entries.len() && !entries[q].is_dir && !(entries[q].name matches Some(n) && n@.len() > 0
                && n@[0] == '.') && (#[trigger] entries[q]).kind is None ==> exists|g: int, j: int|
                0 <= g < grouping(sort_keys(dir, entries), sorted_paths(dir, entries)).len() && 0 <= j < grouping(
                    sort_keys(dir, entries),
                    sorted_paths(dir, entries),
                )[g].1.len() && grouping(sort_keys(dir, entries), sorted_paths(dir, entries))[g].0 == unsupported_key()
                    && #[trigger] grouping(sort_keys(dir, entries), sorted_paths(dir, entries))[g].1[j] == entries[q].path@,
{
    let ks = sort_keys(dir, entries);
    let ps = sorted_paths(dir, entries);
    let gr = grouping(ks, ps);
    lemma_sorted_len(dir, entries);
    assert forall|g: int, j: int|
        #![trigger grouping(sort_keys(dir, entries), sorted_paths(dir, entries))[g].1[j]]
        0 <= g < grouping(sort_keys(dir, entries), sorted_paths(dir, entries)).len()
            && 0 <= j < grouping(sort_keys(dir, entries), sorted_paths(dir, entries))[g].1.len()
            && grouping(sort_keys(dir, entries), sorted_paths(dir, entries))[g].0 == unsupported_key()
            implies unknown_kind_entry(entries, grouping(sort_keys(dir, entries), sorted_paths(dir, entries))[g].1[j]) by {
        lemma_unsupported_member(dir, entries, g, j);
    }
    assert forall|q: int|
        0 <= q < entries.len() && !entries[q].is_dir && !(entries[q].name matches Some(n) && n@.len() > 0
            && n@[0] == '.') && (#[trigger] entries[q]).kind is None implies exists|g: int, j: int|
            0 <= g < gr.len() && 0 <= j < gr[g].1.len() && gr[g].0 == unsupported_key() && #[trigger] gr[g].1[j]
                == entries[q].path@ by {
        lemma_unsupported_means_unknown_kind(dir, entries[q]);
        lemma_sorted_position(dir, entries, q);
        let r = choose|r: int| 0 <= r < ps.len() && ps[r] == entries[q].path@ && ks[r] == unsupported_key();
        lemma_select_member(ks, ps, unsupported_key(), r);
        lemma_first_keys_contains(ks, unsupported_key());
        assert(ks.contains(unsupported_key()));
        let g = choose|g: int| 0 <= g < first_keys(ks).len() && first_keys(ks)[g] == unsupported_key();
        let j = choose|j: int| 0 <= j < select(ks, ps, unsupported_key()).len() && select(ks, ps, unsupported_key())[j] == ps[r];
        assert(gr[g].1[j] == entries[q].path@);
    }
}

proof fn lemma_unsupported_member(dir: Seq<char>, entries: Seq<DirEntryInfo>, g: int, j: int)
    requires
        0 <= g < grouping(sort_keys(dir, entries), sorted_paths(dir, entries)).len(),
        0 <= j < grouping(sort_keys(dir, entries), sorted_paths(dir, entries))[g].1.len(),
        grouping(sort_keys(dir, entries), sorted_paths(dir, entries))[g].0 == unsupported_key(),
    ensures
        unknown_kind_entry(entries, grouping(sort_keys(dir, entries), sorted_paths(dir, entries))[g].1[j]),
{
    let gr = grouping(sort_keys(dir, entries), sorted_paths(dir, entries));
    lemma_plan_follows_kinds(dir, entries, g, j);
    let q = choose|q: int| 0 <= q < entries.len() && #[trigger] entries[q].path@ == gr[g].1[j]
        && sort_key(dir, entries[q]) == Some(gr[g].0);
    lemma_unsupported_means_unknown_kind(dir, entries[q]);
    assert(entries[q].kind is None && !entries[q].is_dir);
}

/// Every entry that sorting takes has its path in the sorted paths, under its group.
proof fn lemma_sorted_position(dir: Seq<char>, entries: Seq<DirEntryInfo>, q: int)
    requires
        0 <= q < entries.len(),
        sort_key(dir, entries[q]) is Some,
    ensures
        exists|r: int| 0 <= r < sorted_paths(dir, entries).len() && sorted_paths(dir, entries)[r] == entries[q].path@
            && sort_keys(dir, entries)[r] == sort_key(dir, entries[q])->0,
    decreases entries.len(),
{
    let d = entries.drop_last();
    lemma_sorted_len(dir, d);
    lemma_sorted_len(dir, entries);
    if q == entries.len() - 1 {
        assert(entries[q] == entries.last());
        let r = sorted_paths(dir, d).len() as int;
        assert(sorted_paths(dir, entries)[r] == entries[q].path@);
    } else {
        assert(entries[q] == d[q]);
        lemma_sorted_position(dir, d, q);
        let r = choose|r: int| 0 <= r < sorted_paths(dir, d).len() && sorted_paths(dir, d)[r] == d[q].path@
            && sort_keys(dir, d)[r] == sort_key(dir, d[q])->0;
        assert(sorted_paths(dir, entries)[r] == sorted_paths(dir, d)[r]);
        assert(sort_keys(dir, entries)[r] == sort_keys(dir, d)[r]);
    }
}

/// The group the entry goes to, as `sort_key` says.
fn sort_key_of(dir: &str, e: &DirEntryInfo) -> (k: Option<String>)
    ensures
        match k {
            Some(s) => sort_key(dir@, *e) == Some(s@),
            None => sort_key(dir@, *e) is None,
        },
{
    if e.is_dir {
        return None;
    }
    let hidden = match &e.name {
        Some(n) => starts_with_char(n.as_str(), '.'),
        None => false,
    };
    if hidden {
        return None;
    }
    match &e.kind {
        None => Some(String::from_str("unsupported")),
        Some(k) => match type_dir(k) {
            None => None,
            Some(f) => if e.name.is_some() {
                Some(join_path(dir, f))
            } else {
                None
            },
        },
    }
}

/// The position of the group named `key` in `plan`.
fn find_plan_group(plan: &Vec<FileTreeItem>, key: &str) -> (r: Option<usize>)
    ensures
        match r {
            Some(g) => g as int == key_index(keys_of(plan_view(plan@)), key@),
            None => key_index(keys_of(plan_view(plan@)), key@) == -1,
        },
{
    let ghost keys = keys_of(plan_view(plan@));
    proof {
        lemma_key_index(keys, key@);
    }
    let mut j: usize = 0;
    while j < plan.len()
        invariant
            keys == keys_of(plan_view(plan@)),
            j <= plan@.len(),
            forall|m: int| 0 <= m < j ==> keys[m] != key@,
            -1 <= key_index(keys, key@) < keys.len(),
            key_index(keys, key@) == -1 <==> !keys.contains(key@),
            key_index(keys, key@) >= 0 ==> keys[key_index(keys, key@)] == key@,
            forall|m: int| 0 <= m < key_index(keys, key@) ==> keys[m] != key@,
        decreases plan@.len() - j,
    {
        if same_text(plan[j].path.as_str(), key) {
            assert(keys[j as int] == key@);
            return Some(j);
        }
        assert(keys[j as int] != key@);
        j = j + 1;
    }
    proof {
        if keys.contains(key@) {
            let m = choose|m: int| 0 <= m < keys.len() && keys[m] == key@;
            assert(keys[m] != key@);
        }
    }
    None
}

/// Plans sorting the directory `dir` by file type, without moving anything: the entries that
/// are sorted (see `sort_key`) grouped by the folder they go to, in the order the folders first
/// occur, each folder listing its files' paths in order.
pub fn fix_duplicates_in_dir(dir: &str, entries: Vec<DirEntryInfo>) -> (plan: Vec<FileTreeItem>)
    ensures
        plan_view(plan@) == grouping(sort_keys(dir@, entries@), sorted_paths(dir@, entries@)),
        two_levels(plan@),
{
    let ghost all = entries@;
    let mut plan: Vec<FileTreeItem> = Vec::new();
    proof {
        assert(all.take(0) =~= Seq::<DirEntryInfo>::empty());
        assert(plan_view(plan@) =~= grouping(
            sort_keys(dir@, all.take(0)),
            sorted_paths(dir@, all.take(0)),
        ));
    }
    for e in it: entries.into_iter()
        invariant
            it.seq() == all,
            plan_view(plan@) == grouping(
                sort_keys(dir@, all.take(it.index() as int)),
                sorted_paths(dir@, all.take(it.index() as int)),
            ),
            two_levels(plan@),
    {
        let ghost i = it.index() as int;
        let ghost before = plan@;
        let ghost done = all.take(i);
        let ghost ks = sort_keys(dir@, done);
        let ghost ps = sorted_paths(dir@, done);
        proof {
            assert(all.take(i + 1) =~= done.push(e));
            lemma_sorted_push(dir@, done, e);
            lemma_sorted_len(dir@, done);
        }
        match sort_key_of(dir, &e) {
            Some(key) => {
                let ghost pos = lemma_grouping_push(ks, ps, key@, e.path@);
                let found = find_plan_group(&plan, key.as_str());
                proof {
                    lemma_key_index(keys_of(plan_view(plan@)), key@);
                    lemma_first_keys_distinct(ks);
                    assert(keys_of(grouping(ks, ps)) =~= first_keys(ks));
                }
                let leaf = FileTreeItem { path: e.path, children: Vec::new() };
                match found {
                    Some(g) => {
                        proof {
                            assert(first_keys(ks)[g as int] == key@);
                            assert(g as int == pos);
                        }
                        let ghost old_children = plan@[g as int].children@;
                        plan[g].children.push(leaf);
                        proof {
                            assert(plan@[g as int].children@ == old_children.push(leaf));
                            assert(group_view(plan@[g as int]) =~= (
                                key@,
                                group_view(before[g as int]).1.push(e.path@),
                            ));
                            assert(plan_view(plan@) =~= plan_view(before).update(
                                g as int,
                                (key@, plan_view(before)[g as int].1.push(e.path@)),
                            ));
                            assert forall|a: int, b: int|
                                0 <= a < plan@.len() && 0 <= b < plan@[a].children@.len()
                                implies #[trigger] plan@[a].children@[b].children@.len() == 0 by {
                                if a != g as int {
                                    assert(plan@[a] == before[a]);
                                } else if b < old_children.len() {
                                    assert(plan@[a].children@[b] == old_children[b]);
                                }
                            }
                        }
                    },
                    None => {
                        let mut children: Vec<FileTreeItem> = Vec::new();
                        children.push(leaf);
                        plan.push(FileTreeItem { path: key, children });
                        proof {
                            assert(!first_keys(ks).contains(key@));
                            assert(group_view(plan@[before.len() as int]) =~= (key@, seq![e.path@]));
                            assert(plan_view(plan@) =~= plan_view(before).push((key@, seq![e.path@])));
                            assert forall|a: int, b: int|
                                0 <= a < plan@.len() && 0 <= b < plan@[a].children@.len()
                                implies #[trigger] plan@[a].children@[b].children@.len() == 0 by {
                                if a < before.len() {
                                    assert(plan@[a] == before[a]);
                                }
                            }
                        }
                    },
                }
            },
            None => {},
        }
    }
    proof {
        assert(all.take(all.len() as int) =~= all);
    }
    plan
}

/// The groups other than the unsupported one, in order.
pub open spec fn supported_items(items: Seq<FileTreeItem>) -> Seq<FileTreeItem>
    decreases items.len(),
{
    if items.len() == 0 {
        items
    } else if items.last().path@ != unsupported_key() {
        supported_items(items.drop_last()).push(items.last())
    } else {
        supported_items(items.drop_last())
    }
}

/// The unsupported groups, in order.
pub open spec fn unsupported_items(items: Seq<FileTreeItem>) -> Seq<FileTreeItem>
    decreases items.len(),
{
    if items.len() == 0 {
        items
    } else if items.last().path@ == unsupported_key() {
        unsupported_items(items.drop_last()).push(items.last())
    } else {
        unsupported_items(items.drop_last())
    }
}

/// How many entries the groups list together.
pub open spec fn file_count(items: Seq<FileTreeItem>) -> nat
    decreases items.len(),
{
    if items.len() == 0 {
        0
    } else {
        file_count(items.drop_last()) + items.last().children@.len()
    }
}

proof fn lemma_split_push(items: Seq<FileTreeItem>, x: FileTreeItem)
    ensures
        supported_items(items.push(x)) == (if x.path@ != unsupported_key() {
            supported_items(items).push(x)
        } else {
            supported_items(items)
        }),
        unsupported_items(items.push(x)) == (if x.path@ == unsupported_key() {
            unsupported_items(items).push(x)
        } else {
            unsupported_items(items)
        }),
        file_count(items.push(x)) == file_count(items) + x.children@.len(),
{
    assert(items.push(x).drop_last() =~= items);
}

/// Splitting a plan loses and repeats no group: the supported and the unsupported groups
/// together are as many as the plan's, and list as many files.
pub proof fn lemma_split_keeps_everything(items: Seq<FileTreeItem>)
    ensures
        supported_items(items).len() + unsupported_items(items).len() == items.len(),
        file_count(supported_items(items)) + file_count(unsupported_items(items)) == file_count(items),
    decreases items.len(),
{
    if items.len() > 0 {
        let d = items.drop_last();
        lemma_split_keeps_everything(d);
        assert(d.push(items.last()) =~= items);
        lemma_split_push(d, items.last());
        lemma_split_push(supported_items(d), items.last());
        lemma_split_push(unsupported_items(d), items.last());
    }
}

/// Splits the groups of a sorting plan into those whose files are moved and the unsupported
/// ones, keeping their order.
pub fn split_supported_unsupported(items: Vec<FileTreeItem>) -> (res: (Vec<FileTreeItem>, Vec<FileTreeItem>))
    ensures
        res.0@ == supported_items(items@),
        res.1@ == unsupported_items(items@),
{
    let ghost all = items@;
    let mut supported: Vec<FileTreeItem> = Vec::new();
    let mut unsupported: Vec<FileTreeItem> = Vec::new();
    proof {
        assert(all.take(0) =~= Seq::<FileTreeItem>::empty());
    }
    for item in it: items.into_iter()
        invariant
            it.seq() == all,
            supported@ == supported_items(all.take(it.index() as int)),
            unsupported@ == unsupported_items(all.take(it.index() as int)),
    {
        proof {
            assert(all.take(it.index() + 1) =~= all.take(it.index() as int).push(item));
            lemma_split_push(all.take(it.index() as int), item);
        }
        if same_text(item.path.as_str(), "unsupported") {
            unsupported.push(item);
        } else {
            supported.push(item);
        }
    }
    proof {
        assert(all.take(all.len() as int) =~= all);
    }
    (supported, unsupported)
}

/// How many files a sorting plan moves: the entries of all groups but the unsupported one.
pub fn files_to_move(plan: &Vec<FileTreeItem>) -> (n: u64)
    requires
        file_count(supported_items(plan@)) <= u64::MAX,
    ensures
        n == file_count(supported_items(plan@)),
{
    let mut n: u64 = 0;
    let mut i: usize = 0;
    proof {
        assert(plan@.take(0) =~= Seq::<FileTreeItem>::empty());
    }
    while i < plan.len()
        invariant
            i <= plan@.len(),
            n == file_count(supported_items(plan@.take(i as int))),
            file_count(supported_items(plan@)) <= u64::MAX,
        decreases plan@.len() - i,
    {
        let item = &plan[i];
        proof {
            assert(plan@.take(i + 1) =~= plan@.take(i as int).push(*item));
            lemma_split_push(plan@.take(i as int), *item);
            lemma_split_push(supported_items(plan@.take(i as int)), *item);
            lemma_supported_count_prefix(plan@, i + 1);
        }
        if !same_text(item.path.as_str(), "unsupported") {
            n = n + item.children.len() as u64;
        }
        i = i + 1;
    }
    proof {
        assert(plan@.take(plan@.len() as int) =~= plan@);
    }
    n
}

proof fn lemma_supported_count_prefix(items: Seq<FileTreeItem>, i: int)
    requires
        0 <= i <= items.len(),
    ensures
        file_count(supported_items(items.take(i))) <= file_count(supported_items(items)),
    decreases items.len(),
{
    if i < items.len() {
        let d = items.drop_last();
        lemma_supported_count_prefix(d, i);
        assert(d.take(i) =~= items.take(i));
        assert(d.push(items.last()) =~= items);
        lemma_split_push(d, items.last());
        lemma_split_push(supported_items(d), items.last());
    } else {
        assert(items.take(i) =~= items);
    }
}

} // verus!
