//! A scrollable list of groups of files, where files can be selected.
use vstd::prelude::*;
use crate::buffer::Buffer;
use crate::event_bus::Event;
use crate::layout::{Layout, layout_fits, layout_rect};
use crate::term::Key;
use crate::text::{repeat_char, repeated};
use crate::ui::{Rect, draw_string_list_flat, empty_rect, list_drawn, list_fits, texts};
use super::widget::{Widget, draw_area, needs_layout};

verus! {

/// A named entry with entries below it: a group and its files, or a file.
pub struct FileTreeItem {
    pub path: String,
    pub children: Vec<FileTreeItem>,
}

/// The two sequences of trees have the same names and shapes down to `depth` levels below
/// their roots.
pub open spec fn same_forest(a: Seq<FileTreeItem>, b: Seq<FileTreeItem>, depth: nat) -> bool
    decreases depth, a.len(),
{
    if a.len() == 0 || b.len() == 0 {
        a.len() == b.len()
    } else {
        let x = a.last();
        let y = b.last();
        &&& same_forest(a.drop_last(), b.drop_last(), depth)
        &&& x.path@ == y.path@
        &&& depth > 0 ==> same_forest(x.children@, y.children@, (depth - 1) as nat)
    }
}

/// `a` and `b` are the same tree: the same names in the same shape, at every depth.
pub open spec fn same_tree(a: FileTreeItem, b: FileTreeItem) -> bool {
    forall|d: nat| #[trigger] same_forest(seq![a], seq![b], d)
}

pub proof fn lemma_same_forest_pointwise(a: Seq<FileTreeItem>, b: Seq<FileTreeItem>, d: nat)
    requires
        a.len() == b.len(),
        forall|k: int| 0 <= k < a.len() ==> #[trigger] same_tree(a[k], b[k]),
    ensures
        same_forest(a, b, d),
    decreases a.len(),
{
    if a.len() > 0 {
        let n = a.len() - 1;
        lemma_same_forest_pointwise(a.drop_last(), b.drop_last(), d);
        assert(same_tree(a[n], b[n]));
        assert(same_forest(seq![a[n]], seq![b[n]], d));
        assert(seq![a[n]].drop_last() =~= Seq::<FileTreeItem>::empty());
    }
}

impl FileTreeItem {
    /// A copy of the whole tree.
    pub fn deep_copy(&self) -> (c: FileTreeItem)
        ensures
            same_tree(c, *self),
        decreases self,
    {
        let mut children: Vec<FileTreeItem> = Vec::new();
        let mut i: usize = 0;
        while i < self.children.len()
            invariant
                i <= self.children@.len(),
                children@.len() == i,
                forall|k: int| 0 <= k < i ==> #[trigger] same_tree(children@[k], self.children@[k]),
            decreases self.children@.len() - i,
        {
            proof {
                assert(decreases_to!(self => self.children));
                vstd::std_specs::vec::axiom_vec_decreases_to_view(self.children);
                assert(decreases_to!(self.children@ => self.children@[i as int]));
            }
            let child = self.children[i].deep_copy();
            children.push(child);
            i = i + 1;
        }
        let c = FileTreeItem { path: self.path.clone(), children };
        proof {
            assert forall|d: nat| #[trigger] same_forest(seq![c], seq![*self], d) by {
                assert(c.children@ == children@);
                assert(c.path@ == self.path@);
                if d > 0 {
                    lemma_same_forest_pointwise(c.children@, self.children@, (d - 1) as nat);
                }
                assert(seq![c].drop_last() =~= Seq::<FileTreeItem>::empty());
                assert(seq![*self].drop_last() =~= Seq::<FileTreeItem>::empty());
                assert(seq![c].last() == c);
                assert(seq![*self].last() == *self);
                assert(same_forest(Seq::<FileTreeItem>::empty(), Seq::<FileTreeItem>::empty(), d));
            }
        }
        c
    }
}

impl Clone for FileTreeItem {
    fn clone(&self) -> (c: Self)
        ensures
            same_tree(c, *self),
    {
        self.deep_copy()
    }
}

/// The indentation of a line `depth` levels down: four spaces a level.
pub open spec fn indent(depth: int) -> Seq<char> {
    repeated(' ', (4 * depth) as nat)
}

/// The lines that show `items` and what is below them, each on its own line indented by its
/// level, down to (not including) level `max_depth`; the items themselves are at level `depth`.
pub open spec fn flat_lines(items: Seq<FileTreeItem>, max_depth: int, depth: int) -> Seq<Seq<char>>
    decreases max_depth - depth, items.len(),
{
    if depth >= max_depth || items.len() == 0 {
        Seq::empty()
    } else {
        let last = items.last();
        flat_lines(items.drop_last(), max_depth, depth) + seq![indent(depth) + last.path@] + flat_lines(
            last.children@,
            max_depth,
            depth + 1,
        )
    }
}

/// Appends to `out` the lines that show `items`, indented by level, down to `max_depth`.
fn flatten_tree(items: &[FileTreeItem], max_depth: usize, depth: usize, out: &mut Vec<String>)
    requires
        max_depth <= usize::MAX / 4,
    ensures
        texts(final(out)@) == texts(old(out)@) + flat_lines(items@, max_depth as int, depth as int),
    decreases max_depth - depth,
{
    if depth >= max_depth {
        assert(texts(out@) =~= texts(out@) + flat_lines(items@, max_depth as int, depth as int));
        return;
    }
    let ghost start = texts(out@);
    let mut k: usize = 0;
    while k < items.len()
        invariant
            depth < max_depth,
            max_depth <= usize::MAX / 4,
            k <= items@.len(),
            texts(out@) == start + flat_lines(items@.take(k as int), max_depth as int, depth as int),
        decreases items@.len() - k,
    {
        let item = &items[k];
        let mut line = repeat_char(' ', 4 * depth);
        line.append(item.path.as_str());
        let ghost before = texts(out@);
        out.push(line);
        assert(texts(out@) =~= before.push(indent(depth as int) + item.path@));
        flatten_tree(item.children.as_slice(), max_depth, depth + 1, out);
        proof {
            let t1 = items@.take(k + 1);
            assert(t1.drop_last() =~= items@.take(k as int));
            assert(t1.last() == items@[k as int]);
            assert(texts(out@) =~= start + flat_lines(t1, max_depth as int, depth as int));
        }
        k = k + 1;
    }
    assert(items@.take(k as int) =~= items@);
}

/// The line at which group `i` starts in a listing of groups and their files: every earlier
/// group takes its own line and one line per file.
pub open spec fn group_offset(items: Seq<FileTreeItem>, i: int) -> int
    decreases i,
{
    if i <= 0 {
        0
    } else {
        group_offset(items, i - 1) + items[i - 1].children@.len() + 1
    }
}

/// The line that shows file `j` of group `i`.
pub open spec fn flat_index(items: Seq<FileTreeItem>, i: int, j: int) -> int {
    group_offset(items, i) + 1 + j
}

/// Whether (`i`, `j`) names a file: group `i` exists and has a file `j`.
pub open spec fn valid_coords(items: Seq<FileTreeItem>, i: int, j: int) -> bool {
    0 <= i < items.len() && 0 <= j < items[i].children@.len()
}

/// The file shown on line `n`, if that line shows a file.
pub open spec fn coords_at(items: Seq<FileTreeItem>, n: int) -> Option<(int, int)> {
    if exists|p: (int, int)| valid_coords(items, p.0, p.1) && flat_index(items, p.0, p.1) == n {
        Some(choose|p: (int, int)| valid_coords(items, p.0, p.1) && flat_index(items, p.0, p.1) == n)
    } else {
        None
    }
}

proof fn lemma_group_offset_grows(items: Seq<FileTreeItem>, i: int, k: int)
    requires
        0 <= i <= k <= items.len(),
    ensures
        group_offset(items, i) <= group_offset(items, k),
        i < k ==> group_offset(items, i) + items[i].children@.len() + 1 <= group_offset(items, k),
    decreases k - i,
{
    if i < k {
        lemma_group_offset_grows(items, i, k - 1);
        if i < k - 1 {
            lemma_group_offset_grows(items, i + 1, k - 1);
        }
    }
}

proof fn lemma_leaf_lines(children: Seq<FileTreeItem>)
    ensures
        flat_lines(children, 2, 1).len() == children.len(),
    decreases children.len(),
{
    if children.len() > 0 {
        lemma_leaf_lines(children.drop_last());
        assert(flat_lines(children.last().children@, 2, 2) =~= Seq::<Seq<char>>::empty());
    }
}

proof fn lemma_group_offset_prefix(items: Seq<FileTreeItem>, k: int)
    requires
        0 <= k < items.len(),
    ensures
        group_offset(items, k) == group_offset(items.drop_last(), k),
    decreases k,
{
    if k > 0 {
        lemma_group_offset_prefix(items, k - 1);
    }
}

proof fn lemma_two_level_lines(items: Seq<FileTreeItem>)
    ensures
        flat_lines(items, 2, 0).len() == group_offset(items, items.len() as int),
    decreases items.len(),
{
    if items.len() > 0 {
        let d = items.drop_last();
        lemma_two_level_lines(d);
        lemma_leaf_lines(items.last().children@);
        lemma_group_offset_prefix(items, items.len() - 1);
        assert(items[items.len() - 1] == items.last());
    }
}

/// Whether groups and their files, listed two levels deep, stay within the sizes a list
/// handles.
pub open spec fn two_level_size_ok(items: Seq<FileTreeItem>) -> bool {
    &&& flat_lines(items, 2, 0).len() <= usize::MAX / 4
    &&& group_offset(items, items.len() as int) <= usize::MAX / 4
}

/// Whether groups and their files, listed two levels deep, stay within the sizes a list
/// handles.
pub fn fits_two_levels(items: &Vec<FileTreeItem>) -> (ok: bool)
    ensures
        ok == two_level_size_ok(items@),
{
    proof {
        lemma_two_level_lines(items@);
    }
    let mut offset: usize = 0;
    let mut i: usize = 0;
    while i < items.len()
        invariant
            i <= items@.len(),
            offset == group_offset(items@, i as int),
            offset <= usize::MAX / 4,
        decreases items@.len() - i,
    {
        let n = items[i].children.len();
        if n >= usize::MAX / 4 - offset {
            proof {
                lemma_group_offset_grows(items@, i as int, items@.len() as int);
            }
            return false;
        }
        offset = offset + n + 1;
        i = i + 1;
    }
    true
}

/// A copy of the groups, with the same names and shapes at every depth.
pub fn copy_forest(items: &Vec<FileTreeItem>) -> (c: Vec<FileTreeItem>)
    ensures
        forall|d: nat| #[trigger] same_forest(c@, items@, d),
{
    let mut c: Vec<FileTreeItem> = Vec::new();
    let mut i: usize = 0;
    while i < items.len()
        invariant
            i <= items@.len(),
            c@.len() == i,
            forall|k: int| 0 <= k < i ==> #[trigger] same_tree(c@[k], items@[k]),
        decreases items@.len() - i,
    {
        c.push(items[i].deep_copy());
        i = i + 1;
    }
    proof {
        assert forall|d: nat| #[trigger] same_forest(c@, items@, d) by {
            lemma_same_forest_pointwise(c@, items@, d);
        }
    }
    c
}

/// The selection after Space on a line that shows the file `p`: that file switches between
/// selected and not selected, every other file stays as it was.
pub open spec fn toggled(before: Seq<(usize, usize)>, after: Seq<(usize, usize)>, p: (int, int)) -> bool {
    forall|q: (usize, usize)| #[trigger] after.contains(q) <==> (before.contains(q) != (q.0 as int == p.0 && q.1 as int == p.1))
}

/// Pressing Space twice on the same file leaves the selection as it was.
pub proof fn lemma_space_twice_restores(
    before: Seq<(usize, usize)>,
    mid: Seq<(usize, usize)>,
    after: Seq<(usize, usize)>,
    p: (int, int),
)
    requires
        toggled(before, mid, p),
        toggled(mid, after, p),
    ensures
        forall|q: (usize, usize)| #[trigger] after.contains(q) <==> before.contains(q),
{
    assert forall|q: (usize, usize)| #[trigger] after.contains(q) <==> before.contains(q) by {
        assert(after.contains(q) <==> (mid.contains(q) != (q.0 as int == p.0 && q.1 as int == p.1)));
        assert(mid.contains(q) <==> (before.contains(q) != (q.0 as int == p.0 && q.1 as int == p.1)));
    }
}

proof fn lemma_child_line(children: Seq<FileTreeItem>, j: int)
    requires
        0 <= j < children.len(),
    ensures
        flat_lines(children, 2, 1)[j] == indent(1) + children[j].path@,
    decreases children.len(),
{
    let d = children.drop_last();
    lemma_leaf_lines(d);
    assert(flat_lines(children.last().children@, 2, 2) =~= Seq::<Seq<char>>::empty());
    if j < d.len() {
        lemma_child_line(d, j);
        assert(children[j] == d[j]);
    } else {
        assert(children[j] == children.last());
    }
}

proof fn lemma_file_line(items: Seq<FileTreeItem>, i: int, j: int)
    requires
        valid_coords(items, i, j),
    ensures
        flat_index(items, i, j) < flat_lines(items, 2, 0).len(),
        flat_lines(items, 2, 0)[flat_index(items, i, j)] == indent(1) + items[i].children@[j].path@,
    decreases items.len(),
{
    let n = items.len() - 1;
    let d = items.drop_last();
    let last = items.last();
    lemma_two_level_lines(d);
    lemma_two_level_lines(items);
    lemma_group_offset_prefix(items, n);
    lemma_group_offset_grows(items, i, items.len() as int);
    let pre = flat_lines(d, 2, 0);
    let line = seq![indent(0) + last.path@];
    let rest = flat_lines(last.children@, 2, 1);
    assert(flat_lines(items, 2, 0) == pre + line + rest);
    if i == n {
        assert(items[i] == last);
        lemma_child_line(last.children@, j);
        assert((pre + line + rest)[flat_index(items, i, j)] == rest[j]);
    } else {
        lemma_group_offset_prefix(items, i);
        assert(items[i] == d[i]);
        assert(valid_coords(d, i, j));
        lemma_group_offset_grows(d, i, n);
        lemma_file_line(d, i, j);
        assert(d.len() == n);
        assert(pre.len() == group_offset(d, n));
        assert(group_offset(d, i) + d[i].children@.len() + 1 <= group_offset(d, n));
        assert(flat_index(d, i, j) < pre.len());
        assert(flat_index(items, i, j) == flat_index(d, i, j));
        let x = flat_index(d, i, j);
        lemma_group_offset_grows(d, 0, i);
        assert(0 <= x);
        assert((pre + line)[x] == pre[x]);
        assert((pre + line + rest)[x] == (pre + line)[x]);
        assert((pre + line + rest)[flat_index(items, i, j)] == pre[flat_index(d, i, j)]);
    }
}

/// The lines of files, both ways: in a list of groups and their files shown two levels deep,
/// file `j` of group `i` is on line `flat_index(items, i, j)` (one line for each earlier group
/// and each of its files, one for group `i` itself, then `j`); that line shows the file's name
/// after four spaces; and the file shown on that line is file `j` of group `i`.
pub proof fn lemma_file_line_round_trip(items: Seq<FileTreeItem>, i: int, j: int)
    requires
        valid_coords(items, i, j),
    ensures
        flat_index(items, i, j) == group_offset(items, i) + 1 + j,
        flat_index(items, i, j) < flat_lines(items, 2, 0).len(),
        flat_lines(items, 2, 0)[flat_index(items, i, j)] == indent(1) + items[i].children@[j].path@,
        coords_at(items, flat_index(items, i, j)) == Some((i, j)),
{
    lemma_file_line(items, i, j);
    let n = flat_index(items, i, j);
    assert(valid_coords(items, (i, j).0, (i, j).1) && flat_index(items, (i, j).0, (i, j).1) == n);
    let p = choose|p: (int, int)| valid_coords(items, p.0, p.1) && flat_index(items, p.0, p.1) == n;
    lemma_flat_index_injective(items, p.0, p.1, i, j);
}

/// `k` moves the highlight up exactly one line, stopping at the first line, and `j` then `k`
/// gives the highlight back where it was whenever `j` could move it; likewise `k` then `j` where
/// `k` could move it. Neither key moves the highlight by more than one line or off the list.
pub proof fn lemma_highlight_steps(h: int, l: int)
    requires
        0 <= h,
        h < l || h == 0,
    ensures
        h > 0 ==> highlight_after(h, l, Key::Char('k')) == h - 1,
        h == 0 ==> highlight_after(h, l, Key::Char('k')) == 0,
        h < l - 1 ==> highlight_after(h, l, Key::Char('j')) == h + 1,
        h < l - 1 ==> highlight_after(highlight_after(h, l, Key::Char('j')), l, Key::Char('k')) == h,
        h > 0 ==> highlight_after(highlight_after(h, l, Key::Char('k')), l, Key::Char('j')) == h,
        h - 1 <= highlight_after(h, l, Key::Char('k')) <= h,
        h <= highlight_after(h, l, Key::Char('j')) <= h + 1,
        l > 0 ==> highlight_after(h, l, Key::Char('j')) < l,
{
}

/// Each file has a line of its own: different files are shown on different lines.
pub proof fn lemma_flat_index_injective(items: Seq<FileTreeItem>, i1: int, j1: int, i2: int, j2: int)
    requires
        valid_coords(items, i1, j1),
        valid_coords(items, i2, j2),
        flat_index(items, i1, j1) == flat_index(items, i2, j2),
    ensures
        i1 == i2,
        j1 == j2,
{
    if i1 < i2 {
        lemma_group_offset_grows(items, i1, i2);
    } else if i2 < i1 {
        lemma_group_offset_grows(items, i2, i1);
    }
}

/// The paths of the selected files of group `i`, among its first `n` files.
pub open spec fn chosen_files(items: Seq<FileTreeItem>, sel: Seq<(usize, usize)>, i: int, n: int) -> Seq<Seq<char>>
    decreases n,
{
    if n <= 0 {
        Seq::empty()
    } else {
        let rest = chosen_files(items, sel, i, n - 1);
        if sel.contains((i as usize, (n - 1) as usize)) {
            rest.push(items[i].children@[n - 1].path@)
        } else {
            rest
        }
    }
}

/// Among the first `m` groups, those with selected files: each group's path with the paths
/// of its selected files, in the order of `items`.
pub open spec fn chosen_groups(items: Seq<FileTreeItem>, sel: Seq<(usize, usize)>, m: int) -> Seq<(Seq<char>, Seq<Seq<char>>)>
    decreases m,
{
    if m <= 0 {
        Seq::empty()
    } else {
        let rest = chosen_groups(items, sel, m - 1);
        let files = chosen_files(items, sel, m - 1, items[m - 1].children@.len() as int);
        if files.len() > 0 {
            rest.push((items[m - 1].path@, files))
        } else {
            rest
        }
    }
}

/// A group as names: its path and the paths of its entries.
pub open spec fn group_view(g: FileTreeItem) -> (Seq<char>, Seq<Seq<char>>) {
    (g.path@, g.children@.map_values(|c: FileTreeItem| c.path@))
}

/// A list of groups as names.
pub open spec fn plan_view(v: Seq<FileTreeItem>) -> Seq<(Seq<char>, Seq<Seq<char>>)> {
    v.map_values(|g: FileTreeItem| group_view(g))
}

/// Every entry of every group has nothing below it.
pub open spec fn two_levels(v: Seq<FileTreeItem>) -> bool {
    forall|i: int, j: int| 0 <= i < v.len() && 0 <= j < v[i].children@.len() ==> #[trigger] v[i].children@[j].children@.len() == 0
}

/// The highlighted line after `key`, with `l` lines listed: `k` moves up, `j` moves down, the
/// highlight stays on the list.
pub open spec fn highlight_after(h: int, l: int, key: Key) -> int {
    match key {
        Key::Char('k') => if h > 0 { h - 1 } else { h },
        Key::Char('j') => if l > 0 && h < l - 1 { h + 1 } else { h },
        _ => h,
    }
}

/// The first line shown after `key`, with the highlight at `h` before the key, `l` lines
/// listed and `rows` rows to show them in.
pub open spec fn scroll_after(s: int, h: int, l: int, rows: int, key: Key) -> int {
    let h2 = highlight_after(h, l, key);
    match key {
        Key::Char('k') => if s > 0 && h2 <= s + 1 { s - 1 } else { s },
        Key::Char('j') => if l == 0 || l < rows || s >= l - rows {
            s
        } else if s + h2 + 1 >= rows {
            s + 1
        } else {
            s
        },
        _ => s,
    }
}

fn has_pair(v: &Vec<(usize, usize)>, p: (usize, usize)) -> (b: bool)
    ensures
        b == v@.contains(p),
{
    find_pair(v, p).is_some()
}

fn find_pair(v: &Vec<(usize, usize)>, p: (usize, usize)) -> (res: Option<usize>)
    ensures
        match res {
            Some(k) => k < v@.len() && v@[k as int] == p,
            None => !v@.contains(p),
        },
{
    let mut k: usize = 0;
    while k < v.len()
        invariant
            k <= v@.len(),
            forall|m: int| 0 <= m < k ==> v@[m] != p,
        decreases v@.len() - k,
    {
        let q = v[k];
        if q.0 == p.0 && q.1 == p.1 {
            return Some(k);
        }
        k = k + 1;
    }
    None
}

/// The lines that show the selected files.
pub open spec fn selected_lines(items: Seq<FileTreeItem>, sel: Seq<(usize, usize)>) -> Seq<usize> {
    Seq::new(sel.len(), |k: int| flat_index(items, sel[k].0 as int, sel[k].1 as int) as usize)
}

/// A list of groups of files, drawn as one line per group followed by one indented line per
/// file. `j` and `k` move the highlight, Space selects or unselects the highlighted file.
pub struct UIFileList {
    title: String,
    max_depth: usize,
    highlighted_line: usize,
    selected: Vec<(usize, usize)>,
    scroll_offset: usize,
    items: Vec<FileTreeItem>,
    lines: Vec<String>,
    output: Option<Vec<FileTreeItem>>,
    group_offsets: Vec<usize>,
    r: Rect,
    layout_cb: Layout,
}

impl UIFileList {
    #[verifier::type_invariant]
    closed spec fn inv(self) -> bool {
        &&& texts(self.lines@) == flat_lines(self.items@, self.max_depth as int, 0)
        &&& self.lines@.len() <= usize::MAX / 4
        &&& self.highlighted_line == 0 || self.highlighted_line < self.lines@.len()
        &&& self.scroll_offset <= self.lines@.len()
        &&& self.group_offsets@.len() == self.items@.len()
        &&& forall|i: int| 0 <= i < self.items@.len() ==> #[trigger] self.group_offsets@[i] == group_offset(self.items@, i)
        &&& group_offset(self.items@, self.items@.len() as int) <= usize::MAX / 4
        &&& forall|k: int| 0 <= k < self.selected@.len() ==> valid_coords(
            self.items@,
            #[trigger] self.selected@[k].0 as int,
            self.selected@[k].1 as int,
        )
        &&& self.selected@.no_duplicates()
    }

    /// The title shown on the box.
    pub closed spec fn title(&self) -> Seq<char> {
        self.title@
    }

    /// The groups listed.
    pub closed spec fn entries(&self) -> Seq<FileTreeItem> {
        self.items@
    }

    /// The lines shown.
    pub closed spec fn shown_lines(&self) -> Seq<Seq<char>> {
        texts(self.lines@)
    }

    /// The highlighted line.
    pub closed spec fn highlighted(&self) -> int {
        self.highlighted_line as int
    }

    /// The first line shown.
    pub closed spec fn scroll(&self) -> int {
        self.scroll_offset as int
    }

    /// The selected files, as (group, file) pairs.
    pub closed spec fn chosen(&self) -> Seq<(usize, usize)> {
        self.selected@
    }

    /// What the list publishes as its selection, if it publishes one.
    pub closed spec fn published(&self) -> Option<Vec<FileTreeItem>> {
        self.output
    }

    /// The rectangle the list occupies (empty until laid out).
    pub closed spec fn area(&self) -> Rect {
        self.r
    }

    /// How the list places itself.
    pub closed spec fn layout(&self) -> Layout {
        self.layout_cb
    }

    /// The line that shows file `j` of group `i` (see `lemma_file_line_round_trip`).
    pub fn coords_to_flat(&self, i: usize, j: usize) -> (n: usize)
        requires
            valid_coords(self.entries(), i as int, j as int),
        ensures
            n == flat_index(self.entries(), i as int, j as int),
    {
        proof {
            use_type_invariant(self);
            lemma_group_offset_grows(self.items@, i as int, self.items@.len() as int);
        }
        self.group_offsets[i] + 1 + j
    }

    /// The file shown on line `n`, as (group, file), if that line shows a file.
    pub fn flat_to_coords(&self, n: usize) -> (res: Option<(usize, usize)>)
        ensures
            match res {
                Some(p) => coords_at(self.entries(), n as int) == Some((p.0 as int, p.1 as int)),
                None => coords_at(self.entries(), n as int) is None,
            },
    {
        proof {
            use_type_invariant(self);
        }
        let ghost items = self.items@;
        let mut i: usize = 0;
        while i < self.items.len()
            invariant
                items == self.items@,
                i <= items.len(),
                forall|a: int, b: int| 0 <= a < i && valid_coords(items, a, b) ==> flat_index(items, a, b) != n,
            decreases items.len() - i,
        {
            let m = self.items[i].children.len();
            let mut j: usize = 0;
            while j < m
                invariant
                    items == self.items@,
                    i < items.len(),
                    m == items[i as int].children@.len(),
                    j <= m,
                    forall|a: int, b: int| 0 <= a < i && valid_coords(items, a, b) ==> flat_index(items, a, b) != n,
                    forall|b: int| 0 <= b < j ==> flat_index(items, i as int, b) != n,
                decreases m - j,
            {
                if self.coords_to_flat(i, j) == n {
                    proof {
                        let w = (i as int, j as int);
                        assert(valid_coords(items, w.0, w.1) && flat_index(items, w.0, w.1) == n);
                        let p = choose|p: (int, int)| valid_coords(items, p.0, p.1) && flat_index(items, p.0, p.1) == n;
                        lemma_flat_index_injective(items, p.0, p.1, i as int, j as int);
                    }
                    return Some((i, j));
                }
                j = j + 1;
            }
            i = i + 1;
        }
        proof {
            assert(!(exists|p: (int, int)| valid_coords(items, p.0, p.1) && flat_index(items, p.0, p.1) == n));
        }
        None
    }

    fn refresh_output(&self) -> (m: Vec<FileTreeItem>)
        ensures
            plan_view(m@) == chosen_groups(self.entries(), self.chosen(), self.entries().len() as int),
            two_levels(m@),
    {
        let ghost items = self.items@;
        let ghost sel = self.selected@;
        let mut m: Vec<FileTreeItem> = Vec::new();
        let mut i: usize = 0;
        while i < self.items.len()
            invariant
                items == self.items@,
                sel == self.selected@,
                i <= items.len(),
                plan_view(m@) == chosen_groups(items, sel, i as int),
                two_levels(m@),
            decreases items.len() - i,
        {
            let group = &self.items[i];
            let n = group.children.len();
            let mut children: Vec<FileTreeItem> = Vec::new();
            let mut j: usize = 0;
            while j < n
                invariant
                    items == self.items@,
                    sel == self.selected@,
                    i < items.len(),
                    *group == items[i as int],
                    n == group.children@.len(),
                    j <= n,
                    children@.map_values(|c: FileTreeItem| c.path@) == chosen_files(items, sel, i as int, j as int),
                    forall|k: int| 0 <= k < children@.len() ==> (#[trigger] children@[k]).children@.len() == 0,
                decreases n - j,
            {
                if has_pair(&self.selected, (i, j)) {
                    let ghost before = children@;
                    children.push(FileTreeItem { path: group.children[j].path.clone(), children: Vec::new() });
                    assert(children@.map_values(|c: FileTreeItem| c.path@) =~= before.map_values(
                        |c: FileTreeItem| c.path@,
                    ).push(items[i as int].children@[j as int].path@));
                }
                j = j + 1;
            }
            if children.len() > 0 {
                let ghost before = m@;
                let g = FileTreeItem { path: group.path.clone(), children };
                m.push(g);
                assert(plan_view(m@) =~= plan_view(before).push(group_view(g)));
                assert(group_view(g) == (items[i as int].path@, chosen_files(items, sel, i as int, n as int)));
            }
            i = i + 1;
        }
        m
    }

    /// A list of `items`, highlighting the first line. With `preselect_all` every file starts
    /// selected. When `output` is given, the list publishes it as its selection until the
    /// first time a file is selected or unselected, and from then on the selected files.
    pub fn new(
        title: String,
        items: Vec<FileTreeItem>,
        max_depth: usize,
        output: Option<Vec<FileTreeItem>>,
        preselect_all: bool,
        c: Layout,
    ) -> (list: Self)
        requires
            max_depth <= usize::MAX / 4,
            flat_lines(items@, max_depth as int, 0).len() <= usize::MAX / 4,
            group_offset(items@, items@.len() as int) <= usize::MAX / 4,
        ensures
            list.title() == title@,
            list.entries() == items@,
            list.shown_lines() == flat_lines(items@, max_depth as int, 0),
            list.highlighted() == 0,
            list.scroll() == 0,
            forall|i: usize, j: usize| #[trigger] list.chosen().contains((i, j))
                <==> preselect_all && valid_coords(items@, i as int, j as int),
            list.published() == output,
            list.area() == empty_rect(),
            list.layout() == c,
    {
        let mut lines: Vec<String> = Vec::new();
        flatten_tree(items.as_slice(), max_depth, 0, &mut lines);
        assert(texts(lines@) =~= flat_lines(items@, max_depth as int, 0));

        let mut group_offsets: Vec<usize> = Vec::new();
        let mut selected: Vec<(usize, usize)> = Vec::new();
        let mut offset: usize = 0;
        let mut i: usize = 0;
        while i < items.len()
            invariant
                i <= items@.len(),
                group_offset(items@, items@.len() as int) <= usize::MAX / 4,
                offset == group_offset(items@, i as int),
                group_offsets@.len() == i,
                forall|k: int| 0 <= k < i ==> #[trigger] group_offsets@[k] == group_offset(items@, k),
                forall|k: int| 0 <= k < selected@.len() ==> valid_coords(
                    items@,
                    #[trigger] selected@[k].0 as int,
                    selected@[k].1 as int,
                ),
                forall|k: int| 0 <= k < selected@.len() ==> (#[trigger] selected@[k]).0 < i,
                selected@.no_duplicates(),
                forall|a: int, b: int| 0 <= a < i && 0 <= b && #[trigger] valid_coords(items@, a, b)
                    ==> (selected@.contains((a as usize, b as usize)) <==> preselect_all),
            decreases items@.len() - i,
        {
            group_offsets.push(offset);
            let n = items[i].children.len();
            if preselect_all {
                let mut j: usize = 0;
                while j < n
                    invariant
                        i < items@.len(),
                        n == items@[i as int].children@.len(),
                        j <= n,
                        forall|k: int| 0 <= k < selected@.len() ==> valid_coords(
                            items@,
                            #[trigger] selected@[k].0 as int,
                            selected@[k].1 as int,
                        ),
                        forall|k: int| 0 <= k < selected@.len() ==> (#[trigger] selected@[k]).0 < i || (
                            selected@[k].0 == i && selected@[k].1 < j),
                        selected@.no_duplicates(),
                        forall|a: int, b: int| 0 <= a < i && 0 <= b && #[trigger] valid_coords(items@, a, b)
                            ==> selected@.contains((a as usize, b as usize)),
                        forall|b: int| 0 <= b < j ==> #[trigger] selected@.contains((i, b as usize)),
                    decreases n - j,
                {
                    let ghost old_sel = selected@;
                    selected.push((i, j));
                    proof {
                        assert forall|a: int, b: int| 0 <= a < i && 0 <= b && #[trigger] valid_coords(items@, a, b)
                            implies selected@.contains((a as usize, b as usize)) by {
                            assert(old_sel.contains((a as usize, b as usize)));
                            let k = choose|k: int| 0 <= k < old_sel.len() && old_sel[k] == (a as usize, b as usize);
                            assert(selected@[k] == old_sel[k]);
                        }
                        assert forall|b: int| 0 <= b < j + 1 implies #[trigger] selected@.contains((i, b as usize)) by {
                            if b < j {
                                assert(old_sel.contains((i, b as usize)));
                                let k = choose|k: int| 0 <= k < old_sel.len() && old_sel[k] == (i, b as usize);
                                assert(selected@[k] == old_sel[k]);
                            } else {
                                assert(selected@[old_sel.len() as int] == (i, j));
                            }
                        }
                    }
                    j = j + 1;
                }
            }
            proof {
                lemma_group_offset_grows(items@, i as int, items@.len() as int);
                assert forall|a: int, b: int| 0 <= a < i + 1 && 0 <= b && #[trigger] valid_coords(items@, a, b)
                    implies (selected@.contains((a as usize, b as usize)) <==> preselect_all) by {
                    if !preselect_all {
                        if selected@.contains((a as usize, b as usize)) {
                            let k = choose|k: int| 0 <= k < selected@.len() && selected@[k] == (a as usize, b as usize);
                            assert(selected@[k].0 < i);
                        }
                    } else if a == i {
                        assert(selected@.contains((i, b as usize)));
                    }
                }
            }
            offset = offset + n + 1;
            i = i + 1;
        }

        proof {
            assert forall|a: usize, b: usize| #[trigger] selected@.contains((a, b))
                <==> preselect_all && valid_coords(items@, a as int, b as int) by {
                if selected@.contains((a, b)) {
                    let k = choose|k: int| 0 <= k < selected@.len() && selected@[k] == (a, b);
                    assert(valid_coords(items@, selected@[k].0 as int, selected@[k].1 as int));
                }
                if valid_coords(items@, a as int, b as int) {
                    assert(selected@.contains((a as int as usize, b as int as usize)) <==> preselect_all);
                }
            }
        }
        Self {
            title,
            items,
            highlighted_line: 0,
            selected,
            max_depth,
            scroll_offset: 0,
            lines,
            output,
            group_offsets,
            r: Rect::new(0, 0, 0, 0),
            layout_cb: c,
        }
    }
}

impl Widget for UIFileList {
    open spec fn can_resize(&self, w: u16, h: u16) -> bool {
        layout_fits(self.layout(), w, h)
    }

    open spec fn can_draw(&self, w: u16, h: u16) -> bool {
        &&& needs_layout(self.area()) ==> layout_fits(self.layout(), w, h)
        &&& list_fits(draw_area(self.area(), self.layout(), w, h), self.shown_lines().len() as int, self.scroll())
    }

    open spec fn can_handle(&self, key: Key) -> bool {
        key == Key::Char('j') ==> self.shown_lines().len() == 0 || self.area().h >= 2
    }

    fn resize_ok(&self, w: u16, h: u16) -> (ok: bool) {
        self.layout_cb.fits(w, h)
    }

    fn draw_ok(&self, w: u16, h: u16) -> (ok: bool) {
        proof {
            use_type_invariant(self);
        }
        let needs = self.r.h == 0 || self.r.w == 0;
        if needs && !self.layout_cb.fits(w, h) {
            return false;
        }
        let r = if needs { self.layout_cb.rect(w, h) } else { self.r };
        let x_end = r.x as u32 + r.w as u32;
        let y_end = r.y as u32 + r.h as u32;
        if !(x_end >= 1 && x_end <= 0xFFFF && y_end >= 1 && y_end <= 0xFFFF && r.y < 0xFFFF) {
            return false;
        }
        let inner_h = (r.h as usize).saturating_sub(2);
        let l = self.lines.len();
        let rows = if self.scroll_offset >= l { 0 } else if inner_h < l - self.scroll_offset { inner_h } else { l - self.scroll_offset };
        rows == 0 || r.x as u32 + 3 <= 0xFFFF
    }

    fn input_ok(&self, key: Key) -> (ok: bool) {
        match key {
            Key::Char(c) => c != 'j' || self.lines.len() == 0 || self.r.h >= 2,
            _ => true,
        }
    }

    fn handle_buf_size_change(&mut self, w: u16, h: u16)
        ensures
            final(self).area() == layout_rect(old(self).layout(), w, h),
            final(self).title() == old(self).title(),
            final(self).entries() == old(self).entries(),
            final(self).shown_lines() == old(self).shown_lines(),
            final(self).highlighted() == old(self).highlighted(),
            final(self).scroll() == old(self).scroll(),
            final(self).chosen() == old(self).chosen(),
            final(self).published() == old(self).published(),
            final(self).layout() == old(self).layout(),
    {
        proof {
            use_type_invariant(&*self);
        }
        self.r = self.layout_cb.rect(w, h);
    }

    fn draw(&mut self, buffer: &mut Buffer, focused: bool)
        ensures
            final(self).area() == draw_area(old(self).area(), old(self).layout(), old(buffer).width, old(buffer).height),
            final(self).title() == old(self).title(),
            final(self).entries() == old(self).entries(),
            final(self).shown_lines() == old(self).shown_lines(),
            final(self).highlighted() == old(self).highlighted(),
            final(self).scroll() == old(self).scroll(),
            final(self).chosen() == old(self).chosen(),
            final(self).published() == old(self).published(),
            final(self).layout() == old(self).layout(),
            final(buffer).grid() == list_drawn(
                old(buffer).grid(),
                final(self).area(),
                old(self).title(),
                old(self).shown_lines(),
                old(self).scroll(),
                old(self).highlighted(),
                focused,
                Some(selected_lines(old(self).entries(), old(self).chosen())),
            ),
    {
        if self.r.h == 0 || self.r.w == 0 {
            self.handle_buf_size_change(buffer.width, buffer.height);
        }
        proof {
            use_type_invariant(&*self);
        }
        let mut lines_selected: Vec<usize> = Vec::new();
        let mut k: usize = 0;
        while k < self.selected.len()
            invariant
                k <= self.selected@.len(),
                forall|m: int| 0 <= m < self.selected@.len() ==> valid_coords(
                    self.items@,
                    #[trigger] self.selected@[m].0 as int,
                    self.selected@[m].1 as int,
                ),
                lines_selected@ == selected_lines(self.items@, self.selected@.take(k as int)),
            decreases self.selected@.len() - k,
        {
            let (i, j) = self.selected[k];
            assert(valid_coords(self.items@, self.selected@[k as int].0 as int, self.selected@[k as int].1 as int));
            let n = self.coords_to_flat(i, j);
            lines_selected.push(n);
            assert(lines_selected@ =~= selected_lines(self.items@, self.selected@.take(k + 1)));
            k = k + 1;
        }
        assert(self.selected@.take(k as int) =~= self.selected@);
        draw_string_list_flat(
            buffer,
            &self.r,
            self.title.as_str(),
            &self.lines,
            self.scroll_offset,
            self.highlighted_line,
            focused,
            Some(lines_selected),
        );
    }

    fn handle_input(&mut self, key: Key)
        ensures
            final(self).highlighted() == highlight_after(old(self).highlighted(), old(self).shown_lines().len() as int, key),
            final(self).scroll() == scroll_after(
                old(self).scroll(),
                old(self).highlighted(),
                old(self).shown_lines().len() as int,
                old(self).area().h - 2,
                key,
            ),
            key == Key::Space && coords_at(old(self).entries(), old(self).highlighted()) is Some ==> toggled(
                old(self).chosen(),
                final(self).chosen(),
                coords_at(old(self).entries(), old(self).highlighted())->0,
            ),
            !(key == Key::Space && coords_at(old(self).entries(), old(self).highlighted()) is Some) ==> final(self).chosen()
                == old(self).chosen(),
            key == Key::Space && coords_at(old(self).entries(), old(self).highlighted()) is Some && old(self).published() is Some
                ==> {
                &&& final(self).published() is Some
                &&& plan_view(final(self).published()->0@) == chosen_groups(
                    old(self).entries(),
                    final(self).chosen(),
                    old(self).entries().len() as int,
                )
                &&& two_levels(final(self).published()->0@)
            },
            !(key == Key::Space && coords_at(old(self).entries(), old(self).highlighted()) is Some && old(self).published() is Some)
                ==> final(self).published() == old(self).published(),
            final(self).title() == old(self).title(),
            final(self).entries() == old(self).entries(),
            final(self).shown_lines() == old(self).shown_lines(),
            final(self).area() == old(self).area(),
            final(self).layout() == old(self).layout(),
    {
        proof {
            use_type_invariant(&*self);
        }
        match key {
            Key::Char('k') => {
                if self.highlighted_line > 0 {
                    self.highlighted_line -= 1;
                }
                if self.scroll_offset > 0 && self.highlighted_line <= self.scroll_offset + 1 {
                    self.scroll_offset -= 1;
                }
            },
            Key::Char('j') => {
                let l = self.lines.len();

                if l == 0 {
                    return;
                }
                if self.highlighted_line < l - 1 {
                    self.highlighted_line += 1;
                }

                let h = (self.r.h - 2) as usize;
                if l < h {
                    return;
                }

                let max_scroll = l - h;
                if self.scroll_offset >= max_scroll {
                    return;
                }
                if self.scroll_offset + self.highlighted_line + 1 >= h {
                    self.scroll_offset += 1;
                }
            },
            Key::Space => {
                let coords = match self.flat_to_coords(self.highlighted_line) {
                    Some(c) => c,
                    None => {
                        return;
                    },
                };
                let ghost p = coords_at(self.items@, self.highlighted_line as int)->0;
                let ghost before = self.selected@;
                assert(valid_coords(self.items@, p.0, p.1)) by {
                    assert(exists|q: (int, int)| valid_coords(self.items@, q.0, q.1) && flat_index(self.items@, q.0, q.1)
                        == self.highlighted_line as int);
                }
                let mut sel: Vec<(usize, usize)> = Vec::new();
                std::mem::swap(&mut sel, &mut self.selected);
                match find_pair(&sel, coords) {
                    Some(k) => {
                        sel.remove(k);
                        proof {
                            assert forall|q: (usize, usize)| #[trigger] sel@.contains(q)
                                <==> (before.contains(q) != (q.0 as int == p.0 && q.1 as int == p.1)) by {
                                if sel@.contains(q) {
                                    let m = choose|m: int| 0 <= m < sel@.len() && sel@[m] == q;
                                    if m < k {
                                        assert(before[m] == q);
                                    } else {
                                        assert(before[m + 1] == q);
                                    }
                                }
                                if before.contains(q) && q != coords {
                                    let m = choose|m: int| 0 <= m < before.len() && before[m] == q;
                                    if m < k {
                                        assert(sel@[m] == q);
                                    } else if m > k {
                                        assert(sel@[m - 1] == q);
                                    }
                                }
                            }
                        }
                    },
                    None => {
                        sel.push(coords);
                        proof {
                            assert forall|q: (usize, usize)| #[trigger] sel@.contains(q)
                                <==> (before.contains(q) != (q.0 as int == p.0 && q.1 as int == p.1)) by {
                                if sel@.contains(q) {
                                    let m = choose|m: int| 0 <= m < sel@.len() && sel@[m] == q;
                                    if m < before.len() {
                                        assert(before[m] == q);
                                    }
                                }
                                if before.contains(q) {
                                    let m = choose|m: int| 0 <= m < before.len() && before[m] == q;
                                    assert(sel@[m] == q);
                                }
                                if q == coords {
                                    assert(sel@[before.len() as int] == q);
                                }
                            }
                        }
                    },
                }

                proof {
                    assert forall|m: int| 0 <= m < sel@.len() implies valid_coords(
                        self.items@,
                        #[trigger] sel@[m].0 as int,
                        sel@[m].1 as int,
                    ) by {
                        if !before.contains(sel@[m]) {
                            assert(sel@[m].0 as int == p.0 && sel@[m].1 as int == p.1);
                        } else {
                            let n = choose|n: int| 0 <= n < before.len() && before[n] == sel@[m];
                        }
                    }
                }
                self.selected = sel;
                if self.output.is_some() {
                    self.output = Some(self.refresh_output());
                }
            },
            _ => (),
        }
    }

    fn take_events(&mut self) -> (events: Vec<Event>)
        ensures
            events@ == Seq::<Event>::empty(),
    {
        Vec::new()
    }

    fn selection(&self) -> (items: Option<Vec<FileTreeItem>>)
        ensures
            match (items, self.published()) {
                (Some(v), Some(o)) => v@.len() == o@.len() && forall|k: int| 0 <= k < v@.len() ==> #[trigger] same_tree(v@[k], o@[k]),
                (None, None) => true,
                _ => false,
            },
    {
        match &self.output {
            Some(o) => {
                let mut v: Vec<FileTreeItem> = Vec::new();
                let mut k: usize = 0;
                while k < o.len()
                    invariant
                        k <= o@.len(),
                        v@.len() == k,
                        forall|m: int| 0 <= m < k ==> #[trigger] same_tree(v@[m], o@[m]),
                    decreases o@.len() - k,
                {
                    v.push(o[k].deep_copy());
                    k = k + 1;
                }
                Some(v)
            },
            None => None,
        }
    }
}

} // verus!
