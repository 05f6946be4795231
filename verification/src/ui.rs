//! Drawing primitives on a [`Buffer`]: rectangles, boxes and scrolling lists.
use vstd::prelude::*;
use crate::buffer::{Buffer, Cell, Color, text_overlay, lemma_text_overlay_at};
use crate::text::{prefix, take_chars};

verus! {

/// A rectangle on the screen: top-left corner, width and height.
#[derive(Clone, Copy)]
pub struct Rect {
    pub x: u16,
    pub y: u16,
    pub w: u16,
    pub h: u16,
}

impl Rect {
    pub fn new(x: u16, y: u16, w: u16, h: u16) -> (r: Self)
        ensures
            r.x == x,
            r.y == y,
            r.w == w,
            r.h == h,
    {
        Self { x, y, w, h }
    }
}

/// The rectangle with no area at the origin.
pub open spec fn empty_rect() -> Rect {
    Rect { x: 0, y: 0, w: 0, h: 0 }
}

/// The colour of a box's border: yellow when focused, grey otherwise.
pub open spec fn border_color(focused: bool) -> Color {
    if focused {
        Color::Yellow
    } else {
        Color::Grey
    }
}

/// The border character at column `x` of the top (`top`) or bottom row of box `r`.
pub open spec fn edge_char(r: Rect, x: int, top: bool) -> char {
    if x == r.x {
        if top { '┌' } else { '└' }
    } else if x == r.x + r.w - 1 {
        if top { '┐' } else { '┘' }
    } else {
        '─'
    }
}

/// The cell at `p` once the top and bottom rows of box `r` are drawn in the columns before
/// `upto`; where the two rows coincide the bottom one was drawn last.
pub open spec fn edges_cell(g: Map<(int, int), Cell>, r: Rect, fg: Color, upto: int, p: (int, int)) -> Cell {
    if r.x <= p.0 < upto && p.1 == r.y + r.h - 1 {
        Cell { c: edge_char(r, p.0, false), color: fg, bg: Color::Black }
    } else if r.x <= p.0 < upto && p.1 == r.y {
        Cell { c: edge_char(r, p.0, true), color: fg, bg: Color::Black }
    } else {
        g[p]
    }
}

/// `g` with the top and bottom rows of box `r` drawn in the columns before `upto`.
pub open spec fn box_edges(g: Map<(int, int), Cell>, r: Rect, fg: Color, upto: int) -> Map<(int, int), Cell> {
    Map::new(|p: (int, int)| g.dom().contains(p), |p: (int, int)| edges_cell(g, r, fg, upto, p))
}

/// The cell at `p` once the left and right sides of box `r` are drawn in the rows strictly
/// between its top row and `upto`.
pub open spec fn sides_cell(g: Map<(int, int), Cell>, r: Rect, fg: Color, upto: int, p: (int, int)) -> Cell {
    if (p.0 == r.x || p.0 == r.x + r.w - 1) && r.y < p.1 < upto {
        Cell { c: '│', color: fg, bg: Color::Black }
    } else {
        g[p]
    }
}

/// `g` with the sides of box `r` drawn in the rows strictly between its top row and `upto`.
pub open spec fn box_sides(g: Map<(int, int), Cell>, r: Rect, fg: Color, upto: int) -> Map<(int, int), Cell> {
    Map::new(|p: (int, int)| g.dom().contains(p), |p: (int, int)| sides_cell(g, r, fg, upto, p))
}

/// The title as a box shows it: padded with a space on each side, cut to the width less 4.
pub open spec fn box_title(r: Rect, title: Seq<char>) -> Seq<char> {
    prefix(seq![' '] + title + seq![' '], r.w - 4)
}

/// Whether the title is drawn at all: it must be non-empty and the box wider than 4.
pub open spec fn shows_title(r: Rect, title: Seq<char>) -> bool {
    title.len() > 0 && r.w > 4
}

/// `g` with box `r` drawn: top and bottom rows, then the sides, then the title three columns
/// in from the left on the top row.
pub open spec fn box_overlay(g: Map<(int, int), Cell>, r: Rect, title: Seq<char>, focused: bool) -> Map<(int, int), Cell> {
    let fg = border_color(focused);
    let framed = box_sides(box_edges(g, r, fg, r.x + r.w), r, fg, r.y + r.h - 1);
    if shows_title(r, title) {
        text_overlay(framed, r.x + 3, r.y as int, box_title(r, title), fg, Color::Black)
    } else {
        framed
    }
}

/// The rectangles for which drawing a box does not overflow `u16` arithmetic.
pub open spec fn box_fits(r: Rect) -> bool {
    &&& 1 <= r.x + r.w <= 0xFFFF
    &&& 1 <= r.y + r.h <= 0xFFFF
    &&& r.y < 0xFFFF
}

/// The cell at `p` once the `w` by `h` rectangle with top-left corner (`x`, `y`) is filled
/// with `cell`.
pub open spec fn fill_cell(g: Map<(int, int), Cell>, x: int, y: int, w: int, h: int, cell: Cell, p: (int, int)) -> Cell {
    if x <= p.0 < x + w && y <= p.1 < y + h {
        cell
    } else {
        g[p]
    }
}

/// `g` with the `w` by `h` rectangle at (`x`, `y`) filled with `cell`.
pub open spec fn fill_overlay(g: Map<(int, int), Cell>, x: int, y: int, w: int, h: int, cell: Cell) -> Map<(int, int), Cell> {
    Map::new(|p: (int, int)| g.dom().contains(p), |p: (int, int)| fill_cell(g, x, y, w, h, cell, p))
}

/// `g` with the rectangle `r` filled with `cell`.
pub open spec fn rect_overlay(g: Map<(int, int), Cell>, r: Rect, cell: Cell) -> Map<(int, int), Cell> {
    fill_overlay(g, r.x as int, r.y as int, r.w as int, r.h as int, cell)
}

/// The rectangles that can be filled without overflowing `u16` arithmetic.
pub open spec fn fill_fits(r: Rect) -> bool {
    &&& r.y + r.h <= 0xFFFF
    &&& r.h > 0 ==> r.x + r.w <= 0xFFFF
}

proof fn lemma_edges_at(g: Map<(int, int), Cell>, r: Rect, fg: Color, upto: int, p: (int, int))
    ensures
        box_edges(g, r, fg, upto).dom() == g.dom(),
        g.dom().contains(p) ==> box_edges(g, r, fg, upto)[p] == edges_cell(g, r, fg, upto, p),
{
    assert(box_edges(g, r, fg, upto).dom() =~= g.dom());
}

proof fn lemma_sides_at(g: Map<(int, int), Cell>, r: Rect, fg: Color, upto: int, p: (int, int))
    ensures
        box_sides(g, r, fg, upto).dom() == g.dom(),
        g.dom().contains(p) ==> box_sides(g, r, fg, upto)[p] == sides_cell(g, r, fg, upto, p),
{
    assert(box_sides(g, r, fg, upto).dom() =~= g.dom());
}

proof fn lemma_fill_at(g: Map<(int, int), Cell>, x: int, y: int, w: int, h: int, cell: Cell, p: (int, int))
    ensures
        fill_overlay(g, x, y, w, h, cell).dom() == g.dom(),
        g.dom().contains(p) ==> fill_overlay(g, x, y, w, h, cell)[p] == fill_cell(g, x, y, w, h, cell, p),
{
    assert(fill_overlay(g, x, y, w, h, cell).dom() =~= g.dom());
}

/// Draw a box border with Unicode box-drawing characters.
pub fn draw_box(buf: &mut Buffer, r: &Rect, title: &str, focused: bool)
    requires
        old(buf).wf(),
        box_fits(*r),
    ensures
        final(buf).wf(),
        final(buf).width == old(buf).width,
        final(buf).height == old(buf).height,
        final(buf).shown() == old(buf).shown(),
        final(buf).grid() == box_overlay(old(buf).grid(), *r, title@, focused),
{
    let border_fg = if focused { Color::Yellow } else { Color::Grey };
    let bg = Color::Black;
    let ghost g0 = buf.grid();
    let ghost rr = *r;

    let min_x = r.x;
    let max_x = r.x + r.w - 1;
    let max_y = r.y + r.h - 1;

    let mut x = min_x;
    while x < max_x + 1
        invariant
            buf.wf(),
            buf.width == old(buf).width,
            buf.height == old(buf).height,
            buf.shown() == old(buf).shown(),
            g0 == old(buf).grid(),
            rr == *r,
            box_fits(rr),
            min_x == r.x,
            max_x == r.x + r.w - 1,
            max_y == r.y + r.h - 1,
            border_fg == border_color(focused),
            bg == Color::Black,
            min_x <= x <= max_x + 1 || (x == min_x && max_x + 1 < min_x),
            buf.grid() == box_edges(g0, rr, border_fg, x as int),
        decreases max_x + 1 - x,
    {
        let ghost before = buf.grid();
        let (top, bottom) = if x == min_x {
            ('┌', '└')
        } else if x == max_x {
            ('┐', '┘')
        } else {
            ('─', '─')
        };
        buf.set(x, r.y, top, border_fg, bg);
        let ghost mid = buf.grid();
        buf.set(x, max_y, bottom, border_fg, bg);
        proof {
            assert forall|p: (int, int)| #[trigger] g0.dom().contains(p) implies buf.grid()[p]
                == box_edges(g0, rr, border_fg, x + 1)[p] by {
                lemma_edges_at(g0, rr, border_fg, x as int, p);
                lemma_edges_at(g0, rr, border_fg, x + 1, p);
            }
            lemma_edges_at(g0, rr, border_fg, x + 1, (0, 0));
            assert(buf.grid() =~= box_edges(g0, rr, border_fg, x + 1));
        }
        x = x + 1;
    }
    let ghost g1 = buf.grid();
    assert(g1 == box_edges(g0, rr, border_fg, rr.x + rr.w));

    let mut y = r.y + 1;
    while y < max_y
        invariant
            buf.wf(),
            buf.width == old(buf).width,
            buf.height == old(buf).height,
            buf.shown() == old(buf).shown(),
            rr == *r,
            box_fits(rr),
            min_x == r.x,
            max_x == r.x + r.w - 1,
            max_y == r.y + r.h - 1,
            border_fg == border_color(focused),
            bg == Color::Black,
            r.y + 1 <= y,
            y <= max_y || y == r.y + 1,
            buf.grid() == box_sides(g1, rr, border_fg, y as int),
        decreases max_y - y,
    {
        buf.set(min_x, y, '│', border_fg, bg);
        buf.set(max_x, y, '│', border_fg, bg);
        proof {
            assert forall|p: (int, int)| #[trigger] g1.dom().contains(p) implies buf.grid()[p]
                == box_sides(g1, rr, border_fg, y + 1)[p] by {
                lemma_sides_at(g1, rr, border_fg, y as int, p);
                lemma_sides_at(g1, rr, border_fg, y + 1, p);
            }
            lemma_sides_at(g1, rr, border_fg, y + 1, (0, 0));
            assert(buf.grid() =~= box_sides(g1, rr, border_fg, y + 1));
        }
        y = y + 1;
    }
    proof {
        if y != max_y {
            // No side rows at all: the sides overlay is the identity.
            assert forall|p: (int, int)| #[trigger] g1.dom().contains(p) implies box_sides(g1, rr, border_fg, y as int)[p]
                == box_sides(g1, rr, border_fg, rr.y + rr.h - 1)[p] by {
                lemma_sides_at(g1, rr, border_fg, y as int, p);
                lemma_sides_at(g1, rr, border_fg, rr.y + rr.h - 1, p);
            }
            lemma_sides_at(g1, rr, border_fg, y as int, (0, 0));
            lemma_sides_at(g1, rr, border_fg, rr.y + rr.h - 1, (0, 0));
            assert(box_sides(g1, rr, border_fg, y as int) =~= box_sides(g1, rr, border_fg, rr.y + rr.h - 1));
        }
    }

    // title
    if !title.is_empty() && r.w > 4 {
        let mut t = String::new();
        t.push(' ');
        t.append(title);
        t.push(' ');
        let max_len = (r.w - 4) as usize;
        let display = take_chars(t.as_str(), max_len);
        assert(t@ =~= seq![' '] + title@ + seq![' ']);
        buf.put_str(r.x + 3, r.y, display.as_str(), border_fg, bg);
    }
}

/// Fills the rectangle `r` with the character `c` in the given colours.
pub fn fill_rect(buf: &mut Buffer, r: &Rect, c: char, fg: Color, bg: Color)
    requires
        old(buf).wf(),
        fill_fits(*r),
    ensures
        final(buf).wf(),
        final(buf).width == old(buf).width,
        final(buf).height == old(buf).height,
        final(buf).shown() == old(buf).shown(),
        final(buf).grid() == rect_overlay(old(buf).grid(), *r, Cell { c, color: fg, bg }),
{
    let ghost g0 = buf.grid();
    let ghost cell = Cell { c, color: fg, bg };
    let rx = r.x;
    let ry = r.y;
    let rw = r.w;
    let rh = r.h;
    let mut y = ry;
    while y < ry + rh
        invariant
            buf.wf(),
            buf.width == old(buf).width,
            buf.height == old(buf).height,
            buf.shown() == old(buf).shown(),
            g0 == old(buf).grid(),
            cell == (Cell { c, color: fg, bg }),
            rx == r.x,
            ry == r.y,
            rw == r.w,
            rh == r.h,
            fill_fits(*r),
            ry <= y <= ry + rh,
            buf.grid() == fill_overlay(g0, rx as int, ry as int, rw as int, y - ry, cell),
        decreases ry + rh - y,
    {
        let ghost g_row = buf.grid();
        let mut x = rx;
        while x < rx + rw
            invariant
                buf.wf(),
                buf.width == old(buf).width,
                buf.height == old(buf).height,
                buf.shown() == old(buf).shown(),
                cell == (Cell { c, color: fg, bg }),
                rx == r.x,
                ry == r.y,
                rw == r.w,
                rh == r.h,
                fill_fits(*r),
                ry <= y < ry + rh,
                rx <= x <= rx + rw,
                g_row == fill_overlay(g0, rx as int, ry as int, rw as int, y - ry, cell),
                buf.grid() == fill_overlay(g_row, rx as int, y as int, x - rx, 1, cell),
            decreases rx + rw - x,
        {
            buf.set(x, y, c, fg, bg);
            proof {
                lemma_fill_at(g_row, rx as int, y as int, x - rx, 1, cell, (0, 0));
                lemma_fill_at(g_row, rx as int, y as int, x + 1 - rx, 1, cell, (0, 0));
                assert forall|p: (int, int)| #[trigger] g_row.dom().contains(p) implies buf.grid()[p]
                    == fill_overlay(g_row, rx as int, y as int, x + 1 - rx, 1, cell)[p] by {
                    lemma_fill_at(g_row, rx as int, y as int, x - rx, 1, cell, p);
                    lemma_fill_at(g_row, rx as int, y as int, x + 1 - rx, 1, cell, p);
                }
                assert(buf.grid() =~= fill_overlay(g_row, rx as int, y as int, x + 1 - rx, 1, cell));
            }
            x = x + 1;
        }
        proof {
            lemma_fill_at(g0, rx as int, ry as int, rw as int, y - ry, cell, (0, 0));
            lemma_fill_at(g0, rx as int, ry as int, rw as int, y + 1 - ry, cell, (0, 0));
            lemma_fill_at(g_row, rx as int, y as int, x - rx, 1, cell, (0, 0));
            assert forall|p: (int, int)| #[trigger] g0.dom().contains(p) implies buf.grid()[p]
                == fill_overlay(g0, rx as int, ry as int, rw as int, y + 1 - ry, cell)[p] by {
                lemma_fill_at(g0, rx as int, ry as int, rw as int, y - ry, cell, p);
                lemma_fill_at(g0, rx as int, ry as int, rw as int, y + 1 - ry, cell, p);
                lemma_fill_at(g_row, rx as int, y as int, x - rx, 1, cell, p);
            }
            assert(buf.grid() =~= fill_overlay(g0, rx as int, ry as int, rw as int, y + 1 - ry, cell));
        }
        y = y + 1;
    }
}

/// `a - b`, or 0 when `b` is larger.
pub open spec fn sat_sub(a: int, b: int) -> int {
    if a >= b {
        a - b
    } else {
        0
    }
}

/// The colours of a list row: highlighted rows stand out most, then selected ones.
pub open spec fn list_row_colors(focused: bool, highlighted: bool, selected: bool) -> (Color, Color) {
    if focused {
        if highlighted {
            (Color::Black, Color::Yellow)
        } else if selected {
            (Color::Black, Color::Green)
        } else {
            (Color::White, Color::Reset)
        }
    } else {
        if highlighted {
            (Color::Black, Color::Grey)
        } else if selected {
            (Color::Green, Color::Black)
        } else {
            (Color::White, Color::Reset)
        }
    }
}

/// Columns available to a list row: the width less three columns of margin on each side.
pub open spec fn list_inner_w(r: Rect) -> int {
    sat_sub(r.w as int, 6)
}

/// Rows available to list items: the height less the top and bottom border.
pub open spec fn list_inner_h(r: Rect) -> int {
    sat_sub(r.h as int, 2)
}

/// How many items a list shows: those from `scroll` on, as many as fit.
pub open spec fn list_rows(r: Rect, n: int, scroll: int) -> int {
    let avail = sat_sub(n, scroll);
    if list_inner_h(r) < avail {
        list_inner_h(r)
    } else {
        avail
    }
}

/// The indices in an optional selection.
pub open spec fn selection_view(selected: Option<Vec<usize>>) -> Option<Seq<usize>> {
    match selected {
        Some(v) => Some(v@),
        None => None,
    }
}

/// Whether item `k` is among the selected items.
pub open spec fn is_selected(selected: Option<Seq<usize>>, k: int) -> bool {
    match selected {
        Some(v) => v.contains(k as usize),
        None => false,
    }
}

/// The cell at `p` once the first `upto` visible rows of a list are drawn inside `r`: row `i`
/// shows item `scroll + i`, cut to the row's width and padded with spaces, in its colours.
pub open spec fn list_cell(
    g: Map<(int, int), Cell>,
    r: Rect,
    lines: Seq<Seq<char>>,
    scroll: int,
    highlighted: int,
    focused: bool,
    selected: Option<Seq<usize>>,
    upto: int,
    p: (int, int),
) -> Cell {
    let i = p.1 - r.y - 1;
    let x0 = r.x + 3;
    if 0 <= i < upto && x0 <= p.0 < x0 + list_inner_w(r) {
        let k = scroll + i;
        let line = prefix(lines[k], list_inner_w(r));
        let colors = list_row_colors(focused, highlighted == k, is_selected(selected, k));
        let j = p.0 - x0;
        Cell { c: if j < line.len() { line[j] } else { ' ' }, color: colors.0, bg: colors.1 }
    } else {
        g[p]
    }
}

/// `g` with the first `upto` visible rows of a list drawn inside `r`.
pub open spec fn list_overlay(
    g: Map<(int, int), Cell>,
    r: Rect,
    lines: Seq<Seq<char>>,
    scroll: int,
    highlighted: int,
    focused: bool,
    selected: Option<Seq<usize>>,
    upto: int,
) -> Map<(int, int), Cell> {
    Map::new(
        |p: (int, int)| g.dom().contains(p),
        |p: (int, int)| list_cell(g, r, lines, scroll, highlighted, focused, selected, upto, p),
    )
}

/// The characters of each string.
pub open spec fn texts(v: Seq<String>) -> Seq<Seq<char>> {
    v.map_values(|s: String| s@)
}

/// `g` with the list drawn in box `r`: the box, then each visible item on its own row.
pub open spec fn list_drawn(
    g: Map<(int, int), Cell>,
    r: Rect,
    title: Seq<char>,
    lines: Seq<Seq<char>>,
    scroll: int,
    highlighted: int,
    focused: bool,
    selected: Option<Seq<usize>>,
) -> Map<(int, int), Cell> {
    list_overlay(
        box_overlay(g, r, title, focused),
        r,
        lines,
        scroll,
        highlighted,
        focused,
        selected,
        list_rows(r, lines.len() as int, scroll),
    )
}

/// The lists that can be drawn in `r` without overflowing `u16` arithmetic.
pub open spec fn list_fits(r: Rect, n: int, scroll: int) -> bool {
    &&& box_fits(r)
    &&& list_rows(r, n, scroll) > 0 ==> r.x + 3 <= 0xFFFF
}

proof fn lemma_list_at(
    g: Map<(int, int), Cell>,
    r: Rect,
    lines: Seq<Seq<char>>,
    scroll: int,
    highlighted: int,
    focused: bool,
    selected: Option<Seq<usize>>,
    upto: int,
    p: (int, int),
)
    ensures
        list_overlay(g, r, lines, scroll, highlighted, focused, selected, upto).dom() == g.dom(),
        g.dom().contains(p) ==> list_overlay(g, r, lines, scroll, highlighted, focused, selected, upto)[p]
            == list_cell(g, r, lines, scroll, highlighted, focused, selected, upto, p),
{
    assert(list_overlay(g, r, lines, scroll, highlighted, focused, selected, upto).dom() =~= g.dom());
}

fn contains_index(v: &Vec<usize>, k: usize) -> (b: bool)
    ensures
        b == v@.contains(k),
{
    let mut i: usize = 0;
    while i < v.len()
        invariant
            i <= v@.len(),
            forall|j: int| 0 <= j < i ==> v@[j] != k,
        decreases v@.len() - i,
    {
        if v[i] == k {
            assert(v@[i as int] == k);
            return true;
        }
        i = i + 1;
    }
    false
}

fn string_at(v: &Vec<String>, i: usize) -> (s: &String)
    requires
        i < v@.len(),
    ensures
        s@ == v@[i as int]@,
{
    &v[i]
}

/// Draws a boxed list of lines, scrolled by `scroll_offset`; the highlighted and the selected
/// items are coloured.
pub fn draw_string_list_flat(
    buf: &mut Buffer,
    r: &Rect,
    title: &str,
    lines: &Vec<String>,
    scroll_offset: usize,
    highlighted_n: usize,
    focused: bool,
    selected: Option<Vec<usize>>,
)
    requires
        old(buf).wf(),
        list_fits(*r, lines@.len() as int, scroll_offset as int),
    ensures
        final(buf).wf(),
        final(buf).width == old(buf).width,
        final(buf).height == old(buf).height,
        final(buf).shown() == old(buf).shown(),
        final(buf).grid() == list_drawn(
            old(buf).grid(),
            *r,
            title@,
            texts(lines@),
            scroll_offset as int,
            highlighted_n as int,
            focused,
            selection_view(selected),
        ),
{
    draw_box(buf, r, title, focused);
    let ghost g1 = buf.grid();
    let ghost sel = selection_view(selected);
    let ghost ls = texts(lines@);
    let ghost rr = *r;

    let lm: usize = 3;
    let rm: usize = 3;
    let tm: usize = 1;
    let bm: usize = 1;

    let inner_w = (r.w as usize).saturating_sub(lm + rm);
    let inner_h = (r.h as usize).saturating_sub(tm + bm);

    let mut i: usize = 0;
    while i < inner_h && scroll_offset < lines.len() && i < lines.len() - scroll_offset
        invariant
            buf.wf(),
            buf.width == old(buf).width,
            buf.height == old(buf).height,
            buf.shown() == old(buf).shown(),
            rr == *r,
            list_fits(rr, lines@.len() as int, scroll_offset as int),
            ls == texts(lines@),
            sel == (selection_view(selected)),
            inner_w == list_inner_w(rr),
            inner_h == list_inner_h(rr),
            lm == 3,
            tm == 1,
            i <= list_rows(rr, lines@.len() as int, scroll_offset as int),
            buf.grid() == list_overlay(g1, rr, ls, scroll_offset as int, highlighted_n as int, focused, sel, i as int),
        decreases inner_h - i,
    {
        let item_idx = i + scroll_offset;
        let item_highlighted = highlighted_n == item_idx;
        let item_selected = match &selected {
            Some(v) => contains_index(v, item_idx),
            None => false,
        };
        let line = take_chars(string_at(lines, item_idx).as_str(), inner_w);
        let (fg, bg) = if focused {
            if item_highlighted {
                (Color::Black, Color::Yellow)
            } else if item_selected {
                (Color::Black, Color::Green)
            } else {
                (Color::White, Color::Reset)
            }
        } else {
            if item_highlighted {
                (Color::Black, Color::Grey)
            } else if item_selected {
                (Color::Green, Color::Black)
            } else {
                (Color::White, Color::Reset)
            }
        };
        assert(i < list_rows(rr, lines@.len() as int, scroll_offset as int));
        assert(tm + i < rr.h);
        let row_y: u16 = r.y + (tm + i) as u16;
        let ghost before = buf.grid();
        fill_rect(buf, &Rect { x: r.x + (lm as u16), y: row_y, w: inner_w as u16, h: 1 }, ' ', fg, bg);
        let ghost filled = buf.grid();
        buf.put_str(r.x + lm as u16, row_y, line.as_str(), fg, bg);
        proof {
            let x0 = rr.x + 3;
            let blank_row = Cell { c: ' ', color: fg, bg };
            assert(ls[item_idx as int] == lines@[item_idx as int]@);
            assert(list_row_colors(focused, highlighted_n == item_idx, is_selected(sel, item_idx as int)) == (fg, bg));
            lemma_list_at(g1, rr, ls, scroll_offset as int, highlighted_n as int, focused, sel, i as int, (0, 0));
            lemma_list_at(g1, rr, ls, scroll_offset as int, highlighted_n as int, focused, sel, i + 1, (0, 0));
            lemma_fill_at(before, x0, row_y as int, inner_w as int, 1, blank_row, (0, 0));
            lemma_text_overlay_at(filled, x0, row_y as int, line@, fg, bg, (0, 0));
            assert forall|p: (int, int)| #[trigger] g1.dom().contains(p) implies buf.grid()[p]
                == list_overlay(g1, rr, ls, scroll_offset as int, highlighted_n as int, focused, sel, i + 1)[p] by {
                lemma_list_at(g1, rr, ls, scroll_offset as int, highlighted_n as int, focused, sel, i as int, p);
                lemma_list_at(g1, rr, ls, scroll_offset as int, highlighted_n as int, focused, sel, i + 1, p);
                lemma_fill_at(before, x0, row_y as int, inner_w as int, 1, blank_row, p);
                lemma_text_overlay_at(filled, x0, row_y as int, line@, fg, bg, p);
            }
            assert(buf.grid() =~= list_overlay(g1, rr, ls, scroll_offset as int, highlighted_n as int, focused, sel, i + 1));
        }
        i = i + 1;
    }
}

} // verus!
