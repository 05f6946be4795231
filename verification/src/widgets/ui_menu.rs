//! A boxed menu of labelled actions; choosing one raises its event.
use vstd::prelude::*;
use crate::buffer::{Buffer, Cell, Color, text_overlay};
use crate::event_bus::{Event, EventBus};
use crate::layout::{Layout, layout_fits, layout_rect};
use crate::term::Key;
use crate::text::{prefix, take_chars};
use crate::ui::{Rect, box_fits, box_overlay, draw_box, empty_rect, fill_overlay, fill_rect, sat_sub};
use super::ui_filelist::FileTreeItem;
use super::widget::{Widget, draw_area, needs_layout};

verus! {

/// A menu entry: what it shows and the event it raises.
pub struct MenuItem {
    pub label: String,
    pub event: String,
}

/// Columns of a menu row inside the box: the width less two columns each side.
pub open spec fn menu_inner_w(r: Rect) -> int {
    r.w - 4
}

/// Rows for entries inside the box: the height less the border.
pub open spec fn menu_inner_h(r: Rect) -> int {
    r.h - 2
}

/// The text of a menu row: a space, `>` for the selected entry (a space otherwise), a space,
/// then the label cut to the row's width less 3.
pub open spec fn menu_line(label: Seq<char>, selected: bool, inner_w: int) -> Seq<char> {
    seq![' '] + (if selected { seq!['>'] } else { seq![' '] }) + seq![' '] + prefix(label, sat_sub(inner_w, 3))
}

/// The colours of a menu row.
pub open spec fn menu_row_colors(selected: bool, focused: bool) -> (Color, Color) {
    if selected && focused {
        (Color::Black, Color::Yellow)
    } else if selected {
        (Color::Black, Color::Grey)
    } else {
        (Color::White, Color::Reset)
    }
}

/// `g` with the first `n` entries drawn: each row is cleared in its colours, then its text is
/// written two columns in from the box's edge.
pub open spec fn menu_rows(
    g: Map<(int, int), Cell>,
    r: Rect,
    labels: Seq<Seq<char>>,
    selected_i: int,
    focused: bool,
    n: int,
) -> Map<(int, int), Cell>
    decreases n,
{
    if n <= 0 {
        g
    } else {
        let before = menu_rows(g, r, labels, selected_i, focused, n - 1);
        let i = n - 1;
        let colors = menu_row_colors(i == selected_i, focused);
        let y = r.y + 1 + i;
        text_overlay(
            fill_overlay(before, r.x + 2, y, menu_inner_w(r), 1, Cell { c: ' ', color: colors.0, bg: colors.1 }),
            r.x + 2,
            y,
            menu_line(labels[i], i == selected_i, menu_inner_w(r)),
            colors.0,
            colors.1,
        )
    }
}

/// How many entries fit.
pub open spec fn menu_shown(r: Rect, n: int) -> int {
    if menu_inner_h(r) < n {
        menu_inner_h(r)
    } else {
        n
    }
}

/// The labels of the entries.
pub open spec fn labels_of(items: Seq<MenuItem>) -> Seq<Seq<char>> {
    items.map_values(|m: MenuItem| m.label@)
}

/// `g` with the menu drawn in box `r`: the box, then as many entries as fit.
pub open spec fn menu_drawn(
    g: Map<(int, int), Cell>,
    r: Rect,
    title: Seq<char>,
    labels: Seq<Seq<char>>,
    selected_i: int,
    focused: bool,
) -> Map<(int, int), Cell> {
    menu_rows(
        box_overlay(g, r, title, focused),
        r,
        labels,
        selected_i,
        focused,
        menu_shown(r, labels.len() as int),
    )
}

/// The boxes a menu can be drawn in: they have room for the border and the margins.
pub open spec fn menu_fits(r: Rect) -> bool {
    box_fits(r) && r.w >= 4 && r.h >= 2
}

fn label_at(items: &[MenuItem], i: usize) -> (s: &String)
    requires
        i < items@.len(),
    ensures
        s@ == items@[i as int].label@,
{
    &items[i].label
}

/// Draws a menu: a box titled `title`, and one row per entry, the `selected_i`-th marked.
pub fn draw_menu(buf: &mut Buffer, r: &Rect, title: &str, items: &[MenuItem], selected_i: usize, focused: bool)
    requires
        old(buf).wf(),
        menu_fits(*r),
    ensures
        final(buf).wf(),
        final(buf).width == old(buf).width,
        final(buf).height == old(buf).height,
        final(buf).shown() == old(buf).shown(),
        final(buf).grid() == menu_drawn(old(buf).grid(), *r, title@, labels_of(items@), selected_i as int, focused),
{
    draw_box(buf, r, title, focused);
    let ghost g1 = buf.grid();
    let ghost labels = labels_of(items@);

    let rm: usize = 2;
    let lm: usize = 2;
    let tm: usize = 1;
    let bm: usize = 1;

    let inner_w = (r.w as usize) - rm - lm;
    let inner_h = (r.h as usize) - tm - bm;

    let mut i: usize = 0;
    while i < inner_h && i < items.len()
        invariant
            buf.wf(),
            buf.width == old(buf).width,
            buf.height == old(buf).height,
            buf.shown() == old(buf).shown(),
            menu_fits(*r),
            labels == labels_of(items@),
            inner_w == menu_inner_w(*r),
            inner_h == menu_inner_h(*r),
            rm == 2,
            lm == 2,
            tm == 1,
            bm == 1,
            i <= menu_shown(*r, items@.len() as int),
            buf.grid() == menu_rows(g1, *r, labels, selected_i as int, focused, i as int),
        decreases inner_h - i,
    {
        let selected = i == selected_i;
        let label: String = take_chars(label_at(items, i).as_str(), inner_w.saturating_sub(rm + bm));
        let mut line = String::new();
        line.push(' ');
        line.push(if selected { '>' } else { ' ' });
        line.push(' ');
        line.append(label.as_str());

        let (fg, bg) = if selected && focused {
            (Color::Black, Color::Yellow)
        } else if selected {
            (Color::Black, Color::Grey)
        } else {
            (Color::White, Color::Reset)
        };

        let row_y: u16 = r.y + (tm + i) as u16;
        fill_rect(buf, &Rect { x: r.x + (lm as u16), y: row_y, w: inner_w as u16, h: 1 }, ' ', fg, bg);
        buf.put_str(r.x + (rm as u16), row_y, line.as_str(), fg, bg);
        proof {
            assert(labels[i as int] == items@[i as int].label@);
            assert(line@ =~= menu_line(labels[i as int], selected, inner_w as int));
        }
        i = i + 1;
    }
}

/// A boxed menu; Enter raises the selected entry's event, `j` and `k` move the selection.
pub struct UIMenu {
    id: &'static str,
    title: String,
    selected_n: usize,
    items: Vec<MenuItem>,
    bus: EventBus,
    r: Rect,
    layout_cb: Layout,
}

impl UIMenu {
    /// The name the menu's events carry as their source.
    pub closed spec fn id(&self) -> &'static str {
        self.id
    }

    /// The title shown on the box.
    pub closed spec fn title(&self) -> Seq<char> {
        self.title@
    }

    /// The index of the selected entry.
    pub closed spec fn selected(&self) -> int {
        self.selected_n as int
    }

    /// The entries, in order.
    pub closed spec fn entries(&self) -> Seq<MenuItem> {
        self.items@
    }

    /// Events raised and not yet taken, oldest first.
    pub closed spec fn pending(&self) -> Seq<Event> {
        self.bus.pending()
    }

    /// The rectangle the menu occupies (empty until laid out).
    pub closed spec fn area(&self) -> Rect {
        self.r
    }

    /// How the menu places itself.
    pub closed spec fn layout(&self) -> Layout {
        self.layout_cb
    }

    /// A menu with the first entry selected, not yet laid out.
    pub fn new(id: &'static str, title: String, items: Vec<MenuItem>, bus: EventBus, c: Layout) -> (m: Self)
        ensures
            m.id() == id,
            m.title() == title@,
            m.entries() == items@,
            m.selected() == 0,
            m.pending() == bus.pending(),
            m.area() == empty_rect(),
            m.layout() == c,
    {
        Self { id, title, items, selected_n: 0, bus, layout_cb: c, r: Rect::new(0, 0, 0, 0) }
    }

    /// Adds an entry at the end.
    pub fn add_item(&mut self, label: String, event: String)
        ensures
            final(self).entries() == old(self).entries().push(MenuItem { label, event }),
            final(self).id() == old(self).id(),
            final(self).title() == old(self).title(),
            final(self).selected() == old(self).selected(),
            final(self).pending() == old(self).pending(),
            final(self).area() == old(self).area(),
            final(self).layout() == old(self).layout(),
    {
        self.items.push(MenuItem { label, event });
    }
}

impl Widget for UIMenu {
    open spec fn can_resize(&self, w: u16, h: u16) -> bool {
        layout_fits(self.layout(), w, h)
    }

    open spec fn can_draw(&self, w: u16, h: u16) -> bool {
        &&& needs_layout(self.area()) ==> layout_fits(self.layout(), w, h)
        &&& menu_fits(draw_area(self.area(), self.layout(), w, h))
    }

    open spec fn can_handle(&self, key: Key) -> bool {
        match key {
            Key::Char(c) => c == 'j' ==> self.entries().len() > 0,
            Key::Enter => self.selected() < self.entries().len(),
            _ => true,
        }
    }

    fn resize_ok(&self, w: u16, h: u16) -> (ok: bool) {
        self.layout_cb.fits(w, h)
    }

    fn draw_ok(&self, w: u16, h: u16) -> (ok: bool) {
        let needs = self.r.h == 0 || self.r.w == 0;
        if needs && !self.layout_cb.fits(w, h) {
            return false;
        }
        let r = if needs { self.layout_cb.rect(w, h) } else { self.r };
        r.x as u32 + r.w as u32 >= 1 && r.x as u32 + r.w as u32 <= 0xFFFF && r.y as u32 + r.h as u32 >= 1
            && r.y as u32 + r.h as u32 <= 0xFFFF && r.y < 0xFFFF && r.w >= 4 && r.h >= 2
    }

    fn input_ok(&self, key: Key) -> (ok: bool) {
        match key {
            Key::Char(c) => c != 'j' || self.items.len() > 0,
            Key::Enter => self.selected_n < self.items.len(),
            _ => true,
        }
    }

    fn handle_buf_size_change(&mut self, w: u16, h: u16)
        ensures
            final(self).area() == layout_rect(old(self).layout(), w, h),
            final(self).id() == old(self).id(),
            final(self).title() == old(self).title(),
            final(self).selected() == old(self).selected(),
            final(self).entries() == old(self).entries(),
            final(self).pending() == old(self).pending(),
            final(self).layout() == old(self).layout(),
    {
        self.r = self.layout_cb.rect(w, h);
    }

    fn draw(&mut self, buffer: &mut Buffer, focused: bool)
        ensures
            final(self).area() == draw_area(old(self).area(), old(self).layout(), old(buffer).width, old(buffer).height),
            final(self).id() == old(self).id(),
            final(self).title() == old(self).title(),
            final(self).selected() == old(self).selected(),
            final(self).entries() == old(self).entries(),
            final(self).pending() == old(self).pending(),
            final(self).layout() == old(self).layout(),
            final(buffer).grid() == menu_drawn(
                old(buffer).grid(),
                final(self).area(),
                old(self).title(),
                labels_of(old(self).entries()),
                old(self).selected(),
                focused,
            ),
    {
        if self.r.h == 0 || self.r.w == 0 {
            self.handle_buf_size_change(buffer.width, buffer.height);
        }
        draw_menu(buffer, &self.r, self.title.as_str(), self.items.as_slice(), self.selected_n, focused);
    }

    fn handle_input(&mut self, key: Key)
        ensures
            final(self).selected() == (match key {
                Key::Char('k') => if old(self).selected() > 0 { old(self).selected() - 1 } else { old(self).selected() },
                Key::Char('j') => if old(self).selected() < old(self).entries().len() - 1 {
                    old(self).selected() + 1
                } else {
                    old(self).selected()
                },
                _ => old(self).selected(),
            }),
            final(self).pending() == (match key {
                Key::Enter => old(self).pending().push(Event {
                    source: old(self).id(),
                    payload: old(self).entries()[old(self).selected()].event,
                }),
                _ => old(self).pending(),
            }),
            final(self).id() == old(self).id(),
            final(self).title() == old(self).title(),
            final(self).entries() == old(self).entries(),
            final(self).area() == old(self).area(),
            final(self).layout() == old(self).layout(),
    {
        match key {
            Key::Char('k') => {
                if self.selected_n > 0 {
                    self.selected_n -= 1;
                }
            },
            Key::Char('j') => {
                if self.selected_n < self.items.len() - 1 {
                    self.selected_n += 1;
                }
            },
            Key::Enter => {
                let item = &self.items[self.selected_n];
                self.bus.push(self.id, item.event.clone());
            },
            _ => (),
        }
    }

    fn take_events(&mut self) -> (events: Vec<Event>)
        ensures
            events@ == old(self).pending(),
            final(self).pending() == Seq::<Event>::empty(),
            final(self).id() == old(self).id(),
            final(self).title() == old(self).title(),
            final(self).selected() == old(self).selected(),
            final(self).entries() == old(self).entries(),
            final(self).area() == old(self).area(),
            final(self).layout() == old(self).layout(),
    {
        self.bus.drain()
    }

    fn selection(&self) -> (items: Option<Vec<FileTreeItem>>)
        ensures
            items is None,
    {
        None
    }
}

} // verus!
