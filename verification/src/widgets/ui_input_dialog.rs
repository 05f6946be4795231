//! A box in which the user types a line of text.
use vstd::prelude::*;
use crate::buffer::{Buffer, Cell, Color, text_overlay};
use crate::event_bus::{Event, EventBus, raised};
use crate::layout::{Layout, layout_fits, layout_rect};
use crate::term::Key;
use crate::ui::{Rect, box_fits, box_overlay, draw_box, empty_rect, fill_overlay, fill_rect};
use super::ui_filelist::FileTreeItem;
use super::widget::{Widget, draw_area, needs_layout};

verus! {

/// A box holding a line of text being typed. Enter raises the text as an event; Escape
/// clears the text, or, when there is none, raises `cancel`.
pub struct UIInputDialog {
    id: &'static str,
    title: String,
    bus: EventBus,
    input: String,
    r: Rect,
    layout_cb: Layout,
}

/// `g` with the dialog drawn in `r`: the box, its inside cleared in black, and the text two
/// columns and two rows in from the corner.
pub open spec fn dialog_drawn(g: Map<(int, int), Cell>, r: Rect, title: Seq<char>, input: Seq<char>, focused: bool) -> Map<(int, int), Cell> {
    text_overlay(
        fill_overlay(
            box_overlay(g, r, title, focused),
            r.x + 1,
            r.y + 1,
            r.w - 2,
            r.h - 2,
            Cell { c: ' ', color: Color::Black, bg: Color::Black },
        ),
        r.x + 2,
        r.y + 2,
        input,
        Color::White,
        Color::Black,
    )
}

/// The boxes the dialog can be drawn in without leaving the integer types.
pub open spec fn dialog_fits(r: Rect) -> bool {
    &&& box_fits(r)
    &&& r.w >= 2
    &&& r.h >= 2
    &&& r.x + 2 <= 0xFFFF
    &&& r.y + 2 <= 0xFFFF
}

/// The text after a key: characters are appended, Backspace removes the last one, Escape
/// clears it.
pub open spec fn input_after(input: Seq<char>, key: Key) -> Seq<char> {
    match key {
        Key::Escape => Seq::empty(),
        Key::Char(c) => input.push(c),
        Key::Backspace => if input.len() > 0 { input.drop_last() } else { input },
        _ => input,
    }
}

/// Typing a character and then pressing Backspace gives back the text as it was.
pub proof fn lemma_backspace_undoes_typing(input: Seq<char>, c: char)
    ensures
        input_after(input_after(input, Key::Char(c)), Key::Backspace) == input,
{
    assert(input.push(c).drop_last() =~= input);
}

impl UIInputDialog {
    /// The name the dialog's events carry as their source.
    pub closed spec fn id(&self) -> &'static str {
        self.id
    }

    /// The title shown on the box.
    pub closed spec fn title(&self) -> Seq<char> {
        self.title@
    }

    /// The text typed so far.
    pub closed spec fn input(&self) -> Seq<char> {
        self.input@
    }

    /// Events raised and not yet taken, oldest first.
    pub closed spec fn pending(&self) -> Seq<Event> {
        self.bus.pending()
    }

    /// The rectangle the dialog occupies (empty until laid out).
    pub closed spec fn area(&self) -> Rect {
        self.r
    }

    /// How the dialog places itself.
    pub closed spec fn layout(&self) -> Layout {
        self.layout_cb
    }

    /// A dialog holding `default` (or nothing), not yet laid out.
    pub fn new(id: &'static str, title: String, default: Option<String>, bus: EventBus, c: Layout) -> (d: Self)
        ensures
            d.id() == id,
            d.title() == title@,
            d.input() == (match default {
                Some(s) => s@,
                None => Seq::<char>::empty(),
            }),
            d.pending() == bus.pending(),
            d.area() == empty_rect(),
            d.layout() == c,
    {
        Self {
            id,
            title,
            bus,
            input: match default {
                Some(d) => d,
                None => String::new(),
            },
            r: Rect::new(0, 0, 0, 0),
            layout_cb: c,
        }
    }
}

impl Widget for UIInputDialog {
    open spec fn can_resize(&self, w: u16, h: u16) -> bool {
        layout_fits(self.layout(), w, h)
    }

    open spec fn can_draw(&self, w: u16, h: u16) -> bool {
        &&& needs_layout(self.area()) ==> layout_fits(self.layout(), w, h)
        &&& dialog_fits(draw_area(self.area(), self.layout(), w, h))
    }

    open spec fn can_handle(&self, key: Key) -> bool {
        true
    }

    fn resize_ok(&self, w: u16, h: u16) -> (ok: bool) {
        self.layout_cb.fits(w, h)
    }

    fn draw_ok(&self, w: u16, h: u16) -> (ok: bool) {
        let needs = self.r.h == 0 || self.r.w == 0;
        if needs && !self.layout_cb.fits(w, h) {
            return false;
        }
        let r = if needs { self.layout_cb.rect(w, h) } else { self.r };
        let x_end = r.x as u32 + r.w as u32;
        let y_end = r.y as u32 + r.h as u32;
        x_end >= 1 && x_end <= 0xFFFF && y_end >= 1 && y_end <= 0xFFFF && r.y < 0xFFFF && r.w >= 2 && r.h >= 2
            && r.x as u32 + 2 <= 0xFFFF && r.y as u32 + 2 <= 0xFFFF
    }

    fn input_ok(&self, key: Key) -> (ok: bool) {
        true
    }

    fn handle_buf_size_change(&mut self, w: u16, h: u16)
        ensures
            final(self).area() == layout_rect(old(self).layout(), w, h),
            final(self).id() == old(self).id(),
            final(self).title() == old(self).title(),
            final(self).input() == old(self).input(),
            final(self).pending() == old(self).pending(),
            final(self).layout() == old(self).layout(),
    {
        self.r = self.layout_cb.rect(w, h);
    }

    fn draw(&mut self, buffer: &mut Buffer, focused: bool)
        ensures
            final(self).area() == draw_area(old(self).area(), old(self).layout(), old(buffer).width, old(buffer).height),
            final(self).id() == old(self).id(),
            final(self).title() == old(self).title(),
            final(self).input() == old(self).input(),
            final(self).pending() == old(self).pending(),
            final(self).layout() == old(self).layout(),
            final(buffer).grid() == dialog_drawn(old(buffer).grid(), final(self).area(), old(self).title(), old(self).input(), focused),
    {
        if self.r.h == 0 || self.r.w == 0 {
            self.handle_buf_size_change(buffer.width, buffer.height);
        }
        let r = self.r;
        draw_box(buffer, &r, self.title.as_str(), focused);

        let ri = Rect::new(r.x + 1, r.y + 1, r.w - 2, r.h - 2);
        fill_rect(buffer, &ri, ' ', Color::Black, Color::Black);

        buffer.put_str(r.x + 2, r.y + 2, self.input.as_str(), Color::White, Color::Black);
    }

    fn handle_input(&mut self, key: Key)
        ensures
            final(self).input() == input_after(old(self).input(), key),
            key == Key::Escape && old(self).input().len() == 0 ==> raised(
                old(self).pending(),
                final(self).pending(),
                old(self).id(),
                seq!['c', 'a', 'n', 'c', 'e', 'l'],
            ),
            key == Key::Escape && old(self).input().len() > 0 ==> final(self).pending() == old(self).pending(),
            key == Key::Enter ==> raised(old(self).pending(), final(self).pending(), old(self).id(), old(self).input()),
            key != Key::Escape && key != Key::Enter ==> final(self).pending() == old(self).pending(),
            final(self).id() == old(self).id(),
            final(self).title() == old(self).title(),
            final(self).area() == old(self).area(),
            final(self).layout() == old(self).layout(),
    {
        match key {
            Key::Escape => {
                if self.input.as_str().is_empty() {
                    let cancel = String::from_str("cancel");
                    proof {
                        reveal_strlit("cancel");
                    }
                    assert(cancel@ =~= seq!['c', 'a', 'n', 'c', 'e', 'l']);
                    self.bus.push(self.id, cancel);
                    assert(self.bus.pending().drop_last() =~= old(self).pending());

                    assert(self.input@ =~= Seq::<char>::empty());
                } else {
                    self.input.clear();
                    assert(self.bus.pending() == old(self).pending());
                }
            },
            Key::Enter => {
                self.bus.push(self.id, self.input.clone());
                assert(self.bus.pending().drop_last() =~= old(self).pending());
            },
            Key::Char(c) => {
                self.input.push(c);
            },
            Key::Backspace => {
                self.input.pop();
            },
            _ => (),
        }
    }

    fn take_events(&mut self) -> (events: Vec<Event>)
        ensures
            events@ == old(self).pending(),
            final(self).pending() == Seq::<Event>::empty(),
            final(self).id() == old(self).id(),
            final(self).title() == old(self).title(),
            final(self).input() == old(self).input(),
            final(self).area() == old(self).area(),
            final(self).layout() == old(self).layout(),
    {
        self.bus.drain()
    }

    fn selection(&self) -> (items: Option<Vec<FileTreeItem>>)
        ensures
            items is None,
    {
        None
    }
}

} // verus!
