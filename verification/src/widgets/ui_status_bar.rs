//! A one-line bar of help text.
use vstd::prelude::*;
use crate::buffer::{Buffer, Cell, Color, text_overlay};
use crate::event_bus::Event;
use crate::layout::{Layout, layout_fits};
use crate::term::Key;
use crate::text::{prefix, take_chars};
use crate::ui::{Rect, empty_rect, fill_rect, fill_fits, rect_overlay};
use super::ui_filelist::FileTreeItem;
use super::widget::{Widget, draw_area, needs_layout};

verus! {

/// A one-line bar of help text, in black on white.
pub struct UIStatusBar {
    title: String,
    r: Rect,
    layout_cb: Layout,
}

impl UIStatusBar {
    /// The text shown.
    pub closed spec fn text(&self) -> Seq<char> {
        self.title@
    }

    /// The rectangle the bar occupies (empty until laid out).
    pub closed spec fn area(&self) -> Rect {
        self.r
    }

    /// How the bar places itself.
    pub closed spec fn layout(&self) -> Layout {
        self.layout_cb
    }

    /// A bar showing `title`, not yet laid out.
    pub fn new(title: String, c: Layout) -> (bar: Self)
        ensures
            bar.text() == title@,
            bar.area() == empty_rect(),
            bar.layout() == c,
    {
        Self { title, r: Rect::new(0, 0, 0, 0), layout_cb: c }
    }
}

/// What the status bar draws on `g`: its rectangle in white, then as much of the text as the
/// rectangle is wide, from the first column of its row.
pub open spec fn status_bar_drawn(g: Map<(int, int), Cell>, r: Rect, text: Seq<char>) -> Map<(int, int), Cell> {
    text_overlay(
        rect_overlay(g, r, Cell { c: ' ', color: Color::Black, bg: Color::White }),
        0,
        r.y as int,
        prefix(text, r.w as int),
        Color::Black,
        Color::White,
    )
}

impl Widget for UIStatusBar {
    open spec fn can_resize(&self, w: u16, h: u16) -> bool {
        layout_fits(self.layout(), w, h)
    }

    open spec fn can_draw(&self, w: u16, h: u16) -> bool {
        &&& needs_layout(self.area()) ==> layout_fits(self.layout(), w, h)
        &&& fill_fits(draw_area(self.area(), self.layout(), w, h))
    }

    open spec fn can_handle(&self, key: Key) -> bool {
        true
    }

    fn resize_ok(&self, w: u16, h: u16) -> (ok: bool) {
        self.layout_cb.fits(w, h)
    }

    fn draw_ok(&self, w: u16, h: u16) -> (ok: bool) {
        let needs = self.r.h == 0 || self.r.w == 0;
        if needs && !self.layout_cb.fits(w, h) {
            return false;
        }
        let r = if needs { self.layout_cb.rect(w, h) } else { self.r };
        r.y as u32 + r.h as u32 <= 0xFFFF && (r.h == 0 || r.x as u32 + r.w as u32 <= 0xFFFF)
    }

    fn input_ok(&self, key: Key) -> (ok: bool) {
        true
    }

    fn handle_buf_size_change(&mut self, w: u16, h: u16)
        ensures
            final(self).area() == crate::layout::layout_rect(old(self).layout(), w, h),
            final(self).text() == old(self).text(),
            final(self).layout() == old(self).layout(),
    {
        self.r = self.layout_cb.rect(w, h);
    }

    fn draw(&mut self, buffer: &mut Buffer, _focused: bool)
        ensures
            final(self).area() == draw_area(old(self).area(), old(self).layout(), old(buffer).width, old(buffer).height),
            final(self).text() == old(self).text(),
            final(self).layout() == old(self).layout(),
            final(buffer).grid() == status_bar_drawn(old(buffer).grid(), final(self).area(), old(self).text()),
    {
        if self.r.h == 0 || self.r.w == 0 {
            self.handle_buf_size_change(buffer.width, buffer.height);
        }

        let s: String = take_chars(self.title.as_str(), self.r.w as usize);

        fill_rect(buffer, &self.r, ' ', Color::Black, Color::White);

        buffer.put_str(0, self.r.y, s.as_str(), Color::Black, Color::White);
    }

    fn handle_input(&mut self, _key: Key)
        ensures
            *final(self) == *old(self),
    {
    }

    fn take_events(&mut self) -> (events: Vec<Event>)
        ensures
            events@ == Seq::<Event>::empty(),
            *final(self) == *old(self),
    {
        Vec::new()
    }

    fn selection(&self) -> (items: Option<Vec<FileTreeItem>>)
        ensures
            items is None,
    {
        None
    }
}

} // verus!
