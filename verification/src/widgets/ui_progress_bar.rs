//! A box that shows how far a long task has come.
use vstd::prelude::*;
use crate::buffer::{Buffer, Cell, Color, text_overlay};
use crate::event_bus::Event;
use crate::layout::{Layout, layout_fits, layout_rect};
use crate::term::Key;
use crate::text::{decimal, push_decimal, repeat_char, repeated};
use crate::ui::{Rect, box_fits, box_overlay, draw_box, empty_rect, fill_overlay, fill_rect, sat_sub};
use super::ui_filelist::FileTreeItem;
use super::widget::{Widget, draw_area, needs_layout};

verus! {

/// A box that shows a count, an optional description and, when the total is known, a bar.
pub struct UIProgressBar {
    title: String,
    description: String,
    current: u64,
    max: u64,
    r: Rect,
    layout_cb: Layout,
}

/// How many bar characters show `current` out of `max` in a box `w` columns wide: the share
/// of the width less 4, rounded down.
pub open spec fn bar_length(current: u64, max: u64, w: u16) -> int {
    (current * sat_sub(w as int, 4)) / (max as int)
}

/// The count as shown: `current/max` when the total is known, `current` alone otherwise.
pub open spec fn progress_detail(current: u64, max: u64) -> Seq<char> {
    if max > 0 {
        decimal(current as nat) + seq!['/'] + decimal(max as nat)
    } else {
        decimal(current as nat)
    }
}

/// `g` with the progress box drawn in `r`: the box, its inside cleared in black, the count on
/// the second row inside, the description (if any) below it, and the bar (if the total is
/// known) below that.
pub open spec fn progress_drawn(
    g: Map<(int, int), Cell>,
    r: Rect,
    title: Seq<char>,
    description: Seq<char>,
    current: u64,
    max: u64,
    focused: bool,
) -> Map<(int, int), Cell> {
    let framed = box_overlay(g, r, title, focused);
    let cleared = fill_overlay(
        framed,
        r.x + 1,
        r.y + 1,
        r.w - 2,
        r.h - 2,
        Cell { c: ' ', color: Color::Black, bg: Color::Black },
    );
    let counted = text_overlay(cleared, r.x + 2, r.y + 2, progress_detail(current, max), Color::White, Color::Black);
    let described = if description.len() > 0 {
        text_overlay(counted, r.x + 2, r.y + 3, description, Color::Yellow, Color::Black)
    } else {
        counted
    };
    if max > 0 {
        text_overlay(
            described,
            r.x + 2,
            r.y + 4,
            repeated('█', bar_length(current, max, r.w) as nat),
            Color::Yellow,
            Color::Yellow,
        )
    } else {
        described
    }
}

/// The boxes and values for which drawing stays within the integer types.
pub open spec fn progress_fits(r: Rect, description: Seq<char>, current: u64, max: u64) -> bool {
    &&& box_fits(r)
    &&& r.w >= 2
    &&& r.h >= 2
    &&& r.x + 2 <= 0xFFFF
    &&& r.y + 2 <= 0xFFFF
    &&& description.len() > 0 ==> r.y + 3 <= 0xFFFF
    &&& max > 0 ==> {
        &&& r.y + 4 <= 0xFFFF
        &&& current * sat_sub(r.w as int, 4) <= u64::MAX
        &&& bar_length(current, max, r.w) <= usize::MAX
    }
}

impl UIProgressBar {
    /// The title shown on the box.
    pub closed spec fn title(&self) -> Seq<char> {
        self.title@
    }

    /// The description shown under the count.
    pub closed spec fn description(&self) -> Seq<char> {
        self.description@
    }

    /// How far the task has come.
    pub closed spec fn current(&self) -> u64 {
        self.current
    }

    /// Where the task ends; 0 while unknown.
    pub closed spec fn max(&self) -> u64 {
        self.max
    }

    /// The rectangle the box occupies (empty until laid out).
    pub closed spec fn area(&self) -> Rect {
        self.r
    }

    /// How the box places itself.
    pub closed spec fn layout(&self) -> Layout {
        self.layout_cb
    }

    /// A progress box at 0 of an unknown total, with no description, not yet laid out.
    pub fn new(title: String, c: Layout) -> (p: Self)
        ensures
            p.title() == title@,
            p.description() == Seq::<char>::empty(),
            p.current() == 0,
            p.max() == 0,
            p.area() == empty_rect(),
            p.layout() == c,
    {
        Self { title, description: String::new(), current: 0, max: 0, r: Rect::new(0, 0, 0, 0), layout_cb: c }
    }

    /// Sets the count, the total and the description.
    pub fn update(&mut self, current: u64, max: u64, description: String)
        ensures
            final(self).current() == current,
            final(self).max() == max,
            final(self).description() == description@,
            final(self).title() == old(self).title(),
            final(self).area() == old(self).area(),
            final(self).layout() == old(self).layout(),
    {
        self.current = current;
        self.max = max;
        self.description = description;
    }

    /// Sets the title.
    pub fn set_title(&mut self, title: String)
        ensures
            final(self).title() == title@,
            final(self).description() == old(self).description(),
            final(self).current() == old(self).current(),
            final(self).max() == old(self).max(),
            final(self).area() == old(self).area(),
            final(self).layout() == old(self).layout(),
    {
        self.title = title;
    }
}

impl Widget for UIProgressBar {
    open spec fn can_resize(&self, w: u16, h: u16) -> bool {
        layout_fits(self.layout(), w, h)
    }

    open spec fn can_draw(&self, w: u16, h: u16) -> bool {
        &&& needs_layout(self.area()) ==> layout_fits(self.layout(), w, h)
        &&& progress_fits(draw_area(self.area(), self.layout(), w, h), self.description(), self.current(), self.max())
    }

    open spec fn can_handle(&self, key: Key) -> bool {
        true
    }

    fn resize_ok(&self, w: u16, h: u16) -> (ok: bool) {
        self.layout_cb.fits(w, h)
    }

    fn draw_ok(&self, w: u16, h: u16) -> (ok: bool) {
        let needs = self.r.h == 0 || self.r.w == 0;
        if needs && !self.layout_cb.fits(w, h) {
            return false;
        }
        let r = if needs { self.layout_cb.rect(w, h) } else { self.r };
        let x_end = r.x as u32 + r.w as u32;
        let y_end = r.y as u32 + r.h as u32;
        if !(x_end >= 1 && x_end <= 0xFFFF && y_end >= 1 && y_end <= 0xFFFF && r.y < 0xFFFF && r.w >= 2 && r.h >= 2
            && r.x as u32 + 2 <= 0xFFFF && r.y as u32 + 2 <= 0xFFFF) {
            return false;
        }
        if self.description.as_str().unicode_len() > 0 && r.y as u32 + 3 > 0xFFFF {
            return false;
        }
        if self.max > 0 {
            if r.y as u32 + 4 > 0xFFFF {
                return false;
            }
            let bar_width = r.w.saturating_sub(4) as u64;
            match self.current.checked_mul(bar_width) {
                None => false,
                Some(prod) => prod / self.max <= usize::MAX as u64,
            }
        } else {
            true
        }
    }

    fn input_ok(&self, key: Key) -> (ok: bool) {
        true
    }

    fn handle_buf_size_change(&mut self, w: u16, h: u16)
        ensures
            final(self).area() == layout_rect(old(self).layout(), w, h),
            final(self).title() == old(self).title(),
            final(self).description() == old(self).description(),
            final(self).current() == old(self).current(),
            final(self).max() == old(self).max(),
            final(self).layout() == old(self).layout(),
    {
        self.r = self.layout_cb.rect(w, h);
    }

    fn draw(&mut self, buffer: &mut Buffer, focused: bool)
        ensures
            final(self).area() == draw_area(old(self).area(), old(self).layout(), old(buffer).width, old(buffer).height),
            final(self).title() == old(self).title(),
            final(self).description() == old(self).description(),
            final(self).current() == old(self).current(),
            final(self).max() == old(self).max(),
            final(self).layout() == old(self).layout(),
            final(buffer).grid() == progress_drawn(
                old(buffer).grid(),
                final(self).area(),
                old(self).title(),
                old(self).description(),
                old(self).current(),
                old(self).max(),
                focused,
            ),
    {
        if self.r.h == 0 || self.r.w == 0 {
            self.handle_buf_size_change(buffer.width, buffer.height);
        }

        let r = self.r;

        let mut detail_string = String::new();
        let mut progress_line = String::new();

        if self.max > 0 {
            let bar_width = r.w.saturating_sub(4) as u64;
            let p = self.current * bar_width / self.max;
            progress_line = repeat_char('█', p as usize);
            push_decimal(&mut detail_string, self.current);
            detail_string.push('/');
            push_decimal(&mut detail_string, self.max);
        } else {
            push_decimal(&mut detail_string, self.current);
        }
        assert(detail_string@ =~= progress_detail(self.current, self.max));

        let mut ri = r;
        ri.x += 1;
        ri.y += 1;
        ri.w -= 2;
        ri.h -= 2;

        draw_box(buffer, &r, self.title.as_str(), focused);
        fill_rect(buffer, &ri, ' ', Color::Black, Color::Black);

        buffer.put_str(r.x + 2, r.y + 2, detail_string.as_str(), Color::White, Color::Black);

        if !self.description.as_str().is_empty() {
            buffer.put_str(r.x + 2, r.y + 3, self.description.as_str(), Color::Yellow, Color::Black);
        }

        if self.max > 0 {
            buffer.put_str(r.x + 2, r.y + 4, progress_line.as_str(), Color::Yellow, Color::Yellow);
        }
    }

    fn handle_input(&mut self, _key: Key)
        ensures
            *final(self) == *old(self),
    {
    }

    fn take_events(&mut self) -> (events: Vec<Event>)
        ensures
            events@ == Seq::<Event>::empty(),
            *final(self) == *old(self),
    {
        Vec::new()
    }

    fn selection(&self) -> (items: Option<Vec<FileTreeItem>>)
        ensures
            items is None,
    {
        None
    }
}

} // verus!
