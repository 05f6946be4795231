//! What every widget offers: layout, drawing, input, and the events it raised.
use vstd::prelude::*;
use crate::buffer::Buffer;
use crate::event_bus::Event;
use crate::layout::{Layout, layout_rect};
use crate::term::Key;
use crate::ui::Rect;
use super::ui_filelist::FileTreeItem;

verus! {

/// Whether a widget still has to lay itself out: its rectangle is empty.
pub open spec fn needs_layout(r: Rect) -> bool {
    r.h == 0 || r.w == 0
}

/// The rectangle a widget draws in on a `w` by `h` screen: its own, or, while that is still
/// empty, the one its layout gives.
pub open spec fn draw_area(r: Rect, l: Layout, w: u16, h: u16) -> Rect {
    if needs_layout(r) {
        layout_rect(l, w, h)
    } else {
        r
    }
}

/// A part of the screen that lays itself out, draws itself and reacts to keys.
pub trait Widget {
    /// Whether the widget can lay itself out on a screen of `w` by `h`.
    spec fn can_resize(&self, w: u16, h: u16) -> bool;

    /// Whether the widget can draw itself on a screen of `w` by `h`.
    spec fn can_draw(&self, w: u16, h: u16) -> bool;

    /// Whether the widget can handle `key` in its present state.
    spec fn can_handle(&self, key: Key) -> bool;

    /// Tells whether `handle_buf_size_change(w, h)` may be called.
    fn resize_ok(&self, w: u16, h: u16) -> (ok: bool)
        ensures
            ok == self.can_resize(w, h),
    ;

    /// Tells whether `draw` may be called on a screen of `w` by `h`.
    fn draw_ok(&self, w: u16, h: u16) -> (ok: bool)
        ensures
            ok == self.can_draw(w, h),
    ;

    /// Tells whether `handle_input(key)` may be called.
    fn input_ok(&self, key: Key) -> (ok: bool)
        ensures
            ok == self.can_handle(key),
    ;

    /// Lays the widget out for a screen of `w` by `h`.
    fn handle_buf_size_change(&mut self, w: u16, h: u16)
        requires
            old(self).can_resize(w, h),
    ;

    /// Draws the widget into `buffer`; `focused` tells whether it has the keyboard.
    fn draw(&mut self, buffer: &mut Buffer, focused: bool)
        requires
            old(buffer).wf(),
            old(self).can_draw(old(buffer).width, old(buffer).height),
        ensures
            final(buffer).wf(),
            final(buffer).width == old(buffer).width,
            final(buffer).height == old(buffer).height,
            final(buffer).shown() == old(buffer).shown(),
    ;

    /// Reacts to a key.
    fn handle_input(&mut self, key: Key)
        requires
            old(self).can_handle(key),
    ;

    /// Hands over the events the widget raised since the last call, oldest first.
    fn take_events(&mut self) -> Vec<Event>;

    /// The items the widget publishes as its selection, if it publishes one.
    fn selection(&self) -> Option<Vec<FileTreeItem>>;
}

} // verus!
