//! Where each widget goes on a screen of a given size.
use vstd::prelude::*;
use crate::ui::{Rect, sat_sub};

verus! {

/// Columns kept free left and right of the lists and menus.
pub const SIDE_MARGIN: u16 = 2;
/// Height of the menu at the bottom of the screen.
pub const MENU_HEIGHT: u16 = 6;
/// Rows kept free below the menu.
pub const MENU_MARGIN_BOTTOM: u16 = 1;
/// First row of the file lists.
pub const FILE_LIST_TOP: u16 = 2;
/// Rows between a file list and whatever comes below it.
pub const FILE_LIST_GAP: u16 = 2;

/// How a widget places itself on the screen.
#[derive(Clone, Copy)]
pub enum Layout {
    /// Always the same rectangle.
    Fixed(Rect),
    /// The directory listing: full width, from the top down to the menu.
    DirList,
    /// The menu at the bottom of the screen.
    MainMenu,
    /// A box centred on the screen, seven rows high, ten columns narrower than the screen.
    ProgressBar,
    /// The last row of the screen.
    StatusBar,
    /// The upper half of the space above the menu.
    SortSupported,
    /// The lower half of the space above the menu.
    SortUnsupported,
    /// A box centred on the screen, five rows high, ten columns narrower than the screen.
    InputDialog,
}

/// Rows between the file list's top and the menu, on a screen `h` rows high.
pub open spec fn list_space(h: int) -> int {
    sat_sub(h - MENU_MARGIN_BOTTOM - MENU_HEIGHT, (FILE_LIST_TOP + FILE_LIST_GAP) as int)
}

/// Whether `l` can place itself on a screen of `w` by `h` without its arithmetic going below
/// zero.
pub open spec fn layout_fits(l: Layout, w: u16, h: u16) -> bool {
    match l {
        Layout::Fixed(_) => true,
        Layout::DirList | Layout::MainMenu | Layout::SortSupported | Layout::SortUnsupported => {
            h >= MENU_MARGIN_BOTTOM + MENU_HEIGHT && w >= 2 * SIDE_MARGIN
        },
        Layout::ProgressBar => w >= 10 && h / 2 >= 3,
        Layout::StatusBar => h >= 1,
        Layout::InputDialog => w >= 10 && h / 2 >= 2,
    }
}

/// The rectangle that `l` takes on a screen of `w` by `h`.
pub open spec fn layout_rect(l: Layout, w: u16, h: u16) -> Rect {
    let menu_y = h - MENU_MARGIN_BOTTOM - MENU_HEIGHT;
    let available = list_space(h as int);
    let upper = available / 2;
    match l {
        Layout::Fixed(r) => r,
        Layout::DirList => Rect {
            x: SIDE_MARGIN,
            y: FILE_LIST_TOP,
            w: (w - 2 * SIDE_MARGIN) as u16,
            h: available as u16,
        },
        Layout::MainMenu => Rect {
            x: SIDE_MARGIN,
            y: menu_y as u16,
            w: (w - 2 * SIDE_MARGIN) as u16,
            h: MENU_HEIGHT,
        },
        Layout::ProgressBar => Rect {
            x: (w / 2 - (w - 10) / 2) as u16,
            y: (h / 2 - 3) as u16,
            w: (w - 10) as u16,
            h: 7,
        },
        Layout::StatusBar => Rect { x: 0, y: (h - 1) as u16, w, h: 1 },
        Layout::SortSupported => Rect {
            x: SIDE_MARGIN,
            y: FILE_LIST_TOP,
            w: (w - 2 * SIDE_MARGIN) as u16,
            h: upper as u16,
        },
        Layout::SortUnsupported => Rect {
            x: SIDE_MARGIN,
            y: (FILE_LIST_TOP + upper + FILE_LIST_GAP) as u16,
            w: (w - 2 * SIDE_MARGIN) as u16,
            h: sat_sub(available, upper + FILE_LIST_GAP) as u16,
        },
        Layout::InputDialog => Rect {
            x: (w / 2 - (w - 10) / 2) as u16,
            y: (h / 2 - 2) as u16,
            w: (w - 10) as u16,
            h: 5,
        },
    }
}

impl Layout {
    /// Whether this layout can be computed for a screen of `w` by `h`.
    pub fn fits(&self, w: u16, h: u16) -> (ok: bool)
        ensures
            ok == layout_fits(*self, w, h),
    {
        match self {
            Layout::Fixed(_) => true,
            Layout::DirList | Layout::MainMenu | Layout::SortSupported | Layout::SortUnsupported => {
                h >= MENU_MARGIN_BOTTOM + MENU_HEIGHT && w >= 2 * SIDE_MARGIN
            },
            Layout::ProgressBar => w >= 10 && h / 2 >= 3,
            Layout::StatusBar => h >= 1,
            Layout::InputDialog => w >= 10 && h / 2 >= 2,
        }
    }

    /// The rectangle this layout takes on a screen of `w` by `h`.
    pub fn rect(&self, w: u16, h: u16) -> (r: Rect)
        requires
            layout_fits(*self, w, h),
        ensures
            r == layout_rect(*self, w, h),
    {
        match self {
            Layout::Fixed(r) => *r,
            Layout::DirList => {
                let menu_y = h - MENU_MARGIN_BOTTOM - MENU_HEIGHT;
                let file_list_h = menu_y.saturating_sub(FILE_LIST_TOP + FILE_LIST_GAP);
                Rect { x: SIDE_MARGIN, y: FILE_LIST_TOP, w: w - SIDE_MARGIN - SIDE_MARGIN, h: file_list_h }
            },
            Layout::MainMenu => {
                let menu_y = h - MENU_MARGIN_BOTTOM - MENU_HEIGHT;
                Rect { x: SIDE_MARGIN, y: menu_y, w: w - SIDE_MARGIN - SIDE_MARGIN, h: MENU_HEIGHT }
            },
            Layout::ProgressBar => {
                let bh: u16 = 7;
                let bw = w - 10;
                Rect { x: w / 2 - bw / 2, y: h / 2 - bh / 2, w: bw, h: bh }
            },
            Layout::StatusBar => Rect { x: 0, y: h - 1, w: w, h: 1 },
            Layout::SortSupported => {
                let menu_y = h - MENU_MARGIN_BOTTOM - MENU_HEIGHT;
                let available = menu_y.saturating_sub(FILE_LIST_TOP + FILE_LIST_GAP);
                let supported_h = available / 2;
                Rect { x: SIDE_MARGIN, y: FILE_LIST_TOP, w: w - SIDE_MARGIN - SIDE_MARGIN, h: supported_h }
            },
            Layout::SortUnsupported => {
                let menu_y = h - MENU_MARGIN_BOTTOM - MENU_HEIGHT;
                let available = menu_y.saturating_sub(FILE_LIST_TOP + FILE_LIST_GAP);
                let supported_h = available / 2;
                let unsupported_h = available.saturating_sub(supported_h + FILE_LIST_GAP);
                Rect {
                    x: SIDE_MARGIN,
                    y: FILE_LIST_TOP + supported_h + FILE_LIST_GAP,
                    w: w - SIDE_MARGIN - SIDE_MARGIN,
                    h: unsupported_h,
                }
            },
            Layout::InputDialog => {
                let bh: u16 = 5;
                let bw = w - 10;
                Rect { x: w / 2 - bw / 2, y: h / 2 - bh / 2, w: bw, h: bh }
            },
        }
    }
}

} // verus!
