//! A double-buffered character screen that renders only what changed between frames.
use vstd::prelude::*;
use crate::text::{decimal, push_decimal, chars_of, char_at};

verus! {

/// Terminal colours.
#[derive(Clone, Copy, PartialEq, Eq, Structural)]
pub enum Color {
    Reset,
    White,
    Black,
    Grey,
    Blue,
    Cyan,
    Yellow,
    Green,
}

/// The SGR parameter that selects `c` as foreground colour.
pub open spec fn fg_code_of(c: Color) -> Seq<char> {
    match c {
        Color::Reset => "0"@,
        Color::White => "97"@,
        Color::Black => "30"@,
        Color::Grey => "90"@,
        Color::Blue => "34"@,
        Color::Cyan => "36"@,
        Color::Yellow => "33"@,
        Color::Green => "32"@,
    }
}

/// The SGR parameter that selects `c` as background colour.
pub open spec fn bg_code_of(c: Color) -> Seq<char> {
    match c {
        Color::Reset => "0"@,
        Color::White => "107"@,
        Color::Black => "40"@,
        Color::Grey => "100"@,
        Color::Blue => "44"@,
        Color::Cyan => "46"@,
        Color::Yellow => "43"@,
        Color::Green => "42"@,
    }
}

impl Color {
    /// The SGR parameter for this colour as foreground.
    pub fn fg_code(self) -> (code: &'static str)
        ensures
            code@ == fg_code_of(self),
    {
        match self {
            Color::Reset => "0",
            Color::White => "97",
            Color::Black => "30",
            Color::Grey => "90",
            Color::Blue => "34",
            Color::Cyan => "36",
            Color::Yellow => "33",
            Color::Green => "32",
        }
    }

    /// The SGR parameter for this colour as background.
    pub fn bg_code(self) -> (code: &'static str)
        ensures
            code@ == bg_code_of(self),
    {
        match self {
            Color::Reset => "0",
            Color::White => "107",
            Color::Black => "40",
            Color::Grey => "100",
            Color::Blue => "44",
            Color::Cyan => "46",
            Color::Yellow => "43",
            Color::Green => "42",
        }
    }
}

/// One character cell of the screen.
#[derive(Clone, Copy, PartialEq, Eq, Structural)]
pub struct Cell {
    pub c: char,
    pub color: Color,
    pub bg: Color,
}

/// The empty cell: a space in the terminal's default colours.
pub open spec fn blank() -> Cell {
    Cell { c: ' ', color: Color::Reset, bg: Color::Reset }
}

impl Default for Cell {
    fn default() -> (cell: Cell)
        ensures
            cell == blank(),
    {
        Cell { c: ' ', color: Color::Reset, bg: Color::Reset }
    }
}

/// A frame of `n` empty cells.
pub open spec fn blank_frame(n: nat) -> Seq<Cell> {
    Seq::new(n, |_i: int| blank())
}

/// The escape sequence that moves the cursor to column `x`, row `y` (both counted from 0).
pub open spec fn cursor_code(x: int, y: int) -> Seq<char> {
    seq!['\x1b', '['] + decimal((y + 1) as nat) + seq![';'] + decimal((x + 1) as nat) + seq!['H']
}

/// The escape sequence that resets attributes and selects the colours `fg` and `bg`.
pub open spec fn color_code(fg: Color, bg: Color) -> Seq<char> {
    seq!['\x1b', '[', '0', ';'] + fg_code_of(fg) + seq![';'] + bg_code_of(bg) + seq!['m']
}

/// The escape sequence that resets all attributes.
pub open spec fn reset_code() -> Seq<char> {
    seq!['\x1b', '[', '0', 'm']
}

/// What the renderer has written so far, the colours in effect, and the last cell written:
/// `(output, foreground, background, column, row)`.
pub type RenderState = (Seq<char>, Color, Color, int, int);

/// The state before anything is rendered: no output, default colours, and a last
/// position of (255, 255).
pub open spec fn render_start() -> RenderState {
    (Seq::empty(), Color::Reset, Color::Reset, 255, 255)
}

/// Renders `cell` at column `x`, row `y`: a cursor move unless the last cell written was at
/// this very position, a colour change unless the colours in effect are the cell's, then the
/// character.
pub open spec fn render_cell(st: RenderState, cell: Cell, x: int, y: int) -> RenderState {
    let out1 = if st.3 != x || st.4 != y { st.0 + cursor_code(x, y) } else { st.0 };
    if st.1 != cell.color || st.2 != cell.bg {
        ((out1 + color_code(cell.color, cell.bg)).push(cell.c), cell.color, cell.bg, x, y)
    } else {
        (out1.push(cell.c), st.1, st.2, x, y)
    }
}

/// Every rendered cell is drawn in its own colours: after it the colours in effect are the
/// cell's, its character ends the output, and a colour code for exactly its colours comes just
/// before the character unless the colours in effect already were its own; and nothing written
/// before is changed.
pub proof fn lemma_cell_drawn_in_its_colours(st: RenderState, cell: Cell, x: int, y: int)
    ensures
        render_cell(st, cell, x, y).1 == cell.color,
        render_cell(st, cell, x, y).2 == cell.bg,
        render_cell(st, cell, x, y).3 == x && render_cell(st, cell, x, y).4 == y,
        render_cell(st, cell, x, y).0.last() == cell.c,
        render_cell(st, cell, x, y).0.len() > st.0.len(),
        render_cell(st, cell, x, y).0.take(st.0.len() as int) == st.0,
        (st.1 != cell.color || st.2 != cell.bg) ==> ({
            let out = render_cell(st, cell, x, y).0;
            let code = color_code(cell.color, cell.bg);
            out.len() >= st.0.len() + code.len() + 1
                && out.subrange(out.len() - 1 - code.len(), out.len() - 1) == code
        }),
        (st.1 == cell.color && st.2 == cell.bg) ==> ({
            let out = render_cell(st, cell, x, y).0;
            out == (if st.3 != x || st.4 != y { st.0 + cursor_code(x, y) } else { st.0 }).push(cell.c)
        }),
{
    let out1 = if st.3 != x || st.4 != y { st.0 + cursor_code(x, y) } else { st.0 };
    let code = color_code(cell.color, cell.bg);
    let out = render_cell(st, cell, x, y).0;
    if st.1 != cell.color || st.2 != cell.bg {
        assert(out == (out1 + code).push(cell.c));
        assert(out.subrange(out.len() - 1 - code.len(), out.len() - 1) =~= code);
        assert(out.take(st.0.len() as int) =~= st.0);
    } else {
        assert(out.take(st.0.len() as int) =~= st.0);
    }
}

/// Whether the cell at index `i` is rendered: on a full redraw every cell is, otherwise only
/// those that differ from the frame last shown.
pub open spec fn is_dirty(full: bool, cur: Seq<Cell>, prev: Seq<Cell>, i: int) -> bool {
    full || prev[i] != cur[i]
}

/// Renders the first `n` rows of column `x` of a frame `w` cells wide.
pub open spec fn render_column(
    st: RenderState,
    cur: Seq<Cell>,
    prev: Seq<Cell>,
    full: bool,
    w: int,
    x: int,
    n: int,
) -> RenderState
    decreases n,
{
    if n <= 0 {
        st
    } else {
        let s = render_column(st, cur, prev, full, w, x, n - 1);
        let i = (n - 1) * w + x;
        if is_dirty(full, cur, prev, i) {
            render_cell(s, cur[i], x, n - 1)
        } else {
            s
        }
    }
}

/// Renders the first `m` columns, each `h` rows high, column by column.
pub open spec fn render_columns(
    st: RenderState,
    cur: Seq<Cell>,
    prev: Seq<Cell>,
    full: bool,
    w: int,
    h: int,
    m: int,
) -> RenderState
    decreases m,
{
    if m <= 0 {
        st
    } else {
        render_column(render_columns(st, cur, prev, full, w, h, m - 1), cur, prev, full, w, m - 1, h)
    }
}

/// Double-buffered screen. Renders only the diff between frames.
pub struct Buffer {
    pub width: u16,
    pub height: u16,
    /// The frame being drawn, row by row.
    pub current: Vec<Cell>,
    /// The frame that the last `flush` rendered.
    pub previous: Vec<Cell>,
}

proof fn lemma_area_fits(w: u16, h: u16)
    ensures
        0 <= (w as int) * (h as int) <= 0xFFFF_FFFF,
{
    assert(0 <= (w as int) * (h as int) <= 0xFFFF_FFFF) by (nonlinear_arith)
        requires
            w <= 0xFFFF,
            h <= 0xFFFF,
    ;
}

proof fn lemma_index_in_range(w: int, h: int, x: int, y: int)
    requires
        0 <= x < w,
        0 <= y < h,
    ensures
        0 <= y * w + x < w * h,
{
    assert(0 <= y * w + x < w * h) by (nonlinear_arith)
        requires
            0 <= x < w,
            0 <= y < h,
    ;
}

proof fn lemma_index_injective(w: int, x1: int, y1: int, x2: int, y2: int)
    requires
        0 <= x1 < w,
        0 <= x2 < w,
        0 <= y1,
        0 <= y2,
        y1 * w + x1 == y2 * w + x2,
    ensures
        x1 == x2,
        y1 == y2,
{
    if y1 < y2 {
        assert(y1 * w + x1 < y2 * w) by (nonlinear_arith)
            requires
                0 <= x1 < w,
                y1 < y2,
        ;
    } else if y2 < y1 {
        assert(y2 * w + x2 < y1 * w) by (nonlinear_arith)
            requires
                0 <= x2 < w,
                y2 < y1,
        ;
    }
}

fn blank_cells(n: usize) -> (v: Vec<Cell>)
    ensures
        v@ == blank_frame(n as nat),
{
    let mut v: Vec<Cell> = Vec::new();
    let mut i: usize = 0;
    while i < n
        invariant
            i <= n,
            v@ == blank_frame(i as nat),
        decreases n - i,
    {
        v.push(Cell::default());
        assert(v@ =~= blank_frame((i + 1) as nat));
        i = i + 1;
    }
    v
}

fn copy_cells(v: &Vec<Cell>) -> (res: Vec<Cell>)
    ensures
        res@ == v@,
{
    let mut res: Vec<Cell> = Vec::new();
    let mut i: usize = 0;
    while i < v.len()
        invariant
            i <= v@.len(),
            res@ == v@.take(i as int),
        decreases v@.len() - i,
    {
        res.push(v[i]);
        assert(v@.take(i + 1) =~= v@.take(i as int).push(v@[i as int]));
        i = i + 1;
    }
    assert(v@.take(i as int) =~= v@);
    res
}

fn push_cursor(out: &mut String, x: u16, y: u16)
    requires
        x < 0xFFFF,
        y < 0xFFFF,
    ensures
        final(out)@ == old(out)@ + cursor_code(x as int, y as int),
{
    out.push('\x1b');
    out.push('[');
    push_decimal(out, (y + 1) as u64);
    out.push(';');
    push_decimal(out, (x + 1) as u64);
    out.push('H');
    assert(final(out)@ =~= old(out)@ + cursor_code(x as int, y as int));
}

fn push_color(out: &mut String, fg: Color, bg: Color)
    ensures
        final(out)@ == old(out)@ + color_code(fg, bg),
{
    out.push('\x1b');
    out.push('[');
    out.push('0');
    out.push(';');
    out.append(fg.fg_code());
    out.push(';');
    out.append(bg.bg_code());
    out.push('m');
    assert(final(out)@ =~= old(out)@ + color_code(fg, bg));
}

impl Buffer {
    /// The frame is as large as the screen: one cell per column and row.
    pub open spec fn wf(&self) -> bool {
        self.current@.len() == self.width * self.height
    }

    /// The frame being drawn, row by row.
    pub open spec fn front(&self) -> Seq<Cell> {
        self.current@
    }

    /// The frame that the last `flush` rendered (empty before the first one).
    pub open spec fn shown(&self) -> Seq<Cell> {
        self.previous@
    }

    /// Whether column `x`, row `y` lies on the screen.
    pub open spec fn in_bounds(&self, x: int, y: int) -> bool {
        0 <= x < self.width && 0 <= y < self.height
    }

    /// The position of column `x`, row `y` in the frame.
    pub open spec fn index_of(&self, x: int, y: int) -> int {
        y * self.width + x
    }

    /// The frame being drawn, as a map from (column, row) to cell.
    pub open spec fn grid(&self) -> Map<(int, int), Cell> {
        Map::new(
            |p: (int, int)| self.in_bounds(p.0, p.1),
            |p: (int, int)| self.front()[self.index_of(p.0, p.1)],
        )
    }

    /// What `flush` writes for the current state: every dirty cell, column by column, then
    /// an attribute reset.
    pub open spec fn frame_output(&self) -> Seq<char> {
        render_columns(
            render_start(),
            self.front(),
            self.shown(),
            self.front().len() != self.shown().len(),
            self.width as int,
            self.height as int,
            self.width as int,
        ).0 + reset_code()
    }

    /// A blank screen of `w` columns and `h` rows that has never been shown.
    pub fn new(w: u16, h: u16) -> (buf: Self)
        ensures
            buf.wf(),
            buf.width == w,
            buf.height == h,
            buf.front() == blank_frame((w * h) as nat),
            buf.shown() == Seq::<Cell>::empty(),
    {
        proof {
            lemma_area_fits(w, h);
        }
        let size = (w as usize) * (h as usize);
        Buffer { width: w, height: h, current: blank_cells(size), previous: Vec::new() }
    }

    /// Changes the size: the frame becomes blank and the next flush redraws everything.
    pub fn resize(&mut self, w: u16, h: u16)
        ensures
            final(self).wf(),
            final(self).width == w,
            final(self).height == h,
            final(self).front() == blank_frame((w * h) as nat),
            final(self).shown() == Seq::<Cell>::empty(),
    {
        proof {
            lemma_area_fits(w, h);
        }
        self.width = w;
        self.height = h;
        let size = (w as usize) * (h as usize);
        self.current = blank_cells(size);
        self.previous = Vec::new();
    }

    /// Blanks every cell of the frame being drawn.
    pub fn clear(&mut self)
        requires
            old(self).wf(),
        ensures
            final(self).wf(),
            final(self).width == old(self).width,
            final(self).height == old(self).height,
            final(self).front() == blank_frame(old(self).front().len()),
            final(self).shown() == old(self).shown(),
    {
        let n = self.current.len();
        let mut i: usize = 0;
        while i < n
            invariant
                n == self.current@.len(),
                i <= n,
                self.width == old(self).width,
                self.height == old(self).height,
                self.previous == old(self).previous,
                old(self).current@.len() == n,
                forall|k: int| 0 <= k < i ==> self.current@[k] == blank(),
            decreases n - i,
        {
            self.current.set(i, Cell::default());
            i = i + 1;
        }
        assert(self.current@ =~= blank_frame(n as nat));
    }

    fn idx(&self, x: u16, y: u16) -> (i: usize)
        requires
            self.wf(),
            x < self.width,
            y < self.height,
        ensures
            i == self.index_of(x as int, y as int),
            i < self.front().len(),
    {
        proof {
            lemma_index_in_range(self.width as int, self.height as int, x as int, y as int);
            lemma_area_fits(self.width, self.height);
            assert((y as int) * (self.width as int) <= (y as int) * (self.width as int) + (x as int));
        }
        (y as usize) * (self.width as usize) + (x as usize)
    }

    /// Writes one cell; positions off the screen are ignored.
    pub fn set(&mut self, x: u16, y: u16, ch: char, fg: Color, bg: Color)
        requires
            old(self).wf(),
        ensures
            final(self).wf(),
            final(self).width == old(self).width,
            final(self).height == old(self).height,
            final(self).shown() == old(self).shown(),
            old(self).in_bounds(x as int, y as int) ==> final(self).front() == old(self).front().update(
                old(self).index_of(x as int, y as int),
                Cell { c: ch, color: fg, bg },
            ),
            !old(self).in_bounds(x as int, y as int) ==> final(self).front() == old(self).front(),
            final(self).grid() == (if old(self).in_bounds(x as int, y as int) {
                old(self).grid().insert((x as int, y as int), Cell { c: ch, color: fg, bg })
            } else {
                old(self).grid()
            }),
    {
        if x < self.width && y < self.height {
            let i = self.idx(x, y);
            self.current.set(i, Cell { c: ch, color: fg, bg });
            proof {
                let cell = Cell { c: ch, color: fg, bg };
                assert forall|p: (int, int)| #[trigger] self.grid().dom().contains(p) implies self.grid()[p]
                    == old(self).grid().insert((x as int, y as int), cell)[p] by {
                    lemma_index_in_range(self.width as int, self.height as int, p.0, p.1);
                    if p != (x as int, y as int) {
                        if self.index_of(p.0, p.1) == i {
                            lemma_index_injective(self.width as int, p.0, p.1, x as int, y as int);
                        }
                    }
                }
                assert(self.grid() =~= old(self).grid().insert((x as int, y as int), cell));
            }
        }
    }

    /// Renders the frame: the changed cells since the last flush (every cell after `new` or
    /// `resize`), then remembers the frame as shown.
    pub fn flush(&mut self) -> (out: String)
        requires
            old(self).wf(),
        ensures
            out@ == old(self).frame_output(),
            final(self).wf(),
            final(self).width == old(self).width,
            final(self).height == old(self).height,
            final(self).front() == old(self).front(),
            final(self).shown() == old(self).front(),
    {
        let mut out = String::new();
        let full_redraw = self.current.len() != self.previous.len();
        let mut last_color = Color::Reset;
        let mut last_bg = Color::Reset;
        let mut last_pos: (u16, u16) = (255, 255);
        let ghost cur = self.current@;
        let ghost prev = self.previous@;
        let ghost w = self.width as int;
        let ghost h = self.height as int;
        let mut x: u16 = 0;
        while x < self.width
            invariant
                self.wf(),
                cur == self.current@,
                prev == self.previous@,
                w == self.width,
                h == self.height,
                full_redraw == (cur.len() != prev.len()),
                x <= self.width,
                render_columns(render_start(), cur, prev, full_redraw, w, h, x as int) == (
                    out@,
                    last_color,
                    last_bg,
                    last_pos.0 as int,
                    last_pos.1 as int,
                ),
            decreases self.width - x,
        {
            let mut y: u16 = 0;
            while y < self.height
                invariant
                    self.wf(),
                    cur == self.current@,
                    prev == self.previous@,
                    w == self.width,
                    h == self.height,
                    full_redraw == (cur.len() != prev.len()),
                    x < self.width,
                    y <= self.height,
                    render_column(
                        render_columns(render_start(), cur, prev, full_redraw, w, h, x as int),
                        cur,
                        prev,
                        full_redraw,
                        w,
                        x as int,
                        y as int,
                    ) == (out@, last_color, last_bg, last_pos.0 as int, last_pos.1 as int),
                decreases self.height - y,
            {
                let i = self.idx(x, y);
                let cell = self.current[i];
                if full_redraw || self.previous[i] != cell {
                    if last_pos.0 != x || last_pos.1 != y {
                        push_cursor(&mut out, x, y);
                    }
                    if last_color != cell.color || last_bg != cell.bg {
                        push_color(&mut out, cell.color, cell.bg);
                        last_color = cell.color;
                        last_bg = cell.bg;
                    }
                    out.push(cell.c);
                    last_pos = (x, y);
                }
                y = y + 1;
            }
            x = x + 1;
        }
        out.push('\x1b');
        out.push('[');
        out.push('0');
        out.push('m');
        self.previous = copy_cells(&self.current);
        assert(out@ =~= old(self).frame_output());
        out
    }

    /// Writes the characters of `s` from column `x` rightwards on row `y`, in the given
    /// colours; characters that fall off the screen are dropped.
    pub fn put_str(&mut self, x: u16, y: u16, text: &str, fg: Color, bg: Color)
        requires
            old(self).wf(),
        ensures
            final(self).wf(),
            final(self).width == old(self).width,
            final(self).height == old(self).height,
            final(self).shown() == old(self).shown(),
            final(self).grid() == text_overlay(old(self).grid(), x as int, y as int, text@, fg, bg),
    {
        let cs = chars_of(text);
        let ghost g0 = self.grid();
        let n = cs.len();
        let limit: usize = if x >= self.width {
            0
        } else if n < (self.width - x) as usize {
            n
        } else {
            (self.width - x) as usize
        };
        let mut i: usize = 0;
        while i < limit
            invariant
                limit <= cs@.len(),
                limit == 0 || x as int + limit as int <= self.width as int,
                limit < cs@.len() ==> x as int + limit as int >= self.width as int,
                self.wf(),
                cs@ == text@,
                i <= limit,
                self.width == old(self).width,
                self.height == old(self).height,
                self.shown() == old(self).shown(),
                g0 == old(self).grid(),
                self.grid() == text_overlay(g0, x as int, y as int, cs@.take(i as int), fg, bg),
            decreases limit - i,
        {
            let ch: char = char_at(&cs, i);
            let px: u16 = x + (i as u16);
            assert(px as int == x as int + i as int);
            let ghost before = self.grid();
            let ghost old_in = self.in_bounds(px as int, y as int);
            self.set(px, y, ch, fg, bg);
            assert(old_in ==> self.grid() == before.insert((px as int, y as int), Cell { c: ch, color: fg, bg }));
            proof {
                let t0 = cs@.take(i as int);
                let t1 = cs@.take(i + 1);
                assert(t1 =~= t0.push(cs@[i as int]));
                assert(self.grid().dom() =~= g0.dom());
                assert forall|p: (int, int)| #[trigger] g0.dom().contains(p) implies self.grid()[p]
                    == text_overlay(g0, x as int, y as int, t1, fg, bg)[p] by {
                    lemma_text_overlay_at(g0, x as int, y as int, t1, fg, bg, p);
                    lemma_text_overlay_at(g0, x as int, y as int, t0, fg, bg, p);
                    if p == (px as int, y as int) {
                        assert(old_in);
                        assert(t1[px - x] == cs@[i as int]);
                        assert(self.grid()[p] == Cell { c: ch, color: fg, bg });
                        assert(text_overlay(g0, x as int, y as int, t1, fg, bg)[p] == Cell { c: t1[px - x], color: fg, bg });
                    } else {
                        assert(self.grid()[p] == before[p]);
                        assert(before[p] == text_overlay(g0, x as int, y as int, t0, fg, bg)[p]);
                        if p.1 == y && x <= p.0 < x + t0.len() {
                            assert(t1[p.0 - x] == t0[p.0 - x]);
                        }
                        assert(text_overlay(g0, x as int, y as int, t1, fg, bg)[p] == text_overlay(g0, x as int, y as int, t0, fg, bg)[p]);
                    }
                }
                assert(self.grid() =~= text_overlay(g0, x as int, y as int, t1, fg, bg));
            }
            i = i + 1;
        }
        proof {
            assert forall|p: (int, int)| #[trigger] g0.dom().contains(p) implies text_overlay(
                g0,
                x as int,
                y as int,
                cs@.take(i as int),
                fg,
                bg,
            )[p] == text_overlay(g0, x as int, y as int, text@, fg, bg)[p] by {
                lemma_text_overlay_at(g0, x as int, y as int, cs@.take(i as int), fg, bg, p);
                lemma_text_overlay_at(g0, x as int, y as int, text@, fg, bg, p);
                if p.1 == y && x <= p.0 < x + text@.len() {
                    assert(p.0 < self.width);
                    assert(p.0 - x < i);
                    assert(cs@.take(i as int)[p.0 - x] == text@[p.0 - x]);
                }
            }
            assert(text_overlay(g0, x as int, y as int, cs@.take(i as int), fg, bg) =~= text_overlay(
                g0,
                x as int,
                y as int,
                text@,
                fg,
                bg,
            ));
        }
    }
}

/// `g` with the characters of `t` written from column `x` rightwards on row `y`, where the
/// screen has room for them.
pub open spec fn text_overlay(
    g: Map<(int, int), Cell>,
    x: int,
    y: int,
    t: Seq<char>,
    fg: Color,
    bg: Color,
) -> Map<(int, int), Cell> {
    Map::new(|p: (int, int)| g.dom().contains(p), |p: (int, int)| text_cell(g, x, y, t, fg, bg, p))
}

/// The cell at `p` once the characters of `t` are written from column `x` on row `y`.
pub open spec fn text_cell(
    g: Map<(int, int), Cell>,
    x: int,
    y: int,
    t: Seq<char>,
    fg: Color,
    bg: Color,
    p: (int, int),
) -> Cell {
    if p.1 == y && x <= p.0 < x + t.len() {
        Cell { c: t[p.0 - x], color: fg, bg }
    } else {
        g[p]
    }
}

proof fn lemma_clean_column(
    st: RenderState,
    cur: Seq<Cell>,
    w: int,
    x: int,
    n: int,
)
    ensures
        render_column(st, cur, cur, false, w, x, n) == st,
    decreases n,
{
    if n > 0 {
        lemma_clean_column(st, cur, w, x, n - 1);
    }
}

proof fn lemma_clean_columns(st: RenderState, cur: Seq<Cell>, w: int, h: int, m: int)
    ensures
        render_columns(st, cur, cur, false, w, h, m) == st,
    decreases m,
{
    if m > 0 {
        lemma_clean_columns(st, cur, w, h, m - 1);
        lemma_clean_column(st, cur, w, m - 1, h);
    }
}

/// Only changes are rendered: when the frame being drawn is the frame last shown, a flush
/// writes nothing but the attribute reset.
pub proof fn lemma_unchanged_frame_renders_nothing(buf: Buffer)
    requires
        buf.wf(),
        buf.shown() == buf.front(),
    ensures
        buf.frame_output() == reset_code(),
{
    lemma_clean_columns(
        render_start(),
        buf.front(),
        buf.width as int,
        buf.height as int,
        buf.width as int,
    );
    assert(render_start().0 + reset_code() =~= reset_code());
}

/// Reading one position of `text_overlay`.
pub proof fn lemma_text_overlay_at(
    g: Map<(int, int), Cell>,
    x: int,
    y: int,
    t: Seq<char>,
    fg: Color,
    bg: Color,
    p: (int, int),
)
    ensures
        text_overlay(g, x, y, t, fg, bg).dom() == g.dom(),
        g.dom().contains(p) ==> text_overlay(g, x, y, t, fg, bg)[p] == (if p.1 == y && x <= p.0 < x + t.len() {
            Cell { c: t[p.0 - x], color: fg, bg }
        } else {
            g[p]
        }),
{
    assert(text_overlay(g, x, y, t, fg, bg).dom() =~= g.dom());
}

} // verus!
