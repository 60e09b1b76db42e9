use vstd::prelude::*;

use crate::color::Color;

verus! {

/// The ASCII code of the digit `d` (`d < 10`).
pub open spec fn digit(d: int) -> u8 {
    (48 + d) as u8
}

/// The decimal representation of `n`, without leading zeros.
pub open spec fn decimal(n: u8) -> Seq<u8> {
    if n >= 100 {
        seq![digit(n as int / 100), digit((n as int / 10) % 10), digit(n as int % 10)]
    } else if n >= 10 {
        seq![digit(n as int / 10), digit(n as int % 10)]
    } else {
        seq![digit(n as int)]
    }
}

/// Appends the decimal digits of `n` to `buf`.
pub fn itoa_push(buf: &mut Vec<u8>, n: u8)
    ensures
        final(buf)@ == old(buf)@ + decimal(n),
{
    if n >= 100 {
        buf.push(48u8 + n / 100);
        buf.push(48u8 + (n / 10) % 10);
        buf.push(48u8 + n % 10);
    } else if n >= 10 {
        buf.push(48u8 + n / 10);
        buf.push(48u8 + n % 10);
    } else {
        buf.push(48u8 + n);
    }
    assert(final(buf)@ =~= old(buf)@ + decimal(n));
}

} // verus!

verus! {

/// Selector of the SGR foreground colour command.
pub const FG_KIND: u8 = 38;

/// Selector of the SGR background colour command.
pub const BG_KIND: u8 = 48;

/// `ESC [ kind ; 2 ; r ; g ; b m`: the 24-bit colour command of the terminal.
pub open spec fn sgr_color(kind: u8, c: Color) -> Seq<u8> {
    seq![27u8, 91u8] + decimal(kind) + seq![59u8, 50u8, 59u8] + decimal(c.0) + seq![59u8]
        + decimal(c.1) + seq![59u8] + decimal(c.2) + seq![109u8]
}

/// What a colour change emits: nothing when `c` is already the current colour.
pub open spec fn color_change(kind: u8, c: Color, prev: Option<Color>) -> Seq<u8> {
    if prev == Some(c) {
        Seq::empty()
    } else {
        sgr_color(kind, c)
    }
}

/// Appends the 24-bit colour command `ESC[kind;2;r;g;bm` to `buf`.
pub fn write_ansi_color(buf: &mut Vec<u8>, kind: u8, c: Color)
    ensures
        final(buf)@ == old(buf)@ + sgr_color(kind, c),
{
    let (r, g, b) = c;
    buf.push(27u8);
    buf.push(91u8);
    itoa_push(buf, kind);
    buf.push(59u8);
    buf.push(50u8);
    buf.push(59u8);
    itoa_push(buf, r);
    buf.push(59u8);
    itoa_push(buf, g);
    buf.push(59u8);
    itoa_push(buf, b);
    buf.push(109u8);
    assert(final(buf)@ =~= old(buf)@ + sgr_color(kind, c));
}

fn set_color(buf: &mut Vec<u8>, kind: u8, c: Color, prev: &mut Option<Color>)
    ensures
        final(buf)@ == old(buf)@ + color_change(kind, c, *old(prev)),
        *final(prev) == Some(c),
{
    let unchanged = match *prev {
        Some(p) => crate::color::same_color(p, c),
        None => false,
    };
    if !unchanged {
        write_ansi_color(buf, kind, c);
        *prev = Some(c);
    } else {
        assert(final(buf)@ =~= old(buf)@ + color_change(kind, c, *old(prev)));
    }
}

/// Switches the foreground colour to `c`, emitting the command only when the
/// colour last set (`prev`) differs.
pub fn set_fg(buf: &mut Vec<u8>, c: Color, prev: &mut Option<Color>)
    ensures
        final(buf)@ == old(buf)@ + color_change(FG_KIND, c, *old(prev)),
        *final(prev) == Some(c),
{
    set_color(buf, FG_KIND, c, prev);
}

/// Switches the background colour to `c`, emitting the command only when the
/// colour last set (`prev`) differs.
pub fn set_bg(buf: &mut Vec<u8>, c: Color, prev: &mut Option<Color>)
    ensures
        final(buf)@ == old(buf)@ + color_change(BG_KIND, c, *old(prev)),
        *final(prev) == Some(c),
{
    set_color(buf, BG_KIND, c, prev);
}

} // verus!

verus! {

/// The colour state of a terminal while a frame is written: the bytes so far,
/// the foreground colour last set and the background colour last set.
pub type PaintState = (Seq<u8>, Option<Color>, Option<Color>);

/// UTF-8 of the upper half block `▀`.
pub open spec fn upper_half() -> Seq<u8> {
    seq![0xE2u8, 0x96u8, 0x80u8]
}

/// UTF-8 of the lower half block `▄`.
pub open spec fn lower_half() -> Seq<u8> {
    seq![0xE2u8, 0x96u8, 0x84u8]
}

/// The bytes of one terminal cell, which shows two stacked pixels `top` and
/// `bot`, given the colours last set: a cell whose pixels agree is a space on
/// that background; otherwise the upper (or lower) half block is drawn in one
/// colour over the other, an empty pixel showing the background colour.
pub open spec fn cell_emit(top: Option<Color>, bot: Option<Color>, fg: Option<Color>, bg: Option<Color>) -> Seq<u8> {
    match top {
        Some(t) => match bot {
            Some(b) => if t == b {
                color_change(BG_KIND, t, bg) + seq![32u8]
            } else {
                color_change(FG_KIND, t, fg) + color_change(BG_KIND, b, bg) + upper_half()
            },
            None => color_change(FG_KIND, t, fg) + color_change(BG_KIND, crate::color::BACKGROUND, bg)
                + upper_half(),
        },
        None => match bot {
            Some(b) => color_change(FG_KIND, b, fg) + color_change(BG_KIND, crate::color::BACKGROUND, bg)
                + lower_half(),
            None => color_change(BG_KIND, crate::color::BACKGROUND, bg) + seq![32u8],
        },
    }
}

/// The foreground colour last set after a cell is drawn.
pub open spec fn cell_fg(top: Option<Color>, bot: Option<Color>, fg: Option<Color>) -> Option<Color> {
    match (top, bot) {
        (Some(t), Some(b)) => if t == b { fg } else { Some(t) },
        (Some(t), None) => Some(t),
        (None, Some(b)) => Some(b),
        (None, None) => fg,
    }
}

/// The background colour last set after a cell is drawn.
pub open spec fn cell_bg(top: Option<Color>, bot: Option<Color>) -> Option<Color> {
    match (top, bot) {
        (Some(t), Some(b)) => Some(b),
        _ => Some(crate::color::BACKGROUND),
    }
}

/// The state after one terminal cell is drawn.
pub open spec fn cell_step(top: Option<Color>, bot: Option<Color>, st: PaintState) -> PaintState {
    (st.0 + cell_emit(top, bot, st.1, st.2), cell_fg(top, bot, st.1), cell_bg(top, bot))
}

/// The upper pixel of terminal cell (`row`, `col`).
pub open spec fn top_pixel(fb: Seq<Option<Color>>, w: int, row: int, col: int) -> Option<Color> {
    fb[(2 * row) * w + col]
}

/// The lower pixel of terminal cell (`row`, `col`); none below the last pixel row.
pub open spec fn bottom_pixel(fb: Seq<Option<Color>>, w: int, ph: int, row: int, col: int) -> Option<Color> {
    if 2 * row + 1 < ph {
        fb[(2 * row + 1) * w + col]
    } else {
        None
    }
}

/// The state after the first `n` cells of terminal row `row`, from `st`.
pub open spec fn row_fold(fb: Seq<Option<Color>>, w: int, ph: int, row: int, n: nat, st: PaintState) -> PaintState
    decreases n,
{
    if n == 0 {
        st
    } else {
        let prev = row_fold(fb, w, ph, row, (n - 1) as nat, st);
        cell_step(top_pixel(fb, w, row, n - 1), bottom_pixel(fb, w, ph, row, n - 1), prev)
    }
}

/// The state after the first `r` terminal rows, each but the last followed by CR LF.
pub open spec fn rows_fold(fb: Seq<Option<Color>>, w: int, ph: int, r: nat) -> PaintState
    decreases r,
{
    if r == 0 {
        (Seq::empty(), None, None)
    } else {
        let line = row_fold(fb, w, ph, r - 1, w as nat, rows_fold(fb, w, ph, (r - 1) as nat));
        if r < ph / 2 {
            (line.0 + seq![13u8, 10u8], line.1, line.2)
        } else {
            line
        }
    }
}

/// The bytes that draw a frame of `w` by `ph` pixels: cursor home, the
/// `ph / 2` terminal rows, and the attribute reset.
pub open spec fn frame_bytes(fb: Seq<Option<Color>>, w: int, ph: int) -> Seq<u8> {
    seq![27u8, 91u8, 72u8] + rows_fold(fb, w, ph, (ph / 2) as nat).0 + seq![27u8, 91u8, 48u8, 109u8]
}


/// Appends the bytes of one terminal cell and updates the colour state.
#[verifier::rlimit(40)]
fn paint_cell(
    buf: &mut Vec<u8>,
    top: Option<Color>,
    bot: Option<Color>,
    prev_fg: &mut Option<Color>,
    prev_bg: &mut Option<Color>,
)
    ensures
        final(buf)@ == old(buf)@ + cell_emit(top, bot, *old(prev_fg), *old(prev_bg)),
        *final(prev_fg) == cell_fg(top, bot, *old(prev_fg)),
        *final(prev_bg) == cell_bg(top, bot),
{
    let bg = crate::color::BACKGROUND;
    match (top, bot) {
        (Some(tc), Some(bc)) => {
            if crate::color::same_color(tc, bc) {
                set_bg(buf, tc, prev_bg);
                buf.push(32u8);
            } else {
                set_fg(buf, tc, prev_fg);
                set_bg(buf, bc, prev_bg);
                buf.push(0xE2u8);
                buf.push(0x96u8);
                buf.push(0x80u8);
            }
        },
        (Some(tc), None) => {
            set_fg(buf, tc, prev_fg);
            set_bg(buf, bg, prev_bg);
            buf.push(0xE2u8);
            buf.push(0x96u8);
            buf.push(0x80u8);
        },
        (None, Some(bc)) => {
            set_fg(buf, bc, prev_fg);
            set_bg(buf, bg, prev_bg);
            buf.push(0xE2u8);
            buf.push(0x96u8);
            buf.push(0x84u8);
        },
        (None, None) => {
            set_bg(buf, bg, prev_bg);
            buf.push(32u8);
        },
    }
    assert(final(buf)@ =~= old(buf)@ + cell_emit(top, bot, *old(prev_fg), *old(prev_bg)));
}

/// The number written by a string of ASCII digits.
pub open spec fn decimal_value(s: Seq<u8>) -> int
    decreases s.len(),
{
    if s.len() == 0 {
        0
    } else {
        decimal_value(s.drop_last()) * 10 + (s.last() - 48)
    }
}

/// The digits written for a byte read back as that byte: they are ASCII
/// digits, at most three, with no leading zero.
pub proof fn law_decimal_round_trip(n: u8)
    ensures
        decimal_value(decimal(n)) == n,
        1 <= decimal(n).len() <= 3,
        forall|i: int| 0 <= i < decimal(n).len() ==> 48 <= #[trigger] decimal(n)[i] <= 57,
        decimal(n).len() > 1 ==> decimal(n)[0] != 48,
{
    let s = decimal(n);
    let a = n as int / 100;
    let b = (n as int / 10) % 10;
    let c = n as int % 10;
    assert(0 <= c < 10 && 0 <= b < 10 && 0 <= a < 3);
    assert(digit(a) == 48 + a && digit(b) == 48 + b && digit(c) == 48 + c);
    assert(digit(n as int / 10) == 48 + n as int / 10 || n >= 100);
    assert(digit(n as int) == 48 + n as int || n >= 10);
    if n >= 100 {
        assert(s.drop_last().drop_last().drop_last() =~= Seq::<u8>::empty());
        assert(s.drop_last().drop_last() =~= seq![digit(a)]);
        assert(s.drop_last() =~= seq![digit(a), digit(b)]);
        assert(decimal_value(s.drop_last().drop_last().drop_last()) == 0);
        assert(decimal_value(s.drop_last().drop_last()) == a);
        assert(decimal_value(s.drop_last()) == a * 10 + b);
        assert(decimal_value(s) == (a * 10 + b) * 10 + c);
    } else if n >= 10 {
        assert(s.drop_last().drop_last() =~= Seq::<u8>::empty());
        assert(s.drop_last() =~= seq![digit(n as int / 10)]);
        assert(decimal_value(s.drop_last().drop_last()) == 0);
        assert(decimal_value(s.drop_last()) == n as int / 10);
    } else {
        assert(s.drop_last() =~= Seq::<u8>::empty());
        assert(decimal_value(s.drop_last()) == 0);
    }
}

/// Setting the colour that is already current emits nothing: setting a
/// colour twice in a row writes the same bytes as setting it once.
pub proof fn law_repeated_color_is_silent(kind: u8, c: Color, prev: Option<Color>)
    ensures
        color_change(kind, c, prev) + color_change(kind, c, Some(c)) == color_change(kind, c, prev),
{
    assert(color_change(kind, c, prev) + color_change(kind, c, Some(c)) =~= color_change(kind, c, prev));
}

/// The size of the simulated field for a terminal of `cols` by `rows` cells:
/// one pixel per column and two per row, drawn with font scale 3.
pub struct SimSize {
    pub width: usize,
    pub pixel_h: usize,
    pub font_scale: usize,
}

/// Encodes simulation frames as ANSI escape sequences with half-block glyphs.
pub struct TextRenderer;

impl TextRenderer {
    pub fn new() -> (r: Self)
        ensures
            r == TextRenderer,
    {
        TextRenderer
    }

    /// The field size for a terminal of `cols` columns and `rows` rows.
    pub fn sim_size(&self, cols: u16, rows: u16) -> (s: SimSize)
        ensures
            s.width == cols as int,
            s.pixel_h == 2 * rows as int,
            s.font_scale == 3,
    {
        SimSize { width: cols as usize * 1, pixel_h: rows as usize * 2, font_scale: 3 }
    }

    /// Clears `buf` and fills it with the bytes that draw the frame `fb` of
    /// `width` by `pixel_h` pixels.
    pub fn render(&mut self, fb: &[Option<Color>], width: usize, pixel_h: usize, buf: &mut Vec<u8>)
        requires
            fb@.len() == width * pixel_h,
        ensures
            final(buf)@ == frame_bytes(fb@, width as int, pixel_h as int),
    {
        buf.clear();
        self.render_into(fb, width, pixel_h, buf);
        assert(final(buf)@ =~= frame_bytes(fb@, width as int, pixel_h as int));
    }

    /// Appends to `buf` the bytes that draw the frame `fb`.
    pub fn render_into(&mut self, fb: &[Option<Color>], width: usize, pixel_h: usize, buf: &mut Vec<u8>)
        requires
            fb@.len() == width * pixel_h,
        ensures
            final(buf)@ == old(buf)@ + frame_bytes(fb@, width as int, pixel_h as int),
    {
        let w = width;
        let ph = pixel_h;
        let term_h = ph / 2;
        let bg = crate::color::BACKGROUND;
        buf.push(27u8);
        buf.push(91u8);
        buf.push(72u8);
        let ghost start = buf@;
        let mut prev_fg: Option<Color> = None;
        let mut prev_bg: Option<Color> = None;
        let mut row: usize = 0;
        while row < term_h
            invariant
                row <= term_h,
                term_h == ph / 2,
                fb@.len() == w * ph,
                bg == crate::color::BACKGROUND,
                start == old(buf)@ + seq![27u8, 91u8, 72u8],
                buf@ == start + rows_fold(fb@, w as int, ph as int, row as nat).0,
                prev_fg == rows_fold(fb@, w as int, ph as int, row as nat).1,
                prev_bg == rows_fold(fb@, w as int, ph as int, row as nat).2,
            decreases term_h - row,
        {
            let py_top = row * 2;
            let py_bot = py_top + 1;
            let ghost st0 = rows_fold(fb@, w as int, ph as int, row as nat);
            let mut col: usize = 0;
            while col < w
                invariant
                    row < term_h,
                    term_h == ph / 2,
                    py_top == 2 * row,
                    py_bot == py_top + 1,
                    col <= w,
                    fb@.len() == w * ph,
                    bg == crate::color::BACKGROUND,
                    buf@ == start + row_fold(fb@, w as int, ph as int, row as int, col as nat, st0).0,
                    prev_fg == row_fold(fb@, w as int, ph as int, row as int, col as nat, st0).1,
                    prev_bg == row_fold(fb@, w as int, ph as int, row as int, col as nat, st0).2,
                decreases w - col,
            {
                proof {
                    assert(fb@.len() == fb.len());
                    crate::grid::lemma_cell_index(py_top as int, col as int, w as int, ph as int);
                    crate::grid::lemma_cell_index(py_bot as int, col as int, w as int, ph as int);
                }
                let ghost before = buf@;
                let top = fb[py_top * w + col];
                let bot = if py_bot < ph {
                    fb[py_bot * w + col]
                } else {
                    None
                };
                paint_cell(buf, top, bot, &mut prev_fg, &mut prev_bg);
                proof {
                    let prev = row_fold(fb@, w as int, ph as int, row as int, col as nat, st0);
                    assert(top == top_pixel(fb@, w as int, row as int, col as int));
                    assert(bot == bottom_pixel(fb@, w as int, ph as int, row as int, col as int));
                    let next = cell_step(top, bot, prev);
                    assert(row_fold(fb@, w as int, ph as int, row as int, (col + 1) as nat, st0) == next);
                    assert(buf@ =~= start + next.0);
                }
                col += 1;
            }
            if row + 1 < term_h {
                buf.push(13u8);
                buf.push(10u8);
            }
            proof {
                assert(buf@ =~= start + rows_fold(fb@, w as int, ph as int, (row + 1) as nat).0);
            }
            row += 1;
        }
        buf.push(27u8);
        buf.push(91u8);
        buf.push(48u8);
        buf.push(109u8);
        assert(buf@ =~= old(buf)@ + frame_bytes(fb@, w as int, ph as int));
    }
}

} // verus!
