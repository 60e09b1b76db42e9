use vstd::prelude::*;

use crate::color::Color;
use crate::renderer::{
    cell_emit, cell_fg, color_change, decimal, law_decimal_round_trip, lower_half,
    row_fold, rows_fold, sgr_color, upper_half, PaintState, BG_KIND, FG_KIND,
};

verus! {

/// A foreground colour command (`ESC [ 3 8`) starts at byte `i` of `s`.
pub open spec fn fg_mark(s: Seq<u8>, i: int) -> bool {
    &&& 0 <= i
    &&& i + 3 < s.len()
    &&& s[i] == 27
    &&& s[i + 1] == 91
    &&& s[i + 2] == 51
    &&& s[i + 3] == 56
}

/// No foreground colour command starts anywhere in `s`.
pub open spec fn fg_free(s: Seq<u8>) -> bool {
    forall|i: int| !#[trigger] fg_mark(s, i)
}

/// No foreground colour command starts after byte `i` of `s`.
pub open spec fn no_fg_after(s: Seq<u8>, i: int) -> bool {
    forall|j: int| j > i ==> !#[trigger] fg_mark(s, j)
}

/// The command that sets the foreground to `fg` (some colour) stands at byte
/// `i` of `s` and is the last foreground command there.
pub open spec fn fg_set_at(s: Seq<u8>, i: int, fg: Option<Color>) -> bool {
    let c = fg->0;
    &&& fg is Some
    &&& 0 <= i
    &&& i + sgr_color(FG_KIND, c).len() <= s.len()
    &&& s.subrange(i, i + sgr_color(FG_KIND, c).len()) == sgr_color(FG_KIND, c)
    &&& no_fg_after(s, i)
}

/// The last foreground colour command in the bytes `s` sets `fg`; `None`
/// when `s` holds no foreground command at all.
pub open spec fn last_fg_is(s: Seq<u8>, fg: Option<Color>) -> bool {
    match fg {
        None => fg_free(s),
        Some(_) => exists|i: int| #[trigger] fg_set_at(s, i, fg),
    }
}

/// `s` does not end in the middle of what could start a command.
pub open spec fn clean_end(s: Seq<u8>) -> bool {
    s.len() == 0 || (s.last() != 27 && s.last() != 91 && s.last() != 51)
}

/// `s` holds no escape byte.
pub open spec fn no_esc(s: Seq<u8>) -> bool {
    forall|i: int| 0 <= i < s.len() ==> #[trigger] s[i] != 27
}

proof fn lemma_no_esc_concat(a: Seq<u8>, b: Seq<u8>)
    requires
        no_esc(a),
        no_esc(b),
    ensures
        no_esc(a + b),
{
    assert forall|i: int| 0 <= i < (a + b).len() implies #[trigger] (a + b)[i] != 27 by {
        if i < a.len() {
            assert((a + b)[i] == a[i]);
        } else {
            assert((a + b)[i] == b[i - a.len()]);
        }
    }
}

proof fn lemma_no_esc_is_fg_free(s: Seq<u8>)
    requires
        no_esc(s),
    ensures
        fg_free(s),
{
    assert forall|i: int| !#[trigger] fg_mark(s, i) by {
        if 0 <= i < s.len() {
            assert(s[i] != 27);
        }
    }
}

proof fn lemma_decimal_no_esc(n: u8)
    ensures
        no_esc(decimal(n)),
        decimal(n).len() >= 1,
{
    law_decimal_round_trip(n);
    assert forall|i: int| 0 <= i < decimal(n).len() implies #[trigger] decimal(n)[i] != 27 by {
        assert(48 <= decimal(n)[i] <= 57);
    }
}

/// A colour command is an escape byte followed by bytes free of escapes,
/// `[`, the digits of its kind, and ends with `m`.
proof fn lemma_sgr_shape(kind: u8, c: Color)
    ensures
        sgr_color(kind, c) == seq![27u8] + sgr_color(kind, c).subrange(1, sgr_color(kind, c).len() as int),
        no_esc(sgr_color(kind, c).subrange(1, sgr_color(kind, c).len() as int)),
        sgr_color(kind, c).len() >= 4,
        sgr_color(kind, c)[1] == 91,
        sgr_color(kind, c)[2] == decimal(kind)[0],
        sgr_color(kind, c).last() == 109,
{
    let s = sgr_color(kind, c);
    lemma_decimal_no_esc(kind);
    lemma_decimal_no_esc(c.0);
    lemma_decimal_no_esc(c.1);
    lemma_decimal_no_esc(c.2);
    let r = seq![91u8] + decimal(kind) + seq![59u8, 50u8, 59u8] + decimal(c.0) + seq![59u8] + decimal(c.1)
        + seq![59u8] + decimal(c.2) + seq![109u8];
    assert(no_esc(seq![91u8]));
    assert(no_esc(seq![59u8, 50u8, 59u8]));
    assert(no_esc(seq![59u8]));
    assert(no_esc(seq![109u8]));
    lemma_no_esc_concat(seq![91u8], decimal(kind));
    lemma_no_esc_concat(seq![91u8] + decimal(kind), seq![59u8, 50u8, 59u8]);
    lemma_no_esc_concat(seq![91u8] + decimal(kind) + seq![59u8, 50u8, 59u8], decimal(c.0));
    lemma_no_esc_concat(seq![91u8] + decimal(kind) + seq![59u8, 50u8, 59u8] + decimal(c.0), seq![59u8]);
    lemma_no_esc_concat(
        seq![91u8] + decimal(kind) + seq![59u8, 50u8, 59u8] + decimal(c.0) + seq![59u8],
        decimal(c.1),
    );
    lemma_no_esc_concat(
        seq![91u8] + decimal(kind) + seq![59u8, 50u8, 59u8] + decimal(c.0) + seq![59u8] + decimal(c.1),
        seq![59u8],
    );
    lemma_no_esc_concat(
        seq![91u8] + decimal(kind) + seq![59u8, 50u8, 59u8] + decimal(c.0) + seq![59u8] + decimal(c.1)
            + seq![59u8],
        decimal(c.2),
    );
    lemma_no_esc_concat(
        seq![91u8] + decimal(kind) + seq![59u8, 50u8, 59u8] + decimal(c.0) + seq![59u8] + decimal(c.1)
            + seq![59u8] + decimal(c.2),
        seq![109u8],
    );
    assert(s =~= seq![27u8] + r);
    assert(s.subrange(1, s.len() as int) =~= r);
}

/// In a foreground command the only foreground mark is its start.
proof fn lemma_sgr_fg_marks(c: Color)
    ensures
        forall|j: int| #[trigger] fg_mark(sgr_color(FG_KIND, c), j) <==> j == 0,
        clean_end(sgr_color(FG_KIND, c)),
{
    let s = sgr_color(FG_KIND, c);
    lemma_sgr_shape(FG_KIND, c);
    assert(decimal(38u8) =~= seq![51u8, 56u8]);
    assert(s[3] == 56) by {
        assert(s =~= seq![27u8, 91u8, 51u8, 56u8] + s.subrange(4, s.len() as int));
    }
    assert forall|j: int| #[trigger] fg_mark(s, j) implies j == 0 by {
        if j > 0 {
            assert(s.subrange(1, s.len() as int)[j - 1] == s[j]);
        }
    }
}

/// A background command holds no foreground mark.
proof fn lemma_sgr_bg_free(c: Color)
    ensures
        fg_free(sgr_color(BG_KIND, c)),
        clean_end(sgr_color(BG_KIND, c)),
{
    let s = sgr_color(BG_KIND, c);
    lemma_sgr_shape(BG_KIND, c);
    assert(decimal(48u8) =~= seq![52u8, 56u8]);
    assert forall|j: int| !#[trigger] fg_mark(s, j) by {
        if j > 0 && j < s.len() {
            assert(s.subrange(1, s.len() as int)[j - 1] == s[j]);
        }
    }
}

/// With `s` ending cleanly, the foreground marks of `s + t` are those of `s`
/// and those of `t`, shifted.
proof fn lemma_concat_marks(s: Seq<u8>, t: Seq<u8>)
    requires
        clean_end(s),
    ensures
        forall|j: int|
            #[trigger] fg_mark(s + t, j) <==> ((j < s.len() && fg_mark(s, j)) || (j >= s.len() && fg_mark(
                t,
                j - s.len(),
            ))),
{
    assert forall|j: int|
        #[trigger] fg_mark(s + t, j) <==> ((j < s.len() && fg_mark(s, j)) || (j >= s.len() && fg_mark(
            t,
            j - s.len(),
        ))) by {
        let u = s + t;
        if 0 <= j && j + 3 < u.len() {
            if j + 3 < s.len() {
                assert(u[j] == s[j] && u[j + 1] == s[j + 1] && u[j + 2] == s[j + 2] && u[j + 3] == s[j + 3]);
            } else if j >= s.len() {
                let k = j - s.len();
                assert(u[j] == t[k] && u[j + 1] == t[k + 1] && u[j + 2] == t[k + 2] && u[j + 3] == t[k + 3]);
            } else {
                let l = s.len() - 1;
                assert(u[l] == s[l]);
            }
        }
    }
}

proof fn lemma_clean_end_concat(s: Seq<u8>, t: Seq<u8>)
    requires
        clean_end(s),
        clean_end(t),
    ensures
        clean_end(s + t),
{
    if t.len() > 0 {
        assert((s + t).last() == t.last());
    } else {
        assert(s + t =~= s);
    }
}

/// Appending bytes without foreground commands keeps the last foreground.
proof fn lemma_append_free(s: Seq<u8>, fg: Option<Color>, t: Seq<u8>)
    requires
        clean_end(s),
        last_fg_is(s, fg),
        fg_free(t),
    ensures
        last_fg_is(s + t, fg),
{
    lemma_concat_marks(s, t);
    match fg {
        None => {},
        Some(c) => {
            let l = sgr_color(FG_KIND, c).len();
            let i = choose|i: int| #[trigger] fg_set_at(s, i, fg);
            assert((s + t).subrange(i, i + l) =~= s.subrange(i, i + l));
            assert(fg_set_at(s + t, i, fg));
        },
    }
}

/// Appending a foreground command makes its colour the last foreground.
proof fn lemma_append_fg(s: Seq<u8>, c: Color)
    requires
        clean_end(s),
    ensures
        last_fg_is(s + sgr_color(FG_KIND, c), Some(c)),
        clean_end(s + sgr_color(FG_KIND, c)),
{
    let t = sgr_color(FG_KIND, c);
    lemma_concat_marks(s, t);
    lemma_sgr_fg_marks(c);
    lemma_clean_end_concat(s, t);
    let i = s.len() as int;
    assert((s + t).subrange(i, i + t.len()) =~= t);
    assert forall|j: int| j > i implies !#[trigger] fg_mark(s + t, j) by {
        assert(!fg_mark(t, j - i));
    }
    assert(fg_set_at(s + t, i, Some(c)));
}

/// The state kept by the renderer after a colour change for the foreground.
proof fn lemma_fg_change(s: Seq<u8>, fg: Option<Color>, c: Color)
    requires
        clean_end(s),
        last_fg_is(s, fg),
    ensures
        last_fg_is(s + color_change(FG_KIND, c, fg), Some(c)),
        clean_end(s + color_change(FG_KIND, c, fg)),
{
    if fg == Some(c) {
        assert(s + color_change(FG_KIND, c, fg) =~= s);
    } else {
        lemma_append_fg(s, c);
    }
}

proof fn lemma_bg_change(s: Seq<u8>, fg: Option<Color>, c: Color, bg: Option<Color>)
    requires
        clean_end(s),
        last_fg_is(s, fg),
    ensures
        last_fg_is(s + color_change(BG_KIND, c, bg), fg),
        clean_end(s + color_change(BG_KIND, c, bg)),
        fg_free(color_change(BG_KIND, c, bg)),
{
    lemma_sgr_bg_free(c);
    let t = color_change(BG_KIND, c, bg);
    if bg == Some(c) {
        assert(t =~= Seq::<u8>::empty());
        assert(s + t =~= s);
    } else {
        lemma_clean_end_concat(s, t);
    }
    lemma_append_free(s, fg, t);
}

proof fn lemma_glyph(s: Seq<u8>, fg: Option<Color>, t: Seq<u8>)
    requires
        clean_end(s),
        last_fg_is(s, fg),
        t == upper_half() || t == lower_half() || t == seq![32u8] || t == seq![13u8, 10u8],
    ensures
        last_fg_is(s + t, fg),
        clean_end(s + t),
        fg_free(t),
{
    assert(no_esc(t));
    lemma_no_esc_is_fg_free(t);
    lemma_append_free(s, fg, t);
    lemma_clean_end_concat(s, t);
}

/// The renderer's memory of the foreground is faithful, cell by cell. After
/// bytes `s` whose last foreground command sets `fg`, a cell's bytes leave
/// the output's last foreground command setting the foreground the renderer
/// remembers next; a half block is drawn right after its foreground was set
/// to the colour of its coloured pixel (the upper pixel for `▀`, the lower
/// for `▄`); and a cell drawn as a space writes no foreground command.
pub proof fn law_cell_keeps_foreground_state(
    s: Seq<u8>,
    top: Option<Color>,
    bot: Option<Color>,
    fg: Option<Color>,
    bg: Option<Color>,
)
    requires
        clean_end(s),
        last_fg_is(s, fg),
    ensures
        last_fg_is(s + cell_emit(top, bot, fg, bg), cell_fg(top, bot, fg)),
        clean_end(s + cell_emit(top, bot, fg, bg)),
        ({
            let e = cell_emit(top, bot, fg, bg);
            &&& e.len() >= 1
            &&& e.last() == 32 ==> fg_free(e)
            &&& e.len() >= 3 && e.subrange(e.len() - 3, e.len() as int) == upper_half() ==> top is Some
                && last_fg_is(s + e.subrange(0, e.len() - 3), top)
            &&& e.len() >= 3 && e.subrange(e.len() - 3, e.len() as int) == lower_half() ==> bot is Some
                && last_fg_is(s + e.subrange(0, e.len() - 3), bot)
        }),
{
    let e = cell_emit(top, bot, fg, bg);
    let bgc = crate::color::BACKGROUND;
    match (top, bot) {
        (Some(t), Some(b)) => {
            if t == b {
                lemma_space_cell(s, fg, t, bg);
            } else {
                lemma_half_cell(s, fg, bg, t, b, upper_half());
                assert(e == color_change(FG_KIND, t, fg) + color_change(BG_KIND, b, bg) + upper_half());
            }
        },
        (Some(t), None) => {
            lemma_half_cell(s, fg, bg, t, bgc, upper_half());
        },
        (None, Some(b)) => {
            lemma_half_cell(s, fg, bg, b, bgc, lower_half());
        },
        (None, None) => {
            lemma_space_cell(s, fg, bgc, bg);
        },
    }
}

proof fn lemma_space_cell(s: Seq<u8>, fg: Option<Color>, c: Color, bg: Option<Color>)
    requires
        clean_end(s),
        last_fg_is(s, fg),
    ensures
        ({
            let e = color_change(BG_KIND, c, bg) + seq![32u8];
            &&& last_fg_is(s + e, fg)
            &&& clean_end(s + e)
            &&& fg_free(e)
            &&& e.len() >= 1
            &&& e.last() == 32
            &&& e.len() >= 3 ==> e.subrange(e.len() - 3, e.len() as int) != upper_half()
            &&& e.len() >= 3 ==> e.subrange(e.len() - 3, e.len() as int) != lower_half()
        }),
{
    lemma_bg_change(s, fg, c, bg);
    let p = color_change(BG_KIND, c, bg);
    let e = p + seq![32u8];
    lemma_glyph(s + p, fg, seq![32u8]);
    assert(s + e =~= (s + p) + seq![32u8]);
    lemma_sgr_bg_free(c);
    lemma_concat_marks(p, seq![32u8]);
    assert(no_esc(seq![32u8]));
    lemma_no_esc_is_fg_free(seq![32u8]);
    if e.len() >= 3 {
        assert(e.subrange(e.len() - 3, e.len() as int)[2] == 32);
    }
}

#[verifier::rlimit(60)]
proof fn lemma_half_cell(s: Seq<u8>, fg: Option<Color>, bg: Option<Color>, f: Color, b: Color, glyph: Seq<u8>)
    requires
        clean_end(s),
        last_fg_is(s, fg),
        glyph == upper_half() || glyph == lower_half(),
    ensures
        ({
            let p = color_change(FG_KIND, f, fg) + color_change(BG_KIND, b, bg);
            let e = p + glyph;
            &&& last_fg_is(s + e, Some(f))
            &&& clean_end(s + e)
            &&& e.len() >= 3
            &&& e.last() != 32
            &&& e.subrange(e.len() - 3, e.len() as int) == glyph
            &&& e.subrange(0, e.len() - 3) == p
            &&& last_fg_is(s + p, Some(f))
        }),
{
    let p1 = color_change(FG_KIND, f, fg);
    let p2 = color_change(BG_KIND, b, bg);
    lemma_fg_change(s, fg, f);
    lemma_bg_change(s + p1, Some(f), b, bg);
    assert(no_esc(glyph));
    assert(glyph.len() == 3 && glyph[2] != 32 && clean_end(glyph));
    lemma_half_parts(s, f, p1, p2, glyph);
}

proof fn lemma_half_parts(s: Seq<u8>, f: Color, p1: Seq<u8>, p2: Seq<u8>, glyph: Seq<u8>)
    requires
        clean_end(s + p1 + p2),
        last_fg_is(s + p1 + p2, Some(f)),
        no_esc(glyph),
        clean_end(glyph),
        glyph.len() == 3,
        glyph[2] != 32,
    ensures
        ({
            let p = p1 + p2;
            let e = p + glyph;
            &&& last_fg_is(s + e, Some(f))
            &&& clean_end(s + e)
            &&& e.len() >= 3
            &&& e.last() != 32
            &&& e.subrange(e.len() - 3, e.len() as int) == glyph
            &&& e.subrange(0, e.len() - 3) == p
            &&& last_fg_is(s + p, Some(f))
        }),
{
    let p = p1 + p2;
    let e = p + glyph;
    assert(s + p =~= s + p1 + p2);
    lemma_no_esc_is_fg_free(glyph);
    lemma_append_free(s + p, Some(f), glyph);
    lemma_clean_end_concat(s + p, glyph);
    assert(s + e =~= (s + p) + glyph);
    lemma_split_glyph(p, glyph);
}

proof fn lemma_split_glyph(p: Seq<u8>, glyph: Seq<u8>)
    requires
        glyph.len() == 3,
        glyph[2] != 32,
    ensures
        (p + glyph).len() >= 3,
        (p + glyph).last() != 32,
        (p + glyph).subrange((p + glyph).len() - 3, (p + glyph).len() as int) == glyph,
        (p + glyph).subrange(0, (p + glyph).len() - 3) == p,
{
    let e = p + glyph;
    assert(e.subrange(0, e.len() - 3) =~= p);
    assert(e.subrange(e.len() - 3, e.len() as int) =~= glyph);
}

proof fn lemma_row_fold_state(
    fb: Seq<Option<Color>>,
    w: int,
    ph: int,
    row: int,
    n: nat,
    st: PaintState,
)
    requires
        clean_end(st.0),
        last_fg_is(st.0, st.1),
    ensures
        clean_end(row_fold(fb, w, ph, row, n, st).0),
        last_fg_is(row_fold(fb, w, ph, row, n, st).0, row_fold(fb, w, ph, row, n, st).1),
    decreases n,
{
    if n > 0 {
        lemma_row_fold_state(fb, w, ph, row, (n - 1) as nat, st);
        let prev = row_fold(fb, w, ph, row, (n - 1) as nat, st);
        let top = crate::renderer::top_pixel(fb, w, row, n - 1);
        let bot = crate::renderer::bottom_pixel(fb, w, ph, row, n - 1);
        law_cell_keeps_foreground_state(prev.0, top, bot, prev.1, prev.2);
    }
}

/// Over a whole frame, the foreground the renderer remembers after any
/// number of terminal rows is the colour of the last foreground command it
/// has written (none before the first), so a colour command is skipped only
/// when the terminal really shows that colour already.
pub proof fn law_frame_keeps_foreground_state(fb: Seq<Option<Color>>, w: int, ph: int, r: nat)
    ensures
        last_fg_is(rows_fold(fb, w, ph, r).0, rows_fold(fb, w, ph, r).1),
        clean_end(rows_fold(fb, w, ph, r).0),
    decreases r,
{
    if r == 0 {
        assert forall|i: int| !#[trigger] fg_mark(Seq::<u8>::empty(), i) by {}
    } else {
        law_frame_keeps_foreground_state(fb, w, ph, (r - 1) as nat);
        let prev = rows_fold(fb, w, ph, (r - 1) as nat);
        lemma_row_fold_state(fb, w, ph, r - 1, w as nat, prev);
        let line = row_fold(fb, w, ph, r - 1, w as nat, prev);
        if r < ph / 2 {
            lemma_glyph(line.0, line.1, seq![13u8, 10u8]);
        }
    }
}

} // verus!
