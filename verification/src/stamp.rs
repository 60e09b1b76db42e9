use vstd::prelude::*;

use crate::grid::SandGrid;
use crate::text::TextBitmap;

verus! {

/// The concatenation, in row-major order over the first `n` pixels of a
/// bitmap `w` pixels wide, of what `f` yields for each pixel (`lx`, `ly`).
pub open spec fn gather<A>(w: int, n: int, f: spec_fn(int, int) -> Seq<A>) -> Seq<A>
    decreases n,
{
    if n <= 0 {
        Seq::empty()
    } else {
        gather(w, n - 1, f) + f((n - 1) % w, (n - 1) / w)
    }
}

proof fn lemma_gather_step<A>(w: int, lx: int, ly: int, f: spec_fn(int, int) -> Seq<A>)
    requires
        0 <= lx < w,
        0 <= ly,
    ensures
        gather(w, ly * w + lx + 1, f) == gather(w, ly * w + lx, f) + f(lx, ly),
        0 <= ly * w + lx,
{
    assert(0 <= ly * w) by (nonlinear_arith)
        requires
            0 <= ly,
            0 <= w,
    ;
    vstd::arithmetic::div_mod::lemma_fundamental_div_mod_converse(ly * w + lx, w, ly, lx);
}

proof fn lemma_next_row(w: int, ly: int)
    ensures
        ly * w + w == (ly + 1) * w,
{
    assert(ly * w + w == (ly + 1) * w) by (nonlinear_arith);
}

/// How a pixel's scratch depth grows as the text grinds over the bed: the
/// pixel under a glyph, with or without sand on it, the pixel the text just
/// left behind, and the pixels to the sides of its path.
#[derive(Clone, Copy, Debug, PartialEq, Eq, Structural)]
pub enum ScratchKind {
    Covered,
    Exposed,
    Trail,
    Side,
}

/// What the text leaves on a frame pixel: its drop shadow or a glyph pixel.
#[derive(Clone, Copy, Debug, PartialEq, Eq, Structural)]
pub enum StampKind {
    Shadow,
    Glyph,
}

/// The grain under glyph pixel (`lx`, `ly`) of the text at (`tx`, `ty`), if
/// the pixel is set, inside the field and covered with sand.
pub open spec fn sand_hit(g: SandGrid, mask: TextBitmap, tx: int, ty: int, lx: int, ly: int) -> Seq<(usize, usize, usize)> {
    let gx = tx + lx;
    let gy = ty + ly;
    if g.inside(gx, gy) && mask.pixel(lx, ly) && g.cells@[g.index_of(gx, gy)] is Some {
        seq![(lx as usize, ly as usize, g.index_of(gx, gy) as usize)]
    } else {
        Seq::empty()
    }
}

pub open spec fn sand_hits(g: SandGrid, mask: TextBitmap, tx: int, ty: int) -> spec_fn(int, int) -> Seq<(usize, usize, usize)> {
    |lx: int, ly: int| sand_hit(g, mask, tx, ty, lx, ly)
}

/// A side pixel of the path, when inside the field.
pub open spec fn side_hit(g: SandGrid, x: int, y: int) -> Seq<(usize, ScratchKind)> {
    if g.inside(x, y) {
        seq![(g.index_of(x, y) as usize, ScratchKind::Side)]
    } else {
        Seq::empty()
    }
}

/// The pixel the text has just left, when inside the field.
pub open spec fn trail_hit(g: SandGrid, x: int, y: int) -> Seq<(usize, ScratchKind)> {
    if g.inside(x, y) {
        seq![(g.index_of(x, y) as usize, ScratchKind::Trail)]
    } else {
        Seq::empty()
    }
}

/// The pixels beside (`gx`, `gy`) across a path along (`tdx`, `tdy`): above
/// and below for a horizontal path, left and right for a vertical one.
pub open spec fn sides_hit(g: SandGrid, gx: int, gy: int, tdx: int, tdy: int) -> Seq<(usize, ScratchKind)> {
    if tdx != 0 {
        side_hit(g, gx, gy - 1) + side_hit(g, gx, gy + 1)
    } else if tdy != 0 {
        side_hit(g, gx - 1, gy) + side_hit(g, gx + 1, gy)
    } else {
        Seq::empty()
    }
}

/// The scratches made by glyph pixel (`lx`, `ly`) of the text at (`tx`,
/// `ty`) whose trail lies at (`tdx`, `tdy`): the pixel under it, the pixel
/// behind it, and the two pixels beside its path.
pub open spec fn scratch_hit(
    g: SandGrid,
    mask: TextBitmap,
    tx: int,
    ty: int,
    tdx: int,
    tdy: int,
    lx: int,
    ly: int,
) -> Seq<(usize, ScratchKind)> {
    let gx = tx + lx;
    let gy = ty + ly;
    if !mask.pixel(lx, ly) || !g.inside(gx, gy) {
        Seq::empty()
    } else {
        seq![
            (
                g.index_of(gx, gy) as usize,
                if g.cells@[g.index_of(gx, gy)] is Some {
                    ScratchKind::Covered
                } else {
                    ScratchKind::Exposed
                },
            ),
        ] + trail_hit(g, gx + tdx, gy + tdy) + sides_hit(g, gx, gy, tdx, tdy)
    }
}

pub open spec fn scratch_hits(g: SandGrid, mask: TextBitmap, tx: int, ty: int, tdx: int, tdy: int) -> spec_fn(
    int,
    int,
) -> Seq<(usize, ScratchKind)> {
    |lx: int, ly: int| scratch_hit(g, mask, tx, ty, tdx, tdy, lx, ly)
}

/// What glyph pixel (`lx`, `ly`) of the text at (`tx`, `ty`) paints: its
/// shadow one pixel down and right, then the glyph pixel itself, each when
/// inside the field.
pub open spec fn stamp_hit(g: SandGrid, mask: TextBitmap, tx: int, ty: int, lx: int, ly: int) -> Seq<(usize, StampKind)> {
    if !mask.pixel(lx, ly) {
        Seq::empty()
    } else {
        let shadow = if g.inside(tx + 1 + lx, ty + 1 + ly) {
            seq![(g.index_of(tx + 1 + lx, ty + 1 + ly) as usize, StampKind::Shadow)]
        } else {
            Seq::empty()
        };
        let glyph = if g.inside(tx + lx, ty + ly) {
            seq![(g.index_of(tx + lx, ty + ly) as usize, StampKind::Glyph)]
        } else {
            Seq::empty()
        };
        shadow + glyph
    }
}

pub open spec fn stamp_hits(g: SandGrid, mask: TextBitmap, tx: int, ty: int) -> spec_fn(int, int) -> Seq<(usize, StampKind)> {
    |lx: int, ly: int| stamp_hit(g, mask, tx, ty, lx, ly)
}


impl SandGrid {
    fn push_sand_hit(&self, mask: &TextBitmap, tx: i32, ty: i32, lx: usize, ly: usize, out: &mut Vec<(usize, usize, usize)>)
        requires
            self.wf(),
            mask.wf(),
            lx < mask.w,
            ly < mask.h,
        ensures
            final(out)@ == old(out)@ + sand_hit(*self, *mask, tx as int, ty as int, lx as int, ly as int),
    {
        match self.locate(tx as i64 + lx as i64, ty as i64 + ly as i64) {
            Some(idx) => {
                if mask.get(lx, ly) && self.cells[idx].is_some() {
                    out.push((lx, ly, idx));
                }
            },
            None => {},
        }
        assert(final(out)@ =~= old(out)@ + sand_hit(*self, *mask, tx as int, ty as int, lx as int, ly as int));
    }

    /// The grains lying under the glyph pixels of the text at (`tx`, `ty`),
    /// in row-major order of the glyph pixels: for each, the glyph pixel
    /// (`lx`, `ly`) and the cell index.
    pub fn sand_under_text(&self, mask: &TextBitmap, tx: i32, ty: i32) -> (r: Vec<(usize, usize, usize)>)
        requires
            self.wf(),
            mask.wf(),
        ensures
            r@ == gather(mask.w as int, mask.w * mask.h, sand_hits(*self, *mask, tx as int, ty as int)),
    {
        let ghost f = sand_hits(*self, *mask, tx as int, ty as int);
        let ghost w = mask.w as int;
        let mut out: Vec<(usize, usize, usize)> = Vec::new();
        let mut ly: usize = 0;
        while ly < mask.h
            invariant
                self.wf(),
                mask.wf(),
                ly <= mask.h,
                w == mask.w,
                f == sand_hits(*self, *mask, tx as int, ty as int),
                out@ == gather(w, ly * w, f),
            decreases mask.h - ly,
        {
            let mut lx: usize = 0;
            while lx < mask.w
                invariant
                    self.wf(),
                    mask.wf(),
                    ly < mask.h,
                    lx <= mask.w,
                    w == mask.w,
                    f == sand_hits(*self, *mask, tx as int, ty as int),
                    out@ == gather(w, ly * w + lx, f),
                decreases mask.w - lx,
            {
                proof {
                    lemma_gather_step(w, lx as int, ly as int, f);
                }
                self.push_sand_hit(mask, tx, ty, lx, ly, &mut out);
                lx += 1;
            }
            proof {
                lemma_next_row(w, ly as int);
            }
            ly += 1;
        }
        proof {
            assert(mask.h * w == mask.w * mask.h) by (nonlinear_arith)
                requires
                    w == mask.w,
            ;
        }
        out
    }
}


impl SandGrid {
    fn push_side(&self, x: i64, y: i64, out: &mut Vec<(usize, ScratchKind)>)
        requires
            self.wf(),
        ensures
            final(out)@ == old(out)@ + side_hit(*self, x as int, y as int),
    {
        if let Some(i) = self.locate(x, y) {
            out.push((i, ScratchKind::Side));
        }
        assert(final(out)@ =~= old(out)@ + side_hit(*self, x as int, y as int));
    }

    fn push_scratch_hit(
        &self,
        mask: &TextBitmap,
        tx: i32,
        ty: i32,
        tdx: i32,
        tdy: i32,
        lx: usize,
        ly: usize,
        out: &mut Vec<(usize, ScratchKind)>,
    )
        requires
            self.wf(),
            mask.wf(),
            lx < mask.w,
            ly < mask.h,
            -1 <= tdx <= 1,
            -1 <= tdy <= 1,
        ensures
            final(out)@ == old(out)@ + scratch_hit(
                *self,
                *mask,
                tx as int,
                ty as int,
                tdx as int,
                tdy as int,
                lx as int,
                ly as int,
            ),
    {
        let gx = tx as i64 + lx as i64;
        let gy = ty as i64 + ly as i64;
        if !mask.get(lx, ly) {
            assert(final(out)@ =~= old(out)@);
            return;
        }
        let idx = match self.locate(gx, gy) {
            Some(i) => i,
            None => {
                assert(final(out)@ =~= old(out)@);
                return;
            },
        };
        let kind = if self.cells[idx].is_some() {
            ScratchKind::Covered
        } else {
            ScratchKind::Exposed
        };
        let ghost o0 = out@;
        out.push((idx, kind));
        self.push_trail(gx + tdx as i64, gy + tdy as i64, out);
        self.push_sides(gx, gy, tdx, tdy, out);
        proof {
            let t = trail_hit(*self, gx + tdx, gy + tdy);
            let sd = sides_hit(*self, gx as int, gy as int, tdx as int, tdy as int);
            assert(final(out)@ =~= o0 + seq![(idx, kind)] + t + sd);
        }
    }

    fn push_trail(&self, x: i64, y: i64, out: &mut Vec<(usize, ScratchKind)>)
        requires
            self.wf(),
        ensures
            final(out)@ == old(out)@ + trail_hit(*self, x as int, y as int),
    {
        if let Some(t) = self.locate(x, y) {
            out.push((t, ScratchKind::Trail));
        }
        assert(final(out)@ =~= old(out)@ + trail_hit(*self, x as int, y as int));
    }

    fn push_sides(&self, gx: i64, gy: i64, tdx: i32, tdy: i32, out: &mut Vec<(usize, ScratchKind)>)
        requires
            self.wf(),
            -0x1_0000_0000 <= gx <= 0x1_0000_0000,
            -0x1_0000_0000 <= gy <= 0x1_0000_0000,
        ensures
            final(out)@ == old(out)@ + sides_hit(*self, gx as int, gy as int, tdx as int, tdy as int),
    {
        if tdx != 0 {
            self.push_side(gx, gy - 1, out);
            self.push_side(gx, gy + 1, out);
        } else if tdy != 0 {
            self.push_side(gx - 1, gy, out);
            self.push_side(gx + 1, gy, out);
        }
        assert(final(out)@ =~= old(out)@ + sides_hit(*self, gx as int, gy as int, tdx as int, tdy as int));
    }

    /// The scratches the text at (`tx`, `ty`) makes on the bed in one frame,
    /// in the order they are applied: for each set glyph pixel inside the
    /// field, row-major, the pixel under it (`Covered` when sand lies on it,
    /// else `Exposed`), the pixel at (`tdx`, `tdy`) from it, and the two
    /// pixels beside it across the path.
    pub fn scratch_plan(&self, mask: &TextBitmap, tx: i32, ty: i32, tdx: i32, tdy: i32) -> (r: Vec<(usize, ScratchKind)>)
        requires
            self.wf(),
            mask.wf(),
            -1 <= tdx <= 1,
            -1 <= tdy <= 1,
        ensures
            r@ == gather(
                mask.w as int,
                mask.w * mask.h,
                scratch_hits(*self, *mask, tx as int, ty as int, tdx as int, tdy as int),
            ),
    {
        let ghost f = scratch_hits(*self, *mask, tx as int, ty as int, tdx as int, tdy as int);
        let ghost w = mask.w as int;
        let mut out: Vec<(usize, ScratchKind)> = Vec::new();
        let mut ly: usize = 0;
        while ly < mask.h
            invariant
                self.wf(),
                mask.wf(),
                -1 <= tdx <= 1,
                -1 <= tdy <= 1,
                ly <= mask.h,
                w == mask.w,
                f == scratch_hits(*self, *mask, tx as int, ty as int, tdx as int, tdy as int),
                out@ == gather(w, ly * w, f),
            decreases mask.h - ly,
        {
            let mut lx: usize = 0;
            while lx < mask.w
                invariant
                    self.wf(),
                    mask.wf(),
                    -1 <= tdx <= 1,
                    -1 <= tdy <= 1,
                    ly < mask.h,
                    lx <= mask.w,
                    w == mask.w,
                    f == scratch_hits(*self, *mask, tx as int, ty as int, tdx as int, tdy as int),
                    out@ == gather(w, ly * w + lx, f),
                decreases mask.w - lx,
            {
                proof {
                    lemma_gather_step(w, lx as int, ly as int, f);
                }
                self.push_scratch_hit(mask, tx, ty, tdx, tdy, lx, ly, &mut out);
                lx += 1;
            }
            proof {
                lemma_next_row(w, ly as int);
            }
            ly += 1;
        }
        proof {
            assert(mask.h * w == mask.w * mask.h) by (nonlinear_arith)
                requires
                    w == mask.w,
            ;
        }
        out
    }

    fn push_stamp_hit(&self, mask: &TextBitmap, tx: i32, ty: i32, lx: usize, ly: usize, out: &mut Vec<(usize, StampKind)>)
        requires
            self.wf(),
            mask.wf(),
            lx < mask.w,
            ly < mask.h,
        ensures
            final(out)@ == old(out)@ + stamp_hit(*self, *mask, tx as int, ty as int, lx as int, ly as int),
    {
        if mask.get(lx, ly) {
            let gx = tx as i64 + lx as i64;
            let gy = ty as i64 + ly as i64;
            if let Some(s) = self.locate(gx + 1, gy + 1) {
                out.push((s, StampKind::Shadow));
            }
            if let Some(g) = self.locate(gx, gy) {
                out.push((g, StampKind::Glyph));
            }
        }
        assert(final(out)@ =~= old(out)@ + stamp_hit(*self, *mask, tx as int, ty as int, lx as int, ly as int));
    }

    /// What the text at (`tx`, `ty`) paints over a frame of the field's size,
    /// in the order it is painted: for each set glyph pixel, row-major, the
    /// shadow one pixel down and right, then the glyph pixel, each only when
    /// inside the field.
    pub fn stamp_plan(&self, mask: &TextBitmap, tx: i32, ty: i32) -> (r: Vec<(usize, StampKind)>)
        requires
            self.wf(),
            mask.wf(),
        ensures
            r@ == gather(mask.w as int, mask.w * mask.h, stamp_hits(*self, *mask, tx as int, ty as int)),
    {
        let ghost f = stamp_hits(*self, *mask, tx as int, ty as int);
        let ghost w = mask.w as int;
        let mut out: Vec<(usize, StampKind)> = Vec::new();
        let mut ly: usize = 0;
        while ly < mask.h
            invariant
                self.wf(),
                mask.wf(),
                ly <= mask.h,
                w == mask.w,
                f == stamp_hits(*self, *mask, tx as int, ty as int),
                out@ == gather(w, ly * w, f),
            decreases mask.h - ly,
        {
            let mut lx: usize = 0;
            while lx < mask.w
                invariant
                    self.wf(),
                    mask.wf(),
                    ly < mask.h,
                    lx <= mask.w,
                    w == mask.w,
                    f == stamp_hits(*self, *mask, tx as int, ty as int),
                    out@ == gather(w, ly * w + lx, f),
                decreases mask.w - lx,
            {
                proof {
                    lemma_gather_step(w, lx as int, ly as int, f);
                }
                self.push_stamp_hit(mask, tx, ty, lx, ly, &mut out);
                lx += 1;
            }
            proof {
                lemma_next_row(w, ly as int);
            }
            ly += 1;
        }
        proof {
            assert(mask.h * w == mask.w * mask.h) by (nonlinear_arith)
                requires
                    w == mask.w,
            ;
        }
        out
    }
}

proof fn lemma_gather_all<A>(w: int, n: int, f: spec_fn(int, int) -> Seq<A>, p: spec_fn(A) -> bool)
    requires
        forall|lx: int, ly: int, k: int| 0 <= k < f(lx, ly).len() ==> p(#[trigger] f(lx, ly)[k]),
    ensures
        forall|k: int| 0 <= k < gather(w, n, f).len() ==> p(#[trigger] gather(w, n, f)[k]),
    decreases n,
{
    if n > 0 {
        lemma_gather_all(w, n - 1, f, p);
        let a = gather(w, n - 1, f);
        let b = f((n - 1) % w, (n - 1) / w);
        assert forall|k: int| 0 <= k < gather(w, n, f).len() implies p(#[trigger] gather(w, n, f)[k]) by {
            if k < a.len() {
                assert(gather(w, n, f)[k] == a[k]);
            } else {
                assert(gather(w, n, f)[k] == b[k - a.len()]);
            }
        }
    }
}

proof fn lemma_inside_index(g: SandGrid, x: int, y: int)
    requires
        g.wf(),
    ensures
        g.inside(x, y) ==> 0 <= g.index_of(x, y) < g.cells@.len() && (g.index_of(x, y) as usize) as int
            == g.index_of(x, y),
{
    if g.inside(x, y) {
        crate::grid::lemma_cell_index(y, x, g.width as int, g.pixel_h as int);
        assert(g.cells@.len() == g.cells.len());
    }
}

/// Every scratch the text makes falls on a pixel of the field.
pub proof fn law_scratch_plan_inside(g: SandGrid, mask: TextBitmap, tx: int, ty: int, tdx: int, tdy: int)
    requires
        g.wf(),
    ensures
        forall|k: int|
            0 <= k < gather(mask.w as int, mask.w * mask.h, scratch_hits(g, mask, tx, ty, tdx, tdy)).len()
                ==> (#[trigger] gather(mask.w as int, mask.w * mask.h, scratch_hits(g, mask, tx, ty, tdx, tdy))[k]).0
                < g.cells@.len(),
{
    let f = scratch_hits(g, mask, tx, ty, tdx, tdy);
    let p = |e: (usize, ScratchKind)| e.0 < g.cells@.len();
    assert forall|lx: int, ly: int, k: int| 0 <= k < f(lx, ly).len() implies p(#[trigger] f(lx, ly)[k]) by {
        let gx = tx + lx;
        let gy = ty + ly;
        lemma_inside_index(g, gx, gy);
        lemma_inside_index(g, gx + tdx, gy + tdy);
        lemma_inside_index(g, gx, gy - 1);
        lemma_inside_index(g, gx, gy + 1);
        lemma_inside_index(g, gx - 1, gy);
        lemma_inside_index(g, gx + 1, gy);
        if mask.pixel(lx, ly) && g.inside(gx, gy) {
            let c = seq![
                (
                    g.index_of(gx, gy) as usize,
                    if g.cells@[g.index_of(gx, gy)] is Some {
                        ScratchKind::Covered
                    } else {
                        ScratchKind::Exposed
                    },
                ),
            ];
            let t = trail_hit(g, gx + tdx, gy + tdy);
            let sd = sides_hit(g, gx, gy, tdx, tdy);
            assert(f(lx, ly) == c + t + sd);
            if k == 0 {
            } else if k < 1 + t.len() {
                assert(f(lx, ly)[k] == t[k - 1]);
            } else {
                assert(f(lx, ly)[k] == sd[k - 1 - t.len()]);
            }
        }
    }
    lemma_gather_all(mask.w as int, mask.w * mask.h, f, p);
}

/// Every pixel the text paints lies in the frame.
pub proof fn law_stamp_plan_inside(g: SandGrid, mask: TextBitmap, tx: int, ty: int)
    requires
        g.wf(),
    ensures
        forall|k: int|
            0 <= k < gather(mask.w as int, mask.w * mask.h, stamp_hits(g, mask, tx, ty)).len() ==> (
            #[trigger] gather(mask.w as int, mask.w * mask.h, stamp_hits(g, mask, tx, ty))[k]).0
                < g.cells@.len(),
{
    let f = stamp_hits(g, mask, tx, ty);
    let p = |e: (usize, StampKind)| e.0 < g.cells@.len();
    assert forall|lx: int, ly: int, k: int| 0 <= k < f(lx, ly).len() implies p(#[trigger] f(lx, ly)[k]) by {
        lemma_inside_index(g, tx + 1 + lx, ty + 1 + ly);
        lemma_inside_index(g, tx + lx, ty + ly);
    }
    lemma_gather_all(mask.w as int, mask.w * mask.h, f, p);
}

/// Every grain found under the text lies in the field and holds sand.
pub proof fn law_sand_under_text_holds_sand(g: SandGrid, mask: TextBitmap, tx: int, ty: int)
    requires
        g.wf(),
    ensures
        forall|k: int|
            0 <= k < gather(mask.w as int, mask.w * mask.h, sand_hits(g, mask, tx, ty)).len() ==> {
                let e = #[trigger] gather(mask.w as int, mask.w * mask.h, sand_hits(g, mask, tx, ty))[k];
                &&& e.2 < g.cells@.len()
                &&& g.cells@[e.2 as int] is Some
            },
{
    let f = sand_hits(g, mask, tx, ty);
    let p = |e: (usize, usize, usize)| e.2 < g.cells@.len() && g.cells@[e.2 as int] is Some;
    assert forall|lx: int, ly: int, k: int| 0 <= k < f(lx, ly).len() implies p(#[trigger] f(lx, ly)[k]) by {
        lemma_inside_index(g, tx + lx, ty + ly);
    }
    lemma_gather_all(mask.w as int, mask.w * mask.h, f, p);
}

/// Every item gathered over the first `n` pixels comes from one of them, and
/// stands right after what the pixels before it yield.
proof fn lemma_gather_source<A>(w: int, n: int, f: spec_fn(int, int) -> Seq<A>, k: int)
    requires
        n <= 0 || w > 0,
        0 <= k < gather(w, n, f).len(),
    ensures
        exists|lx: int, ly: int, j: int|
            0 <= lx < w && 0 <= ly && ly * w + lx < n && 0 <= j < f(lx, ly).len() && gather(w, n, f)[k]
                == #[trigger] f(lx, ly)[j] && k == gather(w, ly * w + lx, f).len() + j,
    decreases n,
{
    if n > 0 {
        let a = gather(w, n - 1, f);
        if k < a.len() {
            lemma_gather_source(w, n - 1, f, k);
            let (lx, ly, j) = choose|lx: int, ly: int, j: int|
                0 <= lx < w && 0 <= ly && ly * w + lx < n - 1 && 0 <= j < f(lx, ly).len() && a[k]
                    == #[trigger] f(lx, ly)[j] && k == gather(w, ly * w + lx, f).len() + j;
            assert(gather(w, n, f)[k] == a[k]);
        } else {
            let lx = (n - 1) % w;
            let ly = (n - 1) / w;
            vstd::arithmetic::div_mod::lemma_fundamental_div_mod(n - 1, w);
            vstd::arithmetic::div_mod::lemma_div_pos_is_pos(n - 1, w);
            assert(ly * w == w * ly) by (nonlinear_arith);
            let j = k - a.len();
            assert(gather(w, n, f)[k] == f(lx, ly)[j]);
        }
    }
}

proof fn lemma_gather_len_mono<A>(w: int, p: int, q: int, f: spec_fn(int, int) -> Seq<A>)
    requires
        p <= q,
    ensures
        gather(w, p, f).len() <= gather(w, q, f).len(),
    decreases q - p,
{
    if p < q {
        lemma_gather_len_mono(w, p, q - 1, f);
    }
}

/// Every item that a pixel among the first `n` yields is gathered.
proof fn lemma_gather_covers<A>(w: int, n: int, f: spec_fn(int, int) -> Seq<A>, lx: int, ly: int, j: int)
    requires
        0 <= lx < w,
        0 <= ly,
        ly * w + lx < n,
        0 <= j < f(lx, ly).len(),
    ensures
        exists|k: int| 0 <= k < gather(w, n, f).len() && #[trigger] gather(w, n, f)[k] == f(lx, ly)[j],
    decreases n,
{
    let a = gather(w, n - 1, f);
    assert(0 <= ly * w) by (nonlinear_arith)
        requires
            0 <= ly,
            0 <= lx < w,
    ;
    if ly * w + lx == n - 1 {
        vstd::arithmetic::div_mod::lemma_fundamental_div_mod_converse(n - 1, w, ly, lx);
        assert(gather(w, n, f)[a.len() + j] == f(lx, ly)[j]);
    } else {
        lemma_gather_covers(w, n - 1, f, lx, ly, j);
        let k = choose|k: int| 0 <= k < a.len() && #[trigger] a[k] == f(lx, ly)[j];
        assert(gather(w, n, f)[k] == a[k]);
    }
}

/// The grains found under the text are exactly those under its set glyph
/// pixels: each entry `(a, b, i)` names glyph column `a` and glyph row `b`
/// of a set pixel whose field pixel (`tx + a`, `ty + b`) lies inside the
/// field at index `i` and holds sand; and every such glyph pixel is listed.
pub proof fn law_sand_under_text_is_the_covered_sand(g: SandGrid, mask: TextBitmap, tx: int, ty: int)
    requires
        g.wf(),
        mask.wf(),
    ensures
        forall|k: int|
            0 <= k < gather(mask.w as int, mask.w * mask.h, sand_hits(g, mask, tx, ty)).len() ==> {
                let e = #[trigger] gather(mask.w as int, mask.w * mask.h, sand_hits(g, mask, tx, ty))[k];
                &&& e.0 < mask.w
                &&& e.1 < mask.h
                &&& mask.pixel(e.0 as int, e.1 as int)
                &&& g.inside(tx + e.0, ty + e.1)
                &&& e.2 == (ty + e.1) * g.width + (tx + e.0)
                &&& g.cells@[e.2 as int] is Some
            },
        forall|a: int, b: int|
            0 <= a < mask.w && 0 <= b < mask.h && mask.pixel(a, b) && g.inside(tx + a, ty + b) && g.cells@[(
            ty + b) * g.width + (tx + a)] is Some ==> exists|k: int|
                0 <= k < gather(mask.w as int, mask.w * mask.h, sand_hits(g, mask, tx, ty)).len() && (
                #[trigger] gather(mask.w as int, mask.w * mask.h, sand_hits(g, mask, tx, ty))[k]) == (
                a as usize,
                b as usize,
                ((ty + b) * g.width + (tx + a)) as usize,
            ),
        forall|k1: int, k2: int|
            0 <= k1 < k2 < gather(mask.w as int, mask.w * mask.h, sand_hits(g, mask, tx, ty)).len() ==> {
                let e1 = #[trigger] gather(mask.w as int, mask.w * mask.h, sand_hits(g, mask, tx, ty))[k1];
                let e2 = #[trigger] gather(mask.w as int, mask.w * mask.h, sand_hits(g, mask, tx, ty))[k2];
                e1.1 * mask.w + e1.0 < e2.1 * mask.w + e2.0
            },
{
    let w = mask.w as int;
    let n = mask.w * mask.h;
    let f = sand_hits(g, mask, tx, ty);
    assert(n <= 0 || w > 0) by (nonlinear_arith)
        requires
            n == w * mask.h,
            w >= 0,
            mask.h >= 0,
    ;
    assert forall|k: int| 0 <= k < gather(w, n, f).len() implies {
        let e = #[trigger] gather(w, n, f)[k];
        &&& e.0 < mask.w
        &&& e.1 < mask.h
        &&& mask.pixel(e.0 as int, e.1 as int)
        &&& g.inside(tx + e.0, ty + e.1)
        &&& e.2 == (ty + e.1) * g.width + (tx + e.0)
        &&& g.cells@[e.2 as int] is Some
    } by {
        lemma_gather_source(w, n, f, k);
        let (lx, ly, j) = choose|lx: int, ly: int, j: int|
            0 <= lx < w && 0 <= ly && ly * w + lx < n && 0 <= j < f(lx, ly).len() && gather(w, n, f)[k]
                == #[trigger] f(lx, ly)[j];
        assert(ly < mask.h) by (nonlinear_arith)
            requires
                ly * w + lx < w * mask.h,
                0 <= lx < w,
                0 <= ly,
        ;
        lemma_inside_index(g, tx + lx, ty + ly);
    }
    assert forall|a: int, b: int|
        0 <= a < mask.w && 0 <= b < mask.h && mask.pixel(a, b) && g.inside(tx + a, ty + b) && g.cells@[(ty + b)
            * g.width + (tx + a)] is Some implies exists|k: int|
        0 <= k < gather(w, n, f).len() && (#[trigger] gather(w, n, f)[k]) == (
            a as usize,
            b as usize,
            ((ty + b) * g.width + (tx + a)) as usize,
        ) by {
        assert(b * w + a < w * mask.h) by (nonlinear_arith)
            requires
                0 <= a < w,
                0 <= b < mask.h,
        ;
        lemma_gather_covers(w, n, f, a, b, 0);
    }
    assert forall|k1: int, k2: int| 0 <= k1 < k2 < gather(w, n, f).len() implies {
        let e1 = #[trigger] gather(w, n, f)[k1];
        let e2 = #[trigger] gather(w, n, f)[k2];
        e1.1 * mask.w + e1.0 < e2.1 * mask.w + e2.0
    } by {
        lemma_gather_source(w, n, f, k1);
        lemma_gather_source(w, n, f, k2);
        let (lx1, ly1, j1) = choose|lx: int, ly: int, j: int|
            0 <= lx < w && 0 <= ly && ly * w + lx < n && 0 <= j < f(lx, ly).len() && gather(w, n, f)[k1]
                == #[trigger] f(lx, ly)[j] && k1 == gather(w, ly * w + lx, f).len() + j;
        let (lx2, ly2, j2) = choose|lx: int, ly: int, j: int|
            0 <= lx < w && 0 <= ly && ly * w + lx < n && 0 <= j < f(lx, ly).len() && gather(w, n, f)[k2]
                == #[trigger] f(lx, ly)[j] && k2 == gather(w, ly * w + lx, f).len() + j;
        let p1 = ly1 * w + lx1;
        let p2 = ly2 * w + lx2;
        if p2 <= p1 {
            lemma_gather_len_mono(w, p2, p1, f);
        }
        assert(ly1 < mask.h && ly2 < mask.h) by (nonlinear_arith)
            requires
                ly1 * w + lx1 < w * mask.h,
                ly2 * w + lx2 < w * mask.h,
                0 <= lx1 < w,
                0 <= lx2 < w,
                0 <= ly1,
                0 <= ly2,
        ;
    }
}

/// Where a scratch of kind `e.1` at index `e.0` may fall for the text
/// pixel (`x`, `y`): on the pixel itself (`Covered` when sand lies there,
/// `Exposed` otherwise), at offset (`tdx`, `tdy`) from it (`Trail`), or next
/// to it across the path (`Side`: above or below it when `tdx != 0`, else
/// left or right of it when `tdy != 0`).
pub open spec fn scratch_fits(g: SandGrid, tdx: int, tdy: int, e: (usize, ScratchKind), x: int, y: int) -> bool {
    match e.1 {
        ScratchKind::Covered => e.0 == g.index_of(x, y) && g.cells@[g.index_of(x, y)] is Some,
        ScratchKind::Exposed => e.0 == g.index_of(x, y) && g.cells@[g.index_of(x, y)] is None,
        ScratchKind::Trail => g.inside(x + tdx, y + tdy) && e.0 == g.index_of(x + tdx, y + tdy),
        ScratchKind::Side => if tdx != 0 {
            (g.inside(x, y - 1) && e.0 == g.index_of(x, y - 1)) || (g.inside(x, y + 1) && e.0 == g.index_of(
                x,
                y + 1,
            ))
        } else {
            tdy != 0 && ((g.inside(x - 1, y) && e.0 == g.index_of(x - 1, y)) || (g.inside(x + 1, y) && e.0
                == g.index_of(x + 1, y)))
        },
    }
}

/// A scratch made by some field pixel that the text at (`tx`, `ty`) covers.
pub open spec fn scratch_from_text(
    g: SandGrid,
    mask: TextBitmap,
    tx: int,
    ty: int,
    tdx: int,
    tdy: int,
    e: (usize, ScratchKind),
) -> bool {
    exists|x: int, y: int| g.inside(x, y) && mask.covers(tx, ty, x, y) && #[trigger] scratch_fits(g, tdx, tdy, e, x, y)
}

proof fn lemma_scratch_hit_from_text(
    g: SandGrid,
    mask: TextBitmap,
    tx: int,
    ty: int,
    tdx: int,
    tdy: int,
    lx: int,
    ly: int,
    j: int,
)
    requires
        g.wf(),
        0 <= lx < mask.w,
        0 <= ly < mask.h,
        0 <= j < scratch_hit(g, mask, tx, ty, tdx, tdy, lx, ly).len(),
    ensures
        scratch_from_text(g, mask, tx, ty, tdx, tdy, scratch_hit(g, mask, tx, ty, tdx, tdy, lx, ly)[j]),
{
    let h = scratch_hit(g, mask, tx, ty, tdx, tdy, lx, ly);
    let x = tx + lx;
    let y = ty + ly;
    lemma_inside_index(g, x, y);
    lemma_inside_index(g, x + tdx, y + tdy);
    lemma_inside_index(g, x, y - 1);
    lemma_inside_index(g, x, y + 1);
    lemma_inside_index(g, x - 1, y);
    lemma_inside_index(g, x + 1, y);
    let t = trail_hit(g, x + tdx, y + tdy);
    let sd = sides_hit(g, x, y, tdx, tdy);
    assert(mask.covers(tx, ty, x, y));
    if j >= 1 + t.len() {
        let i = j - 1 - t.len();
        assert(h[j] == sd[i]);
        if tdx != 0 {
            let s1 = side_hit(g, x, y - 1);
            if i < s1.len() {
                assert(sd[i] == s1[i]);
            } else {
                assert(sd[i] == side_hit(g, x, y + 1)[i - s1.len()]);
            }
        } else if tdy != 0 {
            let s1 = side_hit(g, x - 1, y);
            if i < s1.len() {
                assert(sd[i] == s1[i]);
            } else {
                assert(sd[i] == side_hit(g, x + 1, y)[i - s1.len()]);
            }
        }
    } else if j >= 1 {
        assert(h[j] == t[j - 1]);
    }
    assert(scratch_fits(g, tdx, tdy, h[j], x, y));
}

/// The pixels the text scratches follow the text: every scratch falls on,
/// behind or beside a field pixel that the text covers (see `scratch_fits`),
/// and every covered field pixel is itself scratched, as `Covered` when sand
/// lies on it and as `Exposed` otherwise.
pub proof fn law_scratch_plan_follows_the_text(g: SandGrid, mask: TextBitmap, tx: int, ty: int, tdx: int, tdy: int)
    requires
        g.wf(),
        mask.wf(),
    ensures
        forall|k: int|
            0 <= k < gather(mask.w as int, mask.w * mask.h, scratch_hits(g, mask, tx, ty, tdx, tdy)).len()
                ==> scratch_from_text(
                g,
                mask,
                tx,
                ty,
                tdx,
                tdy,
                #[trigger] gather(mask.w as int, mask.w * mask.h, scratch_hits(g, mask, tx, ty, tdx, tdy))[k],
            ),
        forall|x: int, y: int|
            g.inside(x, y) && mask.covers(tx, ty, x, y) ==> exists|k: int|
                0 <= k < gather(mask.w as int, mask.w * mask.h, scratch_hits(g, mask, tx, ty, tdx, tdy)).len()
                    && (#[trigger] gather(mask.w as int, mask.w * mask.h, scratch_hits(g, mask, tx, ty, tdx, tdy))[k])
                    == (
                    g.index_of(x, y) as usize,
                    if g.cells@[g.index_of(x, y)] is Some {
                        ScratchKind::Covered
                    } else {
                        ScratchKind::Exposed
                    },
                ),
        forall|k1: int, k2: int|
            0 <= k1 < gather(mask.w as int, mask.w * mask.h, scratch_hits(g, mask, tx, ty, tdx, tdy)).len() && 0
                <= k2 < gather(mask.w as int, mask.w * mask.h, scratch_hits(g, mask, tx, ty, tdx, tdy)).len() ==> {
                let e1 = #[trigger] gather(mask.w as int, mask.w * mask.h, scratch_hits(g, mask, tx, ty, tdx, tdy))[k1];
                let e2 = #[trigger] gather(mask.w as int, mask.w * mask.h, scratch_hits(g, mask, tx, ty, tdx, tdy))[k2];
                (is_center(e1.1) && is_center(e2.1) && e1.0 == e2.0) ==> k1 == k2
            },
{
    let w = mask.w as int;
    let n = mask.w * mask.h;
    let f = scratch_hits(g, mask, tx, ty, tdx, tdy);
    assert(n <= 0 || w > 0) by (nonlinear_arith)
        requires
            n == w * mask.h,
            w >= 0,
            mask.h >= 0,
    ;
    assert forall|k: int| 0 <= k < gather(w, n, f).len() implies scratch_from_text(
        g,
        mask,
        tx,
        ty,
        tdx,
        tdy,
        #[trigger] gather(w, n, f)[k],
    ) by {
        lemma_gather_source(w, n, f, k);
        let (lx, ly, j) = choose|lx: int, ly: int, j: int|
            0 <= lx < w && 0 <= ly && ly * w + lx < n && 0 <= j < f(lx, ly).len() && gather(w, n, f)[k]
                == #[trigger] f(lx, ly)[j];
        assert(ly < mask.h) by (nonlinear_arith)
            requires
                ly * w + lx < w * mask.h,
                0 <= lx < w,
                0 <= ly,
        ;
        lemma_scratch_hit_from_text(g, mask, tx, ty, tdx, tdy, lx, ly, j);
    }
    assert forall|x: int, y: int| g.inside(x, y) && mask.covers(tx, ty, x, y) implies exists|k: int|
        0 <= k < gather(w, n, f).len() && (#[trigger] gather(w, n, f)[k]) == (
            g.index_of(x, y) as usize,
            if g.cells@[g.index_of(x, y)] is Some {
                ScratchKind::Covered
            } else {
                ScratchKind::Exposed
            },
        ) by {
        let a = x - tx;
        let b = y - ty;
        assert(b * w + a < w * mask.h) by (nonlinear_arith)
            requires
                0 <= a < w,
                0 <= b < mask.h,
        ;
        lemma_gather_covers(w, n, f, a, b, 0);
    }
    assert forall|k1: int, k2: int| 0 <= k1 < gather(w, n, f).len() && 0 <= k2 < gather(w, n, f).len() implies {
        let e1 = #[trigger] gather(w, n, f)[k1];
        let e2 = #[trigger] gather(w, n, f)[k2];
        (is_center(e1.1) && is_center(e2.1) && e1.0 == e2.0) ==> k1 == k2
    } by {
        let e1 = gather(w, n, f)[k1];
        let e2 = gather(w, n, f)[k2];
        if is_center(e1.1) && is_center(e2.1) && e1.0 == e2.0 {
            lemma_gather_source(w, n, f, k1);
            lemma_gather_source(w, n, f, k2);
            let (lx1, ly1, j1) = choose|lx: int, ly: int, j: int|
                0 <= lx < w && 0 <= ly && ly * w + lx < n && 0 <= j < f(lx, ly).len() && gather(w, n, f)[k1]
                    == #[trigger] f(lx, ly)[j] && k1 == gather(w, ly * w + lx, f).len() + j;
            let (lx2, ly2, j2) = choose|lx: int, ly: int, j: int|
                0 <= lx < w && 0 <= ly && ly * w + lx < n && 0 <= j < f(lx, ly).len() && gather(w, n, f)[k2]
                    == #[trigger] f(lx, ly)[j] && k2 == gather(w, ly * w + lx, f).len() + j;
            lemma_scratch_center(g, mask, tx, ty, tdx, tdy, lx1, ly1, j1);
            lemma_scratch_center(g, mask, tx, ty, tdx, tdy, lx2, ly2, j2);
            lemma_inside_index(g, tx + lx1, ty + ly1);
            lemma_inside_index(g, tx + lx2, ty + ly2);
            lemma_index_injective(g, tx + lx1, ty + ly1, tx + lx2, ty + ly2);
        }
    }
}

/// The pixel under a glyph is scratched first, and only there.
pub open spec fn is_center(k: ScratchKind) -> bool {
    k == ScratchKind::Covered || k == ScratchKind::Exposed
}

proof fn lemma_scratch_center(
    g: SandGrid,
    mask: TextBitmap,
    tx: int,
    ty: int,
    tdx: int,
    tdy: int,
    lx: int,
    ly: int,
    j: int,
)
    requires
        g.wf(),
        0 <= j < scratch_hit(g, mask, tx, ty, tdx, tdy, lx, ly).len(),
        is_center(scratch_hit(g, mask, tx, ty, tdx, tdy, lx, ly)[j].1),
    ensures
        j == 0,
        g.inside(tx + lx, ty + ly),
        scratch_hit(g, mask, tx, ty, tdx, tdy, lx, ly)[j].0 == g.index_of(tx + lx, ty + ly) as usize,
{
    let h = scratch_hit(g, mask, tx, ty, tdx, tdy, lx, ly);
    let x = tx + lx;
    let y = ty + ly;
    let t = trail_hit(g, x + tdx, y + tdy);
    let sd = sides_hit(g, x, y, tdx, tdy);
    if j >= 1 + t.len() {
        let i = j - 1 - t.len();
        assert(h[j] == sd[i]);
        if tdx != 0 {
            let s1 = side_hit(g, x, y - 1);
            if i < s1.len() {
                assert(sd[i] == s1[i]);
            } else {
                assert(sd[i] == side_hit(g, x, y + 1)[i - s1.len()]);
            }
        } else if tdy != 0 {
            let s1 = side_hit(g, x - 1, y);
            if i < s1.len() {
                assert(sd[i] == s1[i]);
            } else {
                assert(sd[i] == side_hit(g, x + 1, y)[i - s1.len()]);
            }
        }
    } else if j >= 1 {
        assert(h[j] == t[j - 1]);
    }
}

/// Distinct pixels of the field have distinct indices.
proof fn lemma_index_injective(g: SandGrid, x1: int, y1: int, x2: int, y2: int)
    requires
        g.inside(x1, y1),
        g.inside(x2, y2),
        g.index_of(x1, y1) == g.index_of(x2, y2),
    ensures
        x1 == x2,
        y1 == y2,
{
    let w = g.width as int;
    vstd::arithmetic::div_mod::lemma_fundamental_div_mod_converse(g.index_of(x1, y1), w, y1, x1);
    vstd::arithmetic::div_mod::lemma_fundamental_div_mod_converse(g.index_of(x2, y2), w, y2, x2);
}

/// What the text paints: each `Shadow` entry lies one pixel down and right
/// of a set glyph pixel, at a field pixel inside the field, and each `Glyph`
/// entry lies on a field pixel the text covers; every covered field pixel is
/// painted, and so is every in-field pixel one down and right of a set glyph
/// pixel.
pub proof fn law_stamp_plan_paints_text_and_shadow(g: SandGrid, mask: TextBitmap, tx: int, ty: int)
    requires
        g.wf(),
        mask.wf(),
    ensures
        forall|k: int|
            0 <= k < gather(mask.w as int, mask.w * mask.h, stamp_hits(g, mask, tx, ty)).len() ==> {
                let e = #[trigger] gather(mask.w as int, mask.w * mask.h, stamp_hits(g, mask, tx, ty))[k];
                match e.1 {
                    StampKind::Shadow => exists|a: int, b: int|
                        0 <= a < mask.w && 0 <= b < mask.h && mask.pixel(a, b) && g.inside(tx + 1 + a, ty + 1 + b)
                            && e.0 == (ty + 1 + b) * g.width + (tx + 1 + a),
                    StampKind::Glyph => exists|x: int, y: int|
                        g.inside(x, y) && mask.covers(tx, ty, x, y) && e.0 == y * g.width + x,
                }
            },
        forall|x: int, y: int|
            g.inside(x, y) && mask.covers(tx, ty, x, y) ==> exists|k: int|
                0 <= k < gather(mask.w as int, mask.w * mask.h, stamp_hits(g, mask, tx, ty)).len() && (
                #[trigger] gather(mask.w as int, mask.w * mask.h, stamp_hits(g, mask, tx, ty))[k]) == (
                (y * g.width + x) as usize,
                StampKind::Glyph,
            ),
        forall|a: int, b: int|
            0 <= a < mask.w && 0 <= b < mask.h && mask.pixel(a, b) && g.inside(tx + 1 + a, ty + 1 + b) ==> exists|
                k: int,
            |
                0 <= k < gather(mask.w as int, mask.w * mask.h, stamp_hits(g, mask, tx, ty)).len() && (
                #[trigger] gather(mask.w as int, mask.w * mask.h, stamp_hits(g, mask, tx, ty))[k]) == (
                ((ty + 1 + b) * g.width + (tx + 1 + a)) as usize,
                StampKind::Shadow,
            ),
{
    let w = mask.w as int;
    let n = mask.w * mask.h;
    let f = stamp_hits(g, mask, tx, ty);
    assert(n <= 0 || w > 0) by (nonlinear_arith)
        requires
            n == w * mask.h,
            w >= 0,
            mask.h >= 0,
    ;
    assert forall|k: int| 0 <= k < gather(w, n, f).len() implies {
        let e = #[trigger] gather(w, n, f)[k];
        match e.1 {
            StampKind::Shadow => exists|a: int, b: int|
                0 <= a < mask.w && 0 <= b < mask.h && mask.pixel(a, b) && g.inside(tx + 1 + a, ty + 1 + b) && e.0
                    == (ty + 1 + b) * g.width + (tx + 1 + a),
            StampKind::Glyph => exists|x: int, y: int|
                g.inside(x, y) && mask.covers(tx, ty, x, y) && e.0 == y * g.width + x,
        }
    } by {
        lemma_gather_source(w, n, f, k);
        let (lx, ly, j) = choose|lx: int, ly: int, j: int|
            0 <= lx < w && 0 <= ly && ly * w + lx < n && 0 <= j < f(lx, ly).len() && gather(w, n, f)[k]
                == #[trigger] f(lx, ly)[j];
        assert(ly < mask.h) by (nonlinear_arith)
            requires
                ly * w + lx < w * mask.h,
                0 <= lx < w,
                0 <= ly,
        ;
        lemma_inside_index(g, tx + 1 + lx, ty + 1 + ly);
        lemma_inside_index(g, tx + lx, ty + ly);
        assert(mask.covers(tx, ty, tx + lx, ty + ly));
    }
    assert forall|x: int, y: int| g.inside(x, y) && mask.covers(tx, ty, x, y) implies exists|k: int|
        0 <= k < gather(w, n, f).len() && (#[trigger] gather(w, n, f)[k]) == (
            (y * g.width + x) as usize,
            StampKind::Glyph,
        ) by {
        let a = x - tx;
        let b = y - ty;
        assert(b * w + a < w * mask.h) by (nonlinear_arith)
            requires
                0 <= a < w,
                0 <= b < mask.h,
        ;
        let sh = if g.inside(tx + 1 + a, ty + 1 + b) { 1int } else { 0int };
        lemma_gather_covers(w, n, f, a, b, sh);
    }
    assert forall|a: int, b: int|
        0 <= a < mask.w && 0 <= b < mask.h && mask.pixel(a, b) && g.inside(tx + 1 + a, ty + 1 + b) implies exists|
        k: int,
    |
        0 <= k < gather(w, n, f).len() && (#[trigger] gather(w, n, f)[k]) == (
            ((ty + 1 + b) * g.width + (tx + 1 + a)) as usize,
            StampKind::Shadow,
        ) by {
        assert(b * w + a < w * mask.h) by (nonlinear_arith)
            requires
                0 <= a < w,
                0 <= b < mask.h,
        ;
        lemma_gather_covers(w, n, f, a, b, 0);
    }
}

} // verus!
