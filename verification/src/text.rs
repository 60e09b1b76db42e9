use vstd::prelude::*;

verus! {

/// The rendered text as a bitmap of `h` rows of `w` pixels; a set pixel is
/// part of a glyph.
pub struct TextBitmap {
    pub rows: Vec<Vec<bool>>,
    pub w: usize,
    pub h: usize,
}

impl TextBitmap {
    /// `h` rows of `w` pixels each, both within the `i32` range in which
    /// the text is placed.
    pub open spec fn wf(&self) -> bool {
        &&& self.rows@.len() == self.h
        &&& forall|i: int| 0 <= i < self.h ==> (#[trigger] self.rows@[i])@.len() == self.w
        &&& self.w <= i32::MAX
        &&& self.h <= i32::MAX
    }

    /// Whether glyph pixel (`lx`, `ly`) of the bitmap is set.
    pub open spec fn pixel(&self, lx: int, ly: int) -> bool {
        self.rows@[ly]@[lx]
    }

    /// Whether the text, with its top-left corner at (`tx`, `ty`), covers
    /// field pixel (`x`, `y`).
    pub open spec fn covers(&self, tx: int, ty: int, x: int, y: int) -> bool {
        let rx = x - tx;
        let ry = y - ty;
        &&& 0 <= rx < self.w
        &&& 0 <= ry < self.h
        &&& self.pixel(rx, ry)
    }

    /// Builds the bitmap from its rows.
    pub fn new(rows: Vec<Vec<bool>>, w: usize, h: usize) -> (r: Self)
        requires
            rows@.len() == h,
            forall|i: int| 0 <= i < h ==> (#[trigger] rows@[i])@.len() == w,
            w <= i32::MAX,
            h <= i32::MAX,
        ensures
            r.wf(),
            r.rows == rows,
            r.w == w,
            r.h == h,
    {
        TextBitmap { rows, w, h }
    }

    /// Reads glyph pixel (`lx`, `ly`).
    pub fn get(&self, lx: usize, ly: usize) -> (r: bool)
        requires
            self.wf(),
            lx < self.w,
            ly < self.h,
        ensures
            r == self.pixel(lx as int, ly as int),
    {
        self.rows[ly][lx]
    }

    /// Whether the text at (`tx`, `ty`) covers field pixel (`x`, `y`).
    pub fn is_text_pixel(&self, tx: i32, ty: i32, x: usize, y: usize) -> (r: bool)
        requires
            self.wf(),
            x <= i32::MAX,
            y <= i32::MAX,
        ensures
            r == self.covers(tx as int, ty as int, x as int, y as int),
    {
        let rx = x as i64 - tx as i64;
        let ry = y as i64 - ty as i64;
        if rx < 0 || ry < 0 || rx >= self.w as i64 || ry >= self.h as i64 {
            return false;
        }
        self.get(rx as usize, ry as usize)
    }
}

} // verus!
