use vstd::prelude::*;

use crate::color::Color;
use crate::text::TextBitmap;

verus! {

/// The loose sand lying on the field: one optional grain colour per pixel,
/// row-major, `width` pixels by `pixel_h` rows.
pub struct SandGrid {
    pub width: usize,
    pub pixel_h: usize,
    pub cells: Vec<Option<Color>>,
}

/// Pixel (`c`, `r`) of a row-major field `w` wide and `h` high has an index
/// inside the field.
pub proof fn lemma_cell_index(r: int, c: int, w: int, h: int)
    by (nonlinear_arith)
    requires
        0 <= r < h,
        0 <= c < w,
    ensures
        0 <= r * w + c < h * w,
        h * w == w * h,
        r * w + c < r * w + w,
{
}

/// The number of grains in a sequence of cells.
pub open spec fn grain_count(s: Seq<Option<Color>>) -> nat
    decreases s.len(),
{
    if s.len() == 0 {
        0
    } else {
        grain_count(s.drop_last()) + if s.last() is Some { 1nat } else { 0nat }
    }
}

impl SandGrid {
    /// One cell per pixel; dimensions within the `i32` range in which pixel
    /// coordinates are compared with the text position.
    pub open spec fn wf(&self) -> bool {
        &&& self.cells@.len() == self.width * self.pixel_h
        &&& self.width <= i32::MAX
        &&& self.pixel_h <= i32::MAX
    }

    /// The row-major index of pixel (`x`, `y`).
    pub open spec fn index_of(&self, x: int, y: int) -> int {
        y * self.width + x
    }

    pub open spec fn inside(&self, x: int, y: int) -> bool {
        0 <= x < self.width && 0 <= y < self.pixel_h
    }

    /// Whether a grain may come to rest on pixel (`x`, `y`): inside the
    /// field, free of sand and not under the text at (`tx`, `ty`).
    pub open spec fn open_cell(&self, mask: TextBitmap, tx: int, ty: int, x: int, y: int) -> bool {
        &&& self.inside(x, y)
        &&& self.cells@[self.index_of(x, y)] is None
        &&& !mask.covers(tx, ty, x, y)
    }

    /// Builds a grid from its cells.
    pub fn new(width: usize, pixel_h: usize, cells: Vec<Option<Color>>) -> (g: Self)
        requires
            cells@.len() == width * pixel_h,
            width <= i32::MAX,
            pixel_h <= i32::MAX,
        ensures
            g.wf(),
            g.width == width,
            g.pixel_h == pixel_h,
            g.cells == cells,
    {
        SandGrid { width, pixel_h, cells }
    }

    /// The row-major index of pixel (`x`, `y`).
    pub fn index(&self, x: usize, y: usize) -> (r: usize)
        requires
            self.wf(),
            x < self.width,
            y < self.pixel_h,
        ensures
            r == self.index_of(x as int, y as int),
            r < self.cells@.len(),
    {
        proof {
            lemma_cell_index(y as int, x as int, self.width as int, self.pixel_h as int);
            assert(self.cells@.len() == self.cells.len());
        }
        y * self.width + x
    }

    /// The index of pixel (`x`, `y`) when it lies inside the field.
    pub fn locate(&self, x: i64, y: i64) -> (r: Option<usize>)
        requires
            self.wf(),
        ensures
            r == (if self.inside(x as int, y as int) {
                Some(self.index_of(x as int, y as int) as usize)
            } else {
                None
            }),
            r matches Some(i) ==> i < self.cells@.len() && i == self.index_of(x as int, y as int),
    {
        if x >= 0 && y >= 0 && x < self.width as i64 && y < self.pixel_h as i64 {
            Some(self.index(x as usize, y as usize))
        } else {
            None
        }
    }

    /// Whether (`x`, `y`) lies inside the field.
    pub fn in_bounds(&self, x: isize, y: isize) -> (r: bool)
        requires
            self.wf(),
        ensures
            r == self.inside(x as int, y as int),
    {
        x >= 0 && y >= 0 && x < self.width as isize && y < self.pixel_h as isize
    }

    /// Whether pixel (`x`, `y`) holds a grain or lies under the text.
    pub fn cell_blocked(&self, mask: &TextBitmap, tx: i32, ty: i32, x: usize, y: usize) -> (r: bool)
        requires
            self.wf(),
            mask.wf(),
            x < self.width,
            y < self.pixel_h,
        ensures
            r == (self.cells@[self.index_of(x as int, y as int)] is Some || mask.covers(
                tx as int,
                ty as int,
                x as int,
                y as int,
            )),
    {
        let idx = self.index(x, y);
        self.cells[idx].is_some() || mask.is_text_pixel(tx, ty, x, y)
    }

    /// The neighbour a drifting grain tries to settle on, the offsets taken in
    /// order from the `start`-th, wrapping around after the ninth.
    pub open spec fn first_open(
        &self,
        mask: TextBitmap,
        tx: int,
        ty: int,
        x: int,
        y: int,
        start: int,
        k: int,
    ) -> Option<int>
        decreases 9 - k,
    {
        if k < 0 || k >= 9 {
            None
        } else {
            let d = deposit_dir((start + k) % 9);
            if self.open_cell(mask, tx, ty, x + d.0, y + d.1) {
                Some(self.index_of(x + d.0, y + d.1))
            } else {
                self.first_open(mask, tx, ty, x, y, start, k + 1)
            }
        }
    }

    /// Whether a grain of `color` drifting at (`x`, `y`) comes to rest when
    /// the neighbours are tried from the `start`-th offset, and the cells then.
    pub open spec fn deposit_result(
        &self,
        mask: TextBitmap,
        tx: int,
        ty: int,
        x: int,
        y: int,
        color: Color,
        start: int,
    ) -> (bool, Seq<Option<Color>>) {
        match self.first_open(mask, tx, ty, x, y, start, 0) {
            Some(i) => (true, self.cells@.update(i, Some(color))),
            None => (false, self.cells@),
        }
    }

    /// Lays a grain of `color` on the first open pixel among (`x`, `y`) and
    /// its eight neighbours, trying the offsets of `deposit_dir` from the
    /// `start`-th on; reports whether one was open.
    pub fn deposit_from(
        &mut self,
        mask: &TextBitmap,
        tx: i32,
        ty: i32,
        x: usize,
        y: usize,
        color: Color,
        start: usize,
    ) -> (r: bool)
        requires
            old(self).wf(),
            mask.wf(),
            start < 9,
            x <= i32::MAX,
            y <= i32::MAX,
        ensures
            final(self).wf(),
            final(self).width == old(self).width,
            final(self).pixel_h == old(self).pixel_h,
            (r, final(self).cells@) == old(self).deposit_result(
                *mask,
                tx as int,
                ty as int,
                x as int,
                y as int,
                color,
                start as int,
            ),
    {
        let mut offset: usize = 0;
        while offset < 9
            invariant
                offset <= 9,
                start < 9,
                x <= i32::MAX,
                y <= i32::MAX,
                mask.wf(),
                *self == *old(self),
                self.wf(),
                old(self).first_open(*mask, tx as int, ty as int, x as int, y as int, start as int, 0)
                    == old(self).first_open(
                    *mask,
                    tx as int,
                    ty as int,
                    x as int,
                    y as int,
                    start as int,
                    offset as int,
                ),
            decreases 9 - offset,
        {
            let (dx, dy) = dir_at((start + offset) % 9);
            let nx = x as i64 + dx as i64;
            let ny = y as i64 + dy as i64;
            if nx >= 0 && ny >= 0 && nx < self.width as i64 && ny < self.pixel_h as i64 {
                let idx = self.index(nx as usize, ny as usize);
                if self.cells[idx].is_none() && !mask.is_text_pixel(tx, ty, nx as usize, ny as usize) {
                    self.cells.set(idx, Some(color));
                    return true;
                }
            }
            offset += 1;
        }
        false
    }

    /// Lays a grain of `color` drifting at (`x`, `y`) on the first open pixel
    /// among it and its neighbours, starting the search at a random offset.
    pub fn try_deposit(
        &mut self,
        mask: &TextBitmap,
        tx: i32,
        ty: i32,
        x: usize,
        y: usize,
        color: Color,
        rng: &mut fastrand::Rng,
    ) -> (r: bool)
        requires
            old(self).wf(),
            mask.wf(),
            x <= i32::MAX,
            y <= i32::MAX,
        ensures
            final(self).wf(),
            final(self).width == old(self).width,
            final(self).pixel_h == old(self).pixel_h,
            exists|start: int|
                0 <= start < 9 && (r, final(self).cells@) == #[trigger] old(self).deposit_result(
                    *mask,
                    tx as int,
                    ty as int,
                    x as int,
                    y as int,
                    color,
                    start,
                ),
    {
        let start = crate::random::random_below(rng, 9);
        self.deposit_from(mask, tx, ty, x, y, color, start)
    }
}

impl SandGrid {
    /// Moves the grain on (`x`, `y`) one step by (`dx`, `dy`) when the pixel
    /// there is open; reports whether it moved.
    pub fn shift_grain(&mut self, mask: &TextBitmap, tx: i32, ty: i32, x: usize, y: usize, dx: isize, dy: isize) -> (r: bool)
        requires
            old(self).wf(),
            mask.wf(),
            x < old(self).width,
            y < old(self).pixel_h,
            old(self).cells@[old(self).index_of(x as int, y as int)] is Some,
            -1 <= dx <= 1,
            -1 <= dy <= 1,
        ensures
            final(self).wf(),
            final(self).width == old(self).width,
            final(self).pixel_h == old(self).pixel_h,
            r == old(self).open_cell(*mask, tx as int, ty as int, x + dx, y + dy),
            r ==> final(self).cells@ == old(self).cells@.update(
                old(self).index_of(x + dx, y + dy),
                old(self).cells@[old(self).index_of(x as int, y as int)],
            ).update(old(self).index_of(x as int, y as int), None),
            !r ==> final(self).cells@ == old(self).cells@,
    {
        let nx = x as i64 + dx as i64;
        let ny = y as i64 + dy as i64;
        if nx < 0 || ny < 0 || nx >= self.width as i64 || ny >= self.pixel_h as i64 {
            return false;
        }
        let idx = self.index(x, y);
        let nidx = self.index(nx as usize, ny as usize);
        if self.cells[nidx].is_some() || mask.is_text_pixel(tx, ty, nx as usize, ny as usize) {
            return false;
        }
        let color = self.cells[idx];
        self.cells.set(nidx, color);
        self.cells.set(idx, None);
        true
    }

    /// Lifts the grain, if any, off cell `idx`.
    pub fn take_grain(&mut self, idx: usize) -> (r: Option<Color>)
        requires
            old(self).wf(),
            idx < old(self).cells@.len(),
        ensures
            final(self).wf(),
            final(self).width == old(self).width,
            final(self).pixel_h == old(self).pixel_h,
            r == old(self).cells@[idx as int],
            final(self).cells@ == old(self).cells@.update(idx as int, None),
    {
        let r = self.cells[idx];
        self.cells.set(idx, None);
        r
    }

    /// Lays a grain of `color` on cell `idx`.
    pub fn put_grain(&mut self, idx: usize, color: Color)
        requires
            old(self).wf(),
            idx < old(self).cells@.len(),
        ensures
            final(self).wf(),
            final(self).width == old(self).width,
            final(self).pixel_h == old(self).pixel_h,
            final(self).cells@ == old(self).cells@.update(idx as int, Some(color)),
    {
        self.cells.set(idx, Some(color));
    }
}

impl SandGrid {
    /// Paints the grains over the frame `fb`, pixel by pixel; pixels without
    /// a grain keep what `fb` shows.
    pub fn overlay_grains(&self, fb: &mut Vec<Option<Color>>)
        requires
            self.wf(),
        ensures
            final(fb)@.len() == old(fb)@.len(),
            forall|i: int|
                0 <= i < old(fb)@.len() ==> #[trigger] final(fb)@[i] == (if i < self.cells@.len()
                    && self.cells@[i] is Some {
                    self.cells@[i]
                } else {
                    old(fb)@[i]
                }),
    {
        let n = if fb.len() < self.cells.len() {
            fb.len()
        } else {
            self.cells.len()
        };
        let mut i: usize = 0;
        while i < n
            invariant
                i <= n,
                n <= old(fb)@.len(),
                n <= self.cells@.len(),
                n == old(fb)@.len() || n == self.cells@.len(),
                fb@.len() == old(fb)@.len(),
                forall|k: int|
                    0 <= k < fb@.len() ==> #[trigger] fb@[k] == (if k < i && self.cells@[k] is Some {
                        self.cells@[k]
                    } else {
                        old(fb)@[k]
                    }),
            decreases n - i,
        {
            if self.cells[i].is_some() {
                fb.set(i, self.cells[i]);
            }
            i += 1;
        }
    }
}

/// Replacing one cell changes the grain count by what leaves and what comes.
pub proof fn lemma_count_update(s: Seq<Option<Color>>, i: int, v: Option<Color>)
    requires
        0 <= i < s.len(),
    ensures
        grain_count(s.update(i, v)) + (if s[i] is Some { 1int } else { 0int }) == grain_count(s) + (if v is Some { 1int } else { 0int }),
    decreases s.len(),
{
    let t = s.update(i, v);
    if i == s.len() - 1 {
        assert(t.drop_last() =~= s.drop_last());
    } else {
        assert(t.drop_last() =~= s.drop_last().update(i, v));
        lemma_count_update(s.drop_last(), i, v);
    }
}

/// A grain that moves from one cell to an empty one leaves the number of
/// grains unchanged.
pub proof fn law_move_keeps_grains(s: Seq<Option<Color>>, from: int, to: int)
    requires
        0 <= from < s.len(),
        0 <= to < s.len(),
        s[from] is Some,
        s[to] is None,
    ensures
        grain_count(s.update(to, s[from]).update(from, None)) == grain_count(s),
{
    lemma_count_update(s, to, s[from]);
    lemma_count_update(s.update(to, s[from]), from, None);
}

/// Putting back the grain just lifted from a cell restores the grid.
pub proof fn law_put_back_restores(s: Seq<Option<Color>>, i: int)
    requires
        0 <= i < s.len(),
        s[i] is Some,
    ensures
        s.update(i, None).update(i, Some(s[i]->0)) == s,
        grain_count(s.update(i, None)) + 1 == grain_count(s),
{
    lemma_count_update(s, i, None);
    assert(s.update(i, None).update(i, Some(s[i]->0)) =~= s);
}

/// A grain that comes to rest lands on an open pixel next to (or on) its own
/// and adds exactly one grain; one that finds no open pixel changes nothing.
pub proof fn law_deposit_adds_one_grain(
    g: SandGrid,
    mask: TextBitmap,
    tx: int,
    ty: int,
    x: int,
    y: int,
    color: Color,
    start: int,
)
    requires
        g.wf(),
        0 <= start < 9,
    ensures
        ({
            let (landed, cells) = g.deposit_result(mask, tx, ty, x, y, color, start);
            &&& landed ==> grain_count(cells) == grain_count(g.cells@) + 1
            &&& landed ==> exists|k: int|
                0 <= k < 9 && g.open_cell(
                    mask,
                    tx,
                    ty,
                    x + #[trigger] deposit_dir(k).0,
                    y + deposit_dir(k).1,
                ) && cells == g.cells@.update(
                    g.index_of(x + deposit_dir(k).0, y + deposit_dir(k).1),
                    Some(color),
                )
            &&& !landed ==> cells == g.cells@
        }),
{
    lemma_first_open_is_open(g, mask, tx, ty, x, y, start, 0);
    match g.first_open(mask, tx, ty, x, y, start, 0) {
        Some(i) => {
            lemma_index_in_range(g, i);
            lemma_count_update(g.cells@, i, Some(color));
        },
        None => {},
    }
}

/// A drifting grain next to an open pixel always comes to rest: whatever
/// offset the search starts from, if any of the nine pixels around and under
/// (`x`, `y`) is open, the deposit lands.
pub proof fn law_deposit_lands_when_a_neighbour_is_open(
    g: SandGrid,
    mask: TextBitmap,
    tx: int,
    ty: int,
    x: int,
    y: int,
    color: Color,
    start: int,
    dx: int,
    dy: int,
)
    requires
        g.wf(),
        0 <= start < 9,
        -1 <= dx <= 1,
        -1 <= dy <= 1,
        g.open_cell(mask, tx, ty, x + dx, y + dy),
    ensures
        g.deposit_result(mask, tx, ty, x, y, color, start).0,
{
    let m: int = if dx == 0 && dy == 0 {
        0
    } else if dx == 0 && dy == 1 {
        1
    } else if dx == -1 && dy == 1 {
        2
    } else if dx == 1 && dy == 1 {
        3
    } else if dx == -1 && dy == 0 {
        4
    } else if dx == 1 && dy == 0 {
        5
    } else if dx == 0 && dy == -1 {
        6
    } else if dx == -1 && dy == -1 {
        7
    } else {
        8
    };
    assert(deposit_dir(m) == (dx, dy));
    let k = (m - start + 9) % 9;
    assert((start + k) % 9 == m);
    if g.first_open(mask, tx, ty, x, y, start, 0) is None {
        lemma_first_open_none(g, mask, tx, ty, x, y, start, 0, k);
    }
}

proof fn lemma_first_open_none(
    g: SandGrid,
    mask: TextBitmap,
    tx: int,
    ty: int,
    x: int,
    y: int,
    start: int,
    k: int,
    target: int,
)
    requires
        0 <= k <= target < 9,
        g.first_open(mask, tx, ty, x, y, start, k) is None,
    ensures
        !g.open_cell(
            mask,
            tx,
            ty,
            x + deposit_dir((start + target) % 9).0,
            y + deposit_dir((start + target) % 9).1,
        ),
    decreases target - k,
{
    if k < target {
        lemma_first_open_none(g, mask, tx, ty, x, y, start, k + 1, target);
    }
}

proof fn lemma_first_open_is_open(
    g: SandGrid,
    mask: TextBitmap,
    tx: int,
    ty: int,
    x: int,
    y: int,
    start: int,
    k: int,
)
    requires
        g.wf(),
        0 <= k,
    ensures
        g.first_open(mask, tx, ty, x, y, start, k) matches Some(i) ==> exists|j: int|
            0 <= j < 9 && g.open_cell(
                mask,
                tx,
                ty,
                x + #[trigger] deposit_dir(j).0,
                y + deposit_dir(j).1,
            ) && i == g.index_of(x + deposit_dir(j).0, y + deposit_dir(j).1),
    decreases 9 - k,
{
    if k < 9 {
        let j = (start + k) % 9;
        let d = deposit_dir(j);
        if !g.open_cell(mask, tx, ty, x + d.0, y + d.1) {
            lemma_first_open_is_open(g, mask, tx, ty, x, y, start, k + 1);
        }
    }
}

proof fn lemma_index_in_range(g: SandGrid, i: int)
    requires
        g.wf(),
        exists|x: int, y: int| g.inside(x, y) && i == g.index_of(x, y),
    ensures
        0 <= i < g.cells@.len(),
{
    let (x, y) = choose|x: int, y: int| g.inside(x, y) && i == g.index_of(x, y);
    lemma_cell_index(y, x, g.width as int, g.pixel_h as int);
}

/// The nine offsets a drifting grain tries: its own pixel, the three below,
/// the two beside and the three above.
pub open spec fn deposit_dir(k: int) -> (int, int) {
    if k == 0 {
        (0, 0)
    } else if k == 1 {
        (0, 1)
    } else if k == 2 {
        (-1, 1)
    } else if k == 3 {
        (1, 1)
    } else if k == 4 {
        (-1, 0)
    } else if k == 5 {
        (1, 0)
    } else if k == 6 {
        (0, -1)
    } else if k == 7 {
        (-1, -1)
    } else {
        (1, -1)
    }
}

fn dir_at(k: usize) -> (d: (isize, isize))
    requires
        k < 9,
    ensures
        d.0 == deposit_dir(k as int).0,
        d.1 == deposit_dir(k as int).1,
        -1 <= d.0 <= 1,
        -1 <= d.1 <= 1,
{
    if k == 0 {
        (0, 0)
    } else if k == 1 {
        (0, 1)
    } else if k == 2 {
        (-1, 1)
    } else if k == 3 {
        (1, 1)
    } else if k == 4 {
        (-1, 0)
    } else if k == 5 {
        (1, 0)
    } else if k == 6 {
        (0, -1)
    } else if k == 7 {
        (-1, -1)
    } else {
        (1, -1)
    }
}

} // verus!
