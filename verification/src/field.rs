use vstd::prelude::*;

verus! {

/// The source coordinate that a resized field samples for coordinate `i`
/// when a length of `old_n` is stretched to `n`.
pub open spec fn nearest(i: int, old_n: int, n: int) -> int {
    i * old_n / n
}

/// Nearest-neighbour resampling of a row-major field of `ow` by `oh` into `w`
/// by `h`: pixel (`x`, `y`) takes the value of source pixel
/// (`x * ow / w`, `y * oh / h`).
pub open spec fn resampled<T>(old: Seq<T>, ow: int, oh: int, w: int, h: int) -> Seq<T> {
    Seq::new((w * h) as nat, |i: int| old[nearest(i / w, oh, h) * ow + nearest(i % w, ow, w)])
}

proof fn lemma_nearest_bound(i: int, old_n: int, n: int)
    requires
        0 <= i < n,
        0 < old_n,
    ensures
        0 <= nearest(i, old_n, n) < old_n,
{
    assert(0 <= i * old_n) by (nonlinear_arith)
        requires
            0 <= i,
            0 < old_n,
    ;
    assert(i * old_n < n * old_n) by (nonlinear_arith)
        requires
            0 <= i < n,
            0 < old_n,
    ;
    let q = i * old_n / n;
    vstd::arithmetic::div_mod::lemma_fundamental_div_mod(i * old_n, n);
    vstd::arithmetic::div_mod::lemma_div_pos_is_pos(i * old_n, n);
    assert(q < old_n) by (nonlinear_arith)
        requires
            i * old_n == n * q + (i * old_n) % n,
            0 <= (i * old_n) % n,
            i * old_n < n * old_n,
            0 < n,
    ;
}

proof fn lemma_row_major(i: int, w: int, x: int, y: int)
    requires
        0 < w,
        0 <= x < w,
        i == y * w + x,
    ensures
        i / w == y,
        i % w == x,
{
    vstd::arithmetic::div_mod::lemma_fundamental_div_mod_converse(i, w, y, x);
}

/// Resamples the row-major field `old` of `old_width` by `old_height` to
/// `width` by `pixel_h`, each pixel taking the value of the nearest source
/// pixel at or before its scaled position.
pub fn resample_nearest<T: Copy>(old: &[T], old_width: usize, old_height: usize, width: usize, pixel_h: usize) -> (r: Vec<T>)
    requires
        old_width > 0,
        old_height > 0,
        width > 0,
        pixel_h > 0,
        old@.len() == old_width * old_height,
        width * pixel_h <= usize::MAX,
        width * old_width <= usize::MAX,
        pixel_h * old_height <= usize::MAX,
    ensures
        r@ == resampled(old@, old_width as int, old_height as int, width as int, pixel_h as int),
{
    let ghost ow = old_width as int;
    let ghost oh = old_height as int;
    let ghost w = width as int;
    let ghost h = pixel_h as int;
    let mut field: Vec<T> = Vec::new();
    let mut y: usize = 0;
    while y < pixel_h
        invariant
            y <= pixel_h,
            ow == old_width,
            oh == old_height,
            w == width,
            h == pixel_h,
            old_width > 0,
            old_height > 0,
            width > 0,
            old@.len() == old_width * old_height,
            width * old_width <= usize::MAX,
            pixel_h * old_height <= usize::MAX,
            field@.len() == y * w,
            forall|i: int| 0 <= i < y * w ==> field@[i] == #[trigger] resampled(old@, ow, oh, w, h)[i],
            y * w <= w * h,
        decreases pixel_h - y,
    {
        assert(y * old_height <= pixel_h * old_height) by (nonlinear_arith)
            requires
                y <= pixel_h,
        ;
        let src_y = y * old_height / pixel_h;
        proof {
            lemma_nearest_bound(y as int, oh, h);
        }
        assert(y * w + w <= w * h) by (nonlinear_arith)
            requires
                y < h,
                0 < w,
        ;
        let mut x: usize = 0;
        while x < width
            invariant
                y < pixel_h,
                x <= width,
                ow == old_width,
                oh == old_height,
                w == width,
                h == pixel_h,
                old_width > 0,
                width > 0,
                old@.len() == old_width * old_height,
                width * old_width <= usize::MAX,
                src_y == nearest(y as int, oh, h),
                0 <= src_y < oh,
                field@.len() == y * w + x,
                forall|i: int| 0 <= i < y * w + x ==> field@[i] == #[trigger] resampled(old@, ow, oh, w, h)[i],
                y * w + w <= w * h,
            decreases width - x,
        {
            assert(x * old_width <= width * old_width) by (nonlinear_arith)
                requires
                    x <= width,
            ;
            let src_x = x * old_width / width;
            proof {
                lemma_nearest_bound(x as int, ow, w);
                crate::grid::lemma_cell_index(src_y as int, src_x as int, ow, oh);
                assert(old@.len() == old.len());
                lemma_row_major(y * w + x, w, x as int, y as int);
            }
            let v = old[src_y * old_width + src_x];
            field.push(v);
            x += 1;
        }
        proof {
            assert(y * w + w == (y + 1) * w) by (nonlinear_arith);
        }
        y += 1;
    }
    proof {
        assert(h * w == w * h) by (nonlinear_arith);
        assert(field@ =~= resampled(old@, ow, oh, w, h));
    }
    field
}

/// Resampling a field to its own size gives the field back.
pub proof fn law_same_size_resample_is_identity<T>(old: Seq<T>, w: int, h: int)
    requires
        w > 0,
        h > 0,
        old.len() == w * h,
    ensures
        resampled(old, w, h, w, h) == old,
{
    assert forall|i: int| 0 <= i < old.len() implies #[trigger] resampled(old, w, h, w, h)[i] == old[i] by {
        let y = i / w;
        let x = i % w;
        vstd::arithmetic::div_mod::lemma_fundamental_div_mod(i, w);
        vstd::arithmetic::div_mod::lemma_mod_pos_bound(i, w);
        assert(y * h / h == y) by {
            vstd::arithmetic::div_mod::lemma_div_multiples_vanish(y, h);
            assert(y * h == h * y) by (nonlinear_arith);
        }
        assert(x * w / w == x) by {
            vstd::arithmetic::div_mod::lemma_div_multiples_vanish(x, w);
            assert(x * w == w * x) by (nonlinear_arith);
        }
        assert(y * w + x == i) by (nonlinear_arith)
            requires
                i == w * y + x,
        ;
    }
    assert(resampled(old, w, h, w, h) =~= old);
}

/// Resizes a scalar field of `old_width` by `old_height` to `width` by
/// `pixel_h`: empty when the new size is empty, all `blank` when there was no
/// old field, and otherwise the nearest-neighbour resampling of the old one.
pub fn resize_scalar_field<T: Copy>(
    old_field: &[T],
    old_width: usize,
    old_height: usize,
    width: usize,
    pixel_h: usize,
    blank: T,
) -> (r: Vec<T>)
    requires
        old_field@.len() == old_width * old_height,
        width * pixel_h <= usize::MAX,
        width * old_width <= usize::MAX,
        pixel_h * old_height <= usize::MAX,
    ensures
        width == 0 || pixel_h == 0 ==> r@.len() == 0,
        width > 0 && pixel_h > 0 && (old_width == 0 || old_height == 0) ==> r@ == Seq::new(
            (width * pixel_h) as nat,
            |i: int| blank,
        ),
        width > 0 && pixel_h > 0 && old_width > 0 && old_height > 0 ==> r@ == resampled(
            old_field@,
            old_width as int,
            old_height as int,
            width as int,
            pixel_h as int,
        ),
{
    if width == 0 || pixel_h == 0 {
        return Vec::new();
    }
    if old_width == 0 || old_height == 0 || old_field.len() == 0 {
        proof {
            if old_width > 0 && old_height > 0 {
                assert(old_width * old_height > 0) by (nonlinear_arith)
                    requires
                        old_width > 0,
                        old_height > 0,
                ;
            }
        }
        let n = width * pixel_h;
        let mut field: Vec<T> = Vec::new();
        let mut i: usize = 0;
        while i < n
            invariant
                i <= n,
                field@ == Seq::new(i as nat, |k: int| blank),
            decreases n - i,
        {
            field.push(blank);
            i += 1;
            assert(field@ =~= Seq::new(i as nat, |k: int| blank));
        }
        return field;
    }
    resample_nearest(old_field, old_width, old_height, width, pixel_h)
}

/// Keeps the `max` most recent items of `items` (its last ones), or all of
/// them when there are no more than `max`.
pub fn keep_newest<T>(items: Vec<T>, max: usize) -> (r: Vec<T>)
    ensures
        items@.len() > max ==> r@ == items@.subrange(items@.len() - max, items@.len() as int),
        items@.len() <= max ==> r@ == items@,
{
    if items.len() > max {
        let mut items = items;
        let keep_from = items.len() - max;
        items.split_off(keep_from)
    } else {
        items
    }
}

/// The pixels of `total` at which settling scratch depth is sampled each
/// frame: one per 520 pixels, at least 48 and at most 1024.
pub fn scratch_fill_samples(total: usize) -> (r: usize)
    ensures
        r == (if total / 520 < 48 {
            48
        } else if total / 520 > 1024 {
            1024
        } else {
            total / 520
        }),
{
    let base = total / 520;
    if base < 48 {
        48
    } else if base > 1024 {
        1024
    } else {
        base
    }
}

/// The grains sampled for drifting in the wind each frame among `total`
/// pixels: one per 180 pixels, at least 96 and at most 3072, all of it
/// tripled while the field is settling after a resize.
pub fn diffuse_samples(total: usize, boosted: bool) -> (r: usize)
    ensures
        ({
            let boost: int = if boosted { 3 } else { 1 };
            let base = (total / 180) * boost;
            r == (if base < 96 {
                96
            } else if base > 3072 * boost {
                3072 * boost
            } else {
                base
            })
        }),
{
    let boost: usize = if boosted { 3 } else { 1 };
    let base = (total / 180) * boost;
    if base < 96 {
        96
    } else if base > 3072 * boost {
        3072 * boost
    } else {
        base
    }
}

} // verus!
