use vstd::prelude::*;

use crate::color::{Color, BACKGROUND};
use crate::renderer::{decimal, itoa_push};

verus! {

/// Byte `j` (`0..4`) of the RGBA pixel that shows `p`: its colour, or the
/// background where it is empty, fully opaque.
pub open spec fn rgba_byte(p: Option<Color>, j: int) -> u8 {
    let c = match p {
        Some(c) => c,
        None => BACKGROUND,
    };
    if j == 0 {
        c.0
    } else if j == 1 {
        c.1
    } else if j == 2 {
        c.2
    } else {
        255u8
    }
}

/// Writes the frame `fb` into `rgba` as RGBA bytes, four per pixel, first
/// resizing `rgba` to fit when its length differs.
pub fn fill_rgba(fb: &[Option<Color>], rgba: &mut Vec<u8>)
    requires
        fb@.len() * 4 <= usize::MAX,
    ensures
        final(rgba)@.len() == fb@.len() * 4,
        forall|i: int, j: int|
            0 <= i < fb@.len() && 0 <= j < 4 ==> #[trigger] final(rgba)@[4 * i + j] == rgba_byte(
                #[trigger] fb@[i],
                j,
            ),
{
    let n = fb.len();
    if rgba.len() != n * 4 {
        rgba.resize(n * 4, 0u8);
    }
    let mut i: usize = 0;
    while i < n
        invariant
            n == fb@.len(),
            n * 4 <= usize::MAX,
            i <= n,
            rgba@.len() == n * 4,
            forall|k: int, j: int|
                0 <= k < i && 0 <= j < 4 ==> #[trigger] rgba@[4 * k + j] == rgba_byte(#[trigger] fb@[k], j),
        decreases n - i,
    {
        let (r, g, b) = match fb[i] {
            Some(c) => c,
            None => BACKGROUND,
        };
        let base = 4 * i;
        rgba.set(base, r);
        rgba.set(base + 1, g);
        rgba.set(base + 2, b);
        rgba.set(base + 3, 255u8);
        proof {
            assert forall|k: int, j: int| 0 <= k < i + 1 && 0 <= j < 4 implies #[trigger] rgba@[4 * k + j]
                == rgba_byte(#[trigger] fb@[k], j) by {
                if k < i {
                    assert(4 * k + j < 4 * i);
                } else {
                    assert(4 * k + j == base + j);
                }
            }
        }
        i += 1;
    }
}

/// The CSS notation `rgb(r, g, b)` of a colour, in decimal.
pub open spec fn css_rgb_spec(c: Color) -> Seq<u8> {
    seq![114u8, 103u8, 98u8, 40u8] + decimal(c.0) + seq![44u8, 32u8] + decimal(c.1) + seq![44u8, 32u8]
        + decimal(c.2) + seq![41u8]
}

/// Writes a colour in CSS notation, `rgb(r, g, b)`, as ASCII bytes.
pub fn css_rgb(c: Color) -> (r: Vec<u8>)
    ensures
        r@ == css_rgb_spec(c),
{
    let mut out: Vec<u8> = Vec::new();
    out.push(114u8);
    out.push(103u8);
    out.push(98u8);
    out.push(40u8);
    itoa_push(&mut out, c.0);
    out.push(44u8);
    out.push(32u8);
    itoa_push(&mut out, c.1);
    out.push(44u8);
    out.push(32u8);
    itoa_push(&mut out, c.2);
    out.push(41u8);
    assert(out@ =~= css_rgb_spec(c));
    out
}

} // verus!
