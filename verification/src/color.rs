use vstd::prelude::*;

verus! {

/// An RGB colour, one byte per channel.
pub type Color = (u8, u8, u8);

/// The colour of an empty cell, shown where no sand, bed or text lies.
pub const BACKGROUND: Color = (96, 72, 50);

/// Compares two colours channel by channel.
pub fn same_color(a: Color, b: Color) -> (r: bool)
    ensures
        r == (a == b),
{
    a.0 == b.0 && a.1 == b.1 && a.2 == b.2
}

} // verus!
