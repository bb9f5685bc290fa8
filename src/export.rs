//! The integer side of model export: which curves are exported and in which order curves
//! are rebuilt, which two control points color a triangle, and how a color becomes a cell
//! of the 32-step palette texture and a material.
use vstd::prelude::*;

verus! {

/// The number of steps per channel in the palette.
pub const PALETTE_STEPS: u8 = 32;

/// The indices `i` with `flags[i] == value`, in order.
pub open spec fn indices_with(flags: Seq<bool>, value: bool) -> Seq<usize>
    decreases flags.len(),
{
    if flags.len() == 0 {
        Seq::empty()
    } else if flags.last() == value {
        indices_with(flags.drop_last(), value).push((flags.len() - 1) as usize)
    } else {
        indices_with(flags.drop_last(), value)
    }
}

/// The indices of the curves that are exported: all but bundle curves, in order.
pub open spec fn exported(bundle: Seq<bool>) -> Seq<usize> {
    indices_with(bundle, false)
}

/// The order in which curves are rebuilt: bundle curves first, then the others, each
/// group in order.
pub open spec fn rebuild_sequence(bundle: Seq<bool>) -> Seq<usize> {
    indices_with(bundle, true) + indices_with(bundle, false)
}

/// The indices `i` with `flags[i] == value`, in order.
pub fn indices_with_flag(flags: &Vec<bool>, value: bool) -> (r: Vec<usize>)
    ensures
        r@ == indices_with(flags@, value),
{
    let mut out: Vec<usize> = Vec::new();
    let mut i: usize = 0;
    assert(flags@.take(0) =~= Seq::<bool>::empty());
    while i < flags.len()
        invariant
            i <= flags.len(),
            out@ == indices_with(flags@.take(i as int), value),
        decreases flags.len() - i,
    {
        assert(flags@.take(i as int + 1).drop_last() =~= flags@.take(i as int));
        if flags[i] == value {
            out.push(i);
        }
        i += 1;
    }
    assert(flags@.take(i as int) =~= flags@);
    out
}

/// The indices of the curves to export, given which curves are bundle curves.
pub fn exported_curves(bundle: &Vec<bool>) -> (r: Vec<usize>)
    ensures
        r@ == exported(bundle@),
{
    indices_with_flag(bundle, false)
}

/// The order in which to rebuild curves, given which curves are bundle curves: bundle
/// curves first, so that the others can refer to them.
pub fn rebuild_order(bundle: &Vec<bool>) -> (r: Vec<usize>)
    ensures
        r@ == rebuild_sequence(bundle@),
{
    let mut first = indices_with_flag(bundle, true);
    let mut rest = indices_with_flag(bundle, false);
    first.append(&mut rest);
    first
}

/// The two control points whose colors blend over a triangle at curve parameter
/// `whole` + a fraction: the point at `whole`, and the next one if there is a fraction,
/// held at the last point.
pub fn segment_points(whole: usize, has_fraction: bool, count: usize) -> (r: (usize, usize))
    requires
        whole < count,
    ensures
        r.0 == whole,
        r.1 == if has_fraction && whole + 1 < count {
            whole + 1
        } else {
            whole as int
        },
{
    if has_fraction && whole + 1 < count {
        (whole, whole + 1)
    } else {
        (whole, whole)
    }
}

/// An 8-bit channel as one of 32 steps.
pub fn quantize_channel(c: u8) -> (r: u8)
    ensures
        r == c / 8,
        r < PALETTE_STEPS,
{
    c / 8
}

/// A color's four 8-bit channels (red, green, blue, alpha) as 32 steps each.
pub fn quantize_color(c: (u8, u8, u8, u8)) -> (r: (u8, u8, u8, u8))
    ensures
        r == (c.0 / 8, c.1 / 8, c.2 / 8, c.3 / 8),
{
    (quantize_channel(c.0), quantize_channel(c.1), quantize_channel(c.2), quantize_channel(c.3))
}

/// The palette cell of a quantized color: column red + 32 green, row blue + 32 alpha,
/// each below 1024.
pub fn palette_cell(q: (u8, u8, u8, u8)) -> (r: (u32, u32))
    requires
        q.0 < 32 && q.1 < 32 && q.2 < 32 && q.3 < 32,
    ensures
        r.0 == q.0 + 32 * q.1,
        r.1 == q.2 + 32 * q.3,
        r.0 < 1024 && r.1 < 1024,
{
    (q.0 as u32 + 32 * q.1 as u32, q.2 as u32 + 32 * q.3 as u32)
}

/// The material of a triangle whose quantized alpha is `qa`: opaque at full alpha,
/// translucent below.
pub fn material_for_alpha(qa: u8) -> (r: &'static str)
    ensures
        qa == 31 ==> r@ == "spline.vmt"@,
        qa != 31 ==> r@ == "spline-transparent.vmt"@,
{
    if qa == 31 {
        "spline.vmt"
    } else {
        "spline-transparent.vmt"
    }
}

} // verus!
