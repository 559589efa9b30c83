//! The dual-gradient energy function, stated over a row-major pixel buffer.

use vstd::prelude::*;

verus! {

/// Energy of a pixel that stands out completely. Every pixel on the rim of the
/// image is given this value.
pub const MAX_PIXEL_ENERGY: i32 = 255 * 255 * 3;

/// One pixel: three colour channels of eight bits each.
#[derive(Clone, Copy, Debug, PartialEq, Eq)]
pub struct Rgb {
    pub r: u8,
    pub g: u8,
    pub b: u8,
}

/// Square of the difference of two channel values.
pub open spec fn channel_gap(a: u8, b: u8) -> int {
    (a as int - b as int) * (a as int - b as int)
}

/// Sum over the three channels of the squared differences of two pixels.
pub open spec fn color_gap(p: Rgb, q: Rgb) -> int {
    channel_gap(p.r, q.r) + channel_gap(p.g, q.g) + channel_gap(p.b, q.b)
}

/// Whether pixel `i` of a `width` x `height` image lies in the first or last
/// row or column.
pub open spec fn is_border(width: int, height: int, i: int) -> bool {
    i / width == 0 || i / width == height - 1 || i % width == 0 || i % width == width - 1
}

/// Energy of pixel `i`: the maximum on the rim, and inside the image the
/// colour gap between its left and right neighbours plus the gap between the
/// neighbours above and below. The pixel's own colour plays no part.
pub open spec fn pixel_energy(pixels: Seq<Rgb>, width: int, height: int, i: int) -> int {
    if is_border(width, height, i) {
        MAX_PIXEL_ENERGY as int
    } else {
        color_gap(pixels[i - 1], pixels[i + 1]) + color_gap(pixels[i - width], pixels[i + width])
    }
}

/// The colour gap of two pixels never exceeds the energy of a rim pixel.
pub proof fn lemma_color_gap_bounds(p: Rgb, q: Rgb)
    ensures
        0 <= color_gap(p, q) <= MAX_PIXEL_ENERGY,
{
    lemma_channel_gap_bounds(p.r, q.r);
    lemma_channel_gap_bounds(p.g, q.g);
    lemma_channel_gap_bounds(p.b, q.b);
}

proof fn lemma_channel_gap_bounds(a: u8, b: u8)
    ensures
        0 <= channel_gap(a, b) <= 255 * 255,
{
    let d: int = a as int - b as int;
    assert(0 <= d * d <= 255 * 255) by (nonlinear_arith)
        requires
            -255 <= d <= 255,
    ;
}

/// The energy of a pixel depends on no pixel outside the image: two buffers
/// that agree on the first `width * height` pixels give every pixel of the
/// image the same energy.
pub proof fn lemma_energy_reads_image_only(
    first: Seq<Rgb>,
    second: Seq<Rgb>,
    width: int,
    height: int,
    i: int,
)
    requires
        width >= 1,
        height >= 1,
        0 <= i < width * height,
        width * height <= first.len(),
        width * height <= second.len(),
        first.subrange(0, width * height) == second.subrange(0, width * height),
    ensures
        pixel_energy(first, width, height, i) == pixel_energy(second, width, height, i),
{
    if !is_border(width, height, i) {
        let n: int = width * height;
        lemma_interior_neighbors(width, height, i);
        assert(first[i - 1] == first.subrange(0, n)[i - 1]);
        assert(first[i + 1] == first.subrange(0, n)[i + 1]);
        assert(first[i - width] == first.subrange(0, n)[i - width]);
        assert(first[i + width] == first.subrange(0, n)[i + width]);
        assert(second[i - 1] == second.subrange(0, n)[i - 1]);
        assert(second[i + 1] == second.subrange(0, n)[i + 1]);
        assert(second[i - width] == second.subrange(0, n)[i - width]);
        assert(second[i + width] == second.subrange(0, n)[i + width]);
    }
}

/// The four neighbours of a pixel inside the image are pixels of the image.
pub proof fn lemma_interior_neighbors(width: int, height: int, i: int)
    requires
        width >= 1,
        height >= 1,
        0 <= i < width * height,
        !is_border(width, height, i),
    ensures
        0 <= i - width,
        0 <= i - 1,
        i + 1 < width * height,
        i + width < width * height,
{
    let y: int = i / width;
    let x: int = i % width;
    vstd::arithmetic::div_mod::lemma_fundamental_div_mod(i, width);
    vstd::arithmetic::div_mod::lemma_div_pos_is_pos(i, width);
    assert(i == width * y + x);
    assert(0 <= x < width) by {
        vstd::arithmetic::div_mod::lemma_mod_bound(i, width);
    }
    assert(y < height) by (nonlinear_arith)
        requires
            i == width * y + x,
            0 <= x,
            i < width * height,
            width >= 1,
    ;
    assert(y >= 1 && y <= height - 2);
    assert(width * y >= width) by (nonlinear_arith)
        requires
            y >= 1,
            width >= 1,
    ;
    assert(width * y + width <= width * height - width) by (nonlinear_arith)
        requires
            y <= height - 2,
            width >= 1,
    ;
}

/// Exec counterpart of [`channel_gap`].
fn channel_gap_of(a: u8, b: u8) -> (gap: i32)
    ensures
        gap == channel_gap(a, b),
{
    proof {
        lemma_channel_gap_bounds(a, b);
    }
    let d: i32 = a as i32 - b as i32;
    assert(d * d == channel_gap(a, b));
    d * d
}

/// Computes the colour gap of two pixels.
pub fn color_gap_of(p: &Rgb, q: &Rgb) -> (gap: i32)
    ensures
        gap == color_gap(*p, *q),
        0 <= gap <= MAX_PIXEL_ENERGY,
{
    proof {
        lemma_channel_gap_bounds(p.r, q.r);
        lemma_channel_gap_bounds(p.g, q.g);
        lemma_channel_gap_bounds(p.b, q.b);
    }
    channel_gap_of(p.r, q.r) + channel_gap_of(p.g, q.g) + channel_gap_of(p.b, q.b)
}

} // verus!
