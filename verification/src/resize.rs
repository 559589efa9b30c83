//! Narrowing an image by several columns: score, find the cheapest seam,
//! remove it, and start over on the narrower image.

use vstd::prelude::*;
use crate::carving::Carver;
use crate::compaction::{
    lazy_remove_indexes_of, positions, subset_by_width_and_height, without,
};
use crate::energy::{
    is_border, lemma_color_gap_bounds, lemma_energy_reads_image_only, pixel_energy, Rgb,
};
use crate::seam::{lemma_seam_col, seam_col, seam_pixel, MAX_SEAM_LENGTH};

verus! {

/// The energy of every pixel of a `width` x `height` image, row by row.
pub open spec fn energy_map(pixels: Seq<Rgb>, width: int, height: int) -> Seq<i32> {
    Seq::new((width * height) as nat, |i: int| pixel_energy(pixels, width, height, i) as i32)
}

/// The buffer positions of the chosen seam of an energy map.
pub open spec fn seam_positions(energy: Seq<i32>, width: int, height: int) -> Set<int> {
    Set::new(
        |p: int| exists|y: int| 0 <= y < height && #[trigger] seam_pixel(energy, width, height, y) == p,
    )
}

/// The image that is left of a `width` x `height` image when its chosen seam
/// is taken out: `width - 1` columns, row by row.
pub open spec fn without_seam(pixels: Seq<Rgb>, width: int, height: int) -> Seq<Rgb> {
    without(
        pixels.subrange(0, width * height),
        seam_positions(energy_map(pixels, width, height), width, height),
    )
}

/// The image that is left after `count` rounds of taking out the chosen seam.
pub open spec fn carved(pixels: Seq<Rgb>, width: int, height: int, count: nat) -> Seq<Rgb>
    decreases count,
{
    if count == 0 {
        pixels.subrange(0, width * height)
    } else {
        carved(without_seam(pixels, width, height), width - 1, height, (count - 1) as nat)
    }
}

/// The energy map is made of the pixels of the image alone.
pub proof fn lemma_energy_map_reads_image_only(
    first: Seq<Rgb>,
    second: Seq<Rgb>,
    width: int,
    height: int,
)
    requires
        width >= 1,
        height >= 1,
        width * height <= first.len(),
        width * height <= second.len(),
        first.subrange(0, width * height) == second.subrange(0, width * height),
    ensures
        energy_map(first, width, height) == energy_map(second, width, height),
{
    assert forall|i: int| 0 <= i < width * height implies pixel_energy(first, width, height, i)
        == pixel_energy(second, width, height, i) by {
        lemma_energy_reads_image_only(first, second, width, height, i);
    }
    assert(energy_map(first, width, height) =~= energy_map(second, width, height));
}

/// Taking out the chosen seam leaves `height` pixels fewer.
pub proof fn lemma_without_seam_len(pixels: Seq<Rgb>, width: int, height: int)
    requires
        width >= 1,
        height >= 1,
        width * height <= pixels.len(),
    ensures
        without_seam(pixels, width, height).len() == (width - 1) * height,
{
    let energy = energy_map(pixels, width, height);
    let removed = seam_positions(energy, width, height);
    assert((width - 1) * height == width * height - height) by (nonlinear_arith);
    lemma_count_removed(pixels.subrange(0, width * height), energy, width, height, height);
    assert(pixels.subrange(0, width * height).subrange(0, height * width) == pixels.subrange(
        0,
        width * height,
    )) by {
        assert(height * width == width * height) by (nonlinear_arith);
    }
    assert(height * width - height == width * height - height) by (nonlinear_arith);
}

/// Among the first `rows` rows of the image exactly `rows` pixels are on the
/// chosen seam.
proof fn lemma_count_removed(
    image: Seq<Rgb>,
    energy: Seq<i32>,
    width: int,
    height: int,
    rows: int,
)
    requires
        width >= 1,
        0 <= rows <= height,
        image.len() == width * height,
    ensures
        rows * width <= image.len(),
        without(image.subrange(0, rows * width), seam_positions(energy, width, height)).len()
            == rows * width - rows,
    decreases rows,
{
    let removed = seam_positions(energy, width, height);
    assert(rows * width <= width * height) by (nonlinear_arith)
        requires
            0 <= rows <= height,
            width >= 1,
    ;
    if rows == 0 {
        assert(0 * width == 0);
        assert(image.subrange(0, 0).len() == 0);
    } else {
        lemma_count_removed(image, energy, width, height, rows - 1);
        assert((rows - 1) * width == rows * width - width) by (nonlinear_arith);
        lemma_seam_col(energy, width, height, rows - 1);
        lemma_count_in_row(image, energy, width, height, rows - 1, width);
    }
}

/// Among the pixels up to column `cols` of row `y` exactly one is on the
/// chosen seam once its column is passed, and none before.
proof fn lemma_count_in_row(
    image: Seq<Rgb>,
    energy: Seq<i32>,
    width: int,
    height: int,
    y: int,
    cols: int,
)
    requires
        width >= 1,
        0 <= y < height,
        0 <= cols <= width,
        image.len() == width * height,
    ensures
        y * width + cols <= image.len(),
        without(image.subrange(0, y * width + cols), seam_positions(energy, width, height)).len()
            == without(image.subrange(0, y * width), seam_positions(energy, width, height)).len()
            + cols - if seam_col(energy, width, height, y) < cols {
            1int
        } else {
            0int
        },
    decreases cols,
{
    let removed = seam_positions(energy, width, height);
    assert(y * width + width <= width * height) by (nonlinear_arith)
        requires
            0 <= y < height,
            width >= 1,
    ;
    lemma_seam_col(energy, width, height, y);
    if cols > 0 {
        lemma_count_in_row(image, energy, width, height, y, cols - 1);
        let p = y * width + cols - 1;
        assert(image.subrange(0, p + 1).drop_last() == image.subrange(0, p));
        assert(image.subrange(0, p + 1).len() - 1 == p);
        lemma_on_seam(energy, width, height, y, cols - 1);
    }
}

/// The pixel in column `x` of row `y` is on the chosen seam exactly when `x`
/// is the seam's column in that row.
proof fn lemma_on_seam(energy: Seq<i32>, width: int, height: int, y: int, x: int)
    requires
        width >= 1,
        0 <= y < height,
        0 <= x < width,
    ensures
        seam_positions(energy, width, height).contains(y * width + x) <==> x == seam_col(
            energy,
            width,
            height,
            y,
        ),
{
    let p = y * width + x;
    if seam_positions(energy, width, height).contains(p) {
        let row = choose|row: int|
            0 <= row < height && #[trigger] seam_pixel(energy, width, height, row) == p;
        lemma_seam_col(energy, width, height, row);
        vstd::arithmetic::div_mod::lemma_fundamental_div_mod_converse(
            p,
            width,
            row,
            seam_col(energy, width, height, row),
        );
        vstd::arithmetic::div_mod::lemma_fundamental_div_mod_converse(p, width, y, x);
    }
    if x == seam_col(energy, width, height, y) {
        assert(seam_pixel(energy, width, height, y) == p);
    }
}

/// Carving reads the pixels of the image alone: buffers that agree on them
/// are carved to the same image.
pub proof fn lemma_carved_reads_image_only(
    first: Seq<Rgb>,
    second: Seq<Rgb>,
    width: int,
    height: int,
    count: nat,
)
    requires
        width >= count + 1,
        height >= 1,
        width * height <= first.len(),
        width * height <= second.len(),
        first.subrange(0, width * height) == second.subrange(0, width * height),
    ensures
        carved(first, width, height, count) == carved(second, width, height, count),
    decreases count,
{
    if count > 0 {
        lemma_energy_map_reads_image_only(first, second, width, height);
        lemma_without_seam_len(first, width, height);
    }
}

/// Every round of carving takes one pixel out of each row.
pub proof fn lemma_carved_len(pixels: Seq<Rgb>, width: int, height: int, count: nat)
    requires
        width >= count + 1,
        height >= 1,
        width * height <= pixels.len(),
    ensures
        carved(pixels, width, height, count).len() == (width - count) * height,
    decreases count,
{
    if count > 0 {
        lemma_without_seam_len(pixels, width, height);
        lemma_carved_len(
            without_seam(pixels, width, height),
            width - 1,
            height,
            (count - 1) as nat,
        );
    }
}

/// Narrows the `width` x `height` image at the start of `pixels` by `count`
/// columns, one cheapest seam at a time, and returns the new width. The
/// narrower image then stands at the start of `pixels`, row by row; what
/// follows it is of no use. The buffer keeps its length, and the carver is
/// reused for every seam.
pub fn reduce_width(
    carver: &mut Carver,
    pixels: &mut [Rgb],
    width: usize,
    height: usize,
    count: usize,
) -> (new_width: usize)
    requires
        old(carver).wf(),
        count + 2 <= width,
        1 <= height <= MAX_SEAM_LENGTH,
        width * height <= old(pixels)@.len(),
        count > 0 ==> width * height + 2 <= old(carver).vertex_capacity(),
    ensures
        new_width == width - count,
        final(carver).wf(),
        final(carver).vertex_capacity() == old(carver).vertex_capacity(),
        final(pixels)@.len() == old(pixels)@.len(),
        new_width * height <= final(pixels)@.len(),
        final(pixels)@.subrange(0, new_width * height) == carved(
            old(pixels)@,
            width as int,
            height as int,
            count as nat,
        ),
{
    let ghost h = height as int;
    let mut current: usize = width;
    let mut done: usize = 0;
    while done < count
        invariant
            carver.wf(),
            carver.vertex_capacity() == old(carver).vertex_capacity(),
            h == height,
            1 <= height <= MAX_SEAM_LENGTH,
            count + 2 <= width,
            done <= count,
            current == width - done,
            pixels@.len() == old(pixels)@.len(),
            current * height <= pixels@.len(),
            count > 0 ==> width * height + 2 <= carver.vertex_capacity(),
            current <= width,
            carved(pixels@, current as int, h, (count - done) as nat) == carved(
                old(pixels)@,
                width as int,
                h,
                count as nat,
            ),
        decreases count - done,
    {
        let ghost w = current as int;
        let ghost before = pixels@;
        assert(current * height <= width * height) by (nonlinear_arith)
            requires
                current <= width,
        ;
        carver.calculate_energy(current, height, pixels);
        let ghost energy = carver.energies();
        let seam = carver.find_seam(current, height);
        proof {
            assert forall|i: int| 0 <= i < w * h implies energy[i] == energy_map(before, w, h)[i] by {
                if !is_border(w, h, i) {
                    lemma_color_gap_bounds(before[i - 1], before[i + 1]);
                    lemma_color_gap_bounds(before[i - w], before[i + w]);
                }
            }
            assert(energy =~= energy_map(before, w, h));
            assert forall|p: int|
                positions(seam@).contains(p) <==> seam_positions(energy, w, h).contains(p) by {
                if positions(seam@).contains(p) {
                    let k = choose|k: int| 0 <= k < seam@.len() && #[trigger] seam@[k] == p;
                    assert(seam_pixel(energy, w, h, k) == p);
                }
                if seam_positions(energy, w, h).contains(p) {
                    let y = choose|y: int| 0 <= y < h && #[trigger] seam_pixel(energy, w, h, y) == p;
                    assert(seam@[y] == p);
                }
            }
            assert(positions(seam@) =~= seam_positions(energy, w, h));
            assert((w - 1) * h == w * h - h) by (nonlinear_arith);
        }
        let image = subset_by_width_and_height(pixels, current, height);
        lazy_remove_indexes_of(image, &seam);
        current -= 1;
        done += 1;
        proof {
            let after = pixels@;
            assert(after.subrange(0, (w - 1) * h) =~= without_seam(before, w, h));
            lemma_without_seam_len(before, w, h);
            assert(without_seam(before, w, h).subrange(0, (w - 1) * h) == without_seam(before, w, h));
            lemma_carved_reads_image_only(
                after,
                without_seam(before, w, h),
                w - 1,
                h,
                (count - done) as nat,
            );
        }
    }
    proof {
        assert((width - count) * height <= width * height) by (nonlinear_arith)
            requires
                count <= width,
                height >= 0,
        ;
    }
    current
}

} // verus!
