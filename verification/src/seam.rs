//! The cheapest seam of an energy map, stated by rows and columns.
//!
//! The pixel grid is read as a graph in which every pixel has an edge to the
//! pixels below it whose column differs by at most one. A seam is a path from
//! the first row to the last; its cost is the sum of the energies on it.

use vstd::prelude::*;

verus! {

/// Longest seam the engine accepts. Up to this height the cost of a path fits
/// the 64-bit accumulator whatever the energies are.
pub const MAX_SEAM_LENGTH: usize = 0x7FFF_FFFF;

/// Least cost of a path that starts anywhere in row 0 and ends in column `x`
/// of row `y`, the energy of both ends included.
pub open spec fn min_cost(energy: Seq<i32>, width: int, y: int, x: int) -> int
    decreases y,
{
    if y <= 0 {
        energy[x] as int
    } else {
        let left = min_cost(energy, width, y - 1, x - 1);
        let mid = min_cost(energy, width, y - 1, x);
        let right = min_cost(energy, width, y - 1, x + 1);
        let first = if x > 0 && left <= mid {
            left
        } else {
            mid
        };
        let best = if x < width - 1 && right < first {
            right
        } else {
            first
        };
        energy[y * width + x] as int + best
    }
}

/// Column in row `y - 1` through which the cheapest path reaches column `x` of
/// row `y`. Where several neighbours above are equally cheap, the leftmost.
pub open spec fn parent_col(energy: Seq<i32>, width: int, y: int, x: int) -> int {
    let first = if x > 0 && min_cost(energy, width, y - 1, x - 1) <= min_cost(
        energy,
        width,
        y - 1,
        x,
    ) {
        x - 1
    } else {
        x
    };
    if x < width - 1 && min_cost(energy, width, y - 1, x + 1) < min_cost(
        energy,
        width,
        y - 1,
        first,
    ) {
        x + 1
    } else {
        first
    }
}

/// Column among the first `n` of row `y` where the cheapest path ends. Where
/// several are equally cheap, the leftmost.
pub open spec fn cheapest_col(energy: Seq<i32>, width: int, y: int, n: int) -> int
    decreases n,
{
    if n <= 1 {
        0
    } else {
        let before = cheapest_col(energy, width, y, n - 1);
        if min_cost(energy, width, y, n - 1) < min_cost(energy, width, y, before) {
            n - 1
        } else {
            before
        }
    }
}

/// Column of the chosen seam in row `y` of a `width` x `height` image: in the
/// last row the cheapest end, and above it the parent of the column chosen
/// one row further down.
pub open spec fn seam_col(energy: Seq<i32>, width: int, height: int, y: int) -> int
    decreases height - y,
{
    if y >= height - 1 {
        cheapest_col(energy, width, height - 1, width)
    } else {
        parent_col(energy, width, y + 1, seam_col(energy, width, height, y + 1))
    }
}

/// Index into the row-major buffer of the chosen seam's pixel in row `y`.
pub open spec fn seam_pixel(energy: Seq<i32>, width: int, height: int, y: int) -> int {
    y * width + seam_col(energy, width, height, y)
}

/// The chosen seam as a sequence of columns, one per row.
pub open spec fn seam_cols(energy: Seq<i32>, width: int, height: int) -> Seq<int> {
    Seq::new(height as nat, |y: int| seam_col(energy, width, height, y))
}

/// Whether `cols` names one column per row such that the columns of
/// neighbouring rows differ by at most one.
pub open spec fn is_seam(cols: Seq<int>, width: int, height: int) -> bool {
    &&& cols.len() == height
    &&& forall|y: int| 0 <= y < height ==> 0 <= #[trigger] cols[y] < width
    &&& forall|y: int| 0 <= y < height - 1 ==> -1 <= cols[y + 1] - #[trigger] cols[y] <= 1
}

/// Sum of the energies along the first `n` rows of the path `cols`.
pub open spec fn path_cost(energy: Seq<i32>, width: int, cols: Seq<int>, n: int) -> int
    decreases n,
{
    if n <= 0 {
        0
    } else {
        path_cost(energy, width, cols, n - 1) + energy[(n - 1) * width + cols[n - 1]] as int
    }
}

/// A path to row `y` costs at most `y + 1` times the largest 32-bit value in
/// either direction.
pub proof fn lemma_min_cost_bounds(energy: Seq<i32>, width: int, y: int, x: int)
    requires
        y >= 0,
    ensures
        -(y + 1) * 0x8000_0000 <= min_cost(energy, width, y, x) <= (y + 1) * 0x8000_0000,
    decreases y,
{
    if y > 0 {
        lemma_min_cost_bounds(energy, width, y - 1, x - 1);
        lemma_min_cost_bounds(energy, width, y - 1, x);
        lemma_min_cost_bounds(energy, width, y - 1, x + 1);
    }
}

/// The parent of a column is one of its neighbours above, no neighbour above
/// is cheaper, and every neighbour above to its left costs strictly more.
pub proof fn lemma_parent_col(energy: Seq<i32>, width: int, y: int, x: int)
    requires
        y >= 1,
        0 <= x < width,
    ensures
        0 <= parent_col(energy, width, y, x) < width,
        x - 1 <= parent_col(energy, width, y, x) <= x + 1,
        min_cost(energy, width, y, x) == energy[y * width + x] + min_cost(
            energy,
            width,
            y - 1,
            parent_col(energy, width, y, x),
        ),
        forall|c: int|
            0 <= c < width && x - 1 <= c <= x + 1 ==> min_cost(
                energy,
                width,
                y - 1,
                parent_col(energy, width, y, x),
            ) <= #[trigger] min_cost(energy, width, y - 1, c),
        forall|c: int|
            0 <= c < parent_col(energy, width, y, x) && x - 1 <= c ==> min_cost(
                energy,
                width,
                y - 1,
                parent_col(energy, width, y, x),
            ) < #[trigger] min_cost(energy, width, y - 1, c),
{
}

/// The cheapest column is one of the first `n`, no column among them is
/// cheaper, and every column to its left costs strictly more.
pub proof fn lemma_cheapest_col(energy: Seq<i32>, width: int, y: int, n: int)
    requires
        n >= 1,
    ensures
        0 <= cheapest_col(energy, width, y, n) < n,
        forall|c: int|
            0 <= c < n ==> min_cost(energy, width, y, cheapest_col(energy, width, y, n))
                <= #[trigger] min_cost(energy, width, y, c),
        forall|c: int|
            0 <= c < cheapest_col(energy, width, y, n) ==> min_cost(
                energy,
                width,
                y,
                cheapest_col(energy, width, y, n),
            ) < #[trigger] min_cost(energy, width, y, c),
    decreases n,
{
    if n > 1 {
        lemma_cheapest_col(energy, width, y, n - 1);
    }
}

/// The chosen seam stays inside the image and moves by at most one column
/// from each row to the next.
pub proof fn lemma_seam_col(energy: Seq<i32>, width: int, height: int, y: int)
    requires
        width >= 1,
        0 <= y < height,
    ensures
        0 <= seam_col(energy, width, height, y) < width,
        y < height - 1 ==> -1 <= seam_col(energy, width, height, y + 1) - seam_col(
            energy,
            width,
            height,
            y,
        ) <= 1,
    decreases height - y,
{
    if y >= height - 1 {
        lemma_cheapest_col(energy, width, height - 1, width);
    } else {
        lemma_seam_col(energy, width, height, y + 1);
        lemma_parent_col(energy, width, y + 1, seam_col(energy, width, height, y + 1));
    }
}

/// The chosen seam is a seam.
pub proof fn lemma_seam_is_valid(energy: Seq<i32>, width: int, height: int)
    requires
        width >= 1,
        height >= 1,
    ensures
        is_seam(seam_cols(energy, width, height), width, height),
{
    let cols = seam_cols(energy, width, height);
    assert forall|y: int| 0 <= y < height implies 0 <= #[trigger] cols[y] < width by {
        lemma_seam_col(energy, width, height, y);
    }
    assert forall|y: int| 0 <= y < height - 1 implies -1 <= cols[y + 1] - #[trigger] cols[y]
        <= 1 by {
        lemma_seam_col(energy, width, height, y);
    }
}

/// Along its first `n` rows the chosen seam costs exactly the least cost of
/// reaching its pixel in row `n - 1`.
pub proof fn lemma_seam_cost(energy: Seq<i32>, width: int, height: int, n: int)
    requires
        width >= 1,
        1 <= n <= height,
    ensures
        path_cost(energy, width, seam_cols(energy, width, height), n) == min_cost(
            energy,
            width,
            n - 1,
            seam_col(energy, width, height, n - 1),
        ),
    decreases n,
{
    let cols = seam_cols(energy, width, height);
    assert(cols[n - 1] == seam_col(energy, width, height, n - 1));
    if n == 1 {
        assert(path_cost(energy, width, cols, 0) == 0);
        assert((n - 1) * width == 0) by (nonlinear_arith)
            requires
                n == 1,
        ;
    } else {
        lemma_seam_cost(energy, width, height, n - 1);
        lemma_seam_col(energy, width, height, n - 1);
        lemma_parent_col(energy, width, n - 1, seam_col(energy, width, height, n - 1));
    }
}

/// No path to row `n - 1` that follows a seam costs less than the least cost
/// of reaching its last pixel.
pub proof fn lemma_path_cost_lower_bound(
    energy: Seq<i32>,
    width: int,
    height: int,
    cols: Seq<int>,
    n: int,
)
    requires
        is_seam(cols, width, height),
        1 <= n <= height,
    ensures
        min_cost(energy, width, n - 1, cols[n - 1]) <= path_cost(energy, width, cols, n),
    decreases n,
{
    if n == 1 {
        assert(path_cost(energy, width, cols, 0) == 0);
        assert((n - 1) * width == 0) by (nonlinear_arith)
            requires
                n == 1,
        ;
    } else {
        lemma_path_cost_lower_bound(energy, width, height, cols, n - 1);
        lemma_parent_col(energy, width, n - 1, cols[n - 1]);
        assert(-1 <= cols[n - 2 + 1] - cols[n - 2] <= 1);
    }
}

/// The chosen seam is a seam, and no seam of the image has a smaller total
/// energy.
pub proof fn lemma_seam_is_cheapest(energy: Seq<i32>, width: int, height: int, other: Seq<int>)
    requires
        width >= 1,
        height >= 1,
        is_seam(other, width, height),
    ensures
        is_seam(seam_cols(energy, width, height), width, height),
        path_cost(energy, width, seam_cols(energy, width, height), height) <= path_cost(
            energy,
            width,
            other,
            height,
        ),
{
    lemma_seam_is_valid(energy, width, height);
    lemma_seam_cost(energy, width, height, height);
    lemma_path_cost_lower_bound(energy, width, height, other, height);
    lemma_cheapest_col(energy, width, height - 1, width);
}

/// Two paths that agree from row `from` up to row `n` collect the same
/// energy on those rows.
proof fn lemma_path_cost_tail(
    energy: Seq<i32>,
    width: int,
    a: Seq<int>,
    b: Seq<int>,
    from: int,
    n: int,
)
    requires
        0 <= from <= n,
        forall|y: int| from <= y < n ==> a[y] == b[y],
    ensures
        path_cost(energy, width, a, n) - path_cost(energy, width, a, from) == path_cost(
            energy,
            width,
            b,
            n,
        ) - path_cost(energy, width, b, from),
    decreases n - from,
{
    if n > from {
        lemma_path_cost_tail(energy, width, a, b, from, n - 1);
    }
}

/// Among the seams of least total energy the chosen one is the leftmost, read
/// from the last row upwards: a seam that costs the same and agrees with the
/// chosen seam below row `y` is not left of it in row `y`.
pub proof fn lemma_seam_is_leftmost(
    energy: Seq<i32>,
    width: int,
    height: int,
    other: Seq<int>,
    y: int,
)
    requires
        width >= 1,
        0 <= y < height,
        is_seam(other, width, height),
        path_cost(energy, width, other, height) == path_cost(
            energy,
            width,
            seam_cols(energy, width, height),
            height,
        ),
        forall|r: int| y < r < height ==> other[r] == seam_col(energy, width, height, r),
    ensures
        seam_col(energy, width, height, y) <= other[y],
{
    let chosen = seam_cols(energy, width, height);
    assert forall|r: int| y + 1 <= r < height implies other[r] == chosen[r] by {}
    lemma_path_cost_tail(energy, width, other, chosen, y + 1, height);
    lemma_seam_cost(energy, width, height, y + 1);
    lemma_path_cost_lower_bound(energy, width, height, other, y + 1);
    assert(0 <= other[y] < width);
    if y == height - 1 {
        lemma_cheapest_col(energy, width, height - 1, width);
    } else {
        lemma_seam_col(energy, width, height, y + 1);
        lemma_parent_col(energy, width, y + 1, seam_col(energy, width, height, y + 1));
        assert(-1 <= other[y + 1] - other[y] <= 1);
    }
}

/// The least cost of reaching a pixel of the image depends on no energy
/// outside the image: energy arrays that agree on the first `width * height`
/// values agree on it.
pub proof fn lemma_min_cost_reads_image_only(
    first: Seq<i32>,
    second: Seq<i32>,
    width: int,
    height: int,
    y: int,
    x: int,
)
    requires
        0 <= y < height,
        0 <= x < width,
        width * height <= first.len(),
        width * height <= second.len(),
        first.subrange(0, width * height) == second.subrange(0, width * height),
    ensures
        min_cost(first, width, y, x) == min_cost(second, width, y, x),
    decreases y,
{
    let n = width * height;
    assert(0 <= y * width + x < n) by (nonlinear_arith)
        requires
            0 <= y < height,
            0 <= x < width,
            n == width * height,
    ;
    assert(first[y * width + x] == first.subrange(0, n)[y * width + x]);
    assert(second[y * width + x] == second.subrange(0, n)[y * width + x]);
    if y > 0 {
        lemma_min_cost_reads_image_only(first, second, width, height, y - 1, x);
        if x > 0 {
            lemma_min_cost_reads_image_only(first, second, width, height, y - 1, x - 1);
        }
        if x < width - 1 {
            lemma_min_cost_reads_image_only(first, second, width, height, y - 1, x + 1);
        }
    } else {
        assert(y * width + x == x) by (nonlinear_arith)
            requires
                y == 0,
        ;
    }
}

/// The chosen seam depends on no energy outside the image.
pub proof fn lemma_seam_reads_image_only(
    first: Seq<i32>,
    second: Seq<i32>,
    width: int,
    height: int,
    y: int,
)
    requires
        width >= 1,
        0 <= y < height,
        width * height <= first.len(),
        width * height <= second.len(),
        first.subrange(0, width * height) == second.subrange(0, width * height),
    ensures
        seam_col(first, width, height, y) == seam_col(second, width, height, y),
        seam_pixel(first, width, height, y) == seam_pixel(second, width, height, y),
    decreases height - y,
{
    if y >= height - 1 {
        lemma_cheapest_col_reads_image_only(first, second, width, height, width);
    } else {
        lemma_seam_reads_image_only(first, second, width, height, y + 1);
        lemma_seam_col(first, width, height, y + 1);
        let below = seam_col(first, width, height, y + 1);
        lemma_min_cost_reads_image_only(first, second, width, height, y, below);
        if below > 0 {
            lemma_min_cost_reads_image_only(first, second, width, height, y, below - 1);
        }
        if below < width - 1 {
            lemma_min_cost_reads_image_only(first, second, width, height, y, below + 1);
        }
    }
}

proof fn lemma_cheapest_col_reads_image_only(
    first: Seq<i32>,
    second: Seq<i32>,
    width: int,
    height: int,
    n: int,
)
    requires
        height >= 1,
        1 <= n <= width,
        width * height <= first.len(),
        width * height <= second.len(),
        first.subrange(0, width * height) == second.subrange(0, width * height),
    ensures
        cheapest_col(first, width, height - 1, n) == cheapest_col(second, width, height - 1, n),
    decreases n,
{
    if n > 1 {
        lemma_cheapest_col_reads_image_only(first, second, width, height, n - 1);
        lemma_cheapest_col(first, width, height - 1, n - 1);
        lemma_min_cost_reads_image_only(first, second, width, height, height - 1, n - 1);
        lemma_min_cost_reads_image_only(
            first,
            second,
            width,
            height,
            height - 1,
            cheapest_col(first, width, height - 1, n - 1),
        );
    }
}

/// The chosen seam as a sequence of buffer indices, one per row.
pub open spec fn seam_pixels(energy: Seq<i32>, width: int, height: int) -> Seq<int> {
    Seq::new(height as nat, |y: int| seam_pixel(energy, width, height, y))
}

/// Whether `pixels` names one buffer index in every row of the image, top row
/// first, such that the columns of neighbouring rows differ by at most one.
pub open spec fn is_pixel_seam(pixels: Seq<int>, width: int, height: int) -> bool {
    &&& pixels.len() == height
    &&& forall|y: int| 0 <= y < height ==> (#[trigger] pixels[y]) / width == y
    &&& forall|y: int|
        0 <= y < height - 1 ==> -1 <= pixels[y + 1] % width - (#[trigger] pixels[y]) % width <= 1
}

/// Sum of the energies of the first `n` of the buffer indices `pixels`.
pub open spec fn energy_along(energy: Seq<i32>, pixels: Seq<int>, n: int) -> int
    decreases n,
{
    if n <= 0 {
        0
    } else {
        energy_along(energy, pixels, n - 1) + energy[pixels[n - 1]] as int
    }
}

/// The columns of a sequence of buffer indices.
pub open spec fn columns_of(pixels: Seq<int>, width: int) -> Seq<int> {
    Seq::new(pixels.len(), |y: int| pixels[y] % width)
}

/// A seam given by buffer indices is a seam by columns, and both ways of
/// adding up its energy agree.
pub proof fn lemma_pixel_seam_columns(
    energy: Seq<i32>,
    width: int,
    height: int,
    pixels: Seq<int>,
    n: int,
)
    requires
        width >= 1,
        0 <= n <= height,
        is_pixel_seam(pixels, width, height),
    ensures
        is_seam(columns_of(pixels, width), width, height),
        forall|y: int|
            0 <= y < height ==> #[trigger] pixels[y] == y * width + columns_of(pixels, width)[y],
        energy_along(energy, pixels, n) == path_cost(energy, width, columns_of(pixels, width), n),
    decreases n,
{
    let cols = columns_of(pixels, width);
    assert forall|y: int| 0 <= y < height implies 0 <= #[trigger] cols[y] < width && pixels[y] == y
        * width + cols[y] by {
        assert(pixels[y] / width == y);
        vstd::arithmetic::div_mod::lemma_fundamental_div_mod(pixels[y], width);
        vstd::arithmetic::div_mod::lemma_mod_bound(pixels[y], width);
        assert(width * y == y * width) by (nonlinear_arith);
    }
    assert forall|y: int| 0 <= y < height - 1 implies -1 <= cols[y + 1] - #[trigger] cols[y]
        <= 1 by {
        assert(-1 <= pixels[y + 1] % width - pixels[y] % width <= 1);
    }
    if n > 0 {
        lemma_pixel_seam_columns(energy, width, height, pixels, n - 1);
        assert(pixels[n - 1] == (n - 1) * width + cols[n - 1]);
    }
}

/// The buffer indices of the chosen seam form a seam, and their columns are
/// the chosen columns.
pub proof fn lemma_seam_pixels(energy: Seq<i32>, width: int, height: int)
    requires
        width >= 1,
        height >= 1,
    ensures
        is_pixel_seam(seam_pixels(energy, width, height), width, height),
        columns_of(seam_pixels(energy, width, height), width) == seam_cols(energy, width, height),
{
    let pixels = seam_pixels(energy, width, height);
    assert forall|y: int| 0 <= y < height implies (#[trigger] pixels[y]) / width == y && pixels[y]
        % width == seam_col(energy, width, height, y) by {
        lemma_seam_col(energy, width, height, y);
        vstd::arithmetic::div_mod::lemma_fundamental_div_mod_converse(
            pixels[y],
            width,
            y,
            seam_col(energy, width, height, y),
        );
    }
    assert forall|y: int| 0 <= y < height - 1 implies -1 <= pixels[y + 1] % width - (
    #[trigger] pixels[y]) % width <= 1 by {
        lemma_seam_col(energy, width, height, y);
        assert(pixels[y + 1] % width == seam_col(energy, width, height, y + 1));
    }
    assert(columns_of(pixels, width) =~= seam_cols(energy, width, height));
}

/// No seam of the image collects less energy than the chosen seam.
pub proof fn lemma_no_seam_is_cheaper(energy: Seq<i32>, width: int, height: int, other: Seq<int>)
    requires
        width >= 1,
        height >= 1,
        is_pixel_seam(other, width, height),
    ensures
        is_pixel_seam(seam_pixels(energy, width, height), width, height),
        energy_along(energy, seam_pixels(energy, width, height), height) <= energy_along(
            energy,
            other,
            height,
        ),
{
    lemma_seam_pixels(energy, width, height);
    lemma_pixel_seam_columns(energy, width, height, other, height);
    lemma_pixel_seam_columns(
        energy,
        width,
        height,
        seam_pixels(energy, width, height),
        height,
    );
    lemma_seam_is_cheapest(energy, width, height, columns_of(other, width));
}

/// Among the seams that collect the least energy the chosen one is the
/// leftmost, read from the last row upwards: where such a seam differs from
/// the chosen seam and agrees with it in every row further down, the chosen
/// seam has the smaller index.
pub proof fn lemma_equal_seam_is_right_of_chosen(
    energy: Seq<i32>,
    width: int,
    height: int,
    other: Seq<int>,
    y: int,
)
    requires
        width >= 1,
        0 <= y < height,
        is_pixel_seam(other, width, height),
        energy_along(energy, other, height) == energy_along(
            energy,
            seam_pixels(energy, width, height),
            height,
        ),
        forall|r: int| y < r < height ==> other[r] == seam_pixel(energy, width, height, r),
        other[y] != seam_pixel(energy, width, height, y),
    ensures
        seam_pixel(energy, width, height, y) < other[y],
{
    let chosen = seam_pixels(energy, width, height);
    lemma_seam_pixels(energy, width, height);
    lemma_pixel_seam_columns(energy, width, height, other, height);
    lemma_pixel_seam_columns(energy, width, height, chosen, height);
    let cols = columns_of(other, width);
    assert forall|r: int| y < r < height implies cols[r] == seam_col(
        energy,
        width,
        height,
        r,
    ) by {
        assert(other[r] == r * width + cols[r]);
    }
    lemma_seam_is_leftmost(energy, width, height, cols, y);
    assert(other[y] == y * width + cols[y]);
}

} // verus!
