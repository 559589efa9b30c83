//! The carving engine: scratch space that is set up once for the largest
//! image and reused for every seam.

use vstd::prelude::*;
use vstd::arithmetic::div_mod::lemma_fundamental_div_mod_converse;
use crate::compaction::strictly_increasing;
use crate::energy::{color_gap_of, is_border, lemma_interior_neighbors, pixel_energy};
pub use crate::energy::{Rgb, MAX_PIXEL_ENERGY};
use crate::relaxation::{
    has_edge, lemma_partial_parent_done, lemma_relax_reaches, partial_cost, partial_parent,
    relaxed_dist, relaxed_prev, row_costs, vertex_cost, vertex_parent,
};
use crate::seam::{
    cheapest_col, lemma_cheapest_col, lemma_min_cost_bounds, lemma_parent_col, lemma_seam_col,
    min_cost, parent_col, seam_col, seam_pixel, MAX_SEAM_LENGTH,
};

verus! {

/// The energy array once it covers `len` pixels: as it is where it is long
/// enough, and else with a zero for every pixel it lacks, which is what a new
/// carver holds for every pixel.
pub open spec fn zero_extended(energy: Seq<i32>, len: int) -> Seq<i32> {
    if energy.len() >= len {
        energy
    } else {
        energy + Seq::new((len - energy.len()) as nat, |i: int| 0i32)
    }
}

/// To avoid repeated allocations, one carver is created and reused for every
/// seam of the same image.
pub struct Carver {
    /// Energy of each pixel, row by row.
    pub energy: Vec<i32>,
    dist_to: Vec<i64>,
    prev_vertex: Vec<usize>,
}

impl Carver {
    /// The two scratch arrays are equally long, and long enough for one vertex
    /// per value of the energy array and the virtual source and destination.
    pub closed spec fn wf(&self) -> bool {
        &&& self.dist_to@.len() == self.prev_vertex@.len()
        &&& self.energy@.len() + 2 <= self.dist_to@.len()
    }

    /// The energy array as a sequence, one value per pixel, row by row.
    pub closed spec fn energies(&self) -> Seq<i32> {
        self.energy@
    }

    /// Number of vertices the scratch arrays were set up for.
    pub closed spec fn vertex_capacity(&self) -> nat {
        self.dist_to@.len()
    }

    /// The energy array never holds more values than the carver was set up
    /// for.
    pub proof fn lemma_energy_within_capacity(&self)
        requires
            self.wf(),
        ensures
            self.energies().len() + 2 <= self.vertex_capacity(),
    {
    }

    /// Sets up a carver for images of up to `num_pixels` pixels.
    pub fn new(num_pixels: usize) -> (carver: Carver)
        requires
            num_pixels + 2 <= usize::MAX,
        ensures
            carver.wf(),
            carver.vertex_capacity() == num_pixels + 2,
            carver.energies() == Seq::new(num_pixels as nat, |i: int| 0i32),
    {
        let vertex_count: usize = num_pixels + 2;
        let carver = Carver {
            energy: vec![0i32; num_pixels],
            dist_to: vec![i64::MAX; vertex_count],
            prev_vertex: vec![0usize; vertex_count],
        };
        assert(carver.energy@ =~= Seq::new(num_pixels as nat, |i: int| 0i32));
        carver
    }

    /// Tells whether the carver was set up for images of `width` x `height`
    /// pixels.
    pub fn fits(&self, width: usize, height: usize) -> (fits: bool)
        ensures
            fits == (width * height + 2 <= self.vertex_capacity()),
    {
        assert(self.dist_to.len() == self.dist_to@.len());
        match width.checked_mul(height) {
            Some(num_pixels) => num_pixels <= usize::MAX - 2 && num_pixels + 2
                <= self.dist_to.len(),
            None => false,
        }
    }

    /// Demands that the carver was set up for images of `width` x `height`
    /// pixels. Nothing is left to do at run time: whoever calls this has
    /// shown that the image fits. To find out whether it does, call
    /// [`Carver::fits`].
    pub fn assert_capacity_matches_image_dimensions(&self, width: usize, height: usize)
        requires
            width * height + 2 <= self.vertex_capacity(),
    {
    }

    /// The energy of each pixel, row by row.
    pub fn energy_map(&self) -> (map: &Vec<i32>)
        ensures
            map@ == self.energies(),
    {
        &self.energy
    }

    /// Replaces the energy map by `energy`, one value per pixel, row by row.
    /// The values are copied into the carver's own array.
    pub fn set_energy_map(&mut self, energy: &[i32])
        requires
            old(self).wf(),
            energy@.len() + 2 <= old(self).vertex_capacity(),
        ensures
            final(self).wf(),
            final(self).vertex_capacity() == old(self).vertex_capacity(),
            final(self).energies() == energy@,
    {
        let len: usize = energy.len();
        self.energy.resize(len, 0i32);
        let mut i: usize = 0;
        while i < len
            invariant
                self.wf(),
                self.vertex_capacity() == old(self).vertex_capacity(),
                len == energy@.len(),
                self.energy@.len() == len,
                i <= len,
                forall|j: int| 0 <= j < i ==> #[trigger] self.energy@[j] == energy@[j],
            decreases len - i,
        {
            let value: i32 = energy[i];
            self.energy[i] = value;
            i += 1;
        }
        assert(self.energy@ =~= energy@);
    }

    /// Scores every pixel of a `width` x `height` image. Afterwards the energy
    /// array holds exactly one value per pixel of the image. The image may be
    /// smaller or larger than the one before it, up to the size the carver was
    /// set up for.
    pub fn calculate_energy(&mut self, width: usize, height: usize, pixels: &[Rgb])
        requires
            old(self).wf(),
            width >= 3,
            height >= 1,
            width * height + 2 <= old(self).vertex_capacity(),
            width * height <= pixels@.len(),
        ensures
            final(self).wf(),
            final(self).vertex_capacity() == old(self).vertex_capacity(),
            final(self).energies().len() == width * height,
            forall|i: int|
                0 <= i < width * height ==> #[trigger] final(self).energies()[i] == pixel_energy(
                    pixels@,
                    width as int,
                    height as int,
                    i,
                ),
            forall|i: int|
                0 <= i < width * height && is_border(width as int, height as int, i)
                    ==> #[trigger] final(self).energies()[i] == MAX_PIXEL_ENERGY,
    {
        assert(self.dist_to.len() == self.dist_to@.len());
        self.assert_capacity_matches_image_dimensions(width, height);
        let num_pixels: usize = width * height;
        self.energy.resize(num_pixels, 0i32);
        assert(height * width == width * height) by (nonlinear_arith);
        let mut y: usize = 0;
        let mut i: usize = 0;
        while y < height
            invariant
                self.wf(),
                self.vertex_capacity() == old(self).vertex_capacity(),
                self.energy@.len() == num_pixels,
                num_pixels == height * width,
                num_pixels <= pixels@.len(),
                width >= 3,
                y <= height,
                i == y * width,
                forall|j: int|
                    0 <= j < i ==> #[trigger] self.energy@[j] == pixel_energy(
                        pixels@,
                        width as int,
                        height as int,
                        j,
                    ),
            decreases height - y,
        {
            assert((y + 1) * width == y * width + width) by (nonlinear_arith);
            assert((y + 1) * width <= height * width) by (nonlinear_arith)
                requires
                    y + 1 <= height,
            ;
            let mut x: usize = 0;
            while x < width
                invariant
                    self.wf(),
                    self.vertex_capacity() == old(self).vertex_capacity(),
                    self.energy@.len() == num_pixels,
                    num_pixels == height * width,
                    num_pixels == width * height,
                    num_pixels <= pixels@.len(),
                    width >= 3,
                    y < height,
                    x <= width,
                    i == y * width + x,
                    y * width + width <= num_pixels,
                    forall|j: int|
                        0 <= j < i ==> #[trigger] self.energy@[j] == pixel_energy(
                            pixels@,
                            width as int,
                            height as int,
                            j,
                        ),
                decreases width - x,
            {
                proof {
                    vstd::arithmetic::div_mod::lemma_fundamental_div_mod_converse(
                        i as int,
                        width as int,
                        y as int,
                        x as int,
                    );
                }
                let value: i32 = if x == 0 || x == width - 1 || y == 0 || y == height - 1 {
                    MAX_PIXEL_ENERGY
                } else {
                    proof {
                        lemma_interior_neighbors(width as int, height as int, i as int);
                    }
                    color_gap_of(&pixels[i - 1], &pixels[i + 1]) + color_gap_of(
                        &pixels[i - width],
                        &pixels[i + width],
                    )
                };
                self.energy[i] = value;
                x += 1;
                i += 1;
            }
            y += 1;
        }
    }

    /// Relaxes the edge between two pixels: where the path through
    /// `from_pixel` is strictly shorter than what is recorded for `to_pixel`,
    /// it is recorded in its place.
    fn relax_edge(&mut self, from_pixel: usize, to_pixel: usize)
        requires
            old(self).dist_to@.len() == old(self).prev_vertex@.len(),
            from_pixel < old(self).dist_to@.len(),
            to_pixel < old(self).dist_to@.len(),
            to_pixel < old(self).energy@.len(),
            i64::MIN <= old(self).dist_to@[from_pixel as int] + old(self).energy@[to_pixel as int]
                <= i64::MAX,
        ensures
            final(self).energy@ == old(self).energy@,
            final(self).dist_to@ == relaxed_dist(
                old(self).dist_to@,
                old(self).energy@,
                from_pixel as int,
                to_pixel as int,
            ),
            final(self).prev_vertex@ == relaxed_prev(
                old(self).dist_to@,
                old(self).prev_vertex@,
                old(self).energy@,
                from_pixel,
                to_pixel as int,
            ),
    {
        let through: i64 = self.dist_to[from_pixel] + self.energy[to_pixel] as i64;
        if self.dist_to[to_pixel] > through {
            self.dist_to[to_pixel] = through;
            self.prev_vertex[to_pixel] = from_pixel;
        }
    }

    /// Relaxes every edge that leaves `pixel`, which stands in column `x` of a
    /// row above the last.
    fn relax_edges_of(&mut self, pixel: usize, x: usize, width: usize)
        requires
            old(self).dist_to@.len() == old(self).prev_vertex@.len(),
            x < width,
            pixel + width + 1 < old(self).dist_to@.len(),
            pixel + width < old(self).energy@.len(),
            x + 1 < width ==> pixel + width + 1 < old(self).energy@.len(),
            -0x4000_0000_0000_0000 <= old(self).dist_to@[pixel as int] <= 0x4000_0000_0000_0000,
        ensures
            final(self).energy@ == old(self).energy@,
            final(self).dist_to@.len() == old(self).dist_to@.len(),
            final(self).prev_vertex@.len() == old(self).prev_vertex@.len(),
            forall|p: int|
                0 <= p < old(self).dist_to@.len() ==> #[trigger] final(self).dist_to@[p] == (if has_edge(
                    pixel as int,
                    x as int,
                    width as int,
                    p,
                ) && old(self).dist_to@[p] > old(self).dist_to@[pixel as int] + old(self).energy@[p] {
                    (old(self).dist_to@[pixel as int] + old(self).energy@[p]) as i64
                } else {
                    old(self).dist_to@[p]
                }),
            forall|p: int|
                0 <= p < old(self).dist_to@.len() ==> #[trigger] final(self).prev_vertex@[p] == (if has_edge(
                    pixel as int,
                    x as int,
                    width as int,
                    p,
                ) && old(self).dist_to@[p] > old(self).dist_to@[pixel as int] + old(self).energy@[p] {
                    pixel
                } else {
                    old(self).prev_vertex@[p]
                }),
    {
        assert(self.dist_to.len() == self.dist_to@.len());
        if x > 0 {
            self.relax_edge(pixel, pixel + width - 1);
        }
        self.relax_edge(pixel, pixel + width);
        if x + 1 < width {
            self.relax_edge(pixel, pixel + width + 1);
        }
    }

    /// Finds the seam of least total energy in the `width` x `height` image
    /// whose energies the energy array holds, and returns the index of its
    /// pixel in each row, top row first. A pixel for which the array holds no
    /// energy counts as zero. Among equally cheap seams it returns
    /// the one that ends leftmost and, from there upwards, takes the leftmost
    /// cheapest neighbour in each row.
    pub fn find_seam(&mut self, width: usize, height: usize) -> (seam: Vec<usize>)
        requires
            old(self).wf(),
            width >= 1,
            height >= 1,
            height <= MAX_SEAM_LENGTH,
            width * height + 2 <= old(self).vertex_capacity(),
        ensures
            final(self).wf(),
            final(self).vertex_capacity() == old(self).vertex_capacity(),
            final(self).energies() == zero_extended(old(self).energies(), width * height),
            seam@.len() == height,
            forall|y: int|
                0 <= y < height ==> #[trigger] seam@[y] == seam_pixel(
                    final(self).energies(),
                    width as int,
                    height as int,
                    y,
                ),
            forall|y: int| 0 <= y < height ==> (#[trigger] seam@[y]) / width == y,
            forall|y: int|
                0 <= y < height - 1 ==> -1 <= seam@[y + 1] % width - (#[trigger] seam@[y]) % width
                    <= 1,
            forall|y: int| 0 <= y < height ==> #[trigger] seam@[y] < width * height,
            strictly_increasing(seam@),
    {
        assert(self.dist_to.len() == self.dist_to@.len());
        self.assert_capacity_matches_image_dimensions(width, height);
        let num_pixels: usize = width * height;
        let fake_src: usize = num_pixels;
        let fake_dest: usize = num_pixels + 1;
        if self.energy.len() < num_pixels {
            self.energy.resize(num_pixels, 0i32);
            assert(self.energy@ =~= zero_extended(old(self).energy@, num_pixels as int));
        }
        let ghost e = self.energy@;
        let ghost w = width as int;
        let ghost h = height as int;
        assert(height * width == width * height) by (nonlinear_arith);
        assert(width <= width * height) by (nonlinear_arith)
            requires
                height >= 1,
        ;

        // Nothing is reached yet.
        let vertices: usize = num_pixels + 2;
        let mut i: usize = 0;
        while i < vertices
            invariant
                vertices == num_pixels + 2,
                self.energy@ == e,
                self.dist_to@.len() == old(self).dist_to@.len(),
                self.prev_vertex@.len() == self.dist_to@.len(),
                e.len() + 2 <= self.dist_to@.len(),
                num_pixels <= e.len(),
                i <= vertices,
                forall|p: int| 0 <= p < i ==> #[trigger] self.dist_to@[p] == i64::MAX,
            decreases vertices - i,
        {
            self.dist_to[i] = i64::MAX;
            self.prev_vertex[i] = 0;
            i += 1;
        }

        // The virtual source has an edge to every pixel of the first row.
        let mut pixel: usize = 0;
        while pixel < width
            invariant
                self.energy@ == e,
                self.dist_to@.len() == old(self).dist_to@.len(),
                self.prev_vertex@.len() == self.dist_to@.len(),
                e.len() + 2 <= self.dist_to@.len(),
                w == width,
                pixel <= width <= num_pixels <= e.len(),
                forall|p: int|
                    0 <= p < pixel ==> #[trigger] self.dist_to@[p] == vertex_cost(e, w, p),
                forall|p: int|
                    pixel <= p < num_pixels + 2 ==> #[trigger] self.dist_to@[p] == i64::MAX,
            decreases width - pixel,
        {
            proof {
                lemma_fundamental_div_mod_converse(pixel as int, w, 0, pixel as int);
            }
            let cost: i64 = self.energy[pixel] as i64;
            self.dist_to[pixel] = cost;
            self.prev_vertex[pixel] = fake_src;
            pixel += 1;
        }

        // Every pixel above the last row has an edge to the pixel below it
        // and to the pixels left and right of that one.
        let mut y: usize = 0;
        let mut height_offset: usize = 0;
        while y + 1 < height
            invariant
                self.energy@ == e,
                self.dist_to@.len() == old(self).dist_to@.len(),
                self.prev_vertex@.len() == self.dist_to@.len(),
                e.len() + 2 <= self.dist_to@.len(),
                w == width,
                h == height,
                1 <= width,
                height <= MAX_SEAM_LENGTH,
                num_pixels == height * width,
                num_pixels <= e.len(),
                y < height,
                height_offset == y * width,
                height_offset + width <= num_pixels,
                forall|p: int|
                    0 <= p < height_offset + width ==> #[trigger] self.dist_to@[p] == vertex_cost(
                        e,
                        w,
                        p,
                    ),
                forall|p: int|
                    w <= p < height_offset + width ==> #[trigger] self.prev_vertex@[p]
                        == vertex_parent(e, w, p),
                forall|p: int|
                    height_offset + width <= p < num_pixels + 2 ==> #[trigger] self.dist_to@[p]
                        == i64::MAX,
            decreases height - y,
        {
            assert((y + 1) * width == y * width + width) by (nonlinear_arith);
            assert((y + 2) * width == y * width + width + width) by (nonlinear_arith);
            assert((y + 2) * width <= height * width) by (nonlinear_arith)
                requires
                    y + 2 <= height,
            ;
            let ghost below = height_offset + width;
            let ghost above = row_costs(e, w, y as int);
            let ghost dist_before = self.dist_to@;
            let ghost prev_before = self.prev_vertex@;
            proof {
                assert forall|c: int| 0 <= c < w implies -0x4000_0000_0000_0000 <= #[trigger] above[c]
                    <= 0x4000_0000_0000_0000 && dist_before[height_offset + c] == above[c] by {
                    lemma_min_cost_bounds(e, w, y as int, c);
                    lemma_fundamental_div_mod_converse(height_offset + c, w, y as int, c);
                }
            }
            let mut x: usize = 0;
            while x < width
                invariant
                    self.energy@ == e,
                    self.dist_to@.len() == dist_before.len(),
                    self.prev_vertex@.len() == self.dist_to@.len(),
                    prev_before.len() == dist_before.len(),
                    e.len() + 2 <= self.dist_to@.len(),
                    w == width,
                    1 <= width,
                    num_pixels <= e.len(),
                    x <= width,
                    below == height_offset + width,
                    below + width <= num_pixels,
                    above.len() == w,
                    forall|c: int|
                        0 <= c < w ==> -0x4000_0000_0000_0000 <= #[trigger] above[c]
                            <= 0x4000_0000_0000_0000,
                    forall|p: int|
                        0 <= p < below ==> #[trigger] self.dist_to@[p] == dist_before[p],
                    forall|p: int|
                        0 <= p < below ==> #[trigger] self.prev_vertex@[p] == prev_before[p],
                    forall|p: int|
                        below + w <= p < self.dist_to@.len() ==> #[trigger] self.dist_to@[p]
                            == dist_before[p],
                    forall|p: int|
                        height_offset <= p < below ==> #[trigger] dist_before[p] == above[p
                            - height_offset],
                    forall|p: int|
                        below <= p < below + w ==> #[trigger] self.dist_to@[p] == partial_cost(
                            above,
                            e,
                            below as int,
                            p - below,
                            x as int,
                        ),
                    forall|p: int|
                        below <= p < below + w && partial_parent(above, p - below, x as int) >= 0
                            ==> #[trigger] self.prev_vertex@[p] == height_offset + partial_parent(
                            above,
                            p - below,
                            x as int,
                        ),
                decreases width - x,
            {
                let pixel: usize = height_offset + x;
                let ghost dist_start = self.dist_to@;
                let ghost prev_start = self.prev_vertex@;
                assert(dist_start[pixel as int] == above[x as int]);
                self.relax_edges_of(pixel, x, width);
                proof {
                    assert forall|p: int| below <= p < below + w implies #[trigger] self.dist_to@[p]
                        == partial_cost(above, e, below as int, p - below, x + 1) && (
                    partial_parent(above, p - below, x + 1) >= 0 ==> self.prev_vertex@[p]
                        == height_offset + partial_parent(above, p - below, x + 1)) by {
                        let c = p - below;
                        assert(dist_start[p] == partial_cost(above, e, below as int, c, x as int));
                        if x - 1 <= c <= x + 1 {
                            assert(has_edge(pixel as int, x as int, w, p));
                            lemma_relax_reaches(above, e, below as int, c, x as int, dist_start[p] as int);
                        } else {
                            assert(!has_edge(pixel as int, x as int, w, p));
                        }
                    }
                }
                x += 1;
            }
            proof {
                assert forall|p: int| below <= p < below + w implies #[trigger] self.dist_to@[p]
                    == vertex_cost(e, w, p) by {
                    let c = p - below;
                    lemma_fundamental_div_mod_converse(p, w, y + 1, c);
                    lemma_partial_parent_done(e, w, y + 1, c);
                    lemma_parent_col(e, w, y + 1, c);
                    assert(above[parent_col(e, w, y + 1, c)] == min_cost(
                        e,
                        w,
                        y as int,
                        parent_col(e, w, y + 1, c),
                    ));
                }
                assert forall|p: int| below <= p < below + w implies #[trigger] self.prev_vertex@[p]
                    == vertex_parent(e, w, p) by {
                    let c = p - below;
                    lemma_fundamental_div_mod_converse(p, w, y + 1, c);
                    lemma_partial_parent_done(e, w, y + 1, c);
                    assert((y + 1 - 1) * w == height_offset);
                }
            }
            y += 1;
            height_offset += width;
        }

        // Every pixel of the last row has an edge of no cost to the virtual
        // destination.
        let last_row: usize = num_pixels - width;
        assert(last_row == (h - 1) * w) by (nonlinear_arith)
            requires
                last_row == h * w - w,
        ;
        let mut x: usize = 0;
        while x < width
            invariant
                self.energy@ == e,
                self.dist_to@.len() == old(self).dist_to@.len(),
                self.prev_vertex@.len() == self.dist_to@.len(),
                e.len() + 2 <= self.dist_to@.len(),
                w == width,
                h == height,
                1 <= height <= MAX_SEAM_LENGTH,
                num_pixels == height * width,
                num_pixels <= e.len(),
                fake_dest == num_pixels + 1,
                last_row + width == num_pixels,
                last_row == (h - 1) * w,
                x <= width,
                x == 0 ==> self.dist_to@[fake_dest as int] == i64::MAX,
                x > 0 ==> self.prev_vertex@[fake_dest as int] == last_row + cheapest_col(
                    e,
                    w,
                    h - 1,
                    x as int,
                ),
                x > 0 ==> self.dist_to@[fake_dest as int] == min_cost(
                    e,
                    w,
                    h - 1,
                    cheapest_col(e, w, h - 1, x as int),
                ),
                forall|p: int|
                    0 <= p < num_pixels ==> #[trigger] self.dist_to@[p] == vertex_cost(e, w, p),
                forall|p: int|
                    w <= p < num_pixels ==> #[trigger] self.prev_vertex@[p] == vertex_parent(
                        e,
                        w,
                        p,
                    ),
            decreases width - x,
        {
            let pixel: usize = last_row + x;
            proof {
                lemma_fundamental_div_mod_converse(pixel as int, w, h - 1, x as int);
                lemma_min_cost_bounds(e, w, h - 1, x as int);
            }
            if self.dist_to[fake_dest] > self.dist_to[pixel] {
                let cost: i64 = self.dist_to[pixel];
                self.dist_to[fake_dest] = cost;
                self.prev_vertex[fake_dest] = pixel;
            }
            x += 1;
        }
        proof {
            lemma_cheapest_col(e, w, h - 1, w);
        }

        // Walk back from the virtual destination, filling the seam from its
        // last row upwards.
        let mut seam: Vec<usize> = vec![0usize; height];
        let mut curr: usize = self.prev_vertex[fake_dest];
        let mut y: usize = height;
        while y > 0
            invariant
                self.energy@ == e,
                self.dist_to@.len() == old(self).dist_to@.len(),
                self.prev_vertex@.len() == self.dist_to@.len(),
                e.len() + 2 <= self.dist_to@.len(),
                w == width,
                h == height,
                1 <= width,
                num_pixels == height * width,
                num_pixels <= e.len(),
                y <= height,
                seam@.len() == height,
                y > 0 ==> curr == seam_pixel(e, w, h, y - 1),
                forall|k: int| y <= k < height ==> #[trigger] seam@[k] == seam_pixel(e, w, h, k),
                forall|p: int|
                    w <= p < num_pixels ==> #[trigger] self.prev_vertex@[p] == vertex_parent(
                        e,
                        w,
                        p,
                    ),
            decreases y,
        {
            y -= 1;
            seam[y] = curr;
            if y > 0 {
                proof {
                    lemma_seam_col(e, w, h, y as int);
                    lemma_seam_col(e, w, h, y - 1);
                    lemma_fundamental_div_mod_converse(
                        curr as int,
                        w,
                        y as int,
                        seam_col(e, w, h, y as int),
                    );
                    assert(y * w >= w) by (nonlinear_arith)
                        requires
                            y >= 1,
                            w >= 1,
                    ;
                    assert(y * w + w <= h * w) by (nonlinear_arith)
                        requires
                            y + 1 <= h,
                            w >= 1,
                    ;
                }
                curr = self.prev_vertex[curr];
            }
        }
        proof {
            assert forall|k: int| 0 <= k < height implies (#[trigger] seam@[k]) / width == k
                && seam@[k] % width == seam_col(e, w, h, k) by {
                lemma_seam_col(e, w, h, k);
                lemma_fundamental_div_mod_converse(seam@[k] as int, w, k, seam_col(e, w, h, k));
            }
            assert forall|k: int| 0 <= k < height - 1 implies -1 <= seam@[k + 1] % width - (
            #[trigger] seam@[k]) % width <= 1 by {
                lemma_seam_col(e, w, h, k);
                assert(seam@[k + 1] % width == seam_col(e, w, h, k + 1));
            }
            assert forall|k: int| 0 <= k < height implies k * w <= #[trigger] seam@[k] < k * w + w by {
                lemma_seam_col(e, w, h, k);
            }
            assert forall|k: int| 0 <= k < height implies #[trigger] seam@[k] < width * height by {
                assert(k * w + w <= w * h) by (nonlinear_arith)
                    requires
                        k + 1 <= h,
                        w >= 0,
                ;
            }
            assert forall|i: int, j: int| 0 <= i < j < seam@.len() implies seam@[i] < seam@[j] by {
                assert(i * w + w <= j * w) by (nonlinear_arith)
                    requires
                        i + 1 <= j,
                        w >= 0,
                ;
            }
        }
        seam
    }
}

} // verus!
