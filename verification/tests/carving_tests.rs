use seam_carving::carving::{Carver, Rgb, MAX_PIXEL_ENERGY};
use seam_carving::energy::color_gap_of;
use seam_carving::seam::MAX_SEAM_LENGTH;

fn rgb(r: u8, g: u8, b: u8) -> Rgb {
    Rgb { r: r, g: g, b: b }
}

/// Cost of the cheapest seam, by trying every seam.
fn cheapest_by_search(energy: &Vec<i32>, width: usize, height: usize) -> i64 {
    fn walk(energy: &Vec<i32>, width: usize, height: usize, y: usize, x: usize) -> i64 {
        let here = energy[y * width + x] as i64;
        if y + 1 == height {
            return here;
        }
        let mut best = walk(energy, width, height, y + 1, x);
        if x > 0 {
            best = best.min(walk(energy, width, height, y + 1, x - 1));
        }
        if x + 1 < width {
            best = best.min(walk(energy, width, height, y + 1, x + 1));
        }
        here + best
    }
    let mut best = walk(energy, width, height, 0, 0);
    for x in 1..width {
        best = best.min(walk(energy, width, height, 0, x));
    }
    best
}

fn seam_cost(energy: &Vec<i32>, seam: &Vec<usize>) -> i64 {
    seam.iter().map(|&p| energy[p] as i64).sum()
}

fn assert_is_seam(seam: &Vec<usize>, width: usize, height: usize) {
    assert_eq!(seam.len(), height);
    for y in 0..height {
        assert_eq!(seam[y] / width, y);
    }
    for y in 1..height {
        let above = (seam[y - 1] % width) as i64;
        let below = (seam[y] % width) as i64;
        assert!((above - below).abs() <= 1);
    }
}

#[test]
fn calculates_energy_as_given_in_example_in_spec() {
    let mut carver = Carver::new(3 * 4);
    carver.calculate_energy(3, 4, &vec!(
        rgb(255, 101, 51), rgb(255, 101, 153), rgb(255, 101, 255),
        rgb(255, 153, 51), rgb(255, 153, 153), rgb(255, 153, 255),
        rgb(255, 203, 51), rgb(255, 204, 153), rgb(255, 205, 255),
        rgb(255, 255, 51), rgb(255, 255, 153), rgb(255, 255, 255),
    )[..]);

    assert_eq!(carver.energy, vec!(
        MAX_PIXEL_ENERGY, MAX_PIXEL_ENERGY, MAX_PIXEL_ENERGY,
        MAX_PIXEL_ENERGY, 52225,            MAX_PIXEL_ENERGY,
        MAX_PIXEL_ENERGY, 52024,            MAX_PIXEL_ENERGY,
        MAX_PIXEL_ENERGY, MAX_PIXEL_ENERGY, MAX_PIXEL_ENERGY,
    ));
}

#[test]
fn finds_seam_as_given_in_example_in_spec() {
    let img_width = 6;
    let img_height = 5;
    let mut carver = Carver::new(img_width * img_height);
    carver.energy = vec!(
        MAX_PIXEL_ENERGY, MAX_PIXEL_ENERGY, MAX_PIXEL_ENERGY, MAX_PIXEL_ENERGY, MAX_PIXEL_ENERGY, MAX_PIXEL_ENERGY,
        MAX_PIXEL_ENERGY, 23346,            51304,            31519,            55112,            MAX_PIXEL_ENERGY,
        MAX_PIXEL_ENERGY, 47908,            61346,            35919,            38887,            MAX_PIXEL_ENERGY,
        MAX_PIXEL_ENERGY, 31400,            37927,            14437,            63076,            MAX_PIXEL_ENERGY,
        MAX_PIXEL_ENERGY, MAX_PIXEL_ENERGY, MAX_PIXEL_ENERGY, MAX_PIXEL_ENERGY, MAX_PIXEL_ENERGY, MAX_PIXEL_ENERGY,
    );

    let seam = carver.find_seam(img_width, img_height);

    // expecting a seam of MAX_PIXEL_ENERGY, 31519, 35919, 14437, MAX_PIXEL_ENERGY in the following pattern:
    // --  --  2   --  --  --
    // --  --  --  9   --  --
    // --  --  --  15  --  --
    // --  --  --  21  --  --
    // --  --  26  --  --  --
    assert_eq!(seam, vec!(2, 9, 15, 21, 26));
}

#[test]
fn max_pixel_energy_is_three_full_channel_gaps() {
    assert_eq!(MAX_PIXEL_ENERGY, 195075);
    assert_eq!(color_gap_of(&rgb(0, 0, 0), &rgb(255, 255, 255)), 195075);
    assert_eq!(color_gap_of(&rgb(10, 20, 30), &rgb(13, 16, 30)), 9 + 16);
    assert_eq!(color_gap_of(&rgb(7, 7, 7), &rgb(7, 7, 7)), 0);
}

#[test]
fn new_carver_holds_one_zero_per_pixel() {
    let carver = Carver::new(7);
    assert_eq!(carver.energy, vec![0; 7]);
    let empty = Carver::new(0);
    assert!(empty.energy.is_empty());
}

#[test]
fn fits_compares_the_pixel_count_with_what_was_reserved() {
    let carver = Carver::new(12);
    assert!(carver.fits(3, 4));
    assert!(carver.fits(2, 5));
    assert!(carver.fits(0, 100));
    assert!(!carver.fits(13, 1));
    assert!(!carver.fits(4, 4));
    assert!(!carver.fits(usize::MAX, 2));
    assert!(!carver.fits(usize::MAX, 1));
    carver.assert_capacity_matches_image_dimensions(3, 4);
    carver.assert_capacity_matches_image_dimensions(1, 1);
}

#[test]
fn capacity_stays_what_it_was_made_with() {
    let m = MAX_PIXEL_ENERGY;
    let mut carver = Carver::new(12);
    carver.calculate_energy(3, 3, &vec![rgb(0, 0, 0); 9][..]);
    assert_eq!(carver.energy, vec![m, m, m, m, 0, m, m, m, m]);
    assert!(carver.fits(3, 4));
    carver.calculate_energy(3, 4, &vec![rgb(0, 0, 0); 12][..]);
    assert_eq!(carver.energy, vec![m, m, m, m, 0, m, m, 0, m, m, m, m]);
    assert_eq!(carver.find_seam(3, 4), vec![0, 4, 7, 9]);
    carver.set_energy_map(&vec![1, 1]);
    assert!(carver.fits(4, 3));
    assert_eq!(carver.find_seam(2, 1), vec![0]);
}

#[test]
fn energy_map_can_be_read_and_replaced() {
    let mut carver = Carver::new(6);
    assert_eq!(carver.energy_map(), &vec![0; 6]);
    carver.set_energy_map(&vec![7, 8, 9]);
    assert_eq!(carver.energy_map(), &vec![7, 8, 9]);
    assert_eq!(carver.energy, vec![7, 8, 9]);
    carver.set_energy_map(&vec![1, 2, 3, 4, 5, 6]);
    assert_eq!(carver.energy_map(), &vec![1, 2, 3, 4, 5, 6]);
    carver.set_energy_map(&Vec::new());
    assert!(carver.energy_map().is_empty());
}

#[test]
fn pixels_without_energy_count_as_zero() {
    let mut carver = Carver::new(6);
    carver.set_energy_map(&vec![5, 5, 1, 9]);
    // 3 x 2: the second row is 9, 0, 0
    assert_eq!(carver.find_seam(3, 2), vec![2, 4]);
    assert_eq!(carver.energy_map(), &vec![5, 5, 1, 9, 0, 0]);
    let mut fresh = Carver::new(6);
    assert_eq!(fresh.find_seam(3, 2), vec![0, 3]);
}

#[test]
fn rim_pixels_get_the_maximum() {
    let width = 5;
    let height = 4;
    let pixels: Vec<Rgb> = (0..width * height)
        .map(|i| rgb((i * 7 % 256) as u8, (i * 13 % 256) as u8, (i * 29 % 256) as u8))
        .collect();
    let mut carver = Carver::new(width * height);
    carver.calculate_energy(width, height, &pixels[..]);
    assert_eq!(carver.energy.len(), width * height);
    for y in 0..height {
        for x in 0..width {
            if x == 0 || y == 0 || x == width - 1 || y == height - 1 {
                assert_eq!(carver.energy[y * width + x], MAX_PIXEL_ENERGY);
            }
        }
    }
}

#[test]
fn inner_energy_ignores_the_pixel_itself() {
    let mut pixels = vec![rgb(0, 0, 0); 9];
    pixels[3] = rgb(10, 0, 0);
    pixels[5] = rgb(0, 20, 0);
    pixels[1] = rgb(0, 0, 3);
    pixels[7] = rgb(1, 1, 1);
    let mut carver = Carver::new(9);
    carver.calculate_energy(3, 3, &pixels[..]);
    let expected = 100 + 400 + (1 + 1 + 4);
    assert_eq!(carver.energy[4], expected);
    pixels[4] = rgb(200, 100, 50);
    carver.calculate_energy(3, 3, &pixels[..]);
    assert_eq!(carver.energy[4], expected);
}

#[test]
fn inner_energy_can_exceed_the_rim_value() {
    let mut pixels = vec![rgb(0, 0, 0); 9];
    pixels[3] = rgb(255, 255, 255);
    pixels[1] = rgb(255, 255, 255);
    let mut carver = Carver::new(9);
    carver.calculate_energy(3, 3, &pixels[..]);
    assert_eq!(carver.energy[4], 2 * 195075);
}

#[test]
fn energy_of_a_single_row_is_all_rim() {
    let pixels = vec![rgb(1, 2, 3), rgb(4, 5, 6), rgb(7, 8, 9), rgb(1, 1, 1)];
    let mut carver = Carver::new(4);
    carver.calculate_energy(4, 1, &pixels[..]);
    assert_eq!(carver.energy, vec![MAX_PIXEL_ENERGY; 4]);
}

#[test]
fn energy_reads_nothing_behind_the_image() {
    let width = 4;
    let height = 3;
    let mut pixels: Vec<Rgb> = (0..20).map(|i| rgb(i as u8 * 9, i as u8 * 5, i as u8)).collect();
    let mut carver = Carver::new(20);
    carver.calculate_energy(width, height, &pixels[..]);
    let first = carver.energy.clone();
    for p in pixels.iter_mut().skip(width * height) {
        *p = rgb(255, 0, 255);
    }
    carver.calculate_energy(width, height, &pixels[..]);
    assert_eq!(carver.energy, first);
    assert_eq!(first.len(), width * height);
}

#[test]
fn equal_seams_resolve_to_the_leftmost() {
    let mut carver = Carver::new(12);
    carver.set_energy_map(&vec![5; 12]);
    assert_eq!(carver.find_seam(4, 3), vec![0, 4, 8]);
}

#[test]
fn equal_parents_resolve_to_the_leftmost() {
    let mut carver = Carver::new(6);
    // row 0: 9 1 1   row 1: 9 9 0
    carver.set_energy_map(&vec![9, 1, 1, 9, 9, 0]);
    assert_eq!(carver.find_seam(3, 2), vec![1, 5]);
    // the right neighbour wins only where it is strictly cheaper
    carver.set_energy_map(&vec![9, 2, 1, 9, 9, 0]);
    assert_eq!(carver.find_seam(3, 2), vec![2, 5]);
    // the left neighbour wins a tie against the one straight above
    carver.set_energy_map(&vec![1, 1, 9, 9, 0, 9]);
    assert_eq!(carver.find_seam(3, 2), vec![0, 4]);
}

#[test]
fn equal_ends_resolve_to_the_leftmost() {
    let mut carver = Carver::new(8);
    carver.set_energy_map(&vec![3, 3, 3, 3, 7, 2, 2, 7]);
    assert_eq!(carver.find_seam(4, 2), vec![0, 5]);
}

#[test]
fn seam_of_a_single_column_takes_every_pixel() {
    let mut carver = Carver::new(4);
    carver.set_energy_map(&vec![4, -3, 2, 1]);
    assert_eq!(carver.find_seam(1, 4), vec![0, 1, 2, 3]);
}

#[test]
fn seam_of_a_single_row_is_its_cheapest_pixel() {
    let mut carver = Carver::new(5);
    carver.set_energy_map(&vec![4, 2, 9, 2, 1]);
    assert_eq!(carver.find_seam(5, 1), vec![4]);
    carver.set_energy_map(&vec![4, 2, 9, 2, 3]);
    assert_eq!(carver.find_seam(5, 1), vec![1]);
}

#[test]
fn seam_of_two_columns_uses_both() {
    let mut carver = Carver::new(6);
    carver.set_energy_map(&vec![1, 5, 5, 1, 1, 5]);
    assert_eq!(carver.find_seam(2, 3), vec![0, 3, 4]);
}

#[test]
fn seam_costs_what_the_cheapest_path_costs() {
    let mut state: u64 = 12345;
    for width in 1..5usize {
        for height in 1..5usize {
            let mut energy: Vec<i32> = Vec::new();
            for _ in 0..width * height {
                state = state.wrapping_mul(6364136223846793005).wrapping_add(1442695040888963407);
                energy.push(((state >> 33) % 200000) as i32);
            }
            let mut carver = Carver::new(width * height);
            carver.set_energy_map(&energy.clone());
            let seam = carver.find_seam(width, height);
            assert_is_seam(&seam, width, height);
            assert_eq!(seam_cost(&energy, &seam), cheapest_by_search(&energy, width, height));
            assert_eq!(carver.energy, energy);
        }
    }
}

#[test]
fn seam_cost_does_not_wrap_at_32_bits() {
    let height = 3;
    let mut carver = Carver::new(height);
    carver.set_energy_map(&vec![i32::MAX; height]);
    assert_eq!(carver.find_seam(1, height), vec![0, 1, 2]);
    let mut wide = Carver::new(6);
    wide.set_energy_map(&vec![i32::MAX, i32::MAX, i32::MAX, 0, i32::MAX, i32::MAX]);
    assert_eq!(wide.find_seam(2, 3), vec![0, 3, 4]);
    assert_eq!(MAX_SEAM_LENGTH, 2147483647);
}

#[test]
fn seam_reads_only_the_image_in_a_larger_carver() {
    let mut carver = Carver::new(12);
    carver.set_energy_map(&vec![5, 1, 5, 5, 1, 5, 0, 0, 0, 0, 0, 0]);
    assert_eq!(carver.find_seam(3, 2), vec![1, 4]);
    assert_eq!(carver.find_seam(2, 3), vec![1, 2, 4]);
}

#[test]
fn a_used_carver_finds_what_a_fresh_one_finds() {
    let energy = vec![3, 1, 4, 1, 5, 9, 2, 6, 5, 3, 5, 8];
    let mut used = Carver::new(20);
    used.set_energy_map(&vec![9; 20]);
    assert_eq!(used.find_seam(5, 4), vec![0, 5, 10, 15]);
    used.set_energy_map(&energy);
    let mut fresh = Carver::new(12);
    fresh.set_energy_map(&energy);
    assert_eq!(used.find_seam(4, 3), fresh.find_seam(4, 3));
    assert_eq!(used.find_seam(3, 4), fresh.find_seam(3, 4));
    assert_eq!(used.energy_map(), &energy);
}
