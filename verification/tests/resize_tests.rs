use seam_carving::carving::Carver;
use seam_carving::compaction::lazy_remove_indexes_of;
use seam_carving::energy::Rgb;
use seam_carving::resize::reduce_width;

fn grey(v: u8) -> Rgb {
    Rgb { r: v, g: v, b: v }
}

fn sample(width: usize, height: usize) -> Vec<Rgb> {
    (0..width * height)
        .map(|i| Rgb { r: (i * 53 % 256) as u8, g: (i * i % 251) as u8, b: (i * 11 % 97) as u8 })
        .collect()
}

#[test]
fn reducing_by_nothing_leaves_the_buffer() {
    let mut pixels = sample(5, 3);
    let before = pixels.clone();
    let mut carver = Carver::new(15);
    assert_eq!(reduce_width(&mut carver, &mut pixels[..], 5, 3, 0), 5);
    assert_eq!(pixels, before);
}

#[test]
fn a_single_row_loses_its_leftmost_pixels() {
    let mut pixels = vec![grey(1), grey(2), grey(3), grey(4)];
    let mut carver = Carver::new(4);
    assert_eq!(reduce_width(&mut carver, &mut pixels[..], 4, 1, 2), 2);
    assert_eq!(pixels.len(), 4);
    assert_eq!(pixels[..2], [grey(3), grey(4)]);
}

#[test]
fn the_cheapest_inner_pixel_is_carved_first() {
    // 5 x 3, all black but three pixels: the inner pixels of the middle row
    // score 12, 243 and 0, every other pixel is on the rim.
    let mut pixels = vec![grey(0); 15];
    pixels[1] = grey(9);
    pixels[11] = grey(7);
    pixels[12] = grey(9);
    let mut carver = Carver::new(15);
    carver.calculate_energy(5, 3, &pixels[..]);
    assert_eq!(carver.energy[6], 3 * 4);
    assert_eq!(carver.energy[7], 3 * 81);
    assert_eq!(carver.energy[8], 0);
    let seam = carver.find_seam(5, 3);
    assert_eq!(seam, vec![2, 8, 12]);
    assert_eq!(reduce_width(&mut carver, &mut pixels[..], 5, 3, 1), 4);
    let mut kept = vec![grey(0); 12];
    kept[1] = grey(9);
    kept[9] = grey(7);
    assert_eq!(pixels[..12], kept[..]);
}

#[test]
fn reducing_in_one_call_equals_reducing_step_by_step() {
    let width = 7;
    let height = 5;
    let mut at_once = sample(width, height);
    let mut stepwise = at_once.clone();
    let mut carver = Carver::new(width * height);
    assert_eq!(reduce_width(&mut carver, &mut at_once[..], width, height, 4), 3);

    let mut other = Carver::new(width * height);
    let mut current = width;
    for _ in 0..4 {
        other.calculate_energy(current, height, &stepwise[..current * height]);
        let seam = other.find_seam(current, height);
        lazy_remove_indexes_of(&mut stepwise[..current * height], &seam);
        current -= 1;
    }
    assert_eq!(at_once[..3 * height], stepwise[..3 * height]);
    assert_eq!(at_once.len(), width * height);
}

#[test]
fn a_carver_serves_a_smaller_image_after_a_larger_one() {
    let mut carver = Carver::new(40);
    let mut large = sample(8, 5);
    assert_eq!(reduce_width(&mut carver, &mut large[..], 8, 5, 2), 6);
    let mut small = sample(4, 3);
    assert_eq!(reduce_width(&mut carver, &mut small[..], 4, 3, 1), 3);
    assert_eq!(carver.energy.len(), 12);
}
