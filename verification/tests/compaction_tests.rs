use seam_carving::carving::Carver;
use seam_carving::compaction::{lazy_remove_indexes_of, subset_by_width_and_height};
use seam_carving::energy::Rgb;

#[test]
fn lazy_remove_indexes_of_works_correctly() {
    let mut vec = (0..11).collect::<Vec<u32>>();
    let to_remove = vec!(1, 3, 7);

    lazy_remove_indexes_of(&mut vec[..], &to_remove);
    let vec_len = vec.len();
    vec.truncate(vec_len - to_remove.len()); // only the first 7 elements of vec are valid now

    // 0 1 2 3 4 5 6 7 8 9 10 11 gets turned into
    // 0   2   4 5 6   8 9 10 11
    assert_eq!(vec, vec!(0, 2, 4, 5, 6, 8, 9, 10));
}

#[test]
fn lazy_remove_indexes_of_works_correctly_on_edges() {
    let mut vec = (0..5).collect::<Vec<u32>>();
    let to_remove = vec!(0, 5);

    lazy_remove_indexes_of(&mut vec[..], &to_remove);
    let vec_len = vec.len();
    vec.truncate(vec_len - to_remove.len()); // only the first 3 elements of vec are valid now

    // 0 1 2 3 4 gets turned into
    //   1 2 3
    assert_eq!(vec, vec!(1, 2, 3));
}

#[test]
fn removing_nothing_changes_nothing() {
    let mut vec = vec![3u8, 1, 4, 1, 5];
    lazy_remove_indexes_of(&mut vec[..], &Vec::new());
    assert_eq!(vec, vec![3, 1, 4, 1, 5]);
    let mut empty: Vec<u8> = Vec::new();
    lazy_remove_indexes_of(&mut empty[..], &vec![0]);
    assert!(empty.is_empty());
}

#[test]
fn removing_the_end_position_alone_keeps_every_element() {
    let mut vec = vec!['a', 'b', 'c'];
    lazy_remove_indexes_of(&mut vec[..], &vec![3]);
    assert_eq!(vec, vec!['a', 'b', 'c']);
}

#[test]
fn removing_neighbours_and_the_last_element() {
    let mut vec = (0..8).collect::<Vec<u32>>();
    lazy_remove_indexes_of(&mut vec[..], &vec![2, 3, 7]);
    assert_eq!(vec.len(), 8);
    assert_eq!(vec[..5], [0, 1, 4, 5, 6]);
    let mut all = vec![1, 2, 3];
    lazy_remove_indexes_of(&mut all[..], &vec![0, 1, 2]);
    assert_eq!(all.len(), 3);
}

#[test]
fn removed_elements_stay_behind_the_survivors() {
    let mut vec = (0..6).collect::<Vec<u32>>();
    lazy_remove_indexes_of(&mut vec[..], &vec![1, 4]);
    assert_eq!(vec[..4], [0, 2, 3, 5]);
    let mut tail = vec[4..].to_vec();
    tail.sort();
    assert_eq!(tail, vec![1, 4]);
}

#[test]
fn subset_is_the_start_of_the_buffer() {
    let mut vec = (0..10).collect::<Vec<u32>>();
    {
        let subset = subset_by_width_and_height(&mut vec[..], 3, 2);
        assert_eq!(subset.len(), 6);
        assert_eq!(subset[5], 5);
        subset[0] = 42;
    }
    assert_eq!(vec, vec![42, 1, 2, 3, 4, 5, 6, 7, 8, 9]);
    assert_eq!(subset_by_width_and_height(&mut vec[..], 5, 2).len(), 10);
    assert_eq!(subset_by_width_and_height(&mut vec[..], 0, 7).len(), 0);
}

#[test]
fn alternating_energy_seam_and_removal_shrinks_the_image() {
    let width = 6;
    let height = 4;
    let mut pixels: Vec<Rgb> = (0..width * height)
        .map(|i| Rgb { r: (i * 37 % 251) as u8, g: (i * 91 % 241) as u8, b: (i * 17 % 239) as u8 })
        .collect();
    let mut expected: Vec<Vec<Rgb>> = pixels.chunks(width).map(|row| row.to_vec()).collect();
    let mut carver = Carver::new(pixels.len());
    let mut current = width;
    for _ in 0..3 {
        carver.calculate_energy(current, height, subset_by_width_and_height(&mut pixels[..], current, height));
        assert_eq!(carver.energy.len(), current * height);
        let seam = carver.find_seam(current, height);
        assert_eq!(seam.len(), height);
        for y in 0..height {
            assert_eq!(seam[y] / current, y);
            expected[y].remove(seam[y] % current);
        }
        lazy_remove_indexes_of(subset_by_width_and_height(&mut pixels[..], current, height), &seam);
        current -= 1;
        let flat: Vec<Rgb> = expected.iter().flatten().cloned().collect();
        assert_eq!(pixels[..current * height], flat[..]);
        assert_eq!(pixels.len(), width * height);
    }
    assert_eq!(current, 3);
}
