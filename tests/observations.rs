use reconstruct_image::observations::{Observations, SampleError};

fn mask(bits: &[u8]) -> Vec<bool> {
    bits.iter().map(|b| *b == 1).collect()
}

#[test]
fn sample_with_no_cell_kept_is_empty() {
    let o = Observations::sample(2, 3, &vec![false; 6]).unwrap();
    assert_eq!(o.height, 2);
    assert_eq!(o.width, 3);
    assert!(o.indices.is_empty());
}

#[test]
fn sample_with_every_cell_kept_lists_each_cell_once() {
    let o = Observations::sample(2, 3, &vec![true; 6]).unwrap();
    assert_eq!(o.indices, vec![(0, 0), (0, 1), (0, 2), (1, 0), (1, 1), (1, 2)]);
}

#[test]
fn sample_follows_row_major_mask() {
    let o = Observations::sample(3, 2, &mask(&[0, 1, 1, 0, 1, 1])).unwrap();
    assert_eq!(o.indices, vec![(0, 1), (1, 0), (2, 0), (2, 1)]);
}

#[test]
fn sample_rejects_empty_matrix() {
    assert_eq!(Observations::sample(0, 3, &vec![]).err(), Some(SampleError::EmptyMatrix));
    assert_eq!(Observations::sample(4, 0, &vec![]).err(), Some(SampleError::EmptyMatrix));
}

#[test]
fn sample_rejects_mask_of_wrong_length() {
    assert_eq!(Observations::sample(2, 2, &vec![true; 3]).err(), Some(SampleError::MaskLength));
    assert_eq!(Observations::sample(2, 2, &vec![true; 5]).err(), Some(SampleError::MaskLength));
    assert_eq!(
        Observations::sample(usize::MAX, 2, &vec![true; 2]).err(),
        Some(SampleError::MaskLength)
    );
}

/// Column-major storage of a 2 x 3 matrix whose entry (i, j) is 10 * i + j.
fn numbered() -> Vec<u32> {
    let (h, w) = (2usize, 3usize);
    let mut data = vec![0u32; h * w];
    for i in 0..h {
        for j in 0..w {
            data[i + j * h] = (10 * i + j) as u32;
        }
    }
    data
}

#[test]
fn gather_reads_observed_entries_in_order() {
    let o = Observations::sample(2, 3, &mask(&[0, 0, 1, 1, 0, 1])).unwrap();
    assert_eq!(o.sample_known_indices(&numbered()), vec![2, 10, 12]);
}

#[test]
fn full_sample_pairs_each_cell_with_its_value() {
    let o = Observations::sample(2, 3, &vec![true; 6]).unwrap();
    let vals = o.sample_known_indices(&numbered());
    assert_eq!(vals, vec![0, 1, 2, 10, 11, 12]);
}

#[test]
fn gather_into_overwrites_buffer() {
    let o = Observations::sample(2, 3, &mask(&[1, 0, 0, 0, 1, 0])).unwrap();
    let mut out = vec![99u32, 99];
    o.sample_known_indices_into(&numbered(), &mut out);
    assert_eq!(out, vec![0, 11]);
}

#[test]
fn scatter_fills_unobserved_cells_with_zero() {
    let o = Observations::sample(2, 2, &mask(&[0, 1, 1, 0])).unwrap();
    let m = o.unsample_known_indices(0.0f64, &vec![0.25, -1.5]);
    // column-major: (0,0), (1,0), (0,1), (1,1)
    assert_eq!(m, vec![0.0, -1.5, 0.25, 0.0]);
}

#[test]
fn scatter_into_keeps_unobserved_cells() {
    let o = Observations::sample(2, 2, &mask(&[1, 0, 0, 1])).unwrap();
    let mut m = vec![7i32, 7, 7, 7];
    o.unsample_known_indices_into(&vec![1, 2], &mut m);
    assert_eq!(m, vec![1, 7, 7, 2]);
}

#[test]
fn gather_after_scatter_gives_back_the_values() {
    let o = Observations::sample(3, 3, &mask(&[1, 0, 1, 0, 1, 0, 1, 1, 0])).unwrap();
    let vals = vec![0.5f64, 0.125, 0.75, 0.0, 1.0];
    let m = o.unsample_known_indices(0.0, &vals);
    assert_eq!(o.sample_known_indices(&m), vals);
}

#[test]
fn scatter_with_fewer_values_writes_only_the_first_cells() {
    let o = Observations::sample(2, 2, &mask(&[1, 1, 0, 1])).unwrap();
    // observed (0,0), (0,1), (1,1); only the first two get values
    let m = o.unsample_known_indices(0i32, &vec![5, 6]);
    // column-major: (0,0), (1,0), (0,1), (1,1)
    assert_eq!(m, vec![5, 0, 6, 0]);
    let none = o.unsample_known_indices(0i32, &vec![]);
    assert_eq!(none, vec![0, 0, 0, 0]);
}

#[test]
fn scatter_into_ignores_extra_values() {
    let o = Observations::sample(1, 2, &mask(&[0, 1])).unwrap();
    let mut m = vec![3u8, 3];
    o.unsample_known_indices_into(&vec![8, 9, 10], &mut m);
    assert_eq!(m, vec![3, 8]);
}

#[test]
fn gather_into_keeps_tail_of_longer_buffer() {
    let o = Observations::sample(2, 3, &mask(&[0, 1, 0, 0, 0, 1])).unwrap();
    let mut out = vec![99u32, 99, 99, 99];
    o.sample_known_indices_into(&numbered(), &mut out);
    assert_eq!(out, vec![1, 12, 99, 99]);
}
