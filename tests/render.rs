use reconstruct_image::observations::Observations;
use reconstruct_image::render::matrix_to_image_data;

#[test]
fn matrix_becomes_row_major_gray_pixels() {
    // 2 x 2 matrix, column-major: (0,0)=10, (1,0)=20, (0,1)=30, (1,1)=40
    let intensity = vec![10u8, 20, 30, 40];
    let mut image = vec![1u8; 16];
    matrix_to_image_data(2, 2, &intensity, &mut image);
    assert_eq!(
        image,
        vec![10, 10, 10, 255, 30, 30, 30, 255, 20, 20, 20, 255, 40, 40, 40, 255]
    );
}

#[test]
fn wide_matrix_layout() {
    // 1 x 3 matrix
    let intensity = vec![0u8, 128, 255];
    let mut image = vec![0u8; 12];
    matrix_to_image_data(1, 3, &intensity, &mut image);
    assert_eq!(image, vec![0, 0, 0, 255, 128, 128, 128, 255, 255, 255, 255, 255]);
}

#[test]
fn corrupted_view_blacks_out_unobserved_cells() {
    let o = Observations::sample(2, 2, &vec![false, true, true, false]).unwrap();
    let intensity = vec![10u8, 20, 30, 40];
    let mut image = vec![9u8; 16];
    o.corrupted_image_data(&intensity, &mut image);
    assert_eq!(
        image,
        vec![0, 0, 0, 255, 30, 30, 30, 255, 20, 20, 20, 255, 0, 0, 0, 255]
    );
}

#[test]
fn corrupted_view_with_nothing_observed_is_black() {
    let o = Observations::sample(1, 2, &vec![false, false]).unwrap();
    let mut image = vec![5u8; 8];
    o.corrupted_image_data(&vec![200u8, 100], &mut image);
    assert_eq!(image, vec![0, 0, 0, 255, 0, 0, 0, 255]);
}

#[test]
fn longer_buffer_keeps_its_tail() {
    let intensity = vec![10u8, 20];
    let mut image = vec![7u8; 11];
    matrix_to_image_data(2, 1, &intensity, &mut image);
    assert_eq!(image, vec![10, 10, 10, 255, 20, 20, 20, 255, 7, 7, 7]);
}

#[test]
fn corrupted_view_keeps_tail_of_longer_buffer() {
    let o = Observations::sample(1, 2, &vec![true, false]).unwrap();
    let mut image = vec![7u8; 10];
    o.corrupted_image_data(&vec![50u8, 60], &mut image);
    assert_eq!(image, vec![50, 50, 50, 255, 0, 0, 0, 255, 7, 7]);
}
