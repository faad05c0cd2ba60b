use raytracer::frame::{clear_buffer, write_pixel, write_results};

#[test]
fn clear_sets_whole_pixels_only() {
    let mut frame = vec![9u8; 10];
    clear_buffer(&mut frame, [1, 2, 3, 4]);
    assert_eq!(frame, vec![1, 2, 3, 4, 1, 2, 3, 4, 9, 9]);
}

#[test]
fn clear_of_empty_frame() {
    let mut frame: Vec<u8> = vec![];
    clear_buffer(&mut frame, [1, 2, 3, 4]);
    assert!(frame.is_empty());
}

#[test]
fn write_pixel_touches_its_four_bytes() {
    let mut frame = vec![0u8; 12];
    write_pixel(&mut frame, 1, [10, 20, 30, 255]);
    assert_eq!(frame, vec![0, 0, 0, 0, 10, 20, 30, 255, 0, 0, 0, 0]);
}

#[test]
fn write_results_in_order_last_wins() {
    let mut frame = vec![0u8; 8];
    let results = vec![(0, [1, 1, 1, 1]), (1, [2, 2, 2, 2]), (0, [3, 3, 3, 3])];
    write_results(&mut frame, &results);
    assert_eq!(frame, vec![3, 3, 3, 3, 2, 2, 2, 2]);
}

#[test]
fn distinct_pixels_commute() {
    let mut a = vec![7u8; 8];
    write_results(&mut a, &vec![(0, [1, 2, 3, 4]), (1, [5, 6, 7, 8])]);
    let mut b = vec![7u8; 8];
    write_results(&mut b, &vec![(1, [5, 6, 7, 8]), (0, [1, 2, 3, 4])]);
    assert_eq!(a, b);
}

#[test]
fn written_pixel_reads_back_after_clear() {
    let mut frame = vec![0u8; 16];
    clear_buffer(&mut frame, [0x11, 0x00, 0x22, 0x55]);
    write_pixel(&mut frame, 2, [1, 2, 3, 0xff]);
    assert_eq!(&frame[8..12], &[1, 2, 3, 0xff]);
    assert_eq!(&frame[0..4], &[0x11, 0x00, 0x22, 0x55]);
}
