use voxxelmaxx::procgen::{bytes_per_pixel, gen_map_tag};

#[test]
fn bytes_per_pixel_divides_data_by_pixels() {
    assert_eq!(bytes_per_pixel(4, 2, 32), 4);
    assert_eq!(bytes_per_pixel(3, 3, 9), 1);
    assert_eq!(bytes_per_pixel(2, 2, 7), 1);
}

#[test]
fn bytes_per_pixel_falls_back_to_four() {
    assert_eq!(bytes_per_pixel(0, 5, 100), 4);
    assert_eq!(bytes_per_pixel(-2, 3, 100), 4);
}

#[test]
fn gen_map_tag_reads_first_byte_of_pixel() {
    // 2 x 2 map, 2 bytes per pixel.
    let data = [10u8, 11, 20, 21, 30, 31, 40, 41];
    assert_eq!(gen_map_tag(&data, 2, 2, 2, 0, 0), 10);
    assert_eq!(gen_map_tag(&data, 2, 2, 2, 1, 0), 20);
    assert_eq!(gen_map_tag(&data, 2, 2, 2, 0, 1), 30);
    assert_eq!(gen_map_tag(&data, 2, 2, 2, 1, 1), 40);
}

#[test]
fn gen_map_tag_right_edge_reads_last_column() {
    let data = [10u8, 11, 20, 21, 30, 31, 40, 41];
    assert_eq!(gen_map_tag(&data, 2, 2, 2, 2, 1), 40);
}

#[test]
fn gen_map_tag_outside_rows_is_empty() {
    let data = [10u8, 11, 20, 21, 30, 31, 40, 41];
    assert_eq!(gen_map_tag(&data, 2, 2, 2, 1, -1), 0);
    assert_eq!(gen_map_tag(&data, 2, 2, 2, 1, 2), 0);
}
