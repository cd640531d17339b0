use rangefinder::color::SimpleColor;
use rangefinder::scan::{
    bmp_pixel, classify_columns, column_averages, detect_dot, image_size, scan_line_offset,
};

/// A band of `height` equal rows; each column is given as red, green, blue.
fn band(columns: &[(u8, u8, u8)], height: usize) -> Vec<u8> {
    let mut bytes = Vec::new();
    for _ in 0..height {
        for (r, g, b) in columns {
            bytes.push(*b);
            bytes.push(*g);
            bytes.push(*r);
        }
    }
    bytes
}

#[test]
fn pixel_is_read_blue_first() {
    let image: Vec<u8> = (0..24).collect();
    // Two rows of four pixels.
    assert_eq!(bmp_pixel(&image, 4, 0, 0), (2, 1, 0));
    assert_eq!(bmp_pixel(&image, 4, 3, 0), (11, 10, 9));
    assert_eq!(bmp_pixel(&image, 4, 0, 1), (14, 13, 12));
    assert_eq!(bmp_pixel(&image, 4, 3, 1), (23, 22, 21));
}

#[test]
fn header_gives_width_and_height() {
    let mut header = vec![0u8; 54];
    header[18] = 0x20;
    header[19] = 0x0a;
    header[22] = 0x98;
    header[23] = 0x07;
    assert_eq!(image_size(&header), Some((2592, 1944)));
    header[18] = 0xff;
    header[19] = 0xff;
    assert_eq!(image_size(&header), Some((65535, 1944)));
    assert_eq!(image_size(&header[..53]), None);
    assert_eq!(image_size(&[]), None);
    header.push(7);
    assert_eq!(image_size(&header), Some((65535, 1944)));
}

#[test]
fn band_begins_behind_the_rows_below() {
    assert_eq!(scan_line_offset(2592, 1944, 1028, 5), Some(54 + 911 * 2592 * 3));
    assert_eq!(scan_line_offset(10, 6, 1, 5), Some(54));
    assert_eq!(scan_line_offset(10, 6, 0, 5), Some(54 + 30));
    assert_eq!(scan_line_offset(10, 6, 2, 5), None);
    assert_eq!(scan_line_offset(10, 5, u32::MAX, 5), None);
    assert_eq!(scan_line_offset(0, 5, 0, 5), Some(54));
    assert_eq!(
        scan_line_offset(u32::MAX, u32::MAX, 0, 0),
        None
    );
    assert_eq!(
        scan_line_offset(65535, 65535, 0, 0),
        Some(54 + 65535u64 * 65535 * 3)
    );
}

#[test]
fn columns_are_averaged_over_the_rows() {
    // Two columns, three rows.
    let image = vec![
        1, 2, 3, /**/ 10, 20, 30, //
        2, 4, 6, /**/ 10, 20, 31, //
        5, 6, 7, /**/ 11, 21, 32,
    ];
    let averages = column_averages(&image, 2, 3);
    // Red is the third byte of a pixel.
    assert_eq!(averages, vec![(5, 4, 2), (31, 20, 10)]);
    assert_eq!(column_averages(&image, 2, 1), vec![(3, 2, 1), (30, 20, 10)]);
    assert_eq!(column_averages(&image, 0, 3), Vec::new());
}

#[test]
fn columns_are_classified() {
    let colors = classify_columns(&vec![(255, 255, 255), (200, 10, 10), (100, 100, 100)]);
    assert_eq!(colors, vec![SimpleColor::White, SimpleColor::Red, SimpleColor::Other]);
}

#[test]
fn red_block_is_found() {
    let mut columns = Vec::new();
    for c in 0..120 {
        columns.push(if (40..80).contains(&c) { (200, 10, 10) } else { (100, 100, 100) });
    }
    let image = band(&columns, 5);
    // The red region holds the columns 40..80, whose mean is 59.5.
    assert_eq!(detect_dot(&image, 120, 5, 20), Some(59));
}

#[test]
fn white_dot_in_a_red_halo_is_found() {
    let mut columns = Vec::new();
    for c in 0..200 {
        columns.push(if (100..120).contains(&c) {
            (255, 250, 250)
        } else if (80..140).contains(&c) {
            (220, 20, 20)
        } else {
            (90, 90, 90)
        });
    }
    let image = band(&columns, 3);
    // White holds the columns 100..120.
    assert_eq!(detect_dot(&image, 200, 3, 20), Some(109));
}

#[test]
fn plain_background_has_no_dot() {
    let columns = vec![(90, 90, 90); 64];
    let image = band(&columns, 2);
    assert_eq!(detect_dot(&image, 64, 2, 20), None);
    assert_eq!(detect_dot(&[], 0, 2, 20), None);
}
