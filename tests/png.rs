use inflate_core::png::Image;

#[test]
fn png_rgb_all_filters() {
    let img = Image::from_png(&vec![137, 80, 78, 71, 13, 10, 26, 10, 0, 0, 0, 13, 73, 72, 68, 82, 0, 0, 0, 3, 0, 0, 0, 5, 8, 2, 0, 0, 0, 15, 19, 193, 245, 0, 0, 0, 30, 73, 68, 65, 84, 120, 156, 1, 50, 0, 205, 255, 0, 121, 66, 189, 242, 33, 6, 240, 132, 119, 1, 98, 240, 243, 105, 93, 131, 130, 122, 145, 2, 190, 97, 91, 230, 93, 1, 0, 0, 0, 3, 116, 69, 88, 116, 107, 0, 118, 203, 4, 243, 144, 0, 0, 0, 31, 73, 68, 65, 84, 34, 207, 194, 19, 165, 255, 211, 3, 186, 187, 58, 9, 184, 172, 111, 130, 249, 4, 186, 252, 86, 83, 148, 111, 139, 121, 249, 103, 45, 25, 99, 140, 84, 180, 169, 0, 0, 0, 0, 73, 69, 78, 68, 174, 66, 96, 130]).unwrap();
    assert_eq!(img.width, 3);
    assert_eq!(img.height, 5);
    let expected: Vec<u8> = vec![121, 66, 189, 255, 242, 33, 6, 255, 240, 132, 119, 255, 98, 240, 243, 255, 203, 77, 118, 255, 77, 199, 7, 255, 32, 81, 21, 255, 154, 15, 137, 255, 242, 198, 218, 255, 202, 227, 68, 255, 187, 49, 18, 255, 69, 253, 111, 255, 132, 223, 154, 255, 215, 197, 179, 255, 208, 118, 172, 255];
    assert_eq!(img.raw, expected);
}

#[test]
fn png_rgba_paeth_average() {
    let img = Image::from_png(&vec![137, 80, 78, 71, 13, 10, 26, 10, 0, 0, 0, 13, 73, 72, 68, 82, 0, 0, 0, 4, 0, 0, 0, 3, 8, 6, 0, 0, 0, 180, 244, 174, 198, 0, 0, 0, 31, 73, 68, 65, 84, 120, 156, 1, 51, 0, 204, 255, 4, 14, 143, 83, 167, 39, 221, 53, 234, 10, 180, 110, 102, 238, 144, 44, 219, 3, 70, 195, 109, 135, 147, 1, 160, 33, 63, 1, 0, 0, 0, 3, 116, 69, 88, 116, 107, 0, 118, 203, 4, 243, 144, 0, 0, 0, 31, 73, 68, 65, 84, 135, 98, 56, 123, 8, 241, 155, 242, 171, 130, 4, 234, 6, 207, 246, 193, 74, 57, 254, 24, 247, 42, 206, 175, 34, 232, 158, 91, 87, 25, 18, 240, 3, 199, 111, 0, 0, 0, 0, 73, 69, 78, 68, 174, 66, 96, 130]).unwrap();
    assert_eq!((img.width, img.height), (4, 3));
    let expected: Vec<u8> = vec![14, 143, 83, 167, 53, 108, 136, 145, 63, 32, 246, 247, 45, 176, 34, 210, 77, 10, 150, 218, 212, 60, 22, 23, 193, 169, 142, 120, 18, 158, 3, 39, 55, 16, 101, 208, 149, 134, 79, 21, 173, 160, 184, 70, 193, 192, 235, 197];
    assert_eq!(img.raw, expected);
}

#[test]
fn png_bad_signature() {
    assert!(Image::from_png(b"GIF89a..........").is_err());
    assert!(Image::from_png(&[0x89, 0x50]).is_err());
}

#[test]
fn png_palette_rejected() {
    assert_eq!(Image::from_png(&vec![137, 80, 78, 71, 13, 10, 26, 10, 0, 0, 0, 13, 73, 72, 68, 82, 0, 0, 0, 1, 0, 0, 0, 1, 8, 3, 0, 0, 0, 40, 203, 52, 187, 0, 0, 0, 5, 73, 68, 65, 84, 120, 156, 99, 96, 0, 93, 212, 178, 5, 0, 0, 0, 3, 116, 69, 88, 116, 107, 0, 118, 203, 4, 243, 144, 0, 0, 0, 5, 73, 68, 65, 84, 0, 0, 2, 0, 1, 56, 15, 189, 49, 0, 0, 0, 0, 73, 69, 78, 68, 174, 66, 96, 130]).unwrap_err(), "Color space 3 not supported");
}

#[test]
fn png_unknown_filter() {
    assert_eq!(Image::from_png(&vec![137, 80, 78, 71, 13, 10, 26, 10, 0, 0, 0, 13, 73, 72, 68, 82, 0, 0, 0, 1, 0, 0, 0, 2, 8, 2, 0, 0, 0, 22, 227, 33, 112, 0, 0, 0, 7, 73, 68, 65, 84, 120, 156, 99, 96, 100, 98, 102, 165, 5, 199, 122, 0, 0, 0, 3, 116, 69, 88, 116, 107, 0, 118, 203, 4, 243, 144, 0, 0, 0, 7, 73, 68, 65, 84, 7, 98, 0, 0, 80, 0, 20, 191, 171, 177, 54, 0, 0, 0, 0, 73, 69, 78, 68, 174, 66, 96, 130]).unwrap_err(), "Unsupported filter 7 at row 1");
}

#[test]
fn png_corrupt_image_data() {
    assert_eq!(Image::from_png(&vec![137, 80, 78, 71, 13, 10, 26, 10, 0, 0, 0, 13, 73, 72, 68, 82, 0, 0, 0, 1, 0, 0, 0, 1, 8, 2, 0, 0, 0, 144, 119, 83, 222, 0, 0, 0, 4, 73, 68, 65, 84, 120, 156, 7, 0, 255, 224, 184, 39, 0, 0, 0, 3, 116, 69, 88, 116, 107, 0, 118, 203, 4, 243, 144, 0, 0, 0, 4, 73, 68, 65, 84, 0, 0, 0, 0, 234, 35, 231, 7, 0, 0, 0, 0, 73, 69, 78, 68, 174, 66, 96, 130]).unwrap_err(), "IllegalBlockFormat");
}

#[test]
fn png_image_data_too_short() {
    assert!(Image::from_png(&vec![137, 80, 78, 71, 13, 10, 26, 10, 0, 0, 0, 13, 73, 72, 68, 82, 0, 0, 0, 2, 0, 0, 0, 2, 8, 2, 0, 0, 0, 253, 212, 154, 115, 0, 0, 0, 5, 73, 68, 65, 84, 120, 156, 99, 96, 100, 23, 11, 23, 68, 0, 0, 0, 3, 116, 69, 88, 116, 107, 0, 118, 203, 4, 243, 144, 0, 0, 0, 6, 73, 68, 65, 84, 2, 0, 0, 7, 0, 4, 127, 28, 106, 87, 0, 0, 0, 0, 73, 69, 78, 68, 174, 66, 96, 130]).is_err());
}

#[test]
fn png_truncated_file() {
    let data: Vec<u8> = vec![137, 80, 78, 71, 13, 10, 26, 10, 0, 0, 0, 13, 73, 72, 68, 82, 0, 0, 0, 1, 0, 0, 0, 1, 8, 2, 0, 0, 0, 144, 119, 83, 222, 0, 0, 0, 6, 73, 68, 65, 84, 120, 156, 99, 96, 100, 98, 0, 24, 97, 103, 0, 0, 0, 3, 116, 69, 88, 116, 107, 0, 118, 203, 4, 243, 144, 0, 0, 0, 6, 73, 68, 65, 84, 6, 0, 0, 14, 0, 7, 114, 85, 66, 116, 0, 0, 0, 0, 73, 69, 78, 68, 174, 66, 96, 130];
    assert!(Image::from_png(&data[..data.len() - 10]).is_err());
    assert!(Image::from_png(&data).is_ok());
}

#[test]
fn png_zero_bytes_not_a_png() {
    assert_eq!(Image::from_png(&[0u8; 8]).unwrap_err(), "Not a png");
}
