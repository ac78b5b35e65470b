use inflate_core::inflate::{decompress, decompress_zlib, DecompressResult};

#[test]
fn round_trip_empty_raw() {
    let expected: Vec<u8> = vec![];
    assert_eq!(decompress(&vec![3, 0]), Ok(expected));
}

#[test]
fn round_trip_empty_zlib() {
    let expected: Vec<u8> = vec![];
    assert_eq!(decompress_zlib(&vec![120, 156, 3, 0, 0, 0, 0, 1]), Ok(expected));
}

#[test]
fn round_trip_single_byte_raw() {
    let expected: Vec<u8> = vec![81];
    assert_eq!(decompress(&vec![11, 4, 0]), Ok(expected));
}

#[test]
fn round_trip_single_byte_zlib() {
    let expected: Vec<u8> = vec![81];
    assert_eq!(decompress_zlib(&vec![120, 156, 11, 4, 0, 0, 82, 0, 82]), Ok(expected));
}

#[test]
fn round_trip_repetitive_raw() {
    let expected: Vec<u8> = vec![97, 98, 99, 97, 98, 99, 97, 98, 99, 97, 98, 99, 97, 98, 99, 97, 98, 99, 97, 98, 99, 97, 98, 99, 97, 98, 99, 97, 98, 99, 97, 98, 99, 97, 98, 99, 97, 98, 99, 97, 98, 99, 97, 98, 99, 97, 98, 99, 97, 98, 99, 97, 98, 99, 97, 98, 99, 97, 98, 99, 97, 98, 99, 97, 98, 99, 97, 98, 99, 97, 98, 99, 97, 98, 99, 97, 98, 99, 97, 98, 99, 97, 98, 99, 97, 98, 99, 97, 98, 99, 97, 98, 99, 97, 98, 99, 97, 98, 99, 97, 98, 99, 97, 98, 99, 97, 98, 99, 97, 98, 99, 97, 98, 99, 97, 98, 99, 97, 98, 99, 97, 98, 99, 97, 98, 99, 97, 98, 99, 97, 98, 99, 97, 98, 99, 97, 98, 99, 97, 98, 99, 97, 98, 99, 97, 98, 99, 97, 98, 99, 97, 98, 99, 97, 98, 99, 97, 98, 99, 97, 98, 99, 97, 98, 99, 97, 98, 99, 97, 98, 99, 97, 98, 99, 97, 98, 99, 97, 98, 99, 97, 98, 99, 97, 98, 99, 97, 98, 99, 97, 98, 99, 97, 98, 99, 97, 98, 99, 97, 98, 99, 97, 98, 99, 97, 98, 99, 97, 98, 99, 97, 98, 99, 97, 98, 99, 97, 98, 99, 97, 98, 99, 97, 98, 99, 97, 98, 99, 97, 98, 99, 97, 98, 99, 97, 98, 99, 97, 98, 99, 97, 98, 99, 97, 98, 99, 97, 98, 99, 97, 98, 99, 97, 98, 99, 97, 98, 99, 97, 98, 99, 97, 98, 99, 97, 98, 99, 97, 98, 99, 97, 98, 99, 97, 98, 99, 97, 98, 99, 97, 98, 99, 97, 98, 99, 97, 98, 99, 97, 98, 99, 97, 98, 99, 97, 98, 99, 97, 98, 99, 97, 98, 99, 97, 98, 99, 97, 98, 99, 97, 98, 99, 97, 98, 99, 97, 98, 99, 97, 98, 99, 97, 98, 99, 97, 98, 99, 97, 98, 99, 97, 98, 99, 97, 98, 99, 97, 98, 99, 97, 98, 99, 97, 98, 99, 97, 98, 99, 97, 98, 99, 97, 98, 99, 97, 98, 99, 97, 98, 99, 97, 98, 99, 97, 98, 99, 97, 98, 99, 97, 98, 99, 97, 98, 99, 97, 98, 99, 97, 98, 99, 97, 98, 99, 97, 98, 99, 97, 98, 99, 97, 98, 99, 97, 98, 99, 97, 98, 99, 97, 98, 99, 97, 98, 99, 97, 98, 99, 97, 98, 99, 97, 98, 99, 97, 98, 99, 97, 98, 99, 97, 98, 99, 97, 98, 99, 97, 98, 99, 97, 98, 99, 97, 98, 99, 97, 98, 99, 97, 98, 99, 97, 98, 99, 97, 98, 99, 97, 98, 99, 97, 98, 99, 97, 98, 99, 97, 98, 99, 97, 98, 99, 97, 98, 99, 97, 98, 99, 97, 98, 99, 97, 98, 99, 97, 98, 99, 97, 98, 99, 120, 121, 122, 120, 121, 122, 120, 121, 122, 120, 121, 122, 120, 121, 122, 120, 121, 122, 120, 121, 122, 120, 121, 122, 120, 121, 122, 120, 121, 122, 120, 121, 122, 120, 121, 122, 120, 121, 122, 120, 121, 122, 120, 121, 122, 120, 121, 122, 120, 121, 122, 120, 121, 122, 120, 121, 122, 120, 121, 122, 120, 121, 122, 120, 121, 122, 120, 121, 122, 120, 121, 122, 120, 121, 122, 120, 121, 122, 120, 121, 122, 120, 121, 122, 120, 121, 122, 120, 121, 122];
    assert_eq!(decompress(&vec![75, 76, 74, 78, 28, 69, 195, 23, 85, 84, 86, 209, 8, 1, 0]), Ok(expected));
}

#[test]
fn round_trip_repetitive_zlib() {
    let expected: Vec<u8> = vec![97, 98, 99, 97, 98, 99, 97, 98, 99, 97, 98, 99, 97, 98, 99, 97, 98, 99, 97, 98, 99, 97, 98, 99, 97, 98, 99, 97, 98, 99, 97, 98, 99, 97, 98, 99, 97, 98, 99, 97, 98, 99, 97, 98, 99, 97, 98, 99, 97, 98, 99, 97, 98, 99, 97, 98, 99, 97, 98, 99, 97, 98, 99, 97, 98, 99, 97, 98, 99, 97, 98, 99, 97, 98, 99, 97, 98, 99, 97, 98, 99, 97, 98, 99, 97, 98, 99, 97, 98, 99, 97, 98, 99, 97, 98, 99, 97, 98, 99, 97, 98, 99, 97, 98, 99, 97, 98, 99, 97, 98, 99, 97, 98, 99, 97, 98, 99, 97, 98, 99, 97, 98, 99, 97, 98, 99, 97, 98, 99, 97, 98, 99, 97, 98, 99, 97, 98, 99, 97, 98, 99, 97, 98, 99, 97, 98, 99, 97, 98, 99, 97, 98, 99, 97, 98, 99, 97, 98, 99, 97, 98, 99, 97, 98, 99, 97, 98, 99, 97, 98, 99, 97, 98, 99, 97, 98, 99, 97, 98, 99, 97, 98, 99, 97, 98, 99, 97, 98, 99, 97, 98, 99, 97, 98, 99, 97, 98, 99, 97, 98, 99, 97, 98, 99, 97, 98, 99, 97, 98, 99, 97, 98, 99, 97, 98, 99, 97, 98, 99, 97, 98, 99, 97, 98, 99, 97, 98, 99, 97, 98, 99, 97, 98, 99, 97, 98, 99, 97, 98, 99, 97, 98, 99, 97, 98, 99, 97, 98, 99, 97, 98, 99, 97, 98, 99, 97, 98, 99, 97, 98, 99, 97, 98, 99, 97, 98, 99, 97, 98, 99, 97, 98, 99, 97, 98, 99, 97, 98, 99, 97, 98, 99, 97, 98, 99, 97, 98, 99, 97, 98, 99, 97, 98, 99, 97, 98, 99, 97, 98, 99, 97, 98, 99, 97, 98, 99, 97, 98, 99, 97, 98, 99, 97, 98, 99, 97, 98, 99, 97, 98, 99, 97, 98, 99, 97, 98, 99, 97, 98, 99, 97, 98, 99, 97, 98, 99, 97, 98, 99, 97, 98, 99, 97, 98, 99, 97, 98, 99, 97, 98, 99, 97, 98, 99, 97, 98, 99, 97, 98, 99, 97, 98, 99, 97, 98, 99, 97, 98, 99, 97, 98, 99, 97, 98, 99, 97, 98, 99, 97, 98, 99, 97, 98, 99, 97, 98, 99, 97, 98, 99, 97, 98, 99, 97, 98, 99, 97, 98, 99, 97, 98, 99, 97, 98, 99, 97, 98, 99, 97, 98, 99, 97, 98, 99, 97, 98, 99, 97, 98, 99, 97, 98, 99, 97, 98, 99, 97, 98, 99, 97, 98, 99, 97, 98, 99, 97, 98, 99, 97, 98, 99, 97, 98, 99, 97, 98, 99, 97, 98, 99, 97, 98, 99, 97, 98, 99, 97, 98, 99, 97, 98, 99, 97, 98, 99, 97, 98, 99, 97, 98, 99, 97, 98, 99, 97, 98, 99, 97, 98, 99, 120, 121, 122, 120, 121, 122, 120, 121, 122, 120, 121, 122, 120, 121, 122, 120, 121, 122, 120, 121, 122, 120, 121, 122, 120, 121, 122, 120, 121, 122, 120, 121, 122, 120, 121, 122, 120, 121, 122, 120, 121, 122, 120, 121, 122, 120, 121, 122, 120, 121, 122, 120, 121, 122, 120, 121, 122, 120, 121, 122, 120, 121, 122, 120, 121, 122, 120, 121, 122, 120, 121, 122, 120, 121, 122, 120, 121, 122, 120, 121, 122, 120, 121, 122, 120, 121, 122, 120, 121, 122];
    assert_eq!(decompress_zlib(&vec![120, 156, 75, 76, 74, 78, 28, 69, 195, 23, 85, 84, 86, 209, 8, 1, 0, 215, 241, 226, 75]), Ok(expected));
}

#[test]
fn round_trip_random_raw() {
    let expected: Vec<u8> = vec![165, 77, 202, 24, 37, 48, 187, 29, 109, 19, 44, 222, 214, 35, 123, 46, 217, 30, 63, 114, 31, 203, 25, 113, 23, 68, 148, 214, 73, 60, 157, 92, 52, 96, 190, 49, 32, 30, 105, 254, 218, 160, 238, 232, 185, 153, 127, 92, 124, 41, 153, 253, 175, 229, 147, 37, 60, 214, 84, 175, 77, 250, 215, 20, 39, 160, 174, 179, 254, 233, 35, 47, 138, 242, 33, 31, 158, 228, 145, 197, 177, 11, 236, 181, 86, 59, 252, 30, 111, 147, 66, 126, 203, 200, 254, 41, 85, 229, 205, 142, 70, 220, 142, 212, 183, 194, 118, 77, 42, 90, 77, 118, 119, 6, 248, 93, 134, 144, 2, 74, 214, 189, 163, 64, 27, 233, 200, 203, 204, 201, 53, 246, 205, 31, 97, 34, 106, 225, 83, 56, 174, 26, 52, 0, 77, 51, 186, 13, 36, 106, 192, 76, 129, 177, 186, 242, 62, 59, 249, 238, 245, 247, 159, 43, 73, 52, 175, 135, 245, 82, 11, 105, 185, 75, 13, 152, 46, 133, 187, 85, 182, 114, 168, 114, 99, 122, 205, 116, 102, 252, 182, 14, 14, 143, 241, 132, 99, 176, 228, 178];
    assert_eq!(decompress(&vec![1, 200, 0, 55, 255, 165, 77, 202, 24, 37, 48, 187, 29, 109, 19, 44, 222, 214, 35, 123, 46, 217, 30, 63, 114, 31, 203, 25, 113, 23, 68, 148, 214, 73, 60, 157, 92, 52, 96, 190, 49, 32, 30, 105, 254, 218, 160, 238, 232, 185, 153, 127, 92, 124, 41, 153, 253, 175, 229, 147, 37, 60, 214, 84, 175, 77, 250, 215, 20, 39, 160, 174, 179, 254, 233, 35, 47, 138, 242, 33, 31, 158, 228, 145, 197, 177, 11, 236, 181, 86, 59, 252, 30, 111, 147, 66, 126, 203, 200, 254, 41, 85, 229, 205, 142, 70, 220, 142, 212, 183, 194, 118, 77, 42, 90, 77, 118, 119, 6, 248, 93, 134, 144, 2, 74, 214, 189, 163, 64, 27, 233, 200, 203, 204, 201, 53, 246, 205, 31, 97, 34, 106, 225, 83, 56, 174, 26, 52, 0, 77, 51, 186, 13, 36, 106, 192, 76, 129, 177, 186, 242, 62, 59, 249, 238, 245, 247, 159, 43, 73, 52, 175, 135, 245, 82, 11, 105, 185, 75, 13, 152, 46, 133, 187, 85, 182, 114, 168, 114, 99, 122, 205, 116, 102, 252, 182, 14, 14, 143, 241, 132, 99, 176, 228, 178]), Ok(expected));
}

#[test]
fn round_trip_random_zlib() {
    let expected: Vec<u8> = vec![165, 77, 202, 24, 37, 48, 187, 29, 109, 19, 44, 222, 214, 35, 123, 46, 217, 30, 63, 114, 31, 203, 25, 113, 23, 68, 148, 214, 73, 60, 157, 92, 52, 96, 190, 49, 32, 30, 105, 254, 218, 160, 238, 232, 185, 153, 127, 92, 124, 41, 153, 253, 175, 229, 147, 37, 60, 214, 84, 175, 77, 250, 215, 20, 39, 160, 174, 179, 254, 233, 35, 47, 138, 242, 33, 31, 158, 228, 145, 197, 177, 11, 236, 181, 86, 59, 252, 30, 111, 147, 66, 126, 203, 200, 254, 41, 85, 229, 205, 142, 70, 220, 142, 212, 183, 194, 118, 77, 42, 90, 77, 118, 119, 6, 248, 93, 134, 144, 2, 74, 214, 189, 163, 64, 27, 233, 200, 203, 204, 201, 53, 246, 205, 31, 97, 34, 106, 225, 83, 56, 174, 26, 52, 0, 77, 51, 186, 13, 36, 106, 192, 76, 129, 177, 186, 242, 62, 59, 249, 238, 245, 247, 159, 43, 73, 52, 175, 135, 245, 82, 11, 105, 185, 75, 13, 152, 46, 133, 187, 85, 182, 114, 168, 114, 99, 122, 205, 116, 102, 252, 182, 14, 14, 143, 241, 132, 99, 176, 228, 178];
    assert_eq!(decompress_zlib(&vec![120, 156, 1, 200, 0, 55, 255, 165, 77, 202, 24, 37, 48, 187, 29, 109, 19, 44, 222, 214, 35, 123, 46, 217, 30, 63, 114, 31, 203, 25, 113, 23, 68, 148, 214, 73, 60, 157, 92, 52, 96, 190, 49, 32, 30, 105, 254, 218, 160, 238, 232, 185, 153, 127, 92, 124, 41, 153, 253, 175, 229, 147, 37, 60, 214, 84, 175, 77, 250, 215, 20, 39, 160, 174, 179, 254, 233, 35, 47, 138, 242, 33, 31, 158, 228, 145, 197, 177, 11, 236, 181, 86, 59, 252, 30, 111, 147, 66, 126, 203, 200, 254, 41, 85, 229, 205, 142, 70, 220, 142, 212, 183, 194, 118, 77, 42, 90, 77, 118, 119, 6, 248, 93, 134, 144, 2, 74, 214, 189, 163, 64, 27, 233, 200, 203, 204, 201, 53, 246, 205, 31, 97, 34, 106, 225, 83, 56, 174, 26, 52, 0, 77, 51, 186, 13, 36, 106, 192, 76, 129, 177, 186, 242, 62, 59, 249, 238, 245, 247, 159, 43, 73, 52, 175, 135, 245, 82, 11, 105, 185, 75, 13, 152, 46, 133, 187, 85, 182, 114, 168, 114, 99, 122, 205, 116, 102, 252, 182, 14, 14, 143, 241, 132, 99, 176, 228, 178, 104, 42, 100, 71]), Ok(expected));
}

#[test]
fn round_trip_random_stored_blocks() {
    let expected: Vec<u8> = vec![165, 77, 202, 24, 37, 48, 187, 29, 109, 19, 44, 222, 214, 35, 123, 46, 217, 30, 63, 114, 31, 203, 25, 113, 23, 68, 148, 214, 73, 60, 157, 92, 52, 96, 190, 49, 32, 30, 105, 254, 218, 160, 238, 232, 185, 153, 127, 92, 124, 41, 153, 253, 175, 229, 147, 37, 60, 214, 84, 175, 77, 250, 215, 20, 39, 160, 174, 179, 254, 233, 35, 47, 138, 242, 33, 31, 158, 228, 145, 197, 177, 11, 236, 181, 86, 59, 252, 30, 111, 147, 66, 126, 203, 200, 254, 41, 85, 229, 205, 142, 70, 220, 142, 212, 183, 194, 118, 77, 42, 90, 77, 118, 119, 6, 248, 93, 134, 144, 2, 74, 214, 189, 163, 64, 27, 233, 200, 203, 204, 201, 53, 246, 205, 31, 97, 34, 106, 225, 83, 56, 174, 26, 52, 0, 77, 51, 186, 13, 36, 106, 192, 76, 129, 177, 186, 242, 62, 59, 249, 238, 245, 247, 159, 43, 73, 52, 175, 135, 245, 82, 11, 105, 185, 75, 13, 152, 46, 133, 187, 85, 182, 114, 168, 114, 99, 122, 205, 116, 102, 252, 182, 14, 14, 143, 241, 132, 99, 176, 228, 178];
    assert_eq!(decompress(&vec![1, 200, 0, 55, 255, 165, 77, 202, 24, 37, 48, 187, 29, 109, 19, 44, 222, 214, 35, 123, 46, 217, 30, 63, 114, 31, 203, 25, 113, 23, 68, 148, 214, 73, 60, 157, 92, 52, 96, 190, 49, 32, 30, 105, 254, 218, 160, 238, 232, 185, 153, 127, 92, 124, 41, 153, 253, 175, 229, 147, 37, 60, 214, 84, 175, 77, 250, 215, 20, 39, 160, 174, 179, 254, 233, 35, 47, 138, 242, 33, 31, 158, 228, 145, 197, 177, 11, 236, 181, 86, 59, 252, 30, 111, 147, 66, 126, 203, 200, 254, 41, 85, 229, 205, 142, 70, 220, 142, 212, 183, 194, 118, 77, 42, 90, 77, 118, 119, 6, 248, 93, 134, 144, 2, 74, 214, 189, 163, 64, 27, 233, 200, 203, 204, 201, 53, 246, 205, 31, 97, 34, 106, 225, 83, 56, 174, 26, 52, 0, 77, 51, 186, 13, 36, 106, 192, 76, 129, 177, 186, 242, 62, 59, 249, 238, 245, 247, 159, 43, 73, 52, 175, 135, 245, 82, 11, 105, 185, 75, 13, 152, 46, 133, 187, 85, 182, 114, 168, 114, 99, 122, 205, 116, 102, 252, 182, 14, 14, 143, 241, 132, 99, 176, 228, 178]), Ok(expected));
}

#[test]
fn hello_zlib_level_1() {
    assert_eq!(
        decompress_zlib(&vec![120, 1, 243, 72, 205, 201, 201, 215, 81, 240, 64, 162, 0, 63, 168, 6, 117]),
        Ok(b"Hello, Hello, Hello".to_vec())
    );
}

#[test]
fn hello_zlib_level_6() {
    assert_eq!(
        decompress_zlib(&vec![120, 156, 243, 72, 205, 201, 201, 215, 81, 240, 64, 162, 0, 63, 168, 6, 117]),
        Ok(b"Hello, Hello, Hello".to_vec())
    );
}

#[test]
fn hello_zlib_level_9() {
    assert_eq!(
        decompress_zlib(&vec![120, 218, 243, 72, 205, 201, 201, 215, 81, 240, 64, 162, 0, 63, 168, 6, 117]),
        Ok(b"Hello, Hello, Hello".to_vec())
    );
}

#[test]
fn hello_raw_deflate() {
    assert_eq!(decompress(&vec![243, 72, 205, 201, 201, 215, 81, 240, 64, 162, 0]), Ok(b"Hello, Hello, Hello".to_vec()));
}

#[test]
fn stored_block_exact() {
    let mut data: Vec<u8> = vec![1, 5, 0, 0xfa, 0xff];
    data.extend_from_slice(b"bytes");
    data.extend_from_slice(b"ignored tail");
    assert_eq!(decompress(&data), Ok(b"bytes".to_vec()));
}

#[test]
fn stored_block_empty() {
    assert_eq!(decompress(&[1, 0, 0, 0xff, 0xff]), Ok(vec![]));
}

#[test]
fn stored_block_nlen_mismatch() {
    let data: Vec<u8> = vec![1, 5, 0, 0xfb, 0xff, 1, 2, 3, 4, 5];
    assert_eq!(decompress(&data), Err(DecompressResult::UncompressedLengthMismatch));
}

#[test]
fn stored_block_too_short() {
    let data: Vec<u8> = vec![1, 5, 0, 0xfa, 0xff, 1, 2];
    assert_eq!(decompress(&data), Err(DecompressResult::UnexpectedEnd));
}

#[test]
fn two_stored_blocks() {
    assert_eq!(decompress(&vec![0, 3, 0, 252, 255, 97, 98, 99, 1, 2, 0, 253, 255, 100, 101]), Ok(b"abcde".to_vec()));
}

#[test]
fn overlapping_copy() {
    assert_eq!(decompress(&vec![75, 4, 1, 0]), Ok(b"aaaaa".to_vec()));
}

#[test]
fn fixed_huffman_literals() {
    let expected: Vec<u8> = vec![0, 7, 14, 21, 28, 35, 42, 49, 56, 63, 70, 77, 84, 91, 98, 105, 112, 119, 126, 133, 140, 68, 69, 70, 76, 65, 84, 69];
    assert_eq!(decompress(&vec![99, 96, 231, 19, 149, 81, 214, 50, 180, 176, 119, 243, 13, 137, 78, 202, 44, 40, 175, 107, 237, 113, 113, 117, 243, 113, 12, 113, 5, 0]), Ok(expected));
}

#[test]
fn dynamic_huffman_repeat_codes() {
    assert_eq!(decompress(&vec![13, 196, 53, 1, 0, 0, 0, 2, 176, 172, 104, 255, 8, 112, 108, 160, 156, 222, 0]), Ok(b"abcdefcde".to_vec()));
}

#[test]
fn dynamic_repeat_without_previous_length() {
    assert_eq!(decompress(&vec![13, 196, 53, 1, 0, 0, 0, 2, 48, 1, 0]), Err(DecompressResult::IllegalSmallTree));
}

#[test]
fn reserved_block_type() {
    assert_eq!(decompress(&[0x07, 0, 0]), Err(DecompressResult::IllegalBlockFormat));
    assert_eq!(decompress(&[0x06]), Err(DecompressResult::IllegalBlockFormat));
}

#[test]
fn truncated_mid_code() {
    assert_eq!(decompress(&vec![75, 76]), Err(DecompressResult::TreeError));
}

#[test]
fn distance_before_start() {
    assert_eq!(decompress(&vec![3, 2, 0]), Err(DecompressResult::InvalidDistance));
}

#[test]
fn empty_input() {
    assert_eq!(decompress(&[]), Err(DecompressResult::UnexpectedEnd));
    assert_eq!(decompress_zlib(&[0x78]), Err(DecompressResult::UnexpectedEnd));
    assert_eq!(decompress_zlib(&[0x78, 0x9c, 1, 2, 3]), Err(DecompressResult::UnexpectedEnd));
}

#[test]
fn missing_final_block() {
    // a non-final stored block and nothing after it
    assert_eq!(decompress(&[0, 1, 0, 0xfe, 0xff, 7]), Err(DecompressResult::UnexpectedEnd));
}

#[test]
fn zlib_dictionary_id_skipped() {
    assert_eq!(decompress_zlib(&vec![120, 187, 1, 2, 3, 4, 43, 200, 73, 204, 204, 83, 40, 73, 173, 40, 1, 0, 9, 9, 9, 9]), Ok(b"plain text".to_vec()));
}

#[test]
fn error_names() {
    assert_eq!(DecompressResult::IllegalBlockFormat.name(), "IllegalBlockFormat");
    assert_eq!(DecompressResult::UncompressedLengthMismatch.name(), "UncompressedLengthMismatch");
    assert_eq!(DecompressResult::TreeError.name(), "TreeError");
    assert_eq!(DecompressResult::IllegalSmallTree.name(), "IllegalSmallTree");
    assert_eq!(DecompressResult::InvalidDistance.name(), "InvalidDistance");
    assert_eq!(DecompressResult::UnexpectedEnd.name(), "UnexpectedEnd");
    assert_eq!(DecompressResult::TreeError.name(), format!("{:?}", DecompressResult::TreeError));
}
