use inflate_core::bit_reader::Decoder;
use inflate_core::huffman::HuffmanTree;
use inflate_core::inflate::DecompressResult;

// The example of RFC 1951, section 3.2.2: lengths (3, 3, 3, 3, 3, 2, 4, 4)
// give F = 00, A = 010, ..., E = 110, G = 1110, H = 1111.
fn example_tree() -> HuffmanTree {
    HuffmanTree::from_bitlengths(&[3, 3, 3, 3, 3, 2, 4, 4], &[0, 1, 2, 3, 4, 5, 6, 7])
}

#[test]
fn decode_codes_of_each_depth() {
    let tree = example_tree();
    // F A H: bits 00 010 1111, packed least significant bit first.
    let data = [0b1110_1000u8, 0b0000_0001];
    let mut d = Decoder::from_bytes(&data);
    assert_eq!(tree.decode_symbol(&mut d), Ok(5));
    assert_eq!(tree.decode_symbol(&mut d), Ok(0));
    assert_eq!(tree.decode_symbol(&mut d), Ok(7));
}

#[test]
fn decode_three_bit_codes() {
    let tree = example_tree();
    // E = 110, B = 011, G = 1110
    let data = [0b1111_0011u8, 0b0000_0001];
    let mut d = Decoder::from_bytes(&data);
    assert_eq!(tree.decode_symbol(&mut d), Ok(4));
    assert_eq!(tree.decode_symbol(&mut d), Ok(1));
    assert_eq!(tree.decode_symbol(&mut d), Ok(6));
}

#[test]
fn decode_missing_branch_is_tree_error() {
    let tree = HuffmanTree::from_bitlengths(&[1, 0], &[0, 1]);
    let data = [0b10u8];
    let mut d = Decoder::from_bytes(&data);
    assert_eq!(tree.decode_symbol(&mut d), Ok(0));
    assert_eq!(tree.decode_symbol(&mut d), Err(DecompressResult::TreeError));
}

#[test]
fn decode_past_end_is_tree_error() {
    let tree = example_tree();
    let data = [0b1111_1111u8];
    let mut d = Decoder::from_bytes(&data);
    assert_eq!(tree.decode_symbol(&mut d), Ok(7));
    assert_eq!(tree.decode_symbol(&mut d), Ok(7));
    assert_eq!(tree.decode_symbol(&mut d), Err(DecompressResult::TreeError));
}

#[test]
fn empty_tree_decodes_nothing() {
    let tree = HuffmanTree::from_bitlengths(&[0, 0, 0], &[0, 1, 2]);
    let data = [0u8];
    let mut d = Decoder::from_bytes(&data);
    assert_eq!(tree.decode_symbol(&mut d), Err(DecompressResult::TreeError));
}

#[test]
fn tree_from_more_than_five_hundred_positions() {
    // 600 positions, of which only the last two carry a code of one bit.
    let mut lengths = vec![0u16; 600];
    lengths[598] = 1;
    lengths[599] = 1;
    let alphabet: Vec<u16> = (0..600).collect();
    let tree = HuffmanTree::from_bitlengths(&lengths, &alphabet);
    let data = [0b10u8];
    let mut d = Decoder::from_bytes(&data);
    assert_eq!(tree.decode_symbol(&mut d), Ok(598));
    assert_eq!(tree.decode_symbol(&mut d), Ok(599));
}
