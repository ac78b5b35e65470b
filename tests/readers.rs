use inflate_core::bit_reader::Decoder;
use inflate_core::byte_decoder::ByteDecoder;

#[test]
fn next_bit_least_significant_first() {
    let data = [0b1110_1001u8];
    let mut d = Decoder::from_bytes(&data);
    let bits: Vec<u8> = (0..8).map(|_| d.next_bit()).collect();
    assert_eq!(bits, vec![1, 0, 0, 1, 0, 1, 1, 1]);
}

#[test]
fn next_bits_first_bit_is_least_significant() {
    let data = [0b1100_1011u8, 0b0000_0001];
    let mut d = Decoder::from_bytes(&data);
    assert_eq!(d.next_bits(3), 0b011);
    assert_eq!(d.next_bits(5), 0b11001);
    assert_eq!(d.next_bits(1), 1);
}

#[test]
fn next_bits_across_bytes() {
    let data = [0xffu8, 0x00, 0xaa];
    let mut d = Decoder::from_bytes(&data);
    assert_eq!(d.next_bits(4), 0xf);
    assert_eq!(d.next_bits(8), 0x0f);
    assert_eq!(d.next_bits(12), 0xaa0);
}

#[test]
fn byte_reads_skip_partial_byte() {
    let data = [0xffu8, 0x12, 0x34, 0x56, 0x78, 0x9a];
    let mut d = Decoder::from_bytes(&data);
    assert_eq!(d.next_bit(), 1);
    assert_eq!(d.next_byte(), 0x12);
    assert_eq!(d.next_bytes_as_number(2), 0x5634);
    assert_eq!(d.next_bytes_as_slice(2), &[0x78u8, 0x9a][..]);
}

#[test]
fn next_bytes_as_number_four_bytes() {
    let data = [0x01u8, 0x02, 0x03, 0x04];
    let mut d = Decoder::from_bytes(&data);
    assert_eq!(d.next_bytes_as_number(4), 0x0403_0201);
}

#[test]
fn byte_decoder_integers() {
    let data = [0x01u8, 0x02, 0x03, 0x04, 0x34, 0x12, 0xfe, 0xff];
    let mut d = ByteDecoder::new(&data);
    assert_eq!(d.decode_u32_le(), 0x0403_0201);
    assert_eq!(d.decode_u16_le(), 0x1234);
    assert_eq!(d.decode_i16_le(), -2);
}

#[test]
fn byte_decoder_check_bytes() {
    let data = b"RIFF....WAVE";
    let mut d = ByteDecoder::new(data);
    assert!(d.check_bytes(b"RIFF").is_ok());
    assert!(d.check_bytes(b"WAVE").is_err());
    assert_eq!(d.decode_u32_le(), u32::from_le_bytes(*b"...."));
    assert!(d.check_bytes(b"WAVE").is_ok());
    assert!(d.check_bytes(b"X").is_err());
}

#[test]
fn zero_byte_number_read_aligns() {
    let data = [0xffu8, 0x12];
    let mut d = Decoder::from_bytes(&data);
    assert_eq!(d.next_bit(), 1);
    assert_eq!(d.next_bytes_as_number(0), 0);
    assert_eq!(d.next_bits(8), 0x12);
}
