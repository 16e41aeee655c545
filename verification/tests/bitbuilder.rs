use network_common::bitbuilder::BitBuilder;

#[test]
fn test_bitbuilder_get_bit_gets_bit_1() {
    let mut builder = BitBuilder::new();

    builder.push_bit(true);
    builder.push_bit(false);
    builder.push_bit(true);

    println!("{:?}", &builder);

    assert_eq!(builder.get_bit(0), Some(true));
    assert_eq!(builder.get_bit(1), Some(false));
    assert_eq!(builder.get_bit(2), Some(true));
}

#[test]
fn test_bitbuilder_get_bit_gets_bit_2() {
    let mut builder = BitBuilder::new();

    builder.push_byte(u8::MAX);

    builder.push_bit(true);
    builder.push_bit(false);
    builder.push_bit(false);

    println!("{:?}", &builder);

    assert_eq!(builder.get_bit(0 + 8), Some(true));
    assert_eq!(builder.get_bit(1 + 8), Some(false));
    assert_eq!(builder.get_bit(2 + 8), Some(false));
}

#[test]
fn test_bitbuidler_get_bit_gets_none_when_out_of_index() {
    let mut builder = BitBuilder::new();

    builder.push_bit(true);
    builder.push_bit(false);

    println!("{:?}", &builder);

    assert_eq!(builder.get_bit(2), None);
    assert_eq!(builder.get_bit(20), None);
}

#[test]
fn test_bitbuilder_from_bit_string() {
    let builder = BitBuilder::from_bit_string("001010101");

    println!("{:?}", &builder);

    assert_eq!(builder.get_bit(0), Some(false));
    assert_eq!(builder.get_bit(1), Some(false));
    assert_eq!(builder.get_bit(2), Some(true));
    assert_eq!(builder.get_bit(3), Some(false));
    assert_eq!(builder.get_bit(4), Some(true));
    assert_eq!(builder.get_bit(5), Some(false));
    assert_eq!(builder.get_bit(6), Some(true));
    assert_eq!(builder.get_bit(7), Some(false));
    assert_eq!(builder.get_bit(8), Some(true));
}

#[test]
fn new_builder_is_empty_with_one_zero_byte() {
    let builder = BitBuilder::new();
    assert_eq!(builder.len(), 0);
    assert_eq!(builder.as_bytes(), &[0u8][..]);
    assert_eq!(builder.get_bit(0), None);
}

#[test]
fn push_bits_pack_most_significant_first() {
    let mut builder = BitBuilder::new();
    builder.push_bit(true);
    builder.push_bit(false);
    builder.push_bit(true);
    assert_eq!(builder.len(), 3);
    assert_eq!(builder.as_bytes(), &[0b1010_0000u8][..]);
}

#[test]
fn push_byte_at_boundary_opens_padding_byte() {
    let mut builder = BitBuilder::new();
    builder.push_byte(0xAB);
    assert_eq!(builder.len(), 8);
    assert_eq!(builder.as_bytes(), &[0xABu8, 0x00][..]);
    assert_eq!(builder.get_byte(0), Some(0xAB));
    assert_eq!(builder.get_byte(1), Some(0));
    assert_eq!(builder.get_byte(2), None);
}

#[test]
fn push_byte_after_three_bits_straddles_bytes() {
    let mut builder = BitBuilder::new();
    builder.push_bit(true);
    builder.push_bit(true);
    builder.push_bit(false);
    builder.push_byte(0b1010_1111);
    assert_eq!(builder.len(), 11);
    assert_eq!(builder.as_bytes(), &[0b1101_0101u8, 0b1110_0000][..]);
}

#[test]
fn eight_pushed_bits_have_no_padding_byte() {
    let mut builder = BitBuilder::new();
    for i in 0..8 {
        builder.push_bit(i % 2 == 0);
    }
    assert_eq!(builder.as_bytes(), &[0b1010_1010u8][..]);
    builder.push_bit(true);
    assert_eq!(builder.as_bytes(), &[0b1010_1010u8, 0b1000_0000][..]);
}

#[test]
fn push_u32_is_big_endian() {
    let mut builder = BitBuilder::new();
    builder.push_u32(0x0102_0304);
    assert_eq!(builder.len(), 32);
    assert_eq!(builder.as_bytes(), &[1u8, 2, 3, 4, 0][..]);
    assert_eq!(builder.get_bit(31), Some(false));
    assert_eq!(builder.get_bit(29), Some(true));
}

#[test]
fn get_bits_and_bytes_ranges() {
    let mut builder = BitBuilder::new();
    builder.append_bytes(&[0xF0, 0x0F]);
    assert_eq!(builder.get_bits(2..6), Some(vec![true, true, false, false]));
    assert_eq!(builder.get_bits(14..17), None);
    assert_eq!(builder.get_bits(5..5), Some(vec![]));
    assert_eq!(builder.get_bits(30..20), Some(vec![]));
    assert_eq!(builder.get_bytes(0..3), Some(vec![0xF0, 0x0F, 0x00]));
    assert_eq!(builder.get_bytes(1..4), None);
}

#[test]
fn append_bits_then_bitstring() {
    let mut builder = BitBuilder::new();
    builder.append_bits(&vec![true, false, true, true, false, false]);
    assert_eq!(builder.get_bitstring(), " 1011 00");
}

#[test]
fn bitstring_roundtrip_through_from_bit_string() {
    let mut builder = BitBuilder::new();
    builder.append_bytes(&[0x5A, 0xC3]);
    builder.push_bit(true);
    let text = builder.get_bitstring();
    assert_eq!(text, " 0101 1010 1100 0011 1");
    let again = BitBuilder::from_bit_string(&text);
    assert_eq!(again.len(), builder.len());
    for i in 0..builder.len() {
        assert_eq!(again.get_bit(i), builder.get_bit(i));
    }
}

#[test]
fn from_bit_string_skips_other_characters() {
    let builder = BitBuilder::from_bit_string("1x0 1");
    assert_eq!(builder.len(), 3);
    assert_eq!(builder.get_bits(0..3), Some(vec![true, false, true]));
}

#[test]
fn bytes_appended_at_a_boundary_read_back() {
    let mut builder = BitBuilder::new();
    builder.push_bit(true);
    builder.push_bit(false);
    builder.push_bit(true);
    builder.push_bit(true);
    builder.push_bit(false);
    builder.push_bit(false);
    builder.push_bit(true);
    builder.push_bit(false);
    builder.append_bytes(&[1, 2, 0xff]);
    let bytes = builder.as_bytes();
    assert_eq!(bytes[0], 0b1011_0010);
    assert_eq!(&bytes[1..4], &[1, 2, 0xff]);
    assert_eq!(builder.get_bytes(1..4), Some(vec![1, 2, 0xff]));
}

#[test]
fn bits_and_bytes_at_listed_indices() {
    let builder = BitBuilder::from_bit_string("1100 1010 0001");
    assert_eq!(builder.get_bits_at(&[4, 0, 2, 0]), Some(vec![true, true, false, true]));
    assert_eq!(builder.get_bits_at(&[]), Some(vec![]));
    assert_eq!(builder.get_bits_at(&[1, 12]), None);
    assert_eq!(builder.get_bytes_at(&[1, 0]), Some(vec![0b0001_0000, 0b1100_1010]));
    assert_eq!(builder.get_bytes_at(&[2]), None);
}

#[test]
fn from_bit_string_opens_no_extra_byte() {
    assert_eq!(BitBuilder::from_bit_string("").as_bytes(), &[0]);
    assert_eq!(BitBuilder::from_bit_string("00000000").as_bytes(), &[0]);
    assert_eq!(BitBuilder::from_bit_string("111111111").as_bytes(), &[0xff, 0x80]);
}

#[test]
fn push_u32_appends_big_endian_bytes() {
    let x: u32 = 0x1234_abcd;
    let mut a = BitBuilder::from_bit_string("101");
    let mut b = a.clone();
    a.push_u32(x);
    b.append_bytes(&x.to_be_bytes());
    assert_eq!(a.as_bytes(), b.as_bytes());
    assert_eq!(a.len(), b.len());
    assert_eq!(a.len(), 35);
}
