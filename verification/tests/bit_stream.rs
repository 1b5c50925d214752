use raknet::{BitStreamRead, BitStreamWrite, Bits, Error, OrderingChannel, PacketReliability};

#[test]
fn test_read() {
    let mut bit_stream = BitStreamRead::new(&[0b11100011, 0b00000100]);
    assert!(bit_stream.read_bit());
    assert!(bit_stream.read_bit());
    assert!(bit_stream.read_bit());
    assert!(!bit_stream.read_bit());
    assert!(!bit_stream.read_bit());
    assert!(!bit_stream.read_bit());
    assert_eq!(bit_stream.read::<u8>(), Ok(0b11000001));
}

#[test]
fn write_then_read_values() {
    let mut bs = BitStreamWrite::new();
    bs.write(0x1234_5678u32);
    bs.write_bool(true);
    bs.write(0xABu8);
    assert_eq!(bs.num_bits(), 41);
    assert_eq!(bs.data(), &[0x78, 0x56, 0x34, 0x12, 0xD5, 0x80]);

    let mut rd = BitStreamRead::with_size(bs.data(), bs.num_bits());
    assert_eq!(rd.read::<u32>(), Ok(0x1234_5678));
    assert_eq!(rd.read_bool(), Ok(true));
    assert_eq!(rd.read::<u8>(), Ok(0xAB));
    assert_eq!(rd.get_number_of_unread_bits(), 0);
    assert_eq!(rd.read_bool(), Err(Error::BitStreamEos));
}

#[test]
fn single_bits() {
    let mut bs = BitStreamWrite::with_capacity(16);
    bs.write_0();
    bs.write_1();
    bs.write_1();
    bs.write_0();
    assert_eq!(bs.num_bits(), 4);
    assert_eq!(bs.data(), &[0x60]);
}

#[test]
fn compressed_small_value() {
    let mut bs = BitStreamWrite::new();
    bs.write_compressed(5u32);
    assert_eq!(bs.num_bits(), 8);
    assert_eq!(bs.data(), &[0xF5]);
    let mut rd = BitStreamRead::new(bs.data());
    assert_eq!(rd.read_compressed::<u32>(), Ok(5));
}

#[test]
fn compressed_round_trip() {
    let mut bs = BitStreamWrite::new();
    bs.write_compressed(0x1234u32);
    assert_eq!(bs.num_bits(), 19);
    assert_eq!(bs.data(), &[0xC6, 0x82, 0x40]);
    let mut rd = BitStreamRead::with_size(bs.data(), bs.num_bits());
    assert_eq!(rd.read_compressed::<u32>(), Ok(0x1234));
    assert_eq!(rd.get_number_of_unread_bits(), 0);
}

#[test]
fn compressed_high_nibble() {
    let mut bs = BitStreamWrite::new();
    bs.write_compressed(0xF0u16);
    assert_eq!(bs.num_bits(), 10);
    assert_eq!(bs.data(), &[0xBC, 0x00]);
    let mut rd = BitStreamRead::with_size(bs.data(), bs.num_bits());
    assert_eq!(rd.read_compressed::<u16>(), Ok(0xF0));
}

#[test]
fn compressed_read_past_end() {
    let mut rd = BitStreamRead::with_size(&[0xFF], 3);
    assert_eq!(rd.read_compressed::<u32>(), Err(Error::BitStreamEos));
}

#[test]
fn bits_of_enums() {
    let mut bs = BitStreamWrite::new();
    bs.write_1();
    bs.write_bits(PacketReliability::R5);
    bs.write_bits(OrderingChannel::from_bits(17));
    assert_eq!(bs.num_bits(), 9);
    assert_eq!(bs.data(), &[0xD8, 0x80]);

    let mut rd = BitStreamRead::with_size(bs.data(), bs.num_bits());
    assert_eq!(rd.read_bool(), Ok(true));
    assert_eq!(rd.read_bits::<PacketReliability>(), Ok(PacketReliability::R5));
    let channel = rd.read_bits::<OrderingChannel>();
    assert_eq!(channel, Ok(OrderingChannel::from_bits(17)));
    assert_eq!(channel.unwrap().to_bits(), 17);
    assert_eq!(rd.read_bits::<PacketReliability>(), Err(Error::BitStreamEos));
}

#[test]
fn aligned_bytes() {
    let mut bs = BitStreamWrite::new();
    bs.write_1();
    bs.write_aligned_bytes(&[0xAA, 0xBB]);
    assert_eq!(bs.num_bits(), 24);
    assert_eq!(bs.data(), &[0x80, 0xAA, 0xBB]);

    let mut rd = BitStreamRead::new(bs.data());
    assert_eq!(rd.read_bool(), Ok(true));
    assert_eq!(rd.read_aligned_bytes(2), Ok(&[0xAA, 0xBB][..]));
    assert_eq!(rd.get_number_of_unread_bits(), 0);
}

#[test]
fn aligned_bytes_errors() {
    let mut rd = BitStreamRead::new(&[0x80, 0xAA]);
    assert_eq!(rd.read_aligned_bytes(0), Err(Error::BitStreamEos));
    assert_eq!(rd.read_bool(), Ok(true));
    assert_eq!(rd.read_aligned_bytes(2), Err(Error::BitStreamEos));
    assert_eq!(rd.get_number_of_unread_bits(), 8);
    assert_eq!(rd.read_aligned_bytes(1), Ok(&[0xAA][..]));
}

#[test]
fn write_bytes_on_and_off_boundary() {
    let mut bs = BitStreamWrite::new();
    bs.write_bytes(&[1, 2, 3], 3);
    assert_eq!(bs.num_bits(), 24);
    assert_eq!(bs.data(), &[1, 2, 3]);

    let mut bs = BitStreamWrite::new();
    bs.write_1();
    bs.write_bytes(&[0xFF], 1);
    assert_eq!(bs.num_bits(), 9);
    assert_eq!(bs.data(), &[0xFF, 0x80]);

    let mut bs = BitStreamWrite::new();
    bs.write_bytes(&[], 0);
    assert_eq!(bs.num_bits(), 0);
    assert_eq!(bs.data(), &[] as &[u8]);
}

#[test]
fn read_past_end() {
    let mut rd = BitStreamRead::new(&[1, 2, 3]);
    assert_eq!(rd.read::<u32>(), Err(Error::BitStreamEos));
    assert_eq!(rd.get_number_of_unread_bits(), 24);
    assert_eq!(rd.read::<u16>(), Ok(0x0201));
    assert_eq!(rd.ignore_bits(9), Err(Error::BitStreamEos));
    assert_eq!(rd.ignore_bits(8), Ok(()));
    assert_eq!(rd.get_number_of_unread_bits(), 0);

    let mut empty = BitStreamRead::new(&[]);
    assert_eq!(empty.read_bool(), Err(Error::BitStreamEos));
}

#[test]
fn with_size_limits_reads() {
    let mut rd = BitStreamRead::with_size(&[0xFF, 0xFF], 12);
    assert_eq!(rd.get_number_of_unread_bits(), 12);
    assert_eq!(rd.read::<u16>(), Err(Error::BitStreamEos));
    assert_eq!(rd.read::<u8>(), Ok(0xFF));
    assert_eq!(rd.read::<u8>(), Err(Error::BitStreamEos));
}

#[test]
fn error_messages() {
    assert_eq!(Error::BitStreamEos.message(), "BitStream read past EOS");
    assert_eq!(Error::MissingID.message(), "Missing packet ID");
    assert_eq!(Error::MissingTimedID.message(), "Missing packet ID after timestamp");
}

#[test]
fn aligned_bytes_after_spare_buffer() {
    let mut bs = BitStreamWrite::new();
    for _ in 0..9 {
        bs.write_1();
    }
    bs.write_aligned_bytes(&[0xAB]);
    assert_eq!(bs.num_bits(), 24);
    assert_eq!(bs.data(), &[0xFF, 0x80, 0xAB]);

    let mut bs = BitStreamWrite::new();
    bs.write(0x0102_0304u32);
    bs.write_aligned_bytes(&[9, 8]);
    assert_eq!(bs.data(), &[0x04, 0x03, 0x02, 0x01, 0x09, 0x08]);
    let mut rd = BitStreamRead::with_size(bs.data(), bs.num_bits());
    assert_eq!(rd.read::<u32>(), Ok(0x0102_0304));
    assert_eq!(rd.read_aligned_bytes(2), Ok(&[9, 8][..]));
}

#[test]
fn write_bytes_after_spare_buffer() {
    let mut bs = BitStreamWrite::new();
    for _ in 0..16 {
        bs.write_1();
    }
    bs.write_bytes(&[0xAB], 1);
    assert_eq!(bs.num_bits(), 24);
    assert_eq!(bs.data(), &[0xFF, 0xFF, 0xAB]);
}
