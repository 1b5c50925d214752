use std::time::Duration;

use raknet::message::{InternalPing, NewIncomingConnection, Parse};
use raknet::util::MsgNumGenerator;
use raknet::{
    AckList, BitStreamRead, BitStreamWrite, Bits, Error, InternalPacket, OrderingChannel,
    PacketOrdering, PacketReliability, Queue, RakNetTime, SystemAddress,
};

#[test]
fn internal_packet_write() {
    let data = [0xABu8];
    let packet = InternalPacket {
        time: RakNetTime(0),
        msg_num: 7,
        reliability: PacketReliability::Reliable,
        ordering: None,
        is_split_packet: false,
        data_bit_size: 8,
        data: &data,
    };
    assert_eq!(packet.data(), &[0xAB]);
    let mut bs = BitStreamWrite::new();
    let written = packet.write(&mut bs);
    assert_eq!(written, 56);
    assert_eq!(bs.num_bits(), 56);
    assert_eq!(bs.data(), &[0x07, 0, 0, 0, 0x4E, 0, 0xAB]);
}

#[test]
fn internal_packet_parse() {
    let bytes = [0x07u8, 0, 0, 0, 0x4E, 0x00, 0xAB];
    let mut rd = BitStreamRead::new(&bytes);
    let packet = InternalPacket::parse(&mut rd, RakNetTime(9)).unwrap();
    assert_eq!(packet.time, RakNetTime(9));
    assert_eq!(packet.msg_num, 7);
    assert_eq!(packet.reliability, PacketReliability::Reliable);
    assert_eq!(packet.ordering, None);
    assert!(!packet.is_split_packet);
    assert_eq!(packet.data_bit_size, 8);
    assert_eq!(packet.data(), &[0xAB]);
    assert_eq!(rd.get_number_of_unread_bits(), 0);
}

#[test]
fn internal_packet_parse_ordered() {
    let bytes = [0x01u8, 0, 0, 0, 0x63, 0x09, 0, 0, 0, 0x42, 0, 0x01, 0x02];
    let mut rd = BitStreamRead::new(&bytes);
    let packet = InternalPacket::parse(&mut rd, RakNetTime(0)).unwrap();
    assert_eq!(packet.msg_num, 1);
    assert_eq!(packet.reliability, PacketReliability::ReliableOrdered);
    assert_eq!(
        packet.ordering,
        Some(PacketOrdering { index: 9, channel: OrderingChannel::from_bits(3) })
    );
    assert_eq!(packet.data_bit_size, 16);
    assert_eq!(packet.data(), &[0x01, 0x02]);
}

#[test]
fn internal_packet_parse_errors() {
    let mut rd = BitStreamRead::new(&[0x07, 0, 0]);
    assert!(matches!(InternalPacket::parse(&mut rd, RakNetTime(0)), Err(Error::BitStreamEos)));
    let mut rd = BitStreamRead::new(&[0x07, 0, 0, 0, 0x4E, 0x00]);
    assert!(matches!(InternalPacket::parse(&mut rd, RakNetTime(0)), Err(Error::BitStreamEos)));
}

#[test]
fn internal_packet_write_ordered() {
    let data = [1u8, 2];
    let packet = InternalPacket {
        time: RakNetTime(0),
        msg_num: 1,
        reliability: PacketReliability::ReliableOrdered,
        ordering: Some(PacketOrdering { index: 9, channel: OrderingChannel::from_bits(3) }),
        is_split_packet: false,
        data_bit_size: 16,
        data: &data,
    };
    let mut bs = BitStreamWrite::new();
    assert_eq!(packet.write(&mut bs), 104);
    assert_eq!(bs.data(), &[0x01, 0, 0, 0, 0x63, 0x09, 0, 0, 0, 0x42, 0, 0x01, 0x02]);
}

#[test]
fn empty_queue_datagram() {
    let mut queue = Queue::default();
    assert!(queue.is_empty());
    let mut output = BitStreamWrite::new();
    let mut gen = MsgNumGenerator::new();
    let mut acks = AckList::new();
    queue.generate_datagram(&mut output, &mut gen, RakNetTime(0), &mut acks);
    assert_eq!(output.num_bits(), 2);
    assert_eq!(output.data(), &[0x00]);
    assert_eq!(gen.next(), 0);
}

#[test]
fn queue_datagram_with_packet() {
    let mut queue = Queue::default();
    let mut payload = BitStreamWrite::new();
    payload.write(0x55u8);
    queue.push(payload, PacketReliability::Reliable);
    assert!(!queue.is_empty());
    let mut output = BitStreamWrite::new();
    let mut gen = MsgNumGenerator::new();
    let mut acks = AckList::new();
    queue.generate_datagram(&mut output, &mut gen, RakNetTime(0), &mut acks);
    assert!(queue.is_empty());
    assert_eq!(output.num_bits(), 88);
    assert_eq!(output.data(), &[0x40, 0, 0, 0, 0, 0, 0, 0, 0x13, 0x80, 0x55]);
    assert_eq!(gen.next(), 1);
}

#[test]
fn queue_datagram_with_acks() {
    let mut queue = Queue::default();
    let mut output = BitStreamWrite::new();
    let mut gen = MsgNumGenerator::new();
    let mut acks = AckList::new();
    acks.insert(3);
    queue.generate_datagram(&mut output, &mut gen, RakNetTime(0), &mut acks);
    assert!(acks.is_empty());
    assert_eq!(output.num_bits(), 73);
    assert_eq!(output.data(), &[0x80, 0, 0, 0, 0x63, 0x03, 0, 0, 0, 0x00]);
}

#[test]
fn msg_num_generator_counts_up() {
    let mut gen = MsgNumGenerator::default();
    assert_eq!(gen.next(), 0);
    assert_eq!(gen.next(), 1);
    assert_eq!(gen.next(), 2);
}

#[test]
fn internal_ping_parse() {
    let mut rd = BitStreamRead::new(&[0x04, 0x03, 0x02, 0x01]);
    let ping = InternalPing::from_bit_stream(&mut rd).unwrap();
    assert_eq!(ping.send_ping_time, RakNetTime(0x0102_0304));
    let mut short = BitStreamRead::new(&[0x04, 0x03]);
    assert!(matches!(InternalPing::from_bit_stream(&mut short), Err(Error::BitStreamEos)));
}

#[test]
fn new_incoming_connection_parse() {
    let bytes = [0x01u8, 0x00, 0x00, 0x7F, 0xD0, 0x07, 0x02, 0x01, 0xA8, 0xC0, 0x39, 0x30];
    let mut rd = BitStreamRead::new(&bytes);
    let msg = NewIncomingConnection::from_bit_stream(&mut rd).unwrap();
    assert_eq!(msg.local, SystemAddress::new(0x7F00_0001, 2000));
    assert_eq!(msg.remote, SystemAddress::new(0xC0A8_0102, 12345));
    let mut short = BitStreamRead::new(&bytes[..11]);
    assert!(matches!(NewIncomingConnection::from_bit_stream(&mut short), Err(Error::BitStreamEos)));
}

#[test]
fn time_from_duration() {
    assert_eq!(RakNetTime::try_from_duration(Duration::from_millis(1500)).unwrap(), RakNetTime(1500));
    assert_eq!(RakNetTime::try_from_duration(Duration::from_secs(5)).unwrap(), RakNetTime(5000));
    assert!(RakNetTime::try_from_duration(Duration::from_secs(5_000_000)).is_err());
    assert_eq!(RakNetTime::try_from_millis(7).unwrap(), RakNetTime(7));
    assert!(RakNetTime::try_from_millis(1 << 32).is_err());
    assert_eq!(RakNetTime::zero(), RakNetTime(0));
}

#[test]
fn reliability_bits() {
    assert_eq!(PacketReliability::ReliableSequenced.to_bits(), 4);
    assert_eq!(PacketReliability::from_bits(3), PacketReliability::ReliableOrdered);
    assert_eq!(OrderingChannel::from_bits(31).to_bits(), 31);
}

#[test]
fn parse_reads_back_write() {
    let mut bs = BitStreamWrite::new();
    for _ in 0..72 {
        bs.write_1();
    }
    let data = [0xABu8];
    let packet = InternalPacket {
        time: RakNetTime(0),
        msg_num: 7,
        reliability: PacketReliability::Reliable,
        ordering: None,
        is_split_packet: false,
        data_bit_size: 8,
        data: &data,
    };
    assert_eq!(packet.write(&mut bs), 56);
    assert_eq!(bs.num_bits(), 128);
    let mut rd = BitStreamRead::with_size(bs.data(), bs.num_bits());
    rd.ignore_bits(72).unwrap();
    let back = InternalPacket::parse(&mut rd, RakNetTime(4)).unwrap();
    assert_eq!(back.msg_num, 7);
    assert_eq!(back.reliability, PacketReliability::Reliable);
    assert_eq!(back.ordering, None);
    assert!(!back.is_split_packet);
    assert_eq!(back.data_bit_size, 8);
    assert_eq!(back.data(), &[0xAB]);
    assert_eq!(rd.get_number_of_unread_bits(), 0);
}

#[test]
fn fresh_stream_packet_round_trip() {
    let data = [0x86u8];
    let packet = InternalPacket {
        time: RakNetTime(0),
        msg_num: 0,
        reliability: PacketReliability::Reliable,
        ordering: None,
        is_split_packet: false,
        data_bit_size: 8,
        data: &data,
    };
    let mut bs = BitStreamWrite::new();
    assert_eq!(packet.write(&mut bs), 56);
    assert_eq!(bs.data(), &[0, 0, 0, 0, 0x4E, 0x00, 0x86]);
    let mut rd = BitStreamRead::new(bs.data());
    let back = InternalPacket::parse(&mut rd, RakNetTime(3)).unwrap();
    assert_eq!(back.msg_num, 0);
    assert_eq!(back.time, RakNetTime(3));
    assert_eq!(back.data(), &[0x86]);
}
