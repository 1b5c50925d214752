use raknet::message::MessageId;
use raknet::server::connection::PacketOutcome;
use raknet::server::{find_connection, on_datagram, PeerAction};
use raknet::{BitStreamWrite, PacketReliability, RakNetTime, RemoteSystem, SystemAddress};

fn addr() -> SystemAddress {
    SystemAddress::new(0x7F00_0001, 1001)
}

#[test]
fn new_connection_is_idle() {
    let mut conn = RemoteSystem::new(addr());
    assert_eq!(conn.system_address(), addr());
    assert!(conn.can_update());
    assert!(conn.update().is_none());
}

#[test]
fn update_sends_first_packet() {
    let mut conn = RemoteSystem::new(addr());
    let mut payload = BitStreamWrite::new();
    payload.write(0x55u8);
    conn.send(payload, PacketReliability::Reliable);
    assert!(conn.can_update());
    let out = conn.update().unwrap();
    assert_eq!(out.num_bits(), 88);
    assert_eq!(out.data(), &[0x40, 0, 0, 0, 0, 0, 0, 0, 0x13, 0x80, 0x55]);
    assert!(conn.update().is_none());

    let mut receiver = RemoteSystem::new(SystemAddress::new(0x7F00_0001, 1002));
    let packets = receiver.read_datagram(out.data()).unwrap();
    assert_eq!(packets.len(), 1);
    assert_eq!(packets[0].data(), &[0x55]);
}

#[test]
fn ordered_packet_cannot_be_sent() {
    let mut conn = RemoteSystem::new(addr());
    conn.send(BitStreamWrite::new(), PacketReliability::ReliableOrdered);
    assert!(!conn.can_update());
}

#[test]
fn read_datagram_with_one_packet() {
    let mut conn = RemoteSystem::new(addr());
    let bytes = [0x40u8, 0, 0, 0, 0, 0, 0, 0, 0x13, 0x80, 0x55];
    let packets = conn.read_datagram(&bytes).unwrap();
    assert_eq!(packets.len(), 1);
    assert_eq!(packets[0].msg_num, 0);
    assert_eq!(packets[0].reliability, PacketReliability::Reliable);
    assert_eq!(packets[0].time, RakNetTime(0));
    assert_eq!(packets[0].data_bit_size, 8);
    assert_eq!(packets[0].data(), &[0x55]);
}

#[test]
fn read_datagram_with_acks_and_time() {
    let mut conn = RemoteSystem::new(addr());
    let bytes = [
        0x80u8, 0, 0, 0, 0x63, 0x05, 0, 0, 0, 0xF4, 0x01, 0x80, 0x00, 0x01, 0x80, 0x00, 0x00,
        0x04, 0x20, 0x11, 0x22,
    ];
    let packets = conn.read_datagram(&bytes).unwrap();
    assert_eq!(packets.len(), 1);
    assert_eq!(packets[0].msg_num, 3);
    assert_eq!(packets[0].reliability, PacketReliability::Unreliable);
    assert_eq!(packets[0].time, RakNetTime(1000));
    assert_eq!(packets[0].data_bit_size, 16);
    assert_eq!(packets[0].data(), &[0x11, 0x22]);

    // The packet is acknowledged in the next datagram.
    let out = conn.update().unwrap();
    assert_eq!(out.num_bits(), 73);
    assert_eq!(out.data(), &[0x80, 0, 0, 0, 0x63, 0x03, 0, 0, 0, 0x00]);
    assert!(conn.update().is_none());
}

#[test]
fn read_datagram_without_time() {
    let mut conn = RemoteSystem::new(addr());
    assert_eq!(conn.read_datagram(&[0x00]).unwrap().len(), 0);
    assert!(conn.update().is_none());
}

#[test]
fn read_datagram_malformed() {
    let mut conn = RemoteSystem::new(addr());
    assert!(conn.read_datagram(&[]).is_none());
    assert!(conn.read_datagram(&[0x80, 0x00]).is_none());
    assert!(conn.read_datagram(&[0x40, 0x00]).is_none());
    assert!(conn.read_datagram(&[0x40, 0, 0, 0, 0, 0, 0, 0, 0x13, 0x80]).is_none());
    assert!(conn.update().is_none());
}

#[test]
fn read_datagram_refuses_last_message_number() {
    let mut conn = RemoteSystem::new(addr());
    // Time 0, then a packet numbered u32::MAX.
    let bytes = [0x40u8, 0, 0, 0, 0x3F, 0xFF, 0xFF, 0xFF, 0xD3, 0x80, 0x55];
    assert!(conn.read_datagram(&bytes).is_none());
    assert!(conn.update().is_none());
}

#[test]
fn datagram_round_trip() {
    let mut sender = RemoteSystem::new(addr());
    let incoming = [
        0x80u8, 0, 0, 0, 0x63, 0x05, 0, 0, 0, 0xF4, 0x01, 0x80, 0x00, 0x01, 0x80, 0x00, 0x00,
        0x04, 0x20, 0x11, 0x22,
    ];
    assert_eq!(sender.read_datagram(&incoming).unwrap().len(), 1);
    let mut payload = BitStreamWrite::new();
    payload.write(0x55u8);
    sender.send(payload, PacketReliability::Reliable);
    let out = sender.update().unwrap();
    assert_eq!(out.num_bits(), 160);
    assert_eq!(
        out.data(),
        &[0x80, 0, 0, 0, 0x63, 0x03, 0, 0, 0, 0x80, 0, 0, 0, 0, 0, 0, 0, 0x27, 0, 0x55]
    );

    let mut receiver = RemoteSystem::new(SystemAddress::new(0x7F00_0001, 1002));
    let packets = receiver.read_datagram(out.data()).unwrap();
    assert_eq!(packets.len(), 1);
    assert_eq!(packets[0].msg_num, 0);
    assert_eq!(packets[0].reliability, PacketReliability::Reliable);
    assert_eq!(packets[0].time, RakNetTime(0));
    assert_eq!(packets[0].data_bit_size, 8);
    assert_eq!(packets[0].data(), &[0x55]);
}

#[test]
fn acknowledgements_only_datagram_round_trip() {
    let mut sender = RemoteSystem::new(addr());
    let incoming = [0x40u8, 0, 0, 0, 0, 0, 0, 0, 0x13, 0x80, 0x55];
    assert_eq!(sender.read_datagram(&incoming).unwrap().len(), 1);
    let out = sender.update().unwrap();
    let mut receiver = RemoteSystem::new(SystemAddress::new(0x7F00_0001, 1002));
    assert_eq!(receiver.read_datagram(out.data()).unwrap().len(), 0);
    assert!(receiver.update().is_none());
}

fn reply_ids() -> raknet::message::ReplyIds {
    raknet::message::ReplyIds {
        invalid_password: 0xA1,
        connection_request_accepted: 0xA2,
        connected_pong: 0xA3,
        open_connection_reply: 0xA4,
    }
}

fn config(password: &str) -> raknet::RakPeerConfig {
    raknet::RakPeerConfig {
        max_incoming_connections: 10,
        incoming_password: bstr::BString::from(password),
    }
}

fn packet_of(data: &[u8]) -> raknet::InternalPacket<'_> {
    raknet::InternalPacket {
        time: RakNetTime(0),
        msg_num: 0,
        reliability: PacketReliability::Reliable,
        ordering: None,
        is_split_packet: false,
        data_bit_size: 8 * data.len(),
        data,
    }
}

/// The data of the one packet in the datagram `conn` sends next.
fn sent_packet(conn: &mut RemoteSystem) -> Vec<u8> {
    let out = conn.update().unwrap();
    let mut receiver = RemoteSystem::new(SystemAddress::new(1, 1));
    let packets = receiver.read_datagram(out.data()).unwrap();
    assert_eq!(packets.len(), 1);
    packets[0].data().to_vec()
}

#[test]
fn connection_request_accepted() {
    let mut conn = RemoteSystem::new(SystemAddress::new(0x0A00_0002, 0x1234));
    let data = [0x04u8, b'p', b'w'];
    let local = SystemAddress::new(0x7F00_0001, 2000);
    let r = conn.handle_packet(
        &packet_of(&data),
        Some(MessageId::ConnectionRequest),
        &reply_ids(),
        local,
        0,
        &config("pw"),
    );
    assert_eq!(r, PacketOutcome::Handled);
    assert_eq!(
        sent_packet(&mut conn),
        vec![0xA2, 10, 0, 0, 2, 0x34, 0x12, 1, 0, 127, 0, 0, 1, 0xD0, 0x07]
    );
}

#[test]
fn connection_request_wrong_password() {
    let mut conn = RemoteSystem::new(addr());
    let data = [0x04u8, b'n', b'o'];
    let r = conn.handle_packet(
        &packet_of(&data),
        Some(MessageId::ConnectionRequest),
        &reply_ids(),
        addr(),
        0,
        &config("pw"),
    );
    assert_eq!(r, PacketOutcome::Handled);
    assert_eq!(sent_packet(&mut conn), vec![0xA1]);
}

#[test]
fn ping_is_answered() {
    let mut conn = RemoteSystem::new(addr());
    let data = [0x00u8, 0x04, 0x03, 0x02, 0x01];
    let r = conn.handle_packet(
        &packet_of(&data),
        Some(MessageId::InternalPing),
        &reply_ids(),
        addr(),
        0x0A0B_0C0D,
        &config("pw"),
    );
    assert_eq!(r, PacketOutcome::Handled);
    assert_eq!(sent_packet(&mut conn), vec![0xA3, 4, 3, 2, 1, 0x0D, 0x0C, 0x0B, 0x0A]);

    let short = [0x00u8, 0x04];
    let r = conn.handle_packet(
        &packet_of(&short),
        Some(MessageId::InternalPing),
        &reply_ids(),
        addr(),
        0,
        &config("pw"),
    );
    assert_eq!(r, PacketOutcome::Unreadable);
    assert!(conn.update().is_none());
}

#[test]
fn other_packets() {
    let mut conn = RemoteSystem::new(addr());
    let data = [0x54u8, 1, 2];
    let cfg = config("pw");
    assert_eq!(
        conn.handle_packet(&packet_of(&data), None, &reply_ids(), addr(), 0, &cfg),
        PacketOutcome::UserPacket
    );
    assert_eq!(
        conn.handle_packet(&packet_of(&data), Some(MessageId::Other), &reply_ids(), addr(), 0, &cfg),
        PacketOutcome::Handled
    );
    assert_eq!(
        conn.handle_packet(
            &packet_of(&data),
            Some(MessageId::NewIncomingConnection),
            &reply_ids(),
            addr(),
            0,
            &cfg
        ),
        PacketOutcome::Unreadable
    );
    assert!(conn.update().is_none());
}

#[test]
fn peer_opens_and_finds_connections() {
    let mut conns: Vec<RemoteSystem> = Vec::new();
    let ids = reply_ids();
    assert_eq!(on_datagram(&mut conns, addr(), Some(MessageId::Other), &ids), PeerAction::Ignore);
    assert_eq!(conns.len(), 0);
    assert_eq!(
        on_datagram(&mut conns, addr(), Some(MessageId::OpenConnectionRequest), &ids),
        PeerAction::Opened(vec![0xA4, 0])
    );
    assert_eq!(conns.len(), 1);
    assert_eq!(find_connection(&conns, addr()), Some(0));
    assert_eq!(on_datagram(&mut conns, addr(), None, &ids), PeerAction::Connection(0));
    assert_eq!(find_connection(&conns, SystemAddress::new(9, 9)), None);
}
