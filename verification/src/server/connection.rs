//! A connection to a remote system: what it acknowledges and what it sends.
use vstd::prelude::*;

use crate::bit_stream::{
    can_grow, lemma_bytes_for_le, lemma_flatten_small, lemma_put_bits, lemma_put_groups,
    lemma_put_groups_append, lemma_read_value_back, lemma_read_what_was_written, place_bits,
    put_bits, put_groups, stream_wf, BitStreamRead, BitStreamWrite, ReadSafe, WriteSafe,
};
use crate::bits::{bits_of, bytes_for, lemma_bits_of_concat};
use crate::ds::range_list::{
    lemma_list_round_trip, list_groups, list_read, ranges_contain, ranges_wf, RangeList,
    MAX_RANGES,
};
use crate::internal_packet::{
    header_groups, lemma_packet_read_advances, lemma_parse_reads_back_write, needs_ordering,
    packet_read, packet_view, packets_read, InternalPacket, PacketView,
};
use crate::packet_priority::PacketReliability;
use crate::peer::remote_system::ConnectMode;
use crate::queue::{ack_groups, datagram_room, datagram_written, packet_groups, Queue};
use crate::reliability_layer::AckList;
use crate::message::{InternalPing, MessageId, NewIncomingConnection, Parse, ReplyIds};
use crate::peer::{bstr_eq, bstring_bytes, RakPeerConfig};
use crate::types::{RakNetTime, SystemAddress};
use crate::util::MsgNumGenerator;

verus! {

/// The head of a datagram `b`: a bit that says whether acknowledgements
/// follow, and where they do, a time and the acknowledgements (see
/// `list_read`); then a bit that says whether a time follows, where the bits
/// have not run out; and where it does, the time. The outcome is the time and
/// the offset after it, or `None` where there is no time; or `None` where the
/// head is malformed.
pub open spec fn datagram_head(b: Seq<u8>) -> Option<Option<(u32, int)>> {
    let n = (8 * b.len()) as int;
    if n < 1 {
        None
    } else {
        let ack = bits_of(b, 0, n)[0];
        if ack && n < 33 {
            None
        } else {
            let (acks_ok, o1) = if ack {
                let (res, used) = list_read(bits_of(b, 33, n));
                (res is Some, 33 + used as int)
            } else {
                (true, 1int)
            };
            if !acks_ok {
                None
            } else if o1 + 1 > n || !bits_of(b, o1, n)[0] {
                Some(None)
            } else if o1 + 33 > n {
                None
            } else {
                let t = <u32 as ReadSafe>::from_bytes(place_bits(bits_of(b, o1 + 1, n), 32, 4));
                Some(Some((t, o1 + 33)))
            }
        }
    }
}

/// What a datagram `b` holds: its head (see `datagram_head`), then, where it
/// has a time, the packets that follow (see `packets_read`). The outcome is
/// the time, or `None` where there is none, with the packets; or `None` where
/// the datagram is malformed.
pub open spec fn datagram_read(b: Seq<u8>) -> Option<(Option<u32>, Seq<PacketView>)> {
    match datagram_head(b) {
        None => None,
        Some(None) => Some((None, Seq::empty())),
        Some(Some((t, o))) => match packets_read(b, (8 * b.len()) as int, o) {
            None => None,
            Some(ps) => Some((Some(t), ps)),
        },
    }
}

/// Packets that cannot be acknowledged after `acks`: one has the last message
/// number, or the ranges could pass the most a list holds.
pub open spec fn acks_refused(acks: Seq<(u32, u32)>, ps: Seq<PacketView>) -> bool {
    ||| exists|i: int| 0 <= i < ps.len() && #[trigger] ps[i].0 == u32::MAX
    ||| acks.len() + ps.len() >= MAX_RANGES
}

/// The bytes that `RemoteSystem::update` hands over to be sent, for the
/// acknowledgements `acks`, the packets waiting `queue` and the next message
/// number `msg`: those that hold the bits of the datagram.
pub open spec fn datagram_sent(
    acks: Seq<(u32, u32)>,
    queue: Seq<(BitStreamWrite, PacketReliability)>,
    msg: u32,
) -> Seq<u8> {
    let (raw, len) = datagram_written(Seq::empty(), 0, acks, queue, msg, RakNetTime(0));
    raw.subrange(0, bytes_for(len))
}

/// The bits `lo .. hi` of bytes whose first bits are `pre`: the rest of `pre`
/// from `lo` on, then the bits that follow it.
proof fn lemma_bits_after_prefix(raw: Seq<u8>, pre: Seq<bool>, lo: int, hi: int)
    requires
        0 <= lo <= pre.len() <= hi,
        bits_of(raw, 0, pre.len() as int) == pre,
    ensures
        bits_of(raw, lo, hi) == pre.skip(lo) + bits_of(raw, pre.len() as int, hi),
{
    assert forall|k: int| 0 <= k < hi - lo implies #[trigger] bits_of(raw, lo, hi)[k] == (pre.skip(
        lo,
    ) + bits_of(raw, pre.len() as int, hi))[k] by {
        if k < pre.len() - lo {
            assert(bits_of(raw, 0, pre.len() as int)[lo + k] == pre[lo + k]);
        }
    }
    assert(bits_of(raw, lo, hi) =~= pre.skip(lo) + bits_of(raw, pre.len() as int, hi));
}

/// In bytes whose first bits are those of `ack_groups(acks)`, then `b`: the
/// first bit says whether acknowledgements follow, they are read back as
/// written, and the bit after them is `b`.
proof fn lemma_acks_read_back(bytes: Seq<u8>, acks: Seq<(u32, u32)>, b: bool)
    requires
        ranges_wf(acks),
        acks.len() <= 65535,
        ack_groups(acks).flatten().len() + 1 <= 8 * bytes.len(),
        bits_of(bytes, 0, ack_groups(acks).flatten().len() + 1int) == ack_groups(acks).flatten()
            + seq![b],
    ensures
        ({
            let n1 = ack_groups(acks).flatten().len() as int;
            let n = (8 * bytes.len()) as int;
            &&& n1 + 1 <= n
            &&& bits_of(bytes, 0, n)[0] == (acks.len() > 0)
            &&& acks.len() > 0 ==> n >= 33
            &&& acks.len() > 0 ==> (list_read(bits_of(bytes, 33, n)) matches (Some(_), used) && 33
                + used == n1)
            &&& acks.len() == 0 ==> n1 == 1
            &&& bits_of(bytes, n1, n)[0] == b
        }),
{
    let af = ack_groups(acks).flatten();
    let n1 = af.len() as int;
    let n = (8 * bytes.len()) as int;
    let pre = af + seq![b];
    lemma_bits_after_prefix(bytes, pre, 0, n);
    lemma_bits_after_prefix(bytes, pre, n1, n);
    assert(bits_of(bytes, n1, n)[0] == pre[n1]);
    if acks.len() == 0 {
        assert(af =~= seq![false]) by {
            lemma_flatten_small(seq![false], seq![false]);
        }
    } else {
        let t = bits_of(0u32.to_bytes(), 0, 32);
        let lg = list_groups(acks);
        let lf = lg.flatten();
        assert(ack_groups(acks) == seq![seq![true], t] + lg);
        vstd::seq_lib::lemma_flatten_concat(seq![seq![true], t], lg);
        lemma_flatten_small(seq![true], t);
        assert(af =~= seq![true] + t + lf);
        lemma_bits_after_prefix(bytes, pre, 33, n);
        assert(bits_of(bytes, 33, n) =~= lf + (seq![b] + bits_of(bytes, n1 + 1, n)));
        assert forall|i: int| 0 <= i < acks.len() implies #[trigger] acks[i].1 >= 1 by {
            assert(acks[i].0 < acks[i].1);
        }
        lemma_list_round_trip(acks, seq![b] + bits_of(bytes, n1 + 1, n));
    }
}

/// The bytes that hold the bits of the datagram that `Queue::generate_datagram`
/// makes on an empty stream at time `time`, for the acknowledgements `acks`,
/// the packets waiting `queue` and the next message number `msg`.
pub open spec fn datagram_generated(
    acks: Seq<(u32, u32)>,
    queue: Seq<(BitStreamWrite, PacketReliability)>,
    msg: u32,
    time: RakNetTime,
) -> Seq<u8> {
    let (raw, len) = datagram_written(Seq::empty(), 0, acks, queue, msg, time);
    raw.subrange(0, bytes_for(len))
}

/// A datagram that `Queue::generate_datagram` makes at time `time`, on an empty
/// stream, is read by `RemoteSystem::read_datagram` as it was written: with no
/// time and no packet where no packet waited; else with the time `time` and the
/// first packet waiting, with the message number it was given, its
/// reliability, its bit length and its bytes. This holds for at most 65535 well
/// formed acknowledgement ranges, and, where a packet is sent, for a first
/// packet of 1 to 65535 bits that needs no ordering.
pub proof fn lemma_generated_datagram_round_trip(
    acks: Seq<(u32, u32)>,
    queue: Seq<(BitStreamWrite, PacketReliability)>,
    msg: u32,
    time: RakNetTime,
)
    requires
        ranges_wf(acks),
        acks.len() <= 65535,
        queue.len() > 0 ==> {
            &&& queue[0].0.wf()
            &&& !needs_ordering(queue[0].1)
            &&& 0 < queue[0].0.bit_len() <= u16::MAX
        },
    ensures
        queue.len() == 0 ==> datagram_read(datagram_generated(acks, queue, msg, time)) == Some(
            (None::<u32>, Seq::<PacketView>::empty()),
        ),
        queue.len() > 0 ==> datagram_read(datagram_generated(acks, queue, msg, time)) == Some(
            (
                Some(time.0),
                seq![
                    (
                        msg,
                        queue[0].1,
                        None::<crate::internal_packet::PacketOrdering>,
                        queue[0].0.bit_len() as int,
                        queue[0].0.raw().subrange(0, bytes_for(queue[0].0.bit_len() as int)),
                    ),
                ],
            ),
        ),
{
    let ag = ack_groups(acks);
    let af = ag.flatten();
    let n1 = af.len() as int;
    let e = Seq::<u8>::empty();
    let s1 = put_groups(e, 0, ag);
    assert(stream_wf(e, 0));
    lemma_put_groups(e, 0, ag);
    assert(bits_of(e, 0, 0) =~= Seq::<bool>::empty());
    assert(Seq::<bool>::empty() + af =~= af);
    let sent = datagram_generated(acks, queue, msg, time);
    if queue.len() == 0 {
        let raw = put_bits(s1, n1, seq![false]);
        let len = n1 + 1;
        lemma_put_bits(s1, n1, seq![false]);
        lemma_read_what_was_written(raw, len);
        assert(sent == raw.subrange(0, bytes_for(len)));
        assert(bits_of(sent, 0, len) == af + seq![false]);
        lemma_acks_read_back(sent, acks, false);
    } else {
        let (payload, rel) = queue[0];
        let size = payload.bit_len() as usize;
        let data = payload.raw().subrange(0, bytes_for(payload.bit_len() as int));
        let hg = packet_groups(time, msg, rel, size);
        let hs = header_groups(msg, rel, None, false, size);
        let t = bits_of(time.to_bytes(), 0, 32);
        let tg = seq![seq![true], t];
        assert(hg == tg + hs);
        let s2 = put_groups(s1, n1, hg);
        let hf = hg.flatten();
        let n2 = n1 + hf.len();
        lemma_put_groups(s1, n1, hg);
        lemma_bytes_for_le(n2, s2.len() as int);
        let s2h = s2.subrange(0, bytes_for(n2));
        let raw = s2h + data;
        let len = 8 * bytes_for(n2) + 8 * data.len();
        assert(datagram_written(e, 0, acks, queue, msg, time) == (raw, len));
        lemma_bytes_for_le(payload.bit_len() as int, payload.raw().len() as int);
        assert(data.len() == bytes_for(size as int));
        // The head: the acknowledgements, a 1 and the time, then the packet.
        lemma_put_groups_append(s1, n1, tg, hs);
        let s1t = put_groups(s1, n1, tg);
        lemma_put_groups(s1, n1, tg);
        lemma_flatten_small(seq![true], t);
        vstd::seq_lib::lemma_flatten_concat(tg, hs);
        let n0 = n1 + 33;
        assert(tg.flatten().len() == 33);
        assert(s2 == put_groups(s1t, n0, hs));
        assert(len % 8 == 0);
        assert(raw.len() == bytes_for(len));
        lemma_parse_reads_back_write(s1t, n0, msg, rel, None, size, data);
        assert(sent =~= raw);
        // The bits before the packet's data.
        let pre = af + hf;
        assert(bits_of(s2, 0, n2) == pre);
        assert(bits_of(raw, 0, n2) == pre) by {
            assert forall|i: int| 0 <= i < n2 implies #[trigger] bits_of(raw, 0, n2)[i] == bits_of(
                s2,
                0,
                n2,
            )[i] by {
                assert(i / 8 < s2h.len());
            }
            assert(bits_of(raw, 0, n2) =~= bits_of(s2, 0, n2));
        }
        assert(hf[0] == true);
        assert(bits_of(raw, 0, n1 + 1) =~= af + seq![true]) by {
            assert forall|i: int| 0 <= i < n1 + 1 implies #[trigger] bits_of(raw, 0, n1 + 1)[i]
                == bits_of(raw, 0, n2)[i] by {}
        }
        lemma_acks_read_back(raw, acks, true);
        let n = (8 * raw.len()) as int;
        assert(n == len);
        // The time.
        lemma_bits_after_prefix(raw, pre, n1 + 1, n);
        assert(pre.skip(n1 + 1) =~= t + hs.flatten());
        lemma_read_value_back::<u32>(time.0, hs.flatten() + bits_of(raw, n2, n));
        assert(bits_of(raw, n1 + 1, n) =~= t + (hs.flatten() + bits_of(raw, n2, n)));
        // The packets: one, then nothing left.
        lemma_packet_read_advances(raw, n, n0);
        assert(packets_read(raw, n, n) == Some(Seq::<PacketView>::empty()));
        assert(seq![packet_view_of(msg, rel, size, data)] + Seq::<PacketView>::empty() =~= seq![
            packet_view_of(msg, rel, size, data),
        ]);
    }
}

/// A datagram that `RemoteSystem::update` makes is read by
/// `RemoteSystem::read_datagram` as it was written: with no time and no packet
/// where no packet waited; else with the time 0 and the first packet waiting,
/// with the message number it was given, its reliability, its bit length and
/// its bytes. This holds for at most 65535 well formed acknowledgement ranges,
/// and, where a packet is sent, for a first packet of 1 to 65535 bits that
/// needs no ordering.
pub proof fn lemma_datagram_round_trip(
    acks: Seq<(u32, u32)>,
    queue: Seq<(BitStreamWrite, PacketReliability)>,
    msg: u32,
)
    requires
        ranges_wf(acks),
        acks.len() <= 65535,
        queue.len() > 0 ==> {
            &&& queue[0].0.wf()
            &&& !needs_ordering(queue[0].1)
            &&& 0 < queue[0].0.bit_len() <= u16::MAX
        },
    ensures
        queue.len() == 0 ==> datagram_read(datagram_sent(acks, queue, msg)) == Some(
            (None::<u32>, Seq::<PacketView>::empty()),
        ),
        queue.len() > 0 ==> datagram_read(datagram_sent(acks, queue, msg)) == Some(
            (
                Some(0u32),
                seq![
                    (
                        msg,
                        queue[0].1,
                        None::<crate::internal_packet::PacketOrdering>,
                        queue[0].0.bit_len() as int,
                        queue[0].0.raw().subrange(0, bytes_for(queue[0].0.bit_len() as int)),
                    ),
                ],
            ),
        ),
{
    lemma_generated_datagram_round_trip(acks, queue, msg, RakNetTime(0));
}

/// The view of the packet that `Queue::generate_datagram` sends.
spec fn packet_view_of(msg: u32, rel: PacketReliability, size: usize, data: Seq<u8>) -> PacketView {
    (msg, rel, None, size as int, data)
}

/// What became of a packet a connection was handed.
#[derive(Debug, Copy, Clone, PartialEq, Eq, Structural)]
pub enum PacketOutcome {
    /// The packet was answered or taken note of.
    Handled,
    /// The message the packet carries could not be read.
    Unreadable,
    /// The packet is one of the users' own, for the `PacketHandler`.
    UserPacket,
}

/// The octets of an IPv4 address held as a `u32`, most significant first.
pub open spec fn ip_octets(ip: u32) -> Seq<u8> {
    seq![(ip >> 24u32) as u8, (ip >> 16u32) as u8, (ip >> 8u32) as u8, ip as u8]
}

/// The reply that accepts a connection request: its ID, the remote address
/// (octets, then port), the system index 1, then the local address.
pub open spec fn accepted_reply(id: u8, remote: SystemAddress, local: SystemAddress) -> Seq<u8> {
    seq![id] + ip_octets(remote.ip) + remote.port.to_bytes() + 1u16.to_bytes() + ip_octets(
        local.ip,
    ) + local.port.to_bytes()
}

/// The octets of an IPv4 address, most significant first, make the address
/// back: the first times 2^24, plus the second times 2^16, plus the third
/// times 2^8, plus the fourth.
proof fn lemma_octets_value(ip: u32)
    ensures
        ip_octets(ip).len() == 4,
        ip_octets(ip)[0] as int * 0x100_0000 + ip_octets(ip)[1] as int * 0x1_0000
            + ip_octets(ip)[2] as int * 0x100 + ip_octets(ip)[3] as int == ip,
{
    let a = (ip >> 24u32) as u8;
    let b = (ip >> 16u32) as u8;
    let c = (ip >> 8u32) as u8;
    let d = ip as u8;
    assert(a as u64 * 0x100_0000u64 + b as u64 * 0x1_0000u64 + c as u64 * 0x100u64 + d as u64
        == ip as u64) by (bit_vector)
        requires
            a == (ip >> 24u32) as u8,
            b == (ip >> 16u32) as u8,
            c == (ip >> 8u32) as u8,
            d == ip as u8,
    ;
}

/// The reply that accepts a connection request is 15 bytes: its ID; the
/// remote address's four octets, most significant first; its port, which a
/// `u16` read gives back; the system index 1, likewise; then the
/// local address's octets and port in the same way.
pub proof fn lemma_accepted_reply_layout(id: u8, remote: SystemAddress, local: SystemAddress)
    ensures
        ({
            let r = accepted_reply(id, remote, local);
            &&& r.len() == 15
            &&& r[0] == id
            &&& r[1] as int * 0x100_0000 + r[2] as int * 0x1_0000 + r[3] as int * 0x100
                + r[4] as int == remote.ip
            &&& <u16 as ReadSafe>::from_bytes(r.subrange(5, 7)) == remote.port
            &&& <u16 as ReadSafe>::from_bytes(r.subrange(7, 9)) == 1u16
            &&& r[9] as int * 0x100_0000 + r[10] as int * 0x1_0000 + r[11] as int * 0x100
                + r[12] as int == local.ip
            &&& <u16 as ReadSafe>::from_bytes(r.subrange(13, 15)) == local.port
        }),
{
    vstd::bytes::lemma_auto_spec_u16_to_from_le_bytes();
    lemma_octets_value(remote.ip);
    lemma_octets_value(local.ip);
    let r = accepted_reply(id, remote, local);
    let ro = ip_octets(remote.ip);
    let lo = ip_octets(local.ip);
    let rp = remote.port.to_bytes();
    let one = 1u16.to_bytes();
    let lp = local.port.to_bytes();
    assert(r =~= seq![id] + ro + rp + one + lo + lp);
    assert(r[1] == ro[0] && r[2] == ro[1] && r[3] == ro[2] && r[4] == ro[3]);
    assert(r[9] == lo[0] && r[10] == lo[1] && r[11] == lo[2] && r[12] == lo[3]);
    assert(r.subrange(5, 7) =~= rp);
    assert(r.subrange(13, 15) =~= lp);
    assert(r.subrange(7, 9) =~= one);
}

/// The reply to a ping: its ID, the time the ping was sent, then the time now.
pub open spec fn pong_reply(id: u8, ping: u32, time_ms: u32) -> Seq<u8> {
    seq![id] + ping.to_bytes() + time_ms.to_bytes()
}

/// The reply to a ping is 9 bytes: its ID, then the time the ping was sent and
/// the time now, each of which a `u32` read gives back.
pub proof fn lemma_pong_reply_layout(id: u8, ping: u32, time_ms: u32)
    ensures
        ({
            let r = pong_reply(id, ping, time_ms);
            &&& r.len() == 9
            &&& r[0] == id
            &&& <u32 as ReadSafe>::from_bytes(r.subrange(1, 5)) == ping
            &&& <u32 as ReadSafe>::from_bytes(r.subrange(5, 9)) == time_ms
        }),
{
    vstd::bytes::lemma_auto_spec_u32_to_from_le_bytes();
    let r = pong_reply(id, ping, time_ms);
    assert(r.subrange(1, 5) =~= ping.to_bytes());
    assert(r.subrange(5, 9) =~= time_ms.to_bytes());
}

/// The packets waiting `new` are those of `old`, then a stream that holds the
/// bits of `reply`, to be sent reliably.
pub open spec fn queued_reply(
    old: Seq<(BitStreamWrite, PacketReliability)>,
    new: Seq<(BitStreamWrite, PacketReliability)>,
    reply: Seq<u8>,
) -> bool {
    &&& new.len() == old.len() + 1
    &&& new.drop_last() == old
    &&& new.last().1 == PacketReliability::Reliable
    &&& new.last().0@ == bits_of(reply, 0, (8 * reply.len()) as int)
    &&& new.last().0.bit_len() == 8 * reply.len()
}

/// The bits of a packet's data past its ID: the first `size` bits of `data`,
/// from bit 8 on.
pub open spec fn message_bits(data: Seq<u8>, size: int) -> Seq<bool> {
    bits_of(data, 8, size)
}

/// Reads the head of the datagram `bytes` (see `datagram_head`); where it has a
/// time, hands back the time and the stream past it.
fn read_head<'a>(bytes: &'a [u8]) -> (r: Option<Option<(BitStreamRead<'a>, RakNetTime)>>)
    requires
        8 * bytes@.len() <= usize::MAX,
    ensures
        match datagram_head(bytes@) {
            None => r is None,
            Some(None) => r matches Some(None),
            Some(Some((t, o))) => r matches Some(Some((bs, time))) && time == RakNetTime(t)
                && bs.wf() && bs.bytes() == bytes@ && bs.bits_used() == 8 * bytes@.len()
                && bs.offset() == o,
        },
{
    let ghost b = bytes@;
    let ghost n = 8 * bytes@.len() as int;
    let mut bs = BitStreamRead::new(bytes);
    let acknowledgements = match bs.read_bool() {
        Ok(a) => a,
        Err(_) => {
            return None;
        },
    };
    if acknowledgements {
        let _time: RakNetTime = match bs.read() {
            Ok(t) => t,
            Err(_) => {
                return None;
            },
        };
        proof {
            assert(bs@ =~= bits_of(b, 33, n));
        }
        match RangeList::deserialize(&mut bs) {
            Ok(_) => {},
            Err(_) => {
                return None;
            },
        }
    }
    let ghost o1 = bs.offset() as int;
    proof {
        assert(bs@ =~= bits_of(b, o1, n));
    }
    let has_time = match bs.read_bool() {
        Ok(h) => h,
        Err(_) => false,
    };
    if !has_time {
        return Some(None);
    }
    let time: RakNetTime = match bs.read() {
        Ok(t) => t,
        Err(_) => {
            return None;
        },
    };
    Some(Some((bs, time)))
}

/// Reads the packet at the front of `bs` at `time` (see `packet_read`); `None`
/// where the read fails or the packet says it is split.
fn read_unsplit<'a>(bs: &mut BitStreamRead<'a>, time: RakNetTime) -> (r: Option<InternalPacket<'a>>)
    requires
        old(bs).wf(),
    ensures
        final(bs).wf(),
        final(bs).bytes() == old(bs).bytes(),
        final(bs).bits_used() == old(bs).bits_used(),
        match packet_read(old(bs).bytes(), old(bs).bits_used() as int, old(bs).offset() as int) {
            None => r is None,
            Some((v, o)) => r matches Some(p) && packet_view(p) == v && p.time == time
                && !p.is_split_packet && final(bs).offset() == o,
        },
{
    reveal(packet_read);
    if InternalPacket::is_split(bs) {
        return None;
    }
    match InternalPacket::parse(bs, time) {
        Ok(p) => Some(p),
        Err(_) => None,
    }
}

/// Reads packets from `bs` at `time` while at least 32 bits are left (see
/// `packets_read`).
fn read_packets<'a>(bs: &mut BitStreamRead<'a>, time: RakNetTime) -> (r: Option<Vec<InternalPacket<'a>>>)
    requires
        old(bs).wf(),
        old(bs).offset() <= old(bs).bits_used(),
    ensures
        match packets_read(old(bs).bytes(), old(bs).bits_used() as int, old(bs).offset() as int) {
            None => r is None,
            Some(ps) => r matches Some(v) && v@.map_values(|p: InternalPacket<'a>| packet_view(p))
                == ps,
        },
        r matches Some(v) ==> forall|i: int|
            0 <= i < v@.len() ==> (#[trigger] v@[i]).time == time && !v@[i].is_split_packet,
{
    let ghost b = bs.bytes();
    let ghost n = bs.bits_used() as int;
    let ghost o0 = bs.offset() as int;
    let mut packets: Vec<InternalPacket<'a>> = Vec::new();
    let ghost mut done: Seq<PacketView> = Seq::empty();
    while bs.get_number_of_unread_bits() >= 32
        invariant
            bs.wf(),
            bs.bytes() == b,
            bs.bits_used() == n,
            bs.offset() <= n,
            0 <= o0,
            b == old(bs).bytes(),
            n == old(bs).bits_used(),
            o0 == old(bs).offset(),
            packets_read(b, n, o0) == match packets_read(b, n, bs.offset() as int) {
                None => None,
                Some(rest) => Some(done + rest),
            },
            packets@.len() == done.len(),
            forall|i: int|
                0 <= i < packets@.len() ==> packet_view(#[trigger] packets@[i]) == done[i]
                    && packets@[i].time == time && !packets@[i].is_split_packet,
        decreases n - bs.offset(),
    {
        let ghost o = bs.offset() as int;
        let p = match read_unsplit(bs, time) {
            Some(p) => p,
            None => {
                assert(packets_read(b, n, o) is None);
                assert(packets_read(b, n, o0) is None);
                return None;
            },
        };
        proof {
            lemma_packet_read_advances(b, n, o);
            let o2 = bs.offset() as int;
            assert(packets_read(b, n, o) == match packets_read(b, n, o2) {
                None => None,
                Some(ps) => Some(seq![packet_view(p)] + ps),
            });
            if let Some(rest) = packets_read(b, n, o2) {
                assert(done + (seq![packet_view(p)] + rest) =~= done.push(packet_view(p)) + rest);
            }
            done = done.push(packet_view(p));
        }
        packets.push(p);
    }
    proof {
        assert(done + Seq::<PacketView>::empty() =~= done);
        assert(packets@.map_values(|p: InternalPacket<'a>| packet_view(p)) =~= done);
    }
    Some(packets)
}

/// The message numbers of `packets`, in order.
fn msg_nums_of(packets: &Vec<InternalPacket>) -> (r: Vec<u32>)
    ensures
        r@.len() == packets@.len(),
        forall|k: int| 0 <= k < r@.len() ==> #[trigger] r@[k] == packets@[k].msg_num,
{
    let mut msg_nums: Vec<u32> = Vec::new();
    let mut i: usize = 0;
    while i < packets.len()
        invariant
            i <= packets@.len(),
            msg_nums@.len() == i,
            forall|k: int| 0 <= k < i ==> #[trigger] msg_nums@[k] == packets@[k].msg_num,
        decreases packets@.len() - i,
    {
        msg_nums.push(packets[i].msg_num);
        i = i + 1;
    }
    msg_nums
}

/// Whether a packet of `packets` has the last message number.
fn has_last_number(packets: &Vec<InternalPacket>) -> (r: bool)
    ensures
        r == exists|i: int| 0 <= i < packets@.len() && #[trigger] packets@[i].msg_num == u32::MAX,
{
    let mut i: usize = 0;
    while i < packets.len()
        invariant
            i <= packets@.len(),
            forall|k: int| 0 <= k < i ==> #[trigger] packets@[k].msg_num < u32::MAX,
        decreases packets@.len() - i,
    {
        if packets[i].msg_num == u32::MAX {
            return true;
        }
        i = i + 1;
    }
    false
}

/// A connection to a remote system.
pub struct RemoteSystem {
    addr: SystemAddress,
    connect_mode: ConnectMode,
    remote_system_time: RakNetTime,
    msg_num_gen: MsgNumGenerator,
    acks: AckList,
    queue: Queue,
}

impl RemoteSystem {
    /// The address of the remote system.
    pub closed spec fn address(&self) -> SystemAddress {
        self.addr
    }

    /// Where the connection stands.
    pub closed spec fn mode(&self) -> ConnectMode {
        self.connect_mode
    }

    /// The last time the remote system sent.
    pub closed spec fn remote_time(&self) -> RakNetTime {
        self.remote_system_time
    }

    /// The message number the next packet sent gets.
    pub closed spec fn next_msg_num(&self) -> u32 {
        self.msg_num_gen@
    }

    /// The ranges of message numbers to acknowledge.
    pub closed spec fn ack_ranges(&self) -> Seq<(u32, u32)> {
        self.acks@
    }

    /// The packets waiting to be sent, first first.
    pub closed spec fn waiting(&self) -> Seq<(BitStreamWrite, PacketReliability)> {
        self.queue@
    }

    /// The acknowledgements are well formed ranges, and each packet waiting is
    /// a well formed stream.
    pub open spec fn wf(&self) -> bool {
        &&& ranges_wf(self.ack_ranges())
        &&& forall|i: int| 0 <= i < self.waiting().len() ==> #[trigger] self.waiting()[i].0.wf()
    }

    /// A datagram can be made: it fits the stream's size arithmetic, and where
    /// a packet waits, it needs no ordering and a message number is left for it.
    pub open spec fn update_fits(&self) -> bool {
        &&& can_grow(0, datagram_room(self.ack_ranges(), self.waiting()))
        &&& self.waiting().len() > 0 ==> !needs_ordering(self.waiting()[0].1)
            && self.next_msg_num() < u32::MAX
    }

    /// A new connection to `addr`, handling its connection request, with
    /// nothing to acknowledge or send.
    pub fn new(addr: SystemAddress) -> (r: Self)
        ensures
            r.wf(),
            r.address() == addr,
            r.mode() == ConnectMode::HandlingConnectionRequest,
            r.remote_time() == RakNetTime(0),
            r.next_msg_num() == 0,
            r.ack_ranges() == Seq::<(u32, u32)>::empty(),
            r.waiting() == Seq::<(BitStreamWrite, PacketReliability)>::empty(),
    {
        Self {
            addr,
            connect_mode: ConnectMode::HandlingConnectionRequest,
            remote_system_time: RakNetTime::zero(),
            msg_num_gen: MsgNumGenerator::new(),
            acks: AckList::new(),
            queue: Queue::default(),
        }
    }

    /// The address of the remote system.
    pub fn system_address(&self) -> (r: SystemAddress)
        ensures
            r == self.address(),
    {
        self.addr
    }

    /// Queues `bs` to be sent with `reliability`.
    pub fn send(&mut self, bs: BitStreamWrite, reliability: PacketReliability)
        requires
            old(self).wf(),
            bs.wf(),
        ensures
            final(self).wf(),
            final(self).waiting() == old(self).waiting().push((bs, reliability)),
            final(self).address() == old(self).address(),
            final(self).mode() == old(self).mode(),
            final(self).remote_time() == old(self).remote_time(),
            final(self).next_msg_num() == old(self).next_msg_num(),
            final(self).ack_ranges() == old(self).ack_ranges(),
    {
        self.queue.push(bs, reliability);
        proof {
            assert forall|i: int| 0 <= i < self.waiting().len() implies #[trigger] self.waiting()[i].0.wf() by {
                if i < old(self).waiting().len() {
                    assert(self.waiting()[i] == old(self).waiting()[i]);
                }
            }
        }
    }

    /// Reads the datagram `bytes` that came from the remote system (see
    /// `datagram_read`) and hands back the packets it carries, in order, for
    /// the caller to act on. Where it carries a time, that becomes the remote
    /// system's time, and the packets' message numbers are to be acknowledged.
    /// `None`, with nothing changed, where the datagram is malformed or its
    /// packets cannot be acknowledged (see `acks_refused`).
    #[verifier::rlimit(40)]
    pub fn read_datagram<'a>(&mut self, bytes: &'a [u8]) -> (r: Option<Vec<InternalPacket<'a>>>)
        requires
            old(self).wf(),
            8 * bytes@.len() <= usize::MAX,
        ensures
            final(self).wf(),
            final(self).address() == old(self).address(),
            final(self).mode() == old(self).mode(),
            final(self).next_msg_num() == old(self).next_msg_num(),
            final(self).waiting() == old(self).waiting(),
            match datagram_read(bytes@) {
                None => r is None && *final(self) == *old(self),
                Some((None, _)) => (r matches Some(v) && v@.len() == 0) && *final(self) == *old(self),
                Some((Some(t), ps)) => if acks_refused(old(self).ack_ranges(), ps) {
                    r is None && *final(self) == *old(self)
                } else {
                    &&& r matches Some(v) && v@.map_values(|p: InternalPacket<'a>| packet_view(p))
                        == ps && forall|i: int|
                        0 <= i < v@.len() ==> #[trigger] v@[i].time == RakNetTime(t)
                            && !v@[i].is_split_packet
                    &&& final(self).remote_time() == RakNetTime(t)
                    &&& forall|x: int|
                        ranges_contain(final(self).ack_ranges(), x) == (ranges_contain(
                            old(self).ack_ranges(),
                            x,
                        ) || exists|i: int| 0 <= i < ps.len() && #[trigger] ps[i].0 == x)
                },
            },
    {
        let (mut bs, time) = match read_head(bytes) {
            None => {
                return None;
            },
            Some(None) => {
                return Some(Vec::new());
            },
            Some(Some(head)) => head,
        };
        let packets = match read_packets(&mut bs, time) {
            None => {
                return None;
            },
            Some(v) => v,
        };
        let ghost ps = packets@.map_values(|p: InternalPacket<'a>| packet_view(p));
        if has_last_number(&packets) {
            proof {
                let i = choose|i: int| 0 <= i < packets@.len() && #[trigger] packets@[i].msg_num == u32::MAX;
                assert(ps[i].0 == u32::MAX);
            }
            return None;
        }
        if packets.len() >= MAX_RANGES || self.acks.len() >= MAX_RANGES - packets.len() {
            return None;
        }
        let msg_nums = msg_nums_of(&packets);
        self.remote_system_time = time;
        self.acks.insert_all(msg_nums.as_slice());
        assert(self.waiting() == old(self).waiting());
        proof {
            assert(datagram_read(bytes@) == Some((Some(time.0), ps)));
            assert forall|i: int| 0 <= i < ps.len() implies #[trigger] ps[i].0 != u32::MAX by {
                assert(ps[i] == packet_view(packets@[i]));
            }
            assert(!acks_refused(old(self).ack_ranges(), ps));
            assert forall|x: int|
                ranges_contain(self.ack_ranges(), x) == (ranges_contain(old(self).ack_ranges(), x)
                    || exists|k: int| 0 <= k < ps.len() && #[trigger] ps[k].0 == x) by {
                if exists|k: int| 0 <= k < msg_nums@.len() && #[trigger] msg_nums@[k] == x {
                    let k = choose|k: int| 0 <= k < msg_nums@.len() && #[trigger] msg_nums@[k] == x;
                    assert(ps[k].0 == x);
                }
                if exists|k: int| 0 <= k < ps.len() && #[trigger] ps[k].0 == x {
                    let k = choose|k: int| 0 <= k < ps.len() && #[trigger] ps[k].0 == x;
                    assert(msg_nums@[k] == x);
                }
            }
        }
        Some(packets)
    }

    /// Acts on a packet from the remote system whose ID means `id` (`None`
    /// where it is one of the users' own):
    /// - a connection request is answered, where the bytes after its ID are
    ///   the password of `cfg`, with `ids.connection_request_accepted` and the
    ///   two addresses (see `accepted_reply`); else with
    ///   `ids.invalid_password`, and the connection is to be dropped silently;
    /// - a ping, which holds the time it was sent, is answered with
    ///   `ids.connected_pong`, that time and `time_ms` (see `pong_reply`);
    /// - a new incoming connection, which holds two addresses, is read;
    /// - other IDs are taken note of, and the users' own packets are left to
    ///   the `PacketHandler`.
    ///
    /// Replies are queued, to be sent reliably.
    pub fn handle_packet(
        &mut self,
        packet: &InternalPacket,
        id: Option<MessageId>,
        ids: &ReplyIds,
        local: SystemAddress,
        time_ms: u32,
        cfg: &RakPeerConfig,
    ) -> (r: PacketOutcome)
        requires
            old(self).wf(),
            8 * packet.data@.len() <= usize::MAX,
            id == Some(MessageId::ConnectionRequest) ==> packet.data@.len() >= 1,
            id == Some(MessageId::InternalPing) || id == Some(MessageId::NewIncomingConnection)
                ==> 8 <= packet.data_bit_size <= 8 * packet.data@.len(),
        ensures
            final(self).wf(),
            final(self).address() == old(self).address(),
            final(self).remote_time() == old(self).remote_time(),
            final(self).next_msg_num() == old(self).next_msg_num(),
            final(self).ack_ranges() == old(self).ack_ranges(),
            match id {
                None => r == PacketOutcome::UserPacket && *final(self) == *old(self),
                Some(MessageId::ConnectionRequest) => {
                    &&& r == PacketOutcome::Handled
                    &&& if packet.data@.skip(1) == bstring_bytes(cfg.incoming_password) {
                        &&& queued_reply(
                            old(self).waiting(),
                            final(self).waiting(),
                            accepted_reply(ids.connection_request_accepted, old(self).address(), local),
                        )
                        &&& final(self).mode() == old(self).mode()
                    } else {
                        &&& queued_reply(
                            old(self).waiting(),
                            final(self).waiting(),
                            seq![ids.invalid_password],
                        )
                        &&& final(self).mode() == ConnectMode::DisconnectAsapSilently
                    }
                },
                Some(MessageId::InternalPing) => {
                    let bits = message_bits(packet.data@, packet.data_bit_size as int);
                    if bits.len() >= 32 {
                        &&& r == PacketOutcome::Handled
                        &&& queued_reply(
                            old(self).waiting(),
                            final(self).waiting(),
                            pong_reply(
                                ids.connected_pong,
                                <u32 as ReadSafe>::from_bytes(place_bits(bits, 32, 4)),
                                time_ms,
                            ),
                        )
                        &&& final(self).mode() == old(self).mode()
                    } else {
                        r == PacketOutcome::Unreadable && *final(self) == *old(self)
                    }
                },
                Some(MessageId::NewIncomingConnection) => {
                    &&& r == if message_bits(packet.data@, packet.data_bit_size as int).len() >= 96 {
                        PacketOutcome::Handled
                    } else {
                        PacketOutcome::Unreadable
                    }
                    &&& *final(self) == *old(self)
                },
                Some(_) => r == PacketOutcome::Handled && *final(self) == *old(self),
            },
    {
        match id {
            None => PacketOutcome::UserPacket,
            Some(MessageId::ConnectionRequest) => {
                let given = vstd::slice::slice_subrange(packet.data, 1, packet.data.len());
                proof {
                    assert(given@ =~= packet.data@.skip(1));
                }
                if bstr_eq(given, &cfg.incoming_password) {
                    let remote = self.addr;
                    let mut payload = BitStreamWrite::with_capacity(15 * 8);
                    payload.write(ids.connection_request_accepted);
                    let ro = vec![
                        (remote.ip >> 24u32) as u8,
                        (remote.ip >> 16u32) as u8,
                        (remote.ip >> 8u32) as u8,
                        remote.ip as u8,
                    ];
                    payload.write_bytes(ro.as_slice(), 4);
                    payload.write(remote.port);
                    payload.write(1u16);
                    let lo = vec![
                        (local.ip >> 24u32) as u8,
                        (local.ip >> 16u32) as u8,
                        (local.ip >> 8u32) as u8,
                        local.ip as u8,
                    ];
                    payload.write_bytes(lo.as_slice(), 4);
                    payload.write(local.port);
                    proof {
                        let a = seq![ids.connection_request_accepted];
                        let b = ip_octets(remote.ip);
                        let c = remote.port.to_bytes();
                        let d = 1u16.to_bytes();
                        let e = ip_octets(local.ip);
                        let f = local.port.to_bytes();
                        assert(ro@ =~= b);
                        assert(lo@ =~= e);
                        vstd::bytes::lemma_auto_spec_u16_to_from_le_bytes();
                        assert(Seq::<bool>::empty() + bits_of(a, 0, 8) =~= bits_of(a, 0, 8));
                        lemma_bits_of_concat(a, b);
                        lemma_bits_of_concat(a + b, c);
                        lemma_bits_of_concat(a + b + c, d);
                        lemma_bits_of_concat(a + b + c + d, e);
                        lemma_bits_of_concat(a + b + c + d + e, f);
                    }
                    self.send(payload, PacketReliability::Reliable);
                    assert(self.waiting().drop_last() =~= old(self).waiting());
                } else {
                    let mut bs = BitStreamWrite::with_capacity(8);
                    bs.write(ids.invalid_password);
                    proof {
                        assert(Seq::<bool>::empty() + bits_of(seq![ids.invalid_password], 0, 8)
                            =~= bits_of(seq![ids.invalid_password], 0, 8));
                    }
                    self.send(bs, PacketReliability::Reliable);
                    assert(self.waiting().drop_last() =~= old(self).waiting());
                    self.connect_mode = ConnectMode::DisconnectAsapSilently;
                }
                PacketOutcome::Handled
            },
            Some(MessageId::NewIncomingConnection) => {
                let mut in_bit_stream = BitStreamRead::with_size(packet.data, packet.data_bit_size);
                let _ = in_bit_stream.ignore_bits(8);
                proof {
                    assert(in_bit_stream@ =~= message_bits(
                        packet.data@,
                        packet.data_bit_size as int,
                    ));
                }
                match NewIncomingConnection::from_bit_stream(&mut in_bit_stream) {
                    Ok(_) => PacketOutcome::Handled,
                    Err(_) => PacketOutcome::Unreadable,
                }
            },
            Some(MessageId::InternalPing) => {
                let mut in_bit_stream = BitStreamRead::with_size(packet.data, packet.data_bit_size);
                let _ = in_bit_stream.ignore_bits(8);
                proof {
                    assert(in_bit_stream@ =~= message_bits(
                        packet.data@,
                        packet.data_bit_size as int,
                    ));
                }
                match InternalPing::from_bit_stream(&mut in_bit_stream) {
                    Ok(ping) => {
                        let mut out = BitStreamWrite::new();
                        out.write(ids.connected_pong);
                        out.write(ping.send_ping_time);
                        out.write(RakNetTime(time_ms));
                        proof {
                            let a = seq![ids.connected_pong];
                            let b = ping.send_ping_time.0.to_bytes();
                            let c = time_ms.to_bytes();
                            vstd::bytes::lemma_auto_spec_u32_to_from_le_bytes();
                            assert(Seq::<bool>::empty() + bits_of(a, 0, 8) =~= bits_of(a, 0, 8));
                            lemma_bits_of_concat(a, b);
                            lemma_bits_of_concat(a + b, c);
                        }
                        self.send(out, PacketReliability::Reliable);
                        assert(self.waiting().drop_last() =~= old(self).waiting());
                        PacketOutcome::Handled
                    },
                    Err(_) => PacketOutcome::Unreadable,
                }
            },
            Some(_) => PacketOutcome::Handled,
        }
    }

    /// Whether a datagram can be made: see `update_fits`.
    pub fn can_update(&self) -> (r: bool)
        ensures
            r == self.update_fits(),
    {
        let room: usize = (usize::MAX - 7) / 2;
        let acks = self.acks.len();
        if acks > (room - 176) / 65 {
            return false;
        }
        let fixed = 176 + 65 * acks;
        match self.queue.first() {
            None => true,
            Some((bits, reliability)) => {
                let bytes = if bits % 8 == 0 {
                    bits / 8
                } else {
                    bits / 8 + 1
                };
                assert(bytes == crate::bits::bytes_for(bits as int));
                if bytes > (room - fixed) / 8 {
                    false
                } else {
                    !(reliability == PacketReliability::ReliableOrdered || reliability
                        == PacketReliability::ReliableSequenced || reliability
                        == PacketReliability::UnreliableSequenced)
                        && self.msg_num_gen.peek() < u32::MAX
                }
            },
        }
    }

    /// Makes the datagram to send to the remote system, where there is
    /// anything to acknowledge or send: see `Queue::generate_datagram`, at time
    /// 0. The acknowledgements are then cleared and the packet sent leaves the
    /// queue.
    pub fn update(&mut self) -> (r: Option<BitStreamWrite>)
        requires
            old(self).wf(),
            old(self).update_fits(),
        ensures
            final(self).wf(),
            final(self).address() == old(self).address(),
            final(self).mode() == old(self).mode(),
            final(self).remote_time() == old(self).remote_time(),
            old(self).ack_ranges().len() == 0 && old(self).waiting().len() == 0 ==> r is None
                && *final(self) == *old(self),
            old(self).ack_ranges().len() > 0 || old(self).waiting().len() > 0 ==> {
                let (raw, len) = datagram_written(
                    Seq::empty(),
                    0,
                    old(self).ack_ranges(),
                    old(self).waiting(),
                    old(self).next_msg_num(),
                    RakNetTime(0),
                );
                &&& r matches Some(out) && out.wf() && out.raw() == raw && out.bit_len() == len
                &&& final(self).ack_ranges() == Seq::<(u32, u32)>::empty()
                &&& old(self).waiting().len() == 0 ==> final(self).waiting() == old(self).waiting()
                    && final(self).next_msg_num() == old(self).next_msg_num()
                &&& old(self).waiting().len() > 0 ==> final(self).waiting() == old(
                    self,
                ).waiting().drop_first() && final(self).next_msg_num() == old(self).next_msg_num()
                    + 1
            },
    {
        if self.acks.is_empty() && self.queue.is_empty() {
            return None;
        }
        let time = RakNetTime::zero();
        let mut output = BitStreamWrite::new();
        proof {
            assert forall|i: int| 0 <= i < self.acks@.len() implies #[trigger] self.acks@[i].1 >= 1 by {
                assert(self.acks@[i].0 < self.acks@[i].1);
            }
        }
        self.queue.generate_datagram(&mut output, &mut self.msg_num_gen, time, &mut self.acks);
        proof {
            assert forall|i: int| 0 <= i < self.waiting().len() implies #[trigger] self.waiting()[i].0.wf() by {
                assert(self.waiting()[i] == old(self).waiting()[i + 1]);
            }
        }
        Some(output)
    }
}

} // verus!
