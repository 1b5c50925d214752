//! The packets that a datagram carries.
use vstd::prelude::*;

use crate::bit_stream::{
    lemma_read_compressed_back, lemma_read_low_bits_back, lemma_read_value_back, pow2_u8,
    can_grow, compressed_groups, compressed_read, lemma_compressed_len, lemma_flatten_cons,
    lemma_put_groups, lemma_put_groups_append, place_bits, put_bits, put_groups, stream_wf,
    BitStreamRead, BitStreamWrite, Bits, ReadSafe, WriteSafe,
};
use crate::bits::{bits_of, byte_bit, bytes_for, source_bits};
use crate::error::Error;
use crate::packet_priority::{
    lemma_channel_round_trip, lemma_reliability_round_trip, reliability_number, OrderingChannel,
    PacketReliability,
};
use crate::types::RakNetTime;

verus! {

/// The number of a message.
pub type MessageNumberType = u32;

/// The index of a message on its ordering channel.
pub type OrderingIndexType = MessageNumberType;

/// Where an ordered packet goes on its channel.
#[derive(Debug, Clone, Copy, PartialEq, Eq, Structural)]
pub struct PacketOrdering {
    pub index: OrderingIndexType,
    pub channel: OrderingChannel,
}

/// A packet with the data it carries.
#[derive(Debug, Clone)]
pub struct InternalPacket<'a> {
    pub time: RakNetTime,
    pub msg_num: MessageNumberType,
    pub reliability: PacketReliability,
    pub ordering: Option<PacketOrdering>,
    pub is_split_packet: bool,
    pub data_bit_size: usize,
    pub data: &'a [u8],
}

/// The reliabilities of which a packet carries an ordering.
pub open spec fn needs_ordering(r: PacketReliability) -> bool {
    r == PacketReliability::ReliableOrdered || r == PacketReliability::ReliableSequenced || r
        == PacketReliability::UnreliableSequenced
}

/// The groups of bits that `InternalPacket::write` writes before the data: the
/// message number, the reliability in 3 bits, the ordering channel in 5 bits and
/// index where there is an ordering, whether the packet is split, and the data's
/// bit size as a compressed `u16`.
pub open spec fn header_groups(
    msg_num: u32,
    reliability: PacketReliability,
    ordering: Option<PacketOrdering>,
    split: bool,
    size: usize,
) -> Seq<Seq<bool>> {
    let ord = match ordering {
        Some(o) => seq![
            source_bits(seq![o.channel.bits_byte()], 5),
            bits_of(o.index.to_bytes(), 0, 32),
        ],
        None => Seq::empty(),
    };
    seq![bits_of(msg_num.to_bytes(), 0, 32), source_bits(seq![reliability.bits_byte()], 3)]
        + ord + seq![seq![split]] + compressed_groups((size as u16).to_bytes(), 1)
}

/// The outcome of reading the head of a packet from `bits`: the message number,
/// the reliability, the ordering and whether the packet is split, or `None`
/// where the bits run out; and the number of bits consumed either way.
pub open spec fn header_read(bits: Seq<bool>) -> (
    Option<(u32, PacketReliability, Option<PacketOrdering>, bool)>,
    nat,
) {
    if bits.len() < 32 {
        (None, 0)
    } else if bits.len() < 35 {
        (None, 32)
    } else {
        let msg = <u32 as ReadSafe>::from_bytes(place_bits(bits, 32, 4));
        let rel = PacketReliability::from_bits_byte(place_bits(bits.skip(32), 3, 1)[0]);
        if needs_ordering(rel) {
            if bits.len() < 40 {
                (None, 35)
            } else if bits.len() < 72 {
                (None, 40)
            } else if bits.len() < 73 {
                (None, 72)
            } else {
                let channel = OrderingChannel::from_bits_byte(place_bits(bits.skip(35), 5, 1)[0]);
                let index = <u32 as ReadSafe>::from_bytes(place_bits(bits.skip(40), 32, 4));
                (Some((msg, rel, Some(PacketOrdering { index, channel }), bits[72])), 73)
            }
        } else if bits.len() < 36 {
            (None, 35)
        } else {
            (Some((msg, rel, None, bits[35])), 36)
        }
    }
}

/// A packet as read: its message number, reliability, ordering, data bit size
/// and data.
pub type PacketView = (u32, PacketReliability, Option<PacketOrdering>, int, Seq<u8>);

/// The view of packet `p`.
pub open spec fn packet_view(p: InternalPacket) -> PacketView {
    (p.msg_num, p.reliability, p.ordering, p.data_bit_size as int, p.data@)
}

/// What `InternalPacket::parse` reads at offset `o` of the first `n` bits of
/// `b`: the packet, with the offset after it; `None` where the read fails or
/// the packet says it is split.
#[verifier::opaque]
pub open spec fn packet_read(b: Seq<u8>, n: int, o: int) -> Option<(PacketView, int)> {
    let bits = if 0 <= o <= n {
        bits_of(b, o, n)
    } else {
        Seq::empty()
    };
    let (h, c) = header_read(bits);
    match h {
        None => None,
        Some((msg, rel, ord, split)) => {
            if split {
                None
            } else {
                let (sz, c2) = compressed_read(bits.skip(c as int), 1, 2);
                match sz {
                    None => None,
                    Some(z) => {
                        let size = <u16 as ReadSafe>::from_bytes(z) as int;
                        let k = bytes_for(size);
                        let aligned = 8 * bytes_for(o + c + c2);
                        if k == 0 || aligned + 8 * k > n {
                            None
                        } else {
                            Some(
                                (
                                    (msg, rel, ord, size, b.subrange(aligned / 8, aligned / 8 + k)),
                                    aligned + 8 * k,
                                ),
                            )
                        }
                    },
                }
            }
        },
    }
}

/// A packet read moves past the offset it starts at, and not past the end.
pub proof fn lemma_packet_read_advances(b: Seq<u8>, n: int, o: int)
    requires
        0 <= o,
    ensures
        packet_read(b, n, o) matches Some((_, o2)) ==> o < o2 <= n,
{
    reveal(packet_read);
}

/// The packets read one after the other from offset `o` of the first `n` bits
/// of `b`, while at least 32 bits are left; `None` where one read fails.
pub open spec fn packets_read(b: Seq<u8>, n: int, o: int) -> Option<Seq<PacketView>>
    decreases n - o,
{
    if o < 0 || n - o < 32 {
        Some(Seq::empty())
    } else {
        match packet_read(b, n, o) {
            None => None,
            Some((p, o2)) => {
                proof {
                    lemma_packet_read_advances(b, n, o);
                }
                match packets_read(b, n, o2) {
                    None => None,
                    Some(ps) => Some(seq![p] + ps),
                }
            },
        }
    }
}

/// The bits of a byte below `2^n` above its `n` low bits are zero, for the
/// widths of a reliability and of a channel.
proof fn lemma_high_bits_zero(x: u8, n: int)
    requires
        n == 3 || n == 5,
        (x as int) < pow2_u8(n as nat),
    ensures
        forall|t: int| 0 <= t < 8 - n ==> !#[trigger] byte_bit(x, t),
{
    reveal_with_fuel(pow2_u8, 6);
    assert forall|t: int| 0 <= t < 8 - n implies !#[trigger] byte_bit(x, t) by {
        let s = (7 - t) as u8;
        if n == 3 {
            assert(x < 8u8 && 3u8 <= s < 8u8 ==> (x >> s) & 1u8 != 1u8) by (bit_vector);
        } else {
            assert(x < 32u8 && 5u8 <= s < 8u8 ==> (x >> s) & 1u8 != 1u8) by (bit_vector);
        }
    }
}

/// Reading the head of a packet back from the bits that `InternalPacket::write`
/// writes for it gives it back, whatever follows: its message number,
/// reliability, ordering and split flag (see `header_read`), then its data's
/// bit size as a compressed `u16`; for packets that are not split and that
/// carry an ordering, with a channel below 32, exactly where their reliability
/// needs one.
pub proof fn lemma_header_round_trip(
    msg: u32,
    rel: PacketReliability,
    ord: Option<PacketOrdering>,
    size: usize,
    rest: Seq<bool>,
)
    requires
        ord is Some <==> needs_ordering(rel),
        ord matches Some(o) ==> o.channel.value() < 32,
    ensures
        ({
            let hs = header_groups(msg, rel, ord, false, size);
            let cs = compressed_groups((size as u16).to_bytes(), 1);
            let bits = hs.flatten() + rest;
            let (h, used) = header_read(bits);
            &&& h == Some((msg, rel, ord, false))
            &&& used + cs.flatten().len() == hs.flatten().len()
            &&& compressed_read(bits.skip(used as int), 1, 2) == (
                Some((size as u16).to_bytes()),
                cs.flatten().len(),
            )
        }),
{
    vstd::bytes::lemma_auto_spec_u16_to_from_le_bytes();
    let relb = reliability_number(rel);
    let g0 = bits_of(msg.to_bytes(), 0, 32);
    let g1 = source_bits(seq![relb], 3);
    let sb = (size as u16).to_bytes();
    let cs = compressed_groups(sb, 1);
    let cf = cs.flatten();
    let sp = seq![false];
    let ordg = match ord {
        Some(o) => seq![source_bits(seq![o.channel.bits_byte()], 5), bits_of(o.index.to_bytes(), 0, 32)],
        None => Seq::empty(),
    };
    let hs = header_groups(msg, rel, ord, false, size);
    let front = seq![g0, g1] + ordg + seq![sp];
    assert(hs == front + cs);
    vstd::seq_lib::lemma_flatten_concat(front, cs);
    vstd::seq_lib::lemma_flatten_concat(seq![g0, g1] + ordg, seq![sp]);
    vstd::seq_lib::lemma_flatten_concat(seq![g0, g1], ordg);
    crate::bit_stream::lemma_flatten_small(g0, g1);
    crate::bit_stream::lemma_flatten_small(sp, sp);
    lemma_reliability_round_trip(rel);
    reveal_with_fuel(pow2_u8, 6);
    assert(pow2_u8(3) == 8);
    lemma_high_bits_zero(relb, 3);
    lemma_read_compressed_back(sb, rest);
    crate::bit_stream::lemma_compressed_len(sb, 1);
    let bits = hs.flatten() + rest;
    match ord {
        None => {
            assert(ordg.flatten() =~= Seq::<bool>::empty());
            assert(bits =~= g0 + (g1 + (sp + (cf + rest))));
            lemma_read_value_back::<u32>(msg, g1 + (sp + (cf + rest)));
            assert(bits.skip(32) =~= g1 + (sp + (cf + rest)));
            lemma_read_low_bits_back(relb, 3, sp + (cf + rest));
            assert(bits.skip(36) =~= cf + rest);
        },
        Some(o) => {
            let chb = o.channel.bits_byte();
            let g2 = source_bits(seq![chb], 5);
            let g3 = bits_of(o.index.to_bytes(), 0, 32);
            crate::bit_stream::lemma_flatten_small(g2, g3);
            lemma_channel_round_trip(o.channel);
            lemma_high_bits_zero(chb, 5);
            assert(bits =~= g0 + (g1 + (g2 + (g3 + (sp + (cf + rest))))));
            lemma_read_value_back::<u32>(msg, g1 + (g2 + (g3 + (sp + (cf + rest)))));
            assert(bits.skip(32) =~= g1 + (g2 + (g3 + (sp + (cf + rest)))));
            lemma_read_low_bits_back(relb, 3, g2 + (g3 + (sp + (cf + rest))));
            assert(bits.skip(35) =~= g2 + (g3 + (sp + (cf + rest))));
            lemma_read_low_bits_back(chb, 5, g3 + (sp + (cf + rest)));
            assert(bits.skip(40) =~= g3 + (sp + (cf + rest)));
            lemma_read_value_back::<u32>(o.index, sp + (cf + rest));
            assert(bits.skip(73) =~= cf + rest);
        },
    }
}

/// A packet that `InternalPacket::write` and `InternalPacket::parse` carry
/// through unchanged: not split, with an ordering, on a channel below 32,
/// exactly where its reliability needs one, and a data bit size that fits a
/// `u16` and takes all of its data's bytes, of which there is at least one.
pub open spec fn packet_carried(p: PacketView) -> bool {
    &&& p.2 is Some <==> needs_ordering(p.1)
    &&& (p.2 matches Some(o) ==> o.channel.value() < 32)
    &&& 0 <= p.3 <= u16::MAX
    &&& p.4.len() > 0
    &&& bytes_for(p.3) == p.4.len()
}

/// What `InternalPacket::write` leaves, for the packet `p`, in a stream of
/// `n0` bits held in `raw0`: the bytes held and the number of bits (see its
/// contract).
pub open spec fn packet_written(raw0: Seq<u8>, n0: int, p: PacketView) -> (Seq<u8>, int) {
    let hs = header_groups(p.0, p.1, p.2, false, p.3 as usize);
    let hl = n0 + hs.flatten().len();
    (put_groups(raw0, n0, hs).subrange(0, bytes_for(hl)) + p.4, 8 * bytes_for(hl) + 8 * p.4.len())
}

/// What `InternalPacket::write` writes for a packet, `InternalPacket::parse`
/// reads back from the bit where the write began, whatever bytes follow: the
/// same packet, with the read ending where the write ended.
#[verifier::rlimit(40)]
#[verifier::spinoff_prover]
pub proof fn lemma_parse_reads_back_write_then(raw0: Seq<u8>, n0: int, p: PacketView, tail: Seq<u8>)
    requires
        stream_wf(raw0, n0),
        packet_carried(p),
    ensures
        ({
            let (out, n) = packet_written(raw0, n0, p);
            &&& n == 8 * out.len()
            &&& stream_wf(out, n)
            &&& packet_read(out + tail, n + 8 * tail.len(), n0) == Some((p, n))
        }),
{
    reveal(packet_read);
    vstd::bytes::lemma_auto_spec_u16_to_from_le_bytes();
    let (msg, rel, ord, size_i, data) = p;
    let size = size_i as usize;
    let hs = header_groups(msg, rel, ord, false, size);
    let hf = hs.flatten();
    let full = put_groups(raw0, n0, hs);
    let hl = n0 + hf.len();
    lemma_put_groups(raw0, n0, hs);
    crate::bit_stream::lemma_bytes_for_le(hl, full.len() as int);
    let head = full.subrange(0, bytes_for(hl));
    let out = head + data;
    let n = 8 * bytes_for(hl) + 8 * data.len();
    assert(packet_written(raw0, n0, p) == (out, n));
    let b = out + tail;
    let nt = n + 8 * tail.len();
    let rest = bits_of(b, hl, nt);
    let bits = bits_of(b, n0, nt);
    assert forall|i: int| 0 <= i < hf.len() implies bits[i] == hf[i] by {
        assert((n0 + i) / 8 < head.len());
        assert(bits_of(full, 0, hl)[n0 + i] == (bits_of(raw0, 0, n0) + hf)[n0 + i]);
    }
    assert(bits =~= hf + rest);
    lemma_header_round_trip(msg, rel, ord, size, rest);
    <u16 as crate::bit_stream::Wire>::lemma_wire_round_trip(size as u16);
    assert(b.subrange(head.len() as int, (head.len() + data.len()) as int) =~= data);
    assert(size as int == size_i);
}

/// What `InternalPacket::write` writes for a packet that is not split,
/// `InternalPacket::parse` reads back from the bit where the write began: the
/// same packet, with the read ending where the write ended. This holds for
/// packets that carry an ordering, with a channel below 32, exactly where their
/// reliability needs one, and whose data bit size fits a `u16` and takes all
/// of their data's bytes.
pub proof fn lemma_parse_reads_back_write(
    raw0: Seq<u8>,
    n0: int,
    msg: u32,
    rel: PacketReliability,
    ord: Option<PacketOrdering>,
    size: usize,
    data: Seq<u8>,
)
    requires
        stream_wf(raw0, n0),
        ord is Some <==> needs_ordering(rel),
        ord matches Some(o) ==> o.channel.value() < 32,
        size <= u16::MAX,
        data.len() > 0,
        bytes_for(size as int) == data.len(),
    ensures
        ({
            let hs = header_groups(msg, rel, ord, false, size);
            let hl = n0 + hs.flatten().len();
            let head = put_groups(raw0, n0, hs).subrange(0, bytes_for(hl));
            let n = 8 * bytes_for(hl) + 8 * data.len();
            packet_read(head + data, n, n0) == Some(((msg, rel, ord, size as int, data), n))
        }),
{
    let p = (msg, rel, ord, size as int, data);
    lemma_parse_reads_back_write_then(raw0, n0, p, Seq::empty());
    let (out, n) = packet_written(raw0, n0, p);
    assert(out + Seq::<u8>::empty() =~= out);
}

/// Reading packets from an offset reads none where fewer than 32 bits are
/// left; else the packet there, then the packets from the offset after it,
/// which lies past it; or fails where that packet cannot be read.
pub proof fn lemma_packets_read_step(b: Seq<u8>, n: int, o: int)
    requires
        0 <= o,
    ensures
        n - o < 32 ==> packets_read(b, n, o) == Some(Seq::<PacketView>::empty()),
        n - o >= 32 && packet_read(b, n, o) is None ==> packets_read(b, n, o) is None,
        n - o >= 32 ==> (packet_read(b, n, o) matches Some((p, o2)) ==> o < o2 && packets_read(
            b,
            n,
            o,
        ) == match packets_read(b, n, o2) {
            None => None,
            Some(rest) => Some(seq![p] + rest),
        }),
{
    lemma_packet_read_advances(b, n, o);
}

/// Two packets that `InternalPacket::write` writes one after the other to a
/// stream of `n0` bits held in `raw0` are read back, both and in order, by
/// reading packets from bit `n0` of the bytes written.
pub proof fn lemma_two_packets_read_back(raw0: Seq<u8>, n0: int, a: PacketView, b: PacketView)
    requires
        stream_wf(raw0, n0),
        packet_carried(a),
        packet_carried(b),
    ensures
        ({
            let (out1, n1) = packet_written(raw0, n0, a);
            let (out2, n2) = packet_written(out1, n1, b);
            packets_read(out2, n2, n0) == Some(seq![a, b])
        }),
{
    let (out1, n1) = packet_written(raw0, n0, a);
    lemma_parse_reads_back_write_then(raw0, n0, a, Seq::empty());
    let (out2, n2) = packet_written(out1, n1, b);
    lemma_parse_reads_back_write_then(out1, n1, b, Seq::empty());
    assert(out2 + Seq::<u8>::empty() =~= out2);
    // The second write keeps the bytes of the first.
    let hs = header_groups(b.0, b.1, b.2, false, b.3 as usize);
    let full = put_groups(out1, n1, hs);
    let hl = n1 + hs.flatten().len();
    lemma_put_groups(out1, n1, hs);
    crate::bit_stream::lemma_bytes_for_le(hl, full.len() as int);
    let pre = out2.subrange(0, out1.len() as int);
    assert forall|i: int| 0 <= i < 8 * pre.len() implies crate::bits::bit_at(pre, i)
        == crate::bits::bit_at(out1, i) by {
        assert(i / 8 < out1.len());
        assert(bits_of(full, 0, hl)[i] == (bits_of(out1, 0, n1) + hs.flatten())[i]);
    }
    crate::bits::lemma_bytes_ext(pre, out1);
    let tail = out2.skip(out1.len() as int);
    assert(out2 =~= out1 + tail);
    lemma_parse_reads_back_write_then(raw0, n0, a, tail);
    assert(n2 == n1 + 8 * tail.len());
    lemma_packets_read_step(out2, n2, n0);
    lemma_packets_read_step(out2, n2, n1);
    lemma_packets_read_step(out2, n2, n2);
    assert(seq![b] + Seq::<PacketView>::empty() =~= seq![b]);
    assert(seq![a] + seq![b] =~= seq![a, b]);
}

impl<'a> InternalPacket<'a> {
    /// The data the packet carries.
    pub fn data(&self) -> (r: &'a [u8])
        ensures
            r@ == self.data@,
    {
        self.data
    }

    /// Reads the head of a packet: see `header_read`.
    fn read_header(bit_stream: &mut BitStreamRead<'a>) -> (r: Result<
        (MessageNumberType, PacketReliability, Option<PacketOrdering>, bool),
        Error,
    >)
        requires
            old(bit_stream).wf(),
        ensures
            final(bit_stream).bytes() == old(bit_stream).bytes(),
            final(bit_stream).bits_used() == old(bit_stream).bits_used(),
            final(bit_stream).wf(),
            ({
                let (h, c) = header_read(old(bit_stream)@);
                &&& h is None ==> r == Err::<
                    (MessageNumberType, PacketReliability, Option<PacketOrdering>, bool),
                    Error,
                >(Error::BitStreamEos)
                &&& h matches Some(v) ==> r == Ok::<
                    (MessageNumberType, PacketReliability, Option<PacketOrdering>, bool),
                    Error,
                >(v)
                &&& final(bit_stream).offset() == old(bit_stream).offset() + c
                &&& final(bit_stream)@ == old(bit_stream)@.skip(c as int)
            }),
    {
        let ghost bits = bit_stream@;
        let ghost o = bit_stream.offset() as int;
        proof {
            vstd::bytes::lemma_auto_spec_u32_to_from_le_bytes();
        }
        let msg_num: MessageNumberType = match bit_stream.read() {
            Ok(v) => v,
            Err(e) => {
                return Err(e);
            },
        };
        proof {
            assert(bit_stream@ =~= bits.skip(32));
        }
        let reliability: PacketReliability = match bit_stream.read_bits() {
            Ok(v) => v,
            Err(e) => {
                return Err(e);
            },
        };
        proof {
            assert(bit_stream@ =~= bits.skip(35));
            assert(bits.skip(32).skip(3) =~= bits.skip(35));
        }
        let ordering = if matches!(
            reliability,
            PacketReliability::ReliableOrdered | PacketReliability::ReliableSequenced
                | PacketReliability::UnreliableSequenced
        ) {
            let channel: OrderingChannel = match bit_stream.read_bits() {
                Ok(v) => v,
                Err(e) => {
                    return Err(e);
                },
            };
            proof {
                assert(bit_stream@ =~= bits.skip(40));
                assert(bits.skip(35).skip(5) =~= bits.skip(40));
            }
            let index: OrderingIndexType = match bit_stream.read() {
                Ok(v) => v,
                Err(e) => {
                    return Err(e);
                },
            };
            proof {
                assert(bit_stream@ =~= bits.skip(72));
                assert(bits.skip(40).skip(32) =~= bits.skip(72));
            }
            Some(PacketOrdering { channel, index })
        } else {
            None
        };
        let ghost c = header_read(bits).1;
        let is_split_packet = match bit_stream.read_bool() {
            Ok(v) => v,
            Err(e) => {
                return Err(e);
            },
        };
        proof {
            assert(bits.skip(c as int - 1)[0] == bits[c as int - 1]);
            assert(bit_stream@ =~= bits.skip(c as int));
        }
        Ok((msg_num, reliability, ordering, is_split_packet))
    }

    /// Whether the packet at the front of `bit_stream` says it is split; the
    /// stream is left as it is.
    pub(crate) fn is_split(bit_stream: &BitStreamRead<'a>) -> (r: bool)
        requires
            bit_stream.wf(),
        ensures
            r == (header_read(bit_stream@).0 matches Some(h) && h.3),
    {
        let mut peek = bit_stream.duplicate();
        match Self::read_header(&mut peek) {
            Ok((_, _, _, split)) => split,
            Err(_) => false,
        }
    }

    /// Reads a packet at `time`: its head (see `header_read`), its data's bit
    /// size as a compressed `u16`, then the bytes that hold that many bits from
    /// the next byte boundary on. Split packets are not read.
    pub fn parse(bit_stream: &mut BitStreamRead<'a>, time: RakNetTime) -> (r: Result<
        InternalPacket<'a>,
        Error,
    >)
        requires
            old(bit_stream).wf(),
            !(header_read(old(bit_stream)@).0 matches Some(h) && h.3),
        ensures
            final(bit_stream).bytes() == old(bit_stream).bytes(),
            final(bit_stream).bits_used() == old(bit_stream).bits_used(),
            final(bit_stream).wf(),
            ({
                let bits = old(bit_stream)@;
                let o = old(bit_stream).offset() as int;
                let (h, c) = header_read(bits);
                &&& h is None ==> r == Err::<InternalPacket<'a>, Error>(Error::BitStreamEos)
                    && final(bit_stream).offset() == o + c
                &&& h matches Some((msg, rel, ord, split)) ==> ({
                    let (sz, c2) = compressed_read(bits.skip(c as int), 1, 2);
                    &&& sz is None ==> r == Err::<InternalPacket<'a>, Error>(Error::BitStreamEos)
                        && final(bit_stream).offset() == o + c + c2
                    &&& sz matches Some(b) ==> ({
                        let size = <u16 as ReadSafe>::from_bytes(b) as int;
                        let k = bytes_for(size);
                        let aligned = 8 * bytes_for(o + c + c2);
                        if k == 0 || aligned + 8 * k > old(bit_stream).bits_used() {
                            &&& r == Err::<InternalPacket<'a>, Error>(Error::BitStreamEos)
                            &&& final(bit_stream).offset() == if k == 0 {
                                o + c + c2
                            } else {
                                aligned
                            }
                        } else {
                            &&& r matches Ok(p)
                            &&& p.time == time
                            &&& p.msg_num == msg
                            &&& p.reliability == rel
                            &&& p.ordering == ord
                            &&& !p.is_split_packet
                            &&& p.data_bit_size == size
                            &&& p.data@ == old(bit_stream).bytes().subrange(aligned / 8, aligned / 8 + k)
                            &&& final(bit_stream).offset() == aligned + 8 * k
                        }
                    })
                })
            }),
    {
        let ghost bits = bit_stream@;
        let (msg_num, reliability, ordering, is_split_packet) = match Self::read_header(
            bit_stream,
        ) {
            Ok(h) => h,
            Err(e) => {
                return Err(e);
            },
        };
        let ghost c = header_read(bits).1;
        if is_split_packet {
            proof {
                assert(header_read(bits).0 matches Some(h) && h.3);
            }
            return Err(Error::BitStreamEos);
        }
        let size: u16 = match bit_stream.read_compressed() {
            Ok(v) => v,
            Err(e) => {
                return Err(e);
            },
        };
        let data_bit_size = size as usize;
        let data = match bit_stream.read_aligned_bytes((data_bit_size + 7) / 8) {
            Ok(d) => d,
            Err(e) => {
                return Err(e);
            },
        };
        Ok(InternalPacket {
            time,
            msg_num,
            ordering,
            reliability,
            is_split_packet,
            data,
            data_bit_size,
        })
    }

    /// Writes the packet: its head (see `header_groups`), then its data from the
    /// next byte boundary on, right after the bytes that hold the head. Returns
    /// the number of bits the stream grew by.
    pub fn write(&self, output: &mut BitStreamWrite) -> (r: usize)
        requires
            old(output).wf(),
            !self.is_split_packet,
            self.ordering is None ==> !needs_ordering(self.reliability),
            can_grow(old(output).bit_len() as int, (91 + 8 * self.data@.len()) as int),
        ensures
            ({
                let hs = header_groups(
                    self.msg_num,
                    self.reliability,
                    self.ordering,
                    self.is_split_packet,
                    self.data_bit_size,
                );
                let head = put_groups(old(output).raw(), old(output).bit_len() as int, hs);
                let head_len = old(output).bit_len() + hs.flatten().len();
                &&& final(output).raw() == head.subrange(0, bytes_for(head_len as int))
                    + self.data@
                &&& final(output).bit_len() == 8 * bytes_for(head_len as int) + 8 * self.data@.len()
                &&& final(output).wf()
                &&& r == final(output).bit_len() - old(output).bit_len()
            }),
    {
        let ghost raw0 = output.raw();
        let ghost n0 = output.bit_len() as int;
        let ghost hs = header_groups(
            self.msg_num,
            self.reliability,
            self.ordering,
            self.is_split_packet,
            self.data_bit_size,
        );
        let start = output.num_bits();
        proof {
            vstd::bytes::lemma_auto_spec_u32_to_from_le_bytes();
            vstd::bytes::lemma_auto_spec_u16_to_from_le_bytes();
        }
        output.write(self.msg_num);
        output.write_bits(self.reliability);
        let ghost ord: Seq<Seq<bool>> = Seq::empty();
        if let Some(ordering) = &self.ordering {
            output.write_bits(ordering.channel);
            output.write(ordering.index);
            proof {
                ord = seq![
                    source_bits(seq![ordering.channel.bits_byte()], 5),
                    bits_of(ordering.index.to_bytes(), 0, 32),
                ];
            }
        }
        output.write_bool(self.is_split_packet);
        let ghost cg = compressed_groups((self.data_bit_size as u16).to_bytes(), 1);
        let ghost mid = output.raw();
        let ghost mid_n = output.bit_len() as int;
        output.write_compressed(self.data_bit_size as u16);
        proof {
            lemma_compressed_len((self.data_bit_size as u16).to_bytes(), 1);
            let a = bits_of(self.msg_num.to_bytes(), 0, 32);
            let b = source_bits(seq![self.reliability.bits_byte()], 3);
            let pre = seq![a, b] + ord + seq![seq![self.is_split_packet]];
            assert(hs =~= pre + cg);
            lemma_put_groups_append(raw0, n0, pre, cg);
            lemma_pre_groups(raw0, n0, a, b, ord, self.is_split_packet);
            vstd::seq_lib::lemma_flatten_concat(pre, cg);
            lemma_put_groups(raw0, n0, hs);
        }
        output.write_aligned_bytes(self.data);
        output.num_bits() - start
    }
}

/// The groups before the compressed size, written one write at a time.
proof fn lemma_pre_groups(
    raw: Seq<u8>,
    n: int,
    a: Seq<bool>,
    b: Seq<bool>,
    ord: Seq<Seq<bool>>,
    split: bool,
)
    requires
        ord.len() == 0 || ord.len() == 2,
    ensures
        ({
            let pre = seq![a, b] + ord + seq![seq![split]];
            let s1 = put_bits(raw, n, a);
            let s2 = put_bits(s1, n + a.len(), b);
            let s3 = if ord.len() == 2 {
                put_bits(
                    put_bits(s2, n + a.len() + b.len(), ord[0]),
                    n + a.len() + b.len() + ord[0].len(),
                    ord[1],
                )
            } else {
                s2
            };
            let n3 = if ord.len() == 2 {
                n + a.len() + b.len() + ord[0].len() + ord[1].len()
            } else {
                n + a.len() + b.len()
            };
            &&& put_groups(raw, n, pre) == put_bits(s3, n3, seq![split])
            &&& pre.flatten().len() == n3 + 1 - n
        }),
{
    let pre = seq![a, b] + ord + seq![seq![split]];
    let e = Seq::<Seq<bool>>::empty();
    let s1 = put_bits(raw, n, a);
    let s2 = put_bits(s1, n + a.len(), b);
    let t1 = pre.drop_first();
    let t2 = t1.drop_first();
    assert(pre[0] == a);
    assert(t1[0] == b);
    assert(t2 =~= ord + seq![seq![split]]);
    lemma_flatten_cons(a, t1);
    assert(seq![a] + t1 =~= pre);
    lemma_flatten_cons(b, t2);
    assert(seq![b] + t2 =~= t1);
    assert(put_groups(raw, n, pre) == put_groups(s1, n + a.len(), t1));
    assert(put_groups(s1, n + a.len(), t1) == put_groups(s2, n + a.len() + b.len(), t2));
    let last = seq![seq![split]];
    lemma_flatten_cons(seq![split], e);
    assert(last =~= seq![seq![split]] + e);
    assert(last.drop_first() =~= e);
    if ord.len() == 2 {
        let t3 = t2.drop_first();
        let t4 = t3.drop_first();
        assert(t2[0] == ord[0]);
        assert(t3[0] == ord[1]);
        assert(t4 =~= last);
        lemma_flatten_cons(ord[0], t3);
        assert(seq![ord[0]] + t3 =~= t2);
        lemma_flatten_cons(ord[1], t4);
        assert(seq![ord[1]] + t4 =~= t3);
        let s3 = put_bits(s2, n + a.len() + b.len(), ord[0]);
        let s4 = put_bits(s3, n + a.len() + b.len() + ord[0].len(), ord[1]);
        let n4 = n + a.len() + b.len() + ord[0].len() + ord[1].len();
        assert(put_groups(s2, n + a.len() + b.len(), t2) == put_groups(
            s3,
            n + a.len() + b.len() + ord[0].len(),
            t3,
        ));
        assert(put_groups(s3, n + a.len() + b.len() + ord[0].len(), t3) == put_groups(s4, n4, t4));
        assert(put_groups(s4, n4, t4) == put_groups(put_bits(s4, n4, seq![split]), n4 + 1, e));
    } else {
        assert(t2 =~= last);
        let n2 = n + a.len() + b.len();
        assert(put_groups(s2, n2, t2) == put_groups(put_bits(s2, n2, seq![split]), n2 + 1, e));
    }
}

} // verus!
