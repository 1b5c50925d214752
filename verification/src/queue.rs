//! The packets waiting to be sent to a remote system.
use std::collections::VecDeque;

use vstd::prelude::*;

use crate::bit_stream::{
    can_grow, lemma_flatten_small, lemma_put_groups, lemma_put_groups_append, lemma_put_groups_two, put_bits,
    put_groups, stream_wf, BitStreamWrite,
};
use crate::bits::{bits_of, bytes_for};
use crate::ds::range_list::{lemma_list_groups_len, list_groups};
use crate::internal_packet::{header_groups, needs_ordering, InternalPacket};
use crate::packet_priority::PacketReliability;
use crate::reliability_layer::AckList;
use crate::types::RakNetTime;
use crate::util::MsgNumGenerator;
use crate::bit_stream::WriteSafe;

verus! {

/// The groups of bits a datagram starts with: a 0 where there are no
/// acknowledgements, else a 1, a zero time and the acknowledgements.
pub open spec fn ack_groups(acks: Seq<(u32, u32)>) -> Seq<Seq<bool>> {
    if acks.len() == 0 {
        seq![seq![false]]
    } else {
        seq![seq![true], bits_of(0u32.to_bytes(), 0, 32)] + list_groups(acks)
    }
}

/// The groups of bits before a packet's data: a 1, the time, and the head of
/// the packet, which has no ordering and is not split.
pub open spec fn packet_groups(
    time: RakNetTime,
    msg_num: u32,
    reliability: PacketReliability,
    size: usize,
) -> Seq<Seq<bool>> {
    seq![seq![true], bits_of(time.to_bytes(), 0, 32)] + header_groups(
        msg_num,
        reliability,
        None,
        false,
        size,
    )
}

/// The bits a datagram may take: its acknowledgements and the first packet
/// waiting, with its data.
pub open spec fn datagram_room(acks: Seq<(u32, u32)>, queue: Seq<(BitStreamWrite, PacketReliability)>) -> int {
    176 + 65 * acks.len() + if queue.len() > 0 {
        8 * bytes_for(queue[0].0.bit_len() as int)
    } else {
        0
    }
}

/// What `Queue::generate_datagram` leaves in a stream of `n0` bits held in
/// `raw0`, as the bytes held and the number of bits: the acknowledgements (see
/// `ack_groups`); then, where a packet waits, the head of the first one with
/// the message number `msg_num` (see `packet_groups`), and its data from the
/// next byte boundary on, right after the bytes that hold the head; else a 0.
pub open spec fn datagram_written(
    raw0: Seq<u8>,
    n0: int,
    acks: Seq<(u32, u32)>,
    queue: Seq<(BitStreamWrite, PacketReliability)>,
    msg_num: u32,
    time: RakNetTime,
) -> (Seq<u8>, int) {
    let ag = ack_groups(acks);
    let s1 = put_groups(raw0, n0, ag);
    let n1 = n0 + ag.flatten().len();
    if queue.len() == 0 {
        (put_bits(s1, n1, seq![false]), n1 + 1)
    } else {
        let (payload, reliability) = queue[0];
        let hg = packet_groups(time, msg_num, reliability, payload.bit_len() as usize);
        let s2 = put_groups(s1, n1, hg);
        let n2 = n1 + hg.flatten().len();
        let data = payload.raw().subrange(0, bytes_for(payload.bit_len() as int));
        (s2.subrange(0, bytes_for(n2)) + data, 8 * bytes_for(n2) + 8 * data.len())
    }
}

/// The packets waiting, each with its reliability, first first.
pub struct Queue {
    inner: VecDeque<(BitStreamWrite, PacketReliability)>,
}

impl View for Queue {
    type V = Seq<(BitStreamWrite, PacketReliability)>;

    closed spec fn view(&self) -> Seq<(BitStreamWrite, PacketReliability)> {
        self.inner@
    }
}

impl Default for Queue {
    fn default() -> (r: Self)
        ensures
            r@ == Seq::<(BitStreamWrite, PacketReliability)>::empty(),
    {
        Queue { inner: VecDeque::new() }
    }
}

impl Queue {
    /// Queues the packet `bs`, to be sent with `reliability`.
    pub fn push(&mut self, bs: BitStreamWrite, reliability: PacketReliability)
        ensures
            final(self)@ == old(self)@.push((bs, reliability)),
    {
        self.inner.push_back((bs, reliability));
    }

    /// Whether no packet waits.
    pub fn is_empty(&self) -> (r: bool)
        ensures
            r == (self@.len() == 0),
    {
        self.inner.len() == 0
    }

    /// The bit length and reliability of the first packet waiting, if any.
    pub(crate) fn first(&self) -> (r: Option<(usize, PacketReliability)>)
        ensures
            self@.len() == 0 ==> r is None,
            self@.len() > 0 ==> (r matches Some((bits, reliability)) && bits == self@[0].0.bit_len()
                && reliability == self@[0].1),
    {
        if self.inner.len() == 0 {
            None
        } else {
            let (payload, reliability) = &self.inner[0];
            Some((payload.num_bits(), *reliability))
        }
    }

    /// Writes a datagram to `output`: the acknowledgements (see `ack_groups`),
    /// which are then cleared; then, where a packet waits, the first one, with
    /// the next message number and the time `time` (see `packet_groups`),
    /// followed by its data from the next byte boundary on; else a 0.
    pub fn generate_datagram(
        &mut self,
        output: &mut BitStreamWrite,
        msg_num_gen: &mut MsgNumGenerator,
        time: RakNetTime,
        acks: &mut AckList,
    )
        requires
            old(output).wf(),
            forall|i: int| 0 <= i < old(acks)@.len() ==> #[trigger] old(acks)@[i].1 >= 1,
            can_grow(old(output).bit_len() as int, datagram_room(old(acks)@, old(self)@)),
            old(self)@.len() > 0 ==> old(self)@[0].0.wf() && !needs_ordering(old(self)@[0].1)
                && old(msg_num_gen)@ < u32::MAX,
        ensures
            final(acks)@ == Seq::<(u32, u32)>::empty(),
            final(output).wf(),
            ({
                let (raw, len) = datagram_written(
                    old(output).raw(),
                    old(output).bit_len() as int,
                    old(acks)@,
                    old(self)@,
                    old(msg_num_gen)@,
                    time,
                );
                &&& final(output).raw() == raw
                &&& final(output).bit_len() == len
            }),
            old(self)@.len() == 0 ==> final(self)@ == old(self)@ && final(msg_num_gen)@ == old(
                msg_num_gen,
            )@,
            old(self)@.len() > 0 ==> final(self)@ == old(self)@.drop_first() && final(msg_num_gen)@
                == old(msg_num_gen)@ + 1,
    {
        let ghost raw0 = output.raw();
        let ghost n0 = output.bit_len() as int;
        let ghost ag = ack_groups(acks@);
        let mut wrote_data = false;
        if acks.is_empty() {
            output.write_0();
            proof {
                assert(put_groups(raw0, n0, ag) == put_groups(
                    put_bits(raw0, n0, seq![false]),
                    n0 + 1,
                    Seq::<Seq<bool>>::empty(),
                )) by {
                    assert(ag.drop_first() =~= Seq::<Seq<bool>>::empty());
                }
                lemma_flatten_small(seq![false], seq![false]);
            }
        } else {
            output.write_1();
            output.write(0u32);
            let ghost mid = output.raw();
            let ghost mid_n = output.bit_len() as int;
            acks.serialize(output);
            acks.clear();
            proof {
                let head = seq![seq![true], bits_of(0u32.to_bytes(), 0, 32)];
                lemma_put_groups_two(raw0, n0, seq![true], bits_of(0u32.to_bytes(), 0, 32));
                lemma_put_groups_append(raw0, n0, head, list_groups(old(acks)@));
                vstd::seq_lib::lemma_flatten_concat(head, list_groups(old(acks)@));
                lemma_flatten_small(seq![true], bits_of(0u32.to_bytes(), 0, 32));
                lemma_list_groups_len(old(acks)@);
            }
        }
        proof {
            lemma_put_groups(raw0, n0, ag);
        }
        let front = self.inner.pop_front();
        if let Some((payload, reliability)) = front {
            let msg_num = msg_num_gen.next();
            let data_bit_size = payload.num_bits();
            let internal_packet = InternalPacket {
                time,
                msg_num,
                reliability,
                ordering: None,
                is_split_packet: false,
                data_bit_size,
                data: payload.data(),
            };
            let ghost s1 = output.raw();
            let ghost n1 = output.bit_len() as int;
            if !wrote_data {
                output.write_1();
                output.write(time);
                wrote_data = true;
            }
            let _bits_written = internal_packet.write(output);
            proof {
                let head = seq![seq![true], bits_of(time.to_bytes(), 0, 32)];
                let hg = header_groups(msg_num, reliability, None, false, data_bit_size);
                lemma_put_groups_two(s1, n1, seq![true], bits_of(time.to_bytes(), 0, 32));
                lemma_put_groups_append(s1, n1, head, hg);
                vstd::seq_lib::lemma_flatten_concat(head, hg);
                lemma_flatten_small(seq![true], bits_of(time.to_bytes(), 0, 32));
            }
        }
        if !wrote_data {
            output.write_0();
        }
    }
}

} // verus!
