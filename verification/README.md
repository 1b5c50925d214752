# raknet

A RakNet bit stream, packet and reliability layer, verified with Verus.

- `src/bits.rs`: the bit-level model: bytes read as one string of bits.
- `src/bit_stream.rs`: `BitStreamRead` and `BitStreamWrite`, with the laws
  that a read gives back what a write wrote (values, bits, compressed values,
  aligned bytes).
- `src/ds/range_list.rs`: `RangeList`, a set of numbers kept as sorted,
  non-adjacent ranges, with its serialization.
- `src/internal_packet.rs`: the packets a datagram carries, how they are
  written and read.
- `src/queue.rs`, `src/server/connection.rs`: the packets waiting for a remote
  system, the datagrams made from them, the datagrams read from it, and what a
  connection does with each packet (replies to connection requests and pings).
- `src/server/mod.rs`: what a peer does with a datagram: hand it to its
  connection, or open a connection.
- `app/`: the socket side of a peer (binding, the receive loop, sending
  datagrams), which Verus does not see. The ID numbering of the protocol is
  handed to it by its caller.
