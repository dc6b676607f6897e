//! The binary raw-pixel datagram formats: one packet for a short strip, a run
//! of offset-addressed packets for a long one.

use vstd::prelude::*;

verus! {

/// The most pixels that one datagram carries.
pub const MAX_LEDS_IN_PACKET: usize = 489;

/// The most pixel bytes that one datagram carries.
pub const MAX_BYTES_IN_PACKET: usize = 1467;

/// Length of the header of a single-packet datagram.
pub const DRGB_HEADER_SIZE: usize = 2;

/// Length of the header of a chunk datagram.
pub const DNRGB_HEADER_SIZE: usize = 4;

/// Protocol code of a single-packet datagram.
pub const DRGB_PROTOCOL: u8 = 2;

/// Protocol code of a chunk datagram.
pub const DNRGB_PROTOCOL: u8 = 4;

/// Seconds after which the controller falls back to its own program.
pub const TIMEOUT_SECONDS: u8 = 1;

/// The most pixels that a chunked strip can hold: chunk offsets are 16 bits.
pub const MAX_STRIP_LEDS: usize = 65535;

/// The single-packet datagram for `buffer`: protocol code, timeout, then the
/// pixel bytes as they are.
pub open spec fn drgb_packet(buffer: Seq<u8>) -> Seq<u8> {
    seq![DRGB_PROTOCOL, TIMEOUT_SECONDS] + buffer
}

/// What a single-packet datagram carries: the number of whole pixels and the
/// pixel bytes, if `packet` is such a datagram.
pub open spec fn drgb_contents(packet: Seq<u8>) -> Option<(nat, Seq<u8>)> {
    if packet.len() >= 2 && packet[0] == DRGB_PROTOCOL && packet[1] == TIMEOUT_SECONDS && (
    packet.len() - 2) % 3 == 0 {
        Some((((packet.len() - 2) / 3) as nat, packet.skip(2)))
    } else {
        None
    }
}

/// Number of chunks that a buffer of `len` bytes is split into.
pub open spec fn chunk_count(len: nat) -> nat {
    ((len + MAX_BYTES_IN_PACKET - 1) / (MAX_BYTES_IN_PACKET as int)) as nat
}

/// The pixel bytes of chunk `k` of `buffer`.
pub open spec fn chunk_payload(buffer: Seq<u8>, k: int) -> Seq<u8> {
    buffer.subrange(
        MAX_BYTES_IN_PACKET * k,
        if MAX_BYTES_IN_PACKET * (k + 1) < buffer.len() {
            MAX_BYTES_IN_PACKET * (k + 1)
        } else {
            buffer.len() as int
        },
    )
}

/// The header of the chunk that starts at pixel `offset`: protocol code,
/// timeout, then the offset as 16 bits, high byte first.
pub open spec fn dnrgb_header(offset: int) -> Seq<u8> {
    seq![DNRGB_PROTOCOL, TIMEOUT_SECONDS, (offset / 256) as u8, (offset % 256) as u8]
}

/// The datagram for chunk `k` of `buffer`.
pub open spec fn dnrgb_packet(buffer: Seq<u8>, k: int) -> Seq<u8> {
    dnrgb_header(MAX_LEDS_IN_PACKET * k) + chunk_payload(buffer, k)
}

/// The chunk datagrams for `buffer`, by ascending offset.
pub open spec fn dnrgb_packets(buffer: Seq<u8>) -> Seq<Seq<u8>> {
    Seq::new(chunk_count(buffer.len()), |k: int| dnrgb_packet(buffer, k))
}

/// The datagrams that carry `buffer` to a binary device: a single packet
/// while the strip fits in one, chunks beyond that.
pub open spec fn binary_packets(buffer: Seq<u8>) -> Seq<Seq<u8>> {
    if buffer.len() / 3 <= MAX_LEDS_IN_PACKET {
        seq![drgb_packet(buffer)]
    } else {
        dnrgb_packets(buffer)
    }
}

/// The payloads of chunk datagrams, headers stripped, one after the other.
pub open spec fn payloads_joined(packets: Seq<Seq<u8>>) -> Seq<u8>
    decreases packets.len(),
{
    if packets.len() == 0 {
        Seq::empty()
    } else {
        payloads_joined(packets.drop_last()) + packets.last().skip(DNRGB_HEADER_SIZE as int)
    }
}

/// Reading a single-packet datagram back gives the buffer it was made of and
/// the number of pixels in it.
pub proof fn lemma_drgb_round_trip(buffer: Seq<u8>, number_of_leds: nat)
    requires
        buffer.len() == 3 * number_of_leds,
    ensures
        drgb_contents(drgb_packet(buffer)) == Some((number_of_leds, buffer)),
{
    assert(drgb_packet(buffer).skip(2) =~= buffer);
}

/// Every chunk but the last carries a full packet of pixels; the last one
/// carries what is left, and is never empty.
pub proof fn lemma_chunk_lengths(buffer: Seq<u8>, k: int)
    requires
        0 <= k < chunk_count(buffer.len()),
    ensures
        k < chunk_count(buffer.len()) - 1 ==> chunk_payload(buffer, k).len()
            == MAX_BYTES_IN_PACKET,
        k == chunk_count(buffer.len()) - 1 ==> chunk_payload(buffer, k).len() == buffer.len()
            - MAX_BYTES_IN_PACKET * k,
        0 < chunk_payload(buffer, k).len() <= MAX_BYTES_IN_PACKET,
{
}

/// The payloads of the first `k` chunks, joined, are the buffer up to the
/// start of chunk `k`.
proof fn lemma_chunks_rebuild_prefix(buffer: Seq<u8>, k: int)
    requires
        0 <= k <= chunk_count(buffer.len()),
    ensures
        payloads_joined(dnrgb_packets(buffer).take(k)) == buffer.take(
            if MAX_BYTES_IN_PACKET * k < buffer.len() {
                MAX_BYTES_IN_PACKET * k
            } else {
                buffer.len() as int
            },
        ),
    decreases k,
{
    let packets = dnrgb_packets(buffer);
    if k == 0 {
        assert(payloads_joined(packets.take(0)) =~= buffer.take(0));
    } else {
        lemma_chunks_rebuild_prefix(buffer, k - 1);
        lemma_chunk_lengths(buffer, k - 1);
        let taken = packets.take(k);
        assert(taken.drop_last() =~= packets.take(k - 1));
        assert(taken.last() == dnrgb_packet(buffer, k - 1));
        assert(taken.last().skip(DNRGB_HEADER_SIZE as int) =~= chunk_payload(buffer, k - 1));
        assert(payloads_joined(taken) =~= buffer.take(
            if MAX_BYTES_IN_PACKET * k < buffer.len() {
                MAX_BYTES_IN_PACKET * k
            } else {
                buffer.len() as int
            },
        ));
    }
}

/// Stripping the header of every chunk and joining the payloads by ascending
/// offset gives the buffer back, byte for byte.
pub proof fn lemma_chunks_rebuild_buffer(buffer: Seq<u8>)
    ensures
        payloads_joined(dnrgb_packets(buffer)) == buffer,
{
    let packets = dnrgb_packets(buffer);
    lemma_chunks_rebuild_prefix(buffer, packets.len() as int);
    assert(packets.take(packets.len() as int) =~= packets);
    assert(buffer.take(buffer.len() as int) =~= buffer);
}

/// Appends `source[from..to]` to `target`.
fn append_bytes(target: &mut Vec<u8>, source: &[u8], from: usize, to: usize)
    requires
        from <= to <= source@.len(),
    ensures
        final(target)@ == old(target)@ + source@.subrange(from as int, to as int),
{
    let mut i: usize = from;
    while i < to
        invariant
            from <= i <= to <= source@.len(),
            target@ == old(target)@ + source@.subrange(from as int, i as int),
        decreases to - i,
    {
        target.push(source[i]);
        i += 1;
        proof {
            assert(target@ =~= old(target)@ + source@.subrange(from as int, i as int));
        }
    }
    proof {
        assert(old(target)@ + source@.subrange(from as int, from as int) =~= old(target)@);
    }
}

/// Frames `buffer` as one single-packet datagram.
pub fn encode_drgb(buffer: &[u8]) -> (packet: Vec<u8>)
    ensures
        packet@ == drgb_packet(buffer@),
{
    let mut packet: Vec<u8> = Vec::new();
    packet.push(DRGB_PROTOCOL);
    packet.push(TIMEOUT_SECONDS);
    append_bytes(&mut packet, buffer, 0, buffer.len());
    proof {
        assert(buffer@.subrange(0, buffer@.len() as int) =~= buffer@);
        assert(packet@ =~= drgb_packet(buffer@));
    }
    packet
}

/// Reads a single-packet datagram back: the number of pixels it carries and
/// their bytes, or nothing if `packet` is no such datagram.
pub fn parse_drgb(packet: &[u8]) -> (contents: Option<(usize, Vec<u8>)>)
    ensures
        match contents {
            Some((leds, pixels)) => drgb_contents(packet@) == Some((leds as nat, pixels@)),
            None => drgb_contents(packet@) is None,
        },
{
    if packet.len() < DRGB_HEADER_SIZE || packet[0] != DRGB_PROTOCOL || packet[1]
        != TIMEOUT_SECONDS || (packet.len() - DRGB_HEADER_SIZE) % 3 != 0 {
        return None;
    }
    let mut pixels: Vec<u8> = Vec::new();
    append_bytes(&mut pixels, packet, DRGB_HEADER_SIZE, packet.len());
    proof {
        assert(pixels@ =~= packet@.skip(2));
    }
    Some(((packet.len() - DRGB_HEADER_SIZE) / 3, pixels))
}

/// Frames `buffer` as chunk datagrams of at most `MAX_LEDS_IN_PACKET` pixels
/// each, by ascending offset.
pub fn encode_dnrgb(buffer: &[u8]) -> (packets: Vec<Vec<u8>>)
    requires
        buffer@.len() <= 3 * MAX_STRIP_LEDS,
    ensures
        packets@.len() == chunk_count(buffer@.len()),
        forall|k: int|
            0 <= k < packets@.len() ==> (#[trigger] packets@[k])@ == dnrgb_packet(buffer@, k),
{
    let len = buffer.len();
    let mut packets: Vec<Vec<u8>> = Vec::new();
    let mut start: usize = 0;
    let mut index: usize = 0;
    while start < len
        invariant
            len == buffer@.len(),
            len <= 3 * MAX_STRIP_LEDS,
            index == packets@.len(),
            start <= len,
            start == len || start == MAX_BYTES_IN_PACKET * index,
            start == len ==> index == chunk_count(len as nat),
            start < len ==> index < chunk_count(len as nat),
            forall|k: int|
                0 <= k < packets@.len() ==> (#[trigger] packets@[k])@ == dnrgb_packet(buffer@, k),
        decreases len - start,
    {
        let end = if len - start > MAX_BYTES_IN_PACKET {
            start + MAX_BYTES_IN_PACKET
        } else {
            len
        };
        let offset: u16 = (MAX_LEDS_IN_PACKET * index) as u16;
        let high: u8 = (offset >> 8) as u8;
        let low: u8 = (offset & 0xff) as u8;
        proof {
            assert(offset >> 8 == offset / 256) by (bit_vector);
            assert(offset & 0xff == offset % 256) by (bit_vector);
        }
        let mut packet: Vec<u8> = Vec::new();
        packet.push(DNRGB_PROTOCOL);
        packet.push(TIMEOUT_SECONDS);
        packet.push(high);
        packet.push(low);
        append_bytes(&mut packet, buffer, start, end);
        proof {
            assert(packet@ =~= dnrgb_packet(buffer@, index as int));
        }
        packets.push(packet);
        start = end;
        index += 1;
    }
    packets
}

/// Frames `buffer` for a binary device: one single-packet datagram while the
/// strip fits in one, chunk datagrams beyond that.
pub fn encode_binary(buffer: &[u8]) -> (packets: Vec<Vec<u8>>)
    requires
        buffer@.len() <= 3 * MAX_STRIP_LEDS,
    ensures
        packets@.len() == binary_packets(buffer@).len(),
        forall|k: int|
            0 <= k < packets@.len() ==> (#[trigger] packets@[k])@ == binary_packets(buffer@)[k],
{
    if buffer.len() / 3 <= MAX_LEDS_IN_PACKET {
        let mut packets: Vec<Vec<u8>> = Vec::new();
        packets.push(encode_drgb(buffer));
        packets
    } else {
        encode_dnrgb(buffer)
    }
}

} // verus!
