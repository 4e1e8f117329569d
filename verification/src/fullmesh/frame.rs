//! The frame of a sealed packet: a header of four bytes, then the ciphertext and its tag.
//!
//! The header is a number with the highest bit set. The next bit tells the two ends of a connection
//! apart, the one after it tells under which of two keys the packet is sealed, and the rest counts
//! the packets. The header is also the end of the nonce, so no two packets of a key share a nonce.

use vstd::prelude::*;
use crate::crypto::{aes128_gcm_opened, aes128_gcm_sealed, open, seal, LONGEST_PLAINTEXT};

verus! {

/// A key for a connection. Of two keys in use at the same time, `index` tells which one it is.
#[derive(Clone, Copy, PartialEq, Eq, Structural, Debug)]
pub struct FullMeshKey {
    pub index: bool,
    pub key: u128,
}

/// No packet is sealed once the counter has come this far.
pub const COUNTER_LIMIT: u32 = 0x1fff_ffff;

/// A running total of bytes after `n` more; it is kept modulo `2^64`.
pub open spec fn total_after(total: u64, n: int) -> u64 {
    ((total + n) % 0x1_0000_0000_0000_0000) as u64
}

/// Computes [`total_after`].
pub fn add_to_total(total: u64, n: usize) -> (result: u64)
    ensures
        result == total_after(total, n as int),
{
    total.wrapping_add(n as u64)
}

/// The header of a packet: `upper` at the end with the larger node address.
pub open spec fn header_of(upper: bool, index: bool, counter: u32) -> int {
    0x8000_0000 + if upper {
        0x4000_0000int
    } else {
        0
    } + if index {
        0x2000_0000int
    } else {
        0
    } + counter
}

/// A number of 32 bits as four bytes, most significant first.
pub open spec fn be32(n: int) -> Seq<u8> {
    seq![
        (n / 0x100_0000 % 0x100) as u8,
        (n / 0x1_0000 % 0x100) as u8,
        (n / 0x100 % 0x100) as u8,
        (n % 0x100) as u8,
    ]
}

/// The number that four bytes are.
pub open spec fn from_be32(bytes: Seq<u8>) -> int {
    bytes[0] * 0x100_0000 + bytes[1] * 0x1_0000 + bytes[2] * 0x100 + bytes[3]
}

/// The nonce that goes with a header: eight zeros, then the header.
pub open spec fn nonce_of(header: Seq<u8>) -> Seq<u8> {
    seq![0u8, 0u8, 0u8, 0u8, 0u8, 0u8, 0u8, 0u8, header[0], header[1], header[2], header[3]]
}

/// The counter in the header of a packet.
pub open spec fn counter_of(packet: Seq<u8>) -> int {
    from_be32(packet) % 0x2000_0000
}

/// Which of the two keys the header of a packet names.
pub open spec fn index_of(packet: Seq<u8>) -> bool {
    packet[0] / 0x20 % 2 == 1
}

/// A sealed packet: the header, then what AES-GCM makes of the data.
pub open spec fn sealed_packet(
    key: u128,
    upper: bool,
    index: bool,
    counter: u32,
    data: Seq<u8>,
) -> Option<Seq<u8>> {
    let header = be32(header_of(upper, index, counter));
    match aes128_gcm_sealed(key, nonce_of(header), data) {
        Some(sealed) => Some(header + sealed),
        None => None,
    }
}

/// What AES-GCM recovers from a packet.
pub open spec fn opened_packet(key: u128, packet: Seq<u8>) -> Option<Seq<u8>> {
    aes128_gcm_opened(key, nonce_of(packet), packet.skip(4))
}

/// The four bytes of a number.
pub fn be32_bytes(header: u32) -> (bytes: [u8; 4])
    ensures
        bytes@ == be32(header as int),
{
    let bytes = [
        (header / 0x100_0000) as u8,
        (header / 0x1_0000 % 0x100) as u8,
        (header / 0x100 % 0x100) as u8,
        (header % 0x100) as u8,
    ];
    assert(bytes@ =~= be32(header as int));
    bytes
}

/// The nonce that goes with the header at the start of `packet`.
pub fn nonce_bytes(packet: &[u8]) -> (nonce: [u8; 12])
    requires
        packet@.len() >= 4,
    ensures
        nonce@ == nonce_of(packet@),
{
    let nonce = [0, 0, 0, 0, 0, 0, 0, 0, packet[0], packet[1], packet[2], packet[3]];
    assert(nonce@ =~= nonce_of(packet@));
    nonce
}

/// The counter in the header of `packet`.
pub fn packet_counter(packet: &[u8]) -> (counter: u32)
    requires
        packet@.len() >= 4,
    ensures
        counter == counter_of(packet@),
{
    let number: u32 = packet[0] as u32 * 0x100_0000 + packet[1] as u32 * 0x1_0000 + packet[2] as u32
        * 0x100 + packet[3] as u32;
    number % 0x2000_0000
}

/// Which of the two keys the header of `packet` names.
pub fn packet_index(packet: &[u8]) -> (index: bool)
    requires
        packet@.len() >= 1,
    ensures
        index == index_of(packet@),
{
    packet[0] / 0x20 % 2 == 1
}

/// Seals a packet, unless the data is too long.
pub fn seal_packet(key: u128, upper: bool, index: bool, counter: u32, data: &[u8]) -> (result:
    Option<Vec<u8>>)
    requires
        counter < COUNTER_LIMIT,
    ensures
        match result {
            Some(packet) => sealed_packet(key, upper, index, counter, data@) == Some(packet@)
                && packet@.len() == data@.len() + 20,
            None => sealed_packet(key, upper, index, counter, data@) is None,
        },
        result is Some <==> data@.len() <= LONGEST_PLAINTEXT,
{
    let mut header: u32 = 0x8000_0000 + counter;
    if upper {
        header = header + 0x4000_0000;
    }
    if index {
        header = header + 0x2000_0000;
    }
    let header = be32_bytes(header);
    let nonce = nonce_bytes(&header);
    match seal(key, &nonce, data) {
        Some(sealed) => {
            let mut packet: Vec<u8> = Vec::new();
            packet.extend_from_slice(&header);
            packet.extend_from_slice(&sealed);
            assert(packet@ =~= header@ + sealed@);
            Some(packet)
        },
        None => None,
    }
}

/// Opens a sealed packet, unless it does not fit the key. What was sealed under the key comes back.
pub fn open_packet(key: u128, packet: &[u8]) -> (result: Option<Vec<u8>>)
    requires
        packet@.len() >= 4,
    ensures
        match result {
            Some(data) => opened_packet(key, packet@) == Some(data@),
            None => opened_packet(key, packet@) is None,
        },
        forall|upper: bool, index: bool, counter: u32, data: Seq<u8>| #[trigger]
            sealed_packet(key, upper, index, counter, data) == Some(packet@) ==> (result matches Some(
                d,
            ) && d@ == data),
{
    let nonce = nonce_bytes(packet);
    let body = vstd::slice::slice_subrange(packet, 4, packet.len());
    assert(body@ =~= packet@.skip(4));
    let result = open(key, &nonce, body);
    proof {
        assert forall|upper: bool, index: bool, counter: u32, data: Seq<u8>| #[trigger]
            sealed_packet(key, upper, index, counter, data) == Some(packet@) implies (
        result matches Some(d) && d@ == data) by {
            let header = be32(header_of(upper, index, counter));
            let sealed = aes128_gcm_sealed(key, nonce_of(header), data)->0;
            assert(packet@ == header + sealed);
            assert(nonce_of(packet@) =~= nonce_of(header));
            assert(packet@.skip(4) =~= sealed);
        }
    }
    result
}

/// Four bytes tell the number that they were made of.
pub proof fn lemma_be32_read_back(n: int)
    requires
        0 <= n < 0x1_0000_0000,
    ensures
        from_be32(be32(n)) == n,
{
}

/// The header of a packet tells how it was sealed.
pub proof fn lemma_header_read_back(upper: bool, index: bool, counter: u32, rest: Seq<u8>)
    requires
        counter < COUNTER_LIMIT,
    ensures
        counter_of(be32(header_of(upper, index, counter)) + rest) == counter,
        index_of(be32(header_of(upper, index, counter)) + rest) == index,
{
    let n = header_of(upper, index, counter);
    let header = be32(n);
    assert((header + rest)[0] == header[0]);
    assert((header + rest)[1] == header[1]);
    assert((header + rest)[2] == header[2]);
    assert((header + rest)[3] == header[3]);
    assert(from_be32(header + rest) == n);
}

/// Packets that differ in their end, their key index or their counter differ in their nonce: as long
/// as a counter is not used twice, no nonce is used twice.
pub proof fn lemma_nonces_differ(
    upper: bool,
    index: bool,
    counter: u32,
    other_upper: bool,
    other_index: bool,
    other_counter: u32,
)
    requires
        counter < COUNTER_LIMIT,
        other_counter < COUNTER_LIMIT,
        upper != other_upper || index != other_index || counter != other_counter,
    ensures
        nonce_of(be32(header_of(upper, index, counter))) != nonce_of(
            be32(header_of(other_upper, other_index, other_counter)),
        ),
{
    let n = header_of(upper, index, counter);
    let m = header_of(other_upper, other_index, other_counter);
    lemma_be32_read_back(n);
    lemma_be32_read_back(m);
    let a = nonce_of(be32(n));
    let b = nonce_of(be32(m));
    if a == b {
        assert(a[8] == b[8] && a[9] == b[9] && a[10] == b[10] && a[11] == b[11]);
        assert(be32(n) =~= be32(m));
    }
}

/// A header is four bytes: a one, which end it is, which key it is, and the counter in the 29 bits that
/// are left, most significant first.
pub proof fn lemma_header_layout(upper: bool, index: bool, counter: u32)
    requires
        counter < COUNTER_LIMIT,
    ensures
        ({
            let header = be32(header_of(upper, index, counter));
            &&& header.len() == 4
            &&& header[0] / 128 == 1
            &&& (header[0] / 64 % 2 == 1) == upper
            &&& (header[0] / 32 % 2 == 1) == index
            &&& header[0] % 32 * 16777216 + header[1] * 65536 + header[2] * 256 + header[3]
                == counter
        }),
{
}

/// The counter of a packet is in the lowest 29 bits of its first four bytes, and the bit before them
/// names the key.
pub proof fn lemma_header_read(packet: Seq<u8>)
    requires
        packet.len() >= 4,
    ensures
        counter_of(packet) == packet[0] % 32 * 16777216 + packet[1] * 65536 + packet[2] * 256
            + packet[3],
        index_of(packet) <==> packet[0] / 32 % 2 == 1,
{
}

/// No more than this many packets are sealed under a key: the counter fits its 29 bits.
pub proof fn lemma_counters_fit()
    ensures
        COUNTER_LIMIT == 536870911,
{
}

/// A nonce is eight zeros and the first four bytes of the packet.
pub proof fn lemma_nonce_layout(packet: Seq<u8>)
    requires
        packet.len() >= 4,
    ensures
        nonce_of(packet).len() == 12,
        forall|i: int| 0 <= i < 8 ==> #[trigger] nonce_of(packet)[i] == 0,
        forall|i: int| 8 <= i < 12 ==> #[trigger] nonce_of(packet)[i] == packet[i - 8],
{
}

/// A sealed packet starts with its header; what follows is the data, sealed under the key with the
/// nonce that the header makes. The data and nothing else is sealed.
pub proof fn lemma_sealed_layout(
    key: u128,
    upper: bool,
    index: bool,
    counter: u32,
    data: Seq<u8>,
)
    ensures
        ({
            let header = be32(header_of(upper, index, counter));
            match sealed_packet(key, upper, index, counter, data) {
                Some(packet) => packet.len() >= 4 && packet.take(4) == header && nonce_of(packet)
                    == nonce_of(header) && aes128_gcm_sealed(key, nonce_of(packet), data) == Some(
                    packet.skip(4),
                ),
                None => aes128_gcm_sealed(key, nonce_of(header), data) is None,
            }
        }),
{
    let header = be32(header_of(upper, index, counter));
    match aes128_gcm_sealed(key, nonce_of(header), data) {
        Some(sealed) => {
            let packet = header + sealed;
            assert(packet.take(4) =~= header);
            assert(packet.skip(4) =~= sealed);
            assert(nonce_of(packet) =~= nonce_of(header));
        },
        None => {},
    }
}

/// A packet is opened under the key with the nonce that its own header makes.
pub proof fn lemma_opened_with_own_header(key: u128, packet: Seq<u8>)
    requires
        packet.len() >= 4,
    ensures
        opened_packet(key, packet) == aes128_gcm_opened(key, nonce_of(packet.take(4)), packet.skip(4)),
{
    assert(nonce_of(packet) =~= nonce_of(packet.take(4)));
}

/// A running total counts each byte once, and starts again at zero when it is full.
pub proof fn lemma_totals_add_up(total: u64, n: int, more: int)
    requires
        0 <= n,
        0 <= more,
    ensures
        total + n <= u64::MAX ==> total_after(total, n) == total + n,
        total + n == 18446744073709551616 ==> total_after(total, n) == 0,
        total_after(total_after(total, n), more) == total_after(total, n + more),
{
}

} // verus!
