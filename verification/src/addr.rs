//! IP addresses, socket addresses and address prefixes.

use vstd::prelude::*;

verus! {

/// An IP address, as octets in network order.
#[derive(Clone, Copy, PartialEq, Eq, Debug)]
pub enum IpAddr {
    V4([u8; 4]),
    V6([u8; 16]),
}

/// An IP address and a port.
#[derive(Clone, Copy, PartialEq, Eq, Debug)]
pub struct SocketAddr {
    pub ip: IpAddr,
    pub port: u16,
}

impl IpAddr {
    /// The octets of the address: four of IPv4, sixteen of IPv6.
    pub open spec fn octets(self) -> Seq<u8> {
        match self {
            IpAddr::V4(octets) => octets@,
            IpAddr::V6(octets) => octets@,
        }
    }

    /// Whether two addresses are the same.
    pub fn same(&self, other: &IpAddr) -> (result: bool)
        ensures
            result == (self.octets() == other.octets()),
    {
        match (self, other) {
            (IpAddr::V4(a), IpAddr::V4(b)) => same_octets(a, b),
            (IpAddr::V6(a), IpAddr::V6(b)) => same_octets(a, b),
            (IpAddr::V4(a), IpAddr::V6(b)) => {
                assert(a@.len() != b@.len());
                false
            },
            (IpAddr::V6(a), IpAddr::V4(b)) => {
                assert(a@.len() != b@.len());
                false
            },
        }
    }
}

/// Whether two runs of octets are the same.
pub fn same_octets(a: &[u8], b: &[u8]) -> (result: bool)
    ensures
        result == (a@ == b@),
{
    if a.len() != b.len() {
        return false;
    }
    let mut i: usize = 0;
    while i < a.len()
        invariant
            i <= a.len(),
            a.len() == b.len(),
            forall|j: int| 0 <= j < i ==> a[j] == b[j],
        decreases a.len() - i,
    {
        if a[i] != b[i] {
            assert(a@[i as int] != b@[i as int]);
            return false;
        }
        i += 1;
    }
    assert(a@ =~= b@);
    true
}

/// IPv4 addresses of private networks: 10.0.0.0/8, 172.16.0.0/12 and 192.168.0.0/16.
pub open spec fn is_private_v4(o: Seq<u8>) -> bool {
    o[0] == 10 || (o[0] == 172 && 16 <= o[1] <= 31) || (o[0] == 192 && o[1] == 168)
}

/// IPv4 addresses that stay on the host or on the link: 127.0.0.0/8 and 169.254.0.0/16.
pub open spec fn is_on_link_v4(o: Seq<u8>) -> bool {
    o[0] == 127 || (o[0] == 169 && o[1] == 254)
}

/// The IPv6 loopback address.
pub open spec fn is_loopback_v6(o: Seq<u8>) -> bool {
    o[15] == 1 && forall|i: int| 0 <= i < 15 ==> o[i] == 0
}

/// Addresses between which packets may go unsealed: of private or unique local networks, of the
/// link, and of the host itself.
pub open spec fn is_local(ip: IpAddr) -> bool {
    match ip {
        IpAddr::V4(o) => is_private_v4(o@) || is_on_link_v4(o@),
        // fc00::/7, ::1 and fe80::/10
        IpAddr::V6(o) => o[0] == 0xfc || o[0] == 0xfd || is_loopback_v6(o@) || (o[0] == 0xfe && 0x80
            <= o[1] <= 0xbf),
    }
}

/// Whether `addr` is an address between which packets may go unsealed.
pub fn is_private(addr: &SocketAddr) -> (result: bool)
    ensures
        result == is_local(addr.ip),
{
    match addr.ip {
        IpAddr::V4(o) => o[0] == 10 || (o[0] == 172 && 16 <= o[1] && o[1] <= 31) || (o[0] == 192
            && o[1] == 168) || o[0] == 127 || (o[0] == 169 && o[1] == 254),
        IpAddr::V6(o) => {
            let mut loopback = o[15] == 1;
            let mut i: usize = 0;
            while i < 15
                invariant
                    i <= 15,
                    loopback <==> o[15] == 1 && forall|j: int| 0 <= j < i ==> o@[j] == 0,
                decreases 15 - i,
            {
                if o[i] != 0 {
                    loopback = false;
                }
                i += 1;
            }
            o[0] == 0xfc || o[0] == 0xfd || loopback || (o[0] == 0xfe && 0x80 <= o[1] && o[1]
                <= 0xbf)
        },
    }
}

/// A set of addresses: all of them, or those that share a number of leading bits with an
/// address.
#[derive(Clone, Copy, PartialEq, Eq, Debug)]
pub enum Prefix {
    Any,
    V4([u8; 4], u8),
    V6([u8; 16], u8),
}

/// The weight of bit `i` of an octet, where bit 0 is the most significant one.
pub open spec fn bit_weight(i: int) -> int {
    if i == 0 {
        128
    } else if i == 1 {
        64
    } else if i == 2 {
        32
    } else if i == 3 {
        16
    } else if i == 4 {
        8
    } else if i == 5 {
        4
    } else if i == 6 {
        2
    } else {
        1
    }
}

/// Bit `i` of a run of octets, counted from the most significant bit of the first octet.
pub open spec fn bit_at(octets: Seq<u8>, i: int) -> bool {
    octets[i / 8] as int / bit_weight(i % 8) % 2 == 1
}

/// No bit from `from` to before `to` is set.
pub open spec fn bits_clear(octets: Seq<u8>, from: int, to: int) -> bool {
    forall|i: int| from <= i < to ==> !#[trigger] bit_at(octets, i)
}

/// The first `len` bits are the same.
pub open spec fn bits_shared(a: Seq<u8>, b: Seq<u8>, len: int) -> bool {
    forall|i: int| 0 <= i < len ==> #[trigger] bit_at(a, i) == bit_at(b, i)
}

impl Prefix {
    /// The prefix is no longer than an address, and its address has no bit set behind it.
    pub open spec fn wf(self) -> bool {
        match self {
            Prefix::Any => true,
            Prefix::V4(addr, len) => len <= 32 && bits_clear(addr@, len as int, 32),
            Prefix::V6(addr, len) => len <= 128 && bits_clear(addr@, len as int, 128),
        }
    }

    /// The addresses of the set, by their octets.
    pub open spec fn includes(self, octets: Seq<u8>) -> bool {
        match self {
            Prefix::Any => true,
            Prefix::V4(addr, len) => octets.len() == 4 && bits_shared(addr@, octets, len as int),
            Prefix::V6(addr, len) => octets.len() == 16 && bits_shared(addr@, octets, len as int),
        }
    }

    /// The IPv4 prefix, unless it is too long or its address has a bit set behind it.
    pub fn v4(addr: [u8; 4], len: u8) -> (result: Option<Prefix>)
        ensures
            result is Some <==> (Prefix::V4(addr, len)).wf(),
            result matches Some(prefix) ==> prefix == (Prefix::V4(addr, len)),
    {
        let octets: &[u8] = &addr;
        assert(octets@ =~= addr@);
        if len <= 32 && clear_behind(octets, len, 32) {
            Some(Prefix::V4(addr, len))
        } else {
            None
        }
    }

    /// The IPv6 prefix, unless it is too long or its address has a bit set behind it.
    pub fn v6(addr: [u8; 16], len: u8) -> (result: Option<Prefix>)
        ensures
            result is Some <==> (Prefix::V6(addr, len)).wf(),
            result matches Some(prefix) ==> prefix == (Prefix::V6(addr, len)),
    {
        let octets: &[u8] = &addr;
        assert(octets@ =~= addr@);
        if len <= 128 && clear_behind(octets, len, 128) {
            Some(Prefix::V6(addr, len))
        } else {
            None
        }
    }

    /// Whether `ip` is one of the addresses.
    pub fn contains(&self, ip: &IpAddr) -> (result: bool)
        requires
            self.wf(),
        ensures
            result == self.includes(ip.octets()),
    {
        cidr_contains(self, ip)
    }
}

/// Whether bits `from` to `to` are all clear.
fn clear_behind(octets: &[u8], from: u8, to: u8) -> (result: bool)
    requires
        from <= to,
        8 * octets.len() == to,
    ensures
        result == bits_clear(octets@, from as int, to as int),
{
    let mut i: u8 = from;
    while i < to
        invariant
            from <= i <= to,
            8 * octets.len() == to,
            forall|j: int| from <= j < i ==> !#[trigger] bit_at(octets@, j),
        decreases to - i,
    {
        let weight: u8 = match i % 8 {
            0 => 128,
            1 => 64,
            2 => 32,
            3 => 16,
            4 => 8,
            5 => 4,
            6 => 2,
            _ => 1,
        };
        let octet = octets[(i / 8) as usize];
        assert(weight == bit_weight(i as int % 8));
        if octet / weight % 2 == 1 {
            assert(bit_at(octets@, i as int));
            return false;
        }
        i += 1;
    }
    true
}

/// `AnyIpCidr::contains` of the crate `cidr`: the set of all addresses contains each, and another
/// set contains the addresses of its family that agree with it in the bits of the prefix. Its
/// constructors refuse what is not well-formed.
#[verifier::external_body]
fn cidr_contains(prefix: &Prefix, ip: &IpAddr) -> (result: bool)
    requires
        prefix.wf(),
    ensures
        result == prefix.includes(ip.octets()),
{
    let set = match prefix {
        Prefix::Any => cidr::AnyIpCidr::Any,
        Prefix::V4(addr, len) => cidr::Ipv4Cidr::new((*addr).into(), *len).unwrap().into(),
        Prefix::V6(addr, len) => cidr::Ipv6Cidr::new((*addr).into(), *len).unwrap().into(),
    };
    match ip {
        IpAddr::V4(octets) => set.contains(&(*octets).into()),
        IpAddr::V6(octets) => set.contains(&(*octets).into()),
    }
}

proof fn lemma_bits_of(x: u8)
    by (bit_vector)
    ensures
        x == 128 * (x / 128 % 2) + 64 * (x / 64 % 2) + 32 * (x / 32 % 2) + 16 * (x / 16 % 2) + 8 * (x
            / 8 % 2) + 4 * (x / 4 % 2) + 2 * (x / 2 % 2) + x % 2,
{
}

/// The weight of a bit, if it is set.
pub open spec fn weight_if(set: bool, weight: int) -> int {
    if set {
        weight
    } else {
        0
    }
}

proof fn lemma_bit_of(octets: Seq<u8>, k: int, i: int)
    requires
        0 <= k < octets.len(),
        0 <= i < 8,
    ensures
        bit_at(octets, 8 * k + i) <==> octets[k] as int / bit_weight(i) % 2 == 1,
{
    assert((8 * k + i) / 8 == k);
    assert((8 * k + i) % 8 == i);
}

/// An octet is the sum of its bits, the most significant first.
pub proof fn lemma_octet_of_bits(octets: Seq<u8>, k: int)
    requires
        0 <= k < octets.len(),
    ensures
        octets[k] == weight_if(bit_at(octets, 8 * k), 128) + weight_if(bit_at(octets, 8 * k + 1), 64)
            + weight_if(bit_at(octets, 8 * k + 2), 32) + weight_if(bit_at(octets, 8 * k + 3), 16)
            + weight_if(bit_at(octets, 8 * k + 4), 8) + weight_if(bit_at(octets, 8 * k + 5), 4)
            + weight_if(bit_at(octets, 8 * k + 6), 2) + weight_if(bit_at(octets, 8 * k + 7), 1),
{
    let x = octets[k];
    lemma_bits_of(x);
    lemma_bit_of(octets, k, 0);
    lemma_bit_of(octets, k, 1);
    lemma_bit_of(octets, k, 2);
    lemma_bit_of(octets, k, 3);
    lemma_bit_of(octets, k, 4);
    lemma_bit_of(octets, k, 5);
    lemma_bit_of(octets, k, 6);
    lemma_bit_of(octets, k, 7);
}

/// A prefix is no longer than an address; an address is a prefix of its full length, and the zero
/// address of any. A prefix holds its own address, and with an address all that a longer one holds.
pub proof fn lemma_prefixes(addr: [u8; 4], addr6: [u8; 16], len: u8, longer: u8, octets: Seq<u8>)
    requires
        len <= longer,
    ensures
        (Prefix::V4(addr, 32)).wf(),
        (Prefix::V6(addr6, 128)).wf(),
        len > 32 ==> !(Prefix::V4(addr, len)).wf(),
        len > 128 ==> !(Prefix::V6(addr6, len)).wf(),
        len <= 32 && (forall|i: int| 0 <= i < 4 ==> addr@[i] == 0) ==> (Prefix::V4(addr, len)).wf(),
        len <= 128 && (forall|i: int| 0 <= i < 16 ==> addr6@[i] == 0) ==> (Prefix::V6(
            addr6,
            len,
        )).wf(),
        (Prefix::V4(addr, len)).includes(addr@),
        (Prefix::V6(addr6, len)).includes(addr6@),
        (Prefix::V4(addr, longer)).includes(octets) ==> (Prefix::V4(addr, len)).includes(octets),
        (Prefix::V6(addr6, longer)).includes(octets) ==> (Prefix::V6(addr6, len)).includes(octets),
        (Prefix::V4(addr, len)).includes(octets) ==> octets.len() == 4,
        (Prefix::V6(addr6, len)).includes(octets) ==> octets.len() == 16,
        Prefix::Any.includes(octets),
        Prefix::Any.wf(),
{
    if forall|i: int| 0 <= i < 4 ==> addr@[i] == 0 {
        assert forall|i: int| len <= i < 32 implies !#[trigger] bit_at(addr@, i) by {
            assert(addr@[i / 8] == 0);
        }
    }
    if forall|i: int| 0 <= i < 16 ==> addr6@[i] == 0 {
        assert forall|i: int| len <= i < 128 implies !#[trigger] bit_at(addr6@, i) by {
            assert(addr6@[i / 8] == 0);
        }
    }
}

/// A prefix whose address has a bit set behind it is none, and an address that differs from it in one of
/// its bits is not in it.
pub proof fn lemma_every_bit_counts(addr: [u8; 4], addr6: [u8; 16], len: u8, octets: Seq<u8>, i: int)
    ensures
        len <= i < 32 && bit_at(addr@, i) ==> !(Prefix::V4(addr, len)).wf(),
        len <= i < 128 && bit_at(addr6@, i) ==> !(Prefix::V6(addr6, len)).wf(),
        0 <= i < len && bit_at(addr@, i) != bit_at(octets, i) ==> !(Prefix::V4(addr, len)).includes(
            octets,
        ),
        0 <= i < len && bit_at(addr6@, i) != bit_at(octets, i) ==> !(Prefix::V6(
            addr6,
            len,
        )).includes(octets),
{
}

/// An IPv4 address is local if and only if it lies in one of five networks: 10.0.0.0/8, 172.16.0.0/12,
/// 192.168.0.0/16, 127.0.0.0/8 and 169.254.0.0/16.
pub proof fn lemma_local_v4(o: [u8; 4])
    ensures
        ({
            let n = o@[0] * 16777216 + o@[1] * 65536 + o@[2] * 256 + o@[3];
            is_local(IpAddr::V4(o)) <==> n / 16777216 == 10 || n / 1048576 == 2753 || n / 65536
                == 49320 || n / 16777216 == 127 || n / 65536 == 43518
        }),
{
}

/// An IPv6 address is local if and only if it lies in fc00::/7 or fe80::/10, or is ::1.
pub proof fn lemma_local_v6(o: [u8; 16])
    ensures
        is_local(IpAddr::V6(o)) <==> o@[0] / 2 == 126 || (o@[0] * 256 + o@[1]) / 64 == 1018 || (
        o@[15] == 1 && forall|i: int| 0 <= i < 15 ==> #[trigger] o@[i] == 0),
{
    if forall|i: int| 0 <= i < 15 ==> #[trigger] o@[i] == 0 {
        assert(is_loopback_v6(o@) <==> o@[15] == 1);
    }
    if is_loopback_v6(o@) {
        assert forall|i: int| 0 <= i < 15 implies #[trigger] o@[i] == 0 by {}
    }
}

proof fn lemma_shared_octets(a: Seq<u8>, b: Seq<u8>, k: int)
    requires
        0 <= k <= a.len(),
        a.len() == b.len(),
    ensures
        bits_shared(a, b, 8 * k) <==> a.take(k) == b.take(k),
{
    if bits_shared(a, b, 8 * k) {
        assert forall|j: int| 0 <= j < k implies a[j] == b[j] by {
            lemma_octet_of_bits(a, j);
            lemma_octet_of_bits(b, j);
            assert(bit_at(a, 8 * j) == bit_at(b, 8 * j));
            assert(bit_at(a, 8 * j + 1) == bit_at(b, 8 * j + 1));
            assert(bit_at(a, 8 * j + 2) == bit_at(b, 8 * j + 2));
            assert(bit_at(a, 8 * j + 3) == bit_at(b, 8 * j + 3));
            assert(bit_at(a, 8 * j + 4) == bit_at(b, 8 * j + 4));
            assert(bit_at(a, 8 * j + 5) == bit_at(b, 8 * j + 5));
            assert(bit_at(a, 8 * j + 6) == bit_at(b, 8 * j + 6));
            assert(bit_at(a, 8 * j + 7) == bit_at(b, 8 * j + 7));
        }
        assert(a.take(k) =~= b.take(k));
    }
    if a.take(k) == b.take(k) {
        assert forall|i: int| 0 <= i < 8 * k implies #[trigger] bit_at(a, i) == bit_at(b, i) by {
            assert(a.take(k)[i / 8] == b.take(k)[i / 8]);
        }
    }
}

/// A prefix of whole octets holds the addresses that begin with these octets, and no others.
pub proof fn lemma_prefix_of_octets(addr: [u8; 4], addr6: [u8; 16], len: u8, octets: Seq<u8>)
    requires
        len % 8 == 0,
    ensures
        len <= 32 ==> ((Prefix::V4(addr, len)).includes(octets) <==> octets.len() == 4 && addr@.take(
            len as int / 8,
        ) == octets.take(len as int / 8)),
        len <= 128 ==> ((Prefix::V6(addr6, len)).includes(octets) <==> octets.len() == 16
            && addr6@.take(len as int / 8) == octets.take(len as int / 8)),
{
    let k = len as int / 8;
    assert(len as int == 8 * k);
    if len <= 32 && octets.len() == 4 {
        lemma_shared_octets(addr@, octets, k);
    }
    if len <= 128 && octets.len() == 16 {
        lemma_shared_octets(addr6@, octets, k);
    }
}

/// An address that differs from that of a prefix only behind it is one of the prefix, and where nothing
/// is set behind it that is a prefix.
pub proof fn lemma_bits_behind(addr: [u8; 4], addr6: [u8; 16], len: u8, octets: Seq<u8>)
    ensures
        octets.len() == 4 && (forall|i: int|
            0 <= i < len ==> #[trigger] bit_at(addr@, i) == bit_at(octets, i)) ==> (Prefix::V4(
            addr,
            len,
        )).includes(octets),
        octets.len() == 16 && (forall|i: int|
            0 <= i < len ==> #[trigger] bit_at(addr6@, i) == bit_at(octets, i)) ==> (Prefix::V6(
            addr6,
            len,
        )).includes(octets),
        len <= 32 && (forall|i: int| len <= i < 32 ==> !#[trigger] bit_at(addr@, i)) ==> (Prefix::V4(
            addr,
            len,
        )).wf(),
        len <= 128 && (forall|i: int| len <= i < 128 ==> !#[trigger] bit_at(addr6@, i)) ==> (
        Prefix::V6(addr6, len)).wf(),
{
}

} // verus!
