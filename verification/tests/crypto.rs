//! Key agreement, sealing and framing.

use aes_gcm::aead::Aead;
use aes_gcm::{Aes128Gcm, KeyInit};
use cryonet::addr::{is_private, IpAddr, Prefix, SocketAddr};
use cryonet::crypto::{EcdhKey, PublicKey};
use cryonet::fullmesh::conn_ice::{
    ConnectionReceiver as IceReceiver, ConnectionSender as IceSender, ReceiveError, SendError,
};
use cryonet::fullmesh::conn_rustrtc::{ConnectionReceiver, ConnectionSender, SealError};
use cryonet::fullmesh::conn_dc::{DataChannelEvent, DataChannelReceiver, DataChannelSender};
use cryonet::fullmesh::frame::{nonce_bytes, packet_counter, packet_index, FullMeshKey};
use cryonet::errors::CryonetError;

fn public_addr() -> SocketAddr {
    SocketAddr { ip: IpAddr::V4([203, 0, 113, 5]), port: 4000 }
}

fn local_addr() -> SocketAddr {
    SocketAddr { ip: IpAddr::V4([192, 168, 1, 5]), port: 4000 }
}

#[test]
fn both_ends_agree_on_a_key() {
    let a = EcdhKey::generate();
    let b = EcdhKey::generate();
    let key = a.agree(&b.public_key());
    assert!(key.is_some());
    assert_eq!(key, b.agree(&a.public_key()));
    let c = EcdhKey::generate();
    assert_ne!(key, a.agree(&c.public_key()));
}

#[test]
fn agreement_on_given_keys() {
    let mut one = [0u8; 32];
    one[31] = 1;
    let mut two = [0u8; 32];
    two[31] = 2;
    let a = EcdhKey::from_secret(one).unwrap();
    let b = EcdhKey::from_secret(two).unwrap();
    // the public key of one is the base point
    assert_eq!(a.public_key().bytes[0], 4);
    assert_eq!(a.public_key().bytes[1..5], [0x6b, 0x17, 0xd1, 0xf2]);
    assert_eq!(a.agree(&b.public_key()), b.agree(&a.public_key()));
    assert!(EcdhKey::from_secret([0u8; 32]).is_none());
}

#[test]
fn no_key_from_no_public_key() {
    let a = EcdhKey::generate();
    assert_eq!(a.agree(&PublicKey { bytes: [0u8; 65] }), None);
}

#[test]
fn sealed_packets_are_header_ciphertext_and_tag() {
    let key = FullMeshKey { index: false, key: 0x000102030405060708090a0b0c0d0e0f };
    let mut sender = ConnectionSender::new(1, 2, key);
    let packet = sender.send(b"sixteen bytes...").unwrap();
    assert_eq!(packet.len(), 36);
    assert_eq!(packet[..4], [0x80, 0, 0, 0]);
    assert_eq!(nonce_bytes(&packet), [0, 0, 0, 0, 0, 0, 0, 0, 0x80, 0, 0, 0]);
    let cipher = Aes128Gcm::new(&[0, 1, 2, 3, 4, 5, 6, 7, 8, 9, 10, 11, 12, 13, 14, 15].into());
    let sealed = cipher.encrypt(&nonce_bytes(&packet).into(), &b"sixteen bytes..."[..]).unwrap();
    assert_eq!(packet[4..], sealed[..]);
}

#[test]
fn keys_are_derived_from_the_shared_secret() {
    let mut one = [0u8; 32];
    one[31] = 1;
    let mut two = [0u8; 32];
    two[31] = 2;
    let a = EcdhKey::from_secret(one).unwrap();
    let b = EcdhKey::from_secret(two).unwrap();
    let secret = p256::SecretKey::from_bytes(&one.into()).unwrap();
    let public = p256::PublicKey::from_sec1_bytes(&b.public_key().bytes).unwrap();
    let mut key = [0u8; 16];
    let shared = secret.diffie_hellman(&public);
    shared.extract::<sha2::Sha256>(None).expand(b"", &mut key).unwrap();
    assert_eq!(a.agree(&b.public_key()), Some(u128::from_be_bytes(key)));
    // the secret that is shared with one is the first coordinate of the other public key
    assert_eq!(shared.raw_secret_bytes()[..], b.public_key().bytes[1..33]);
}

#[test]
fn test_connection() {
    let key = FullMeshKey { index: false, key: 0x0123_4567_89ab_cdef_0011_2233_4455_6677 };
    let mut sender1 = ConnectionSender::new(1, 2, key);
    let mut receiver2 = ConnectionReceiver::new(key);
    let data = b"Hello, world!";
    let packet = sender1.send(data).unwrap();
    assert_eq!(receiver2.recv(&packet).unwrap(), data);

    let new_key = FullMeshKey { index: true, key: 0xfedc_ba98_7654_3210_8899_aabb_ccdd_eeff };
    receiver2.set_key(new_key);
    let packet = sender1.send(data).unwrap();
    assert_eq!(receiver2.recv(&packet).unwrap(), data);

    sender1.set_key(new_key);
    let packet = sender1.send(data).unwrap();
    assert_eq!(receiver2.recv(&packet).unwrap(), data);
    assert_eq!(sender1.sent, 3 * 29);
    assert_eq!(receiver2.received, 3 * 33);
}

#[test]
fn tampered_packet_is_refused() {
    let key = FullMeshKey { index: false, key: 42 };
    let mut sender = ConnectionSender::new(1, 2, key);
    let mut receiver = ConnectionReceiver::new(key);
    let mut packet = sender.send(b"data").unwrap();
    packet[6] ^= 1;
    assert_eq!(receiver.recv(&packet), Err(SealError::NotAuthentic));
    let other = FullMeshKey { index: false, key: 43 };
    let packet = sender.send(b"data").unwrap();
    assert_eq!(ConnectionReceiver::new(other).recv(&packet), Err(SealError::NotAuthentic));
}

#[test]
fn counter_runs_out() {
    let key = FullMeshKey { index: false, key: 42 };
    let mut sender = ConnectionSender::new(1, 2, key);
    sender.counter = 0x1fff_fffe;
    assert!(sender.send(b"x").is_ok());
    assert_eq!(sender.send(b"x"), Err(SealError::CounterOverflow));
    let mut sender = IceSender::new(1, 2, true, Some(key));
    sender.counter = 0x1fff_ffff;
    assert_eq!(sender.send(b"x", Some(public_addr())), Err(SendError::CounterOverflow));
}

#[test]
fn headers_tell_ends_keys_and_counters_apart() {
    let even = FullMeshKey { index: false, key: 42 };
    let odd = FullMeshKey { index: true, key: 42 };
    let lower = ConnectionSender::new(1, 2, even).send(b"").unwrap();
    let upper = ConnectionSender::new(2, 1, even).send(b"").unwrap();
    let other = ConnectionSender::new(1, 2, odd).send(b"").unwrap();
    assert_eq!(lower[..4], [0x80, 0, 0, 0]);
    assert_eq!(upper[..4], [0xc0, 0, 0, 0]);
    assert_eq!(other[..4], [0xa0, 0, 0, 0]);
    assert_ne!(nonce_bytes(&lower), nonce_bytes(&upper));
    assert!(packet_index(&other) && !packet_index(&lower));
    let mut sender = ConnectionSender::new(1, 2, even);
    sender.counter = 0x0102_0304;
    assert_eq!(packet_counter(&sender.send(b"").unwrap()), 0x0102_0304);
}

#[test]
fn packets_to_other_networks_are_sealed() {
    let key = FullMeshKey { index: false, key: 99 };
    let mut sender = IceSender::new(1, 2, false, Some(key));
    let mut receiver = IceReceiver::new(false);
    // the key that was there from the start is not taken up
    let packet = sender.send(b"first", Some(public_addr())).unwrap();
    assert_eq!(packet[..4], [0x80, 0, 0, 1]);
    assert_eq!(receiver.recv(Some((&packet, public_addr()))).unwrap(), b"first");
    sender.set_key(key);
    receiver.set_key(key);
    receiver.refresh();
    // after a change of keys packets are counted from one, since zero marks those that are not sealed
    for (number, data) in [(1, b"second"), (2, b"third.")] {
        let packet = sender.send(data, Some(public_addr())).unwrap();
        assert_eq!(packet[1..4], [0, 0, number]);
        assert_eq!(receiver.recv(Some((&packet, public_addr()))).unwrap(), data);
    }
    assert_eq!(sender.counter, 3);
    assert_eq!(sender.sent, 5 + 16 + 6 + 16 + 6 + 16);
    assert_eq!(receiver.received, sender.sent + 3 * 4);
}

#[test]
fn packets_on_local_networks_may_go_unsealed() {
    let key = FullMeshKey { index: false, key: 99 };
    let mut sender = IceSender::new(1, 2, false, Some(key));
    let mut receiver = IceReceiver::new(false);
    let packet = sender.send(b"plain", Some(local_addr())).unwrap();
    assert_eq!(packet, b"\x80\0\0\0plain");
    assert_eq!(receiver.recv(Some((&packet, local_addr()))).unwrap(), b"plain");
    assert_eq!(receiver.recv(Some((&packet, public_addr()))), Err(ReceiveError::Unsealed));
    let mut strict = IceReceiver::new(true);
    assert_eq!(strict.recv(Some((&packet, local_addr()))), Err(ReceiveError::Unsealed));
    assert_eq!(receiver.received, 18);
}

#[test]
fn errors_of_local_connections() {
    let key = FullMeshKey { index: false, key: 99 };
    let mut sender = IceSender::new(1, 2, true, None);
    assert_eq!(sender.send(b"x", None), Err(SendError::NotEstablished));
    assert_eq!(sender.send(b"x", Some(public_addr())), Err(SendError::NoKey));
    let mut receiver = IceReceiver::new(true);
    assert_eq!(receiver.recv(None), Err(ReceiveError::ChannelClosed));
    assert_eq!(receiver.recv(Some((b"abc", public_addr()))), Err(ReceiveError::TooShort));
    let mut sealed = ConnectionSender::new(1, 2, key).send(b"x").unwrap();
    sealed[3] = 1;
    assert_eq!(receiver.recv(Some((&sealed, public_addr()))), Err(ReceiveError::NotAuthentic));
}

#[test]
fn two_keys_are_held_at_once() {
    let mut receiver = IceReceiver::new(true);
    for (index, number) in [(false, 7u128), (true, 8)] {
        receiver.set_key(FullMeshKey { index, key: number });
        receiver.refresh();
    }
    for (index, number) in [(false, 7u128), (true, 8)] {
        let mut sender = IceSender::new(5, 2, true, None);
        sender.set_key(FullMeshKey { index, key: number });
        let packet = sender.send(b"data", Some(public_addr())).unwrap();
        assert_eq!(receiver.recv(Some((&packet, public_addr()))).unwrap(), b"data");
    }
}

#[test]
fn data_channel_events() {
    let mut receiver = DataChannelReceiver::new();
    assert_eq!(receiver.recv(Some(DataChannelEvent::Open)), Ok(None));
    assert_eq!(receiver.recv(Some(DataChannelEvent::Message(vec![1, 2]))), Ok(Some(vec![1, 2])));
    assert_eq!(receiver.received, 2);
    assert_eq!(receiver.recv(Some(DataChannelEvent::Close)), Err(CryonetError::ChannelClosed));
    assert_eq!(receiver.recv(None), Err(CryonetError::ChannelClosed));
    let mut sender = DataChannelSender::new();
    assert_eq!(sender.sent(&[1, 2, 3]), 3);
    assert_eq!(sender.sent, 3);
}

#[test]
fn local_addresses() {
    let local = [
        [10, 0, 0, 1],
        [172, 16, 0, 1],
        [172, 31, 255, 255],
        [192, 168, 0, 1],
        [127, 0, 0, 1],
        [169, 254, 1, 1],
    ];
    for octets in local {
        assert!(is_private(&SocketAddr { ip: IpAddr::V4(octets), port: 1 }));
    }
    for octets in [[11, 0, 0, 1], [172, 15, 0, 1], [172, 32, 0, 1], [192, 169, 0, 1], [169, 253, 0, 1]] {
        assert!(!is_private(&SocketAddr { ip: IpAddr::V4(octets), port: 1 }));
    }
    let mut v6 = [0u8; 16];
    v6[15] = 1;
    assert!(is_private(&SocketAddr { ip: IpAddr::V6(v6), port: 1 }));
    v6[14] = 1;
    assert!(!is_private(&SocketAddr { ip: IpAddr::V6(v6), port: 1 }));
    v6[0] = 0xfd;
    assert!(is_private(&SocketAddr { ip: IpAddr::V6(v6), port: 1 }));
    v6[0] = 0xfe;
    v6[1] = 0xbf;
    assert!(is_private(&SocketAddr { ip: IpAddr::V6(v6), port: 1 }));
    v6[1] = 0xc0;
    assert!(!is_private(&SocketAddr { ip: IpAddr::V6(v6), port: 1 }));
}

#[test]
fn prefixes() {
    let p = Prefix::v4([10, 20, 0, 0], 15).unwrap();
    assert!(p.contains(&IpAddr::V4([10, 21, 255, 1])));
    assert!(!p.contains(&IpAddr::V4([10, 22, 0, 0])));
    assert!(!p.contains(&IpAddr::V6([0; 16])));
    assert!(Prefix::v4([10, 20, 0, 1], 15).is_none());
    assert!(Prefix::v4([10, 20, 0, 0], 33).is_none());
    assert!(Prefix::v4([0, 0, 0, 0], 0).unwrap().contains(&IpAddr::V4([1, 2, 3, 4])));
    let mut net = [0u8; 16];
    net[0] = 0xfd;
    let p = Prefix::v6(net, 8).unwrap();
    let mut ip = [7u8; 16];
    assert!(!p.contains(&IpAddr::V6(ip)));
    ip[0] = 0xfd;
    assert!(p.contains(&IpAddr::V6(ip)));
    assert!(Prefix::Any.contains(&IpAddr::V6(ip)));
    assert!(Prefix::Any.contains(&IpAddr::V4([1, 2, 3, 4])));
    assert!(IpAddr::V4([1, 2, 3, 4]).same(&IpAddr::V4([1, 2, 3, 4])));
    assert!(!IpAddr::V4([0; 4]).same(&IpAddr::V6([0; 16])));
}
