use snac_rs::ipv4::wire::{checksum, encode, Packet};
use snac_rs::nat64::icmp::{v4_to_v6, v6_to_v4};
use snac_rs::nat64::tcp::State;

#[test]
fn icmp_translation_tables() {
    assert_eq!(v4_to_v6(3, 1, 0, 0, 1500, 1500), Some((1, 0, 0)));
    assert_eq!(v4_to_v6(3, 4, 0, 1600, 1500, 1500), Some((2, 0, 1500)));
    assert_eq!(v4_to_v6(3, 4, 0, 1600, 1500, 9000), Some((2, 0, 1512)));
    assert_eq!(v4_to_v6(3, 4, 0, 100, 1500, 1500), Some((2, 0, 1280)));
    assert_eq!(v4_to_v6(12, 0, 9, 0, 0, 0), Some((4, 0, 6)));
    assert_eq!(v4_to_v6(12, 0, 5, 0, 0, 0), None);
    assert_eq!(v6_to_v4(2, 0, 1500, 1500, 1500), Some((3, 4, 1480)));
    assert_eq!(v6_to_v4(2, 0, 10, 1500, 1500), Some((3, 4, 68)));
    assert_eq!(v6_to_v4(4, 0, 24, 0, 0), Some((12, 0, 16)));
    assert_eq!(v6_to_v4(4, 1, 0, 0, 0), Some((3, 2, 0)));
}

#[test]
fn tcp_session_states() {
    let (s, e) = State::V6Init.packet(false, 2, 5, 100);
    assert_eq!(s, State::Established);
    assert_eq!(e, 100 + 7_200_000);
    let (s, _) = State::Established.packet(true, 1, 5, 100);
    assert_eq!(s, State::V6Fin);
    let (s, e) = State::V6Fin.packet(false, 1, 5, 100);
    assert_eq!(s, State::BothFin);
    assert_eq!(e, 100 + 240_000);
    let (s, e) = State::Established.packet(false, 4, 5, u64::MAX - 1);
    assert_eq!(s, State::Transitory);
    assert_eq!(e, u64::MAX);
}

#[test]
fn ipv4_encode_parse_and_checksum() {
    let b = encode([192, 168, 1, 1], [192, 168, 1, 2], 17, 64, &[1, 2, 3, 4]).unwrap();
    assert_eq!(b.len(), 24);
    assert_eq!(checksum(&b[..20]), 0);
    let p = Packet::parse(&b).unwrap();
    assert_eq!(p.source, [192, 168, 1, 1]);
    assert_eq!(p.destination, [192, 168, 1, 2]);
    assert_eq!(p.protocol, 17);
    assert_eq!(p.ttl, 64);
    assert_eq!(p.payload, &[1, 2, 3, 4]);
    let mut bad = b.clone();
    bad[10] ^= 1;
    assert!(Packet::parse(&bad).is_err());
    assert_eq!(checksum(&[0x45, 0x00]), !0x4500u16);
}
