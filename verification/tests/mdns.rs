use snac_rs::dns::name::Name;
use snac_rs::dns::wire::{Question, Rdata, Record};
use snac_rs::mdns::advertise::{replace_suffix, within};
use snac_rs::mdns::cache::{bitmap_has, cacheable, charge, same};
use snac_rs::mdns::tsr::{compare, key_checksum, Relation, Stamp};

fn n(s: &str) -> Name {
    s.parse().unwrap()
}

fn rec(name: &str, kind: u16, class: u16, data: Rdata) -> Record {
    Record { name: n(name), kind, class, ttl: 120, data }
}

#[test]
fn same_ignores_case_and_cache_flush() {
    let a = rec("Host.local.", 1, 0x8001, Rdata::A([10, 0, 0, 1]));
    let b = rec("host.LOCAL.", 1, 1, Rdata::A([10, 0, 0, 1]));
    let c = rec("host.local.", 1, 1, Rdata::A([10, 0, 0, 2]));
    assert!(same(&a, &b));
    assert!(!same(&a, &c));
    let p = rec("x.local.", 12, 1, Rdata::Name(n("Y.local.")));
    let q = rec("x.local.", 12, 1, Rdata::Name(n("y.local.")));
    assert!(same(&p, &q));
}

#[test]
fn matches_questions() {
    let r = rec("host.local.", 1, 0x8001, Rdata::A([10, 0, 0, 1]));
    assert!(snac_rs::mdns::cache::matches(&Question { name: n("HOST.local."), kind: 1, class: 1 }, &r));
    assert!(snac_rs::mdns::cache::matches(&Question { name: n("host.local."), kind: 255, class: 255 }, &r));
    assert!(!snac_rs::mdns::cache::matches(&Question { name: n("host.local."), kind: 28, class: 1 }, &r));
    let cname = rec("host.local.", 5, 1, Rdata::Name(n("other.local.")));
    assert!(snac_rs::mdns::cache::matches(&Question { name: n("host.local."), kind: 28, class: 1 }, &cname));
}

#[test]
fn cacheable_records() {
    assert!(cacheable(&rec("h.local.", 1, 1, Rdata::A([1, 2, 3, 4]))));
    assert!(!cacheable(&rec("h.local.", 255, 1, Rdata::A([1, 2, 3, 4]))));
    assert!(!cacheable(&rec("h.local.", 1, 255, Rdata::A([1, 2, 3, 4]))));
    assert!(!cacheable(&rec("h.local.", 99, 1, Rdata::Opaque(vec![1]))));
}

#[test]
fn charge_counts_encoded_octets() {
    let r = rec("h.local.", 1, 1, Rdata::A([1, 2, 3, 4]));
    // 12 header + 9 name + 10 fixed + 4 address
    assert_eq!(charge(&r), Some(1024 + 16 * (12 + 9 + 10 + 4)));
}

#[test]
fn bitmap_lookup() {
    let b = [0u8, 6, 0x40, 0, 0, 0, 0, 0x01];
    assert!(bitmap_has(&b, 1));
    assert!(bitmap_has(&b, 47));
    assert!(!bitmap_has(&b, 28));
    assert!(!bitmap_has(&[0, 0], 1));
    assert!(bitmap_has(&[0, 1, 0x80, 1, 1, 0x40], 257));
}

#[test]
fn suffix_rewrites() {
    assert!(within(&n("a.B.c."), &n("b.C.")));
    assert!(!within(&n("a.b.c."), &n("x.c.")));
    assert_eq!(replace_suffix(&n("a.local."), &n("local."), &n("zone.arpa.")).unwrap(), n("a.zone.arpa."));
    assert_eq!(replace_suffix(&n("a.other."), &n("local."), &n("zone.arpa.")).unwrap(), n("a.other."));
}

#[test]
fn stamps_roundtrip_within_a_second() {
    let s = Stamp { key_checksum: 0xdeadbeef, received_at: 10_000 };
    let b = s.encode(3, 75_500);
    assert_eq!(b, [0, 3, 0xde, 0xad, 0xbe, 0xef, 0, 0, 0, 65]);
    let (index, back) = Stamp::decode(&b, 80_000).unwrap();
    assert_eq!(index, 3);
    assert_eq!(back.key_checksum, 0xdeadbeef);
    assert_eq!(back.received_at, 80_000 - 65_000);
    assert_eq!(compare(Some(Stamp { received_at: 15_000, ..s }), Some(back)), Relation::Equal);
    assert_eq!(compare(Some(s), Some(Stamp { received_at: 20_000, ..s })), Relation::Newer);
    assert_eq!(compare(Some(s), Some(Stamp { key_checksum: 1, ..s })), Relation::Conflict);
    assert_eq!(compare(None, None), Relation::Unstamped);
    assert!(Stamp::decode(&b[..9], 0).is_none());
    let _ = key_checksum(b"key");
}
