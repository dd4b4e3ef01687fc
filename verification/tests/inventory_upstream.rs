use snac_rs::dns::inventory::Zones;
use snac_rs::dns::name::Name;
use snac_rs::dns::upstream::{deadline, names, valid6, InformationClient};
use snac_rs::error::Error;
use snac_rs::persist::Identity;
use snac_rs::time::RandomSource;

struct Seq3(u64);

impl RandomSource for Seq3 {
    fn fill(&mut self, n: usize) -> Result<Vec<u8>, Error> {
        Ok((0..n).map(|i| 0x10 + i as u8).collect())
    }
    fn sample(&mut self, bound: u64) -> Result<u64, Error> {
        Ok(self.0.min(bound))
    }
}

fn n(s: &str) -> Name {
    s.parse().unwrap()
}

fn identity() -> Identity {
    let mut site = [0u8; 16];
    site[..6].copy_from_slice(&[0xfd, 0x12, 0x34, 0x56, 0x78, 0x9a]);
    Identity { attachment: "eth0".to_string(), site, iids: [1, 2], macs: [[2, 0, 0, 0, 0, 1], [2, 0, 0, 0, 0, 2]], duid: [0; 18] }
}

#[test]
fn zones_for_identity() {
    let z = Zones::for_identity(&identity());
    assert_eq!(z.hostname, n("snac-123456789a.home.arpa."));
    assert_eq!(z.registrar, n("srp.snac-123456789a.home.arpa."));
    assert_eq!(z.discovery, n("default.service.arpa."));
    assert_eq!(z.mailbox, n("hostmaster.snac-123456789a.home.arpa."));
    assert!(z.host.is_none());
    assert!(z.reverse.is_empty());
    assert!(z.proxy().is_ok());
    assert_eq!(
        z.registration_name(&n("printer._ipp._tcp.default.service.arpa.")).unwrap(),
        n("printer._ipp._tcp.srp.snac-123456789a.home.arpa.")
    );
    assert_eq!(z.registration_name(&n("other.example.")).unwrap(), n("other.example."));
    let mut bad = z.clone();
    bad.registrar = n("home.arpa.");
    assert!(matches!(bad.proxy(), Err(Error::Invalid)));
}

#[test]
fn domain_lists() {
    let b = b"\x07example\x03com\x00\x03lan\x00";
    let v = names(b, false).unwrap();
    assert_eq!(v, vec![n("example.com."), n("lan.")]);
    // Zero padding ends a list when allowed.
    let mut padded = b.to_vec();
    padded.extend_from_slice(&[0, 0, 0]);
    assert_eq!(names(&padded, true).unwrap().len(), 2);
    assert!(matches!(names(&padded, false), Err(Error::Invalid)));
    assert!(matches!(names(b"", false), Err(Error::Invalid)));
    assert!(matches!(names(b"\x00", false), Err(Error::Invalid)));
    assert!(matches!(names(b"\x03abc", false), Err(Error::Invalid)));
    assert!(matches!(names(b"\x40", false), Err(Error::Invalid)));
    let mut many = vec![];
    for _ in 0..65 {
        many.extend_from_slice(b"\x01a\x00");
    }
    assert!(matches!(names(&many, false), Err(Error::Invalid)));
    assert_eq!(names(&many[..64 * 3], false).unwrap().len(), 64);
}

#[test]
fn resolver_addresses_and_deadlines() {
    assert!(valid6([0; 16]).is_err());
    let mut loopback = [0u8; 16];
    loopback[15] = 1;
    assert!(valid6(loopback).is_err());
    let mut multicast = [0u8; 16];
    multicast[0] = 0xff;
    assert!(valid6(multicast).is_err());
    let mut ula = [0u8; 16];
    ula[0] = 0xfd;
    ula[15] = 1;
    assert!(valid6(ula).is_ok());
    assert_eq!(deadline(5, 2), 2005);
    assert_eq!(deadline(u64::MAX - 1, 1), u64::MAX);
}

#[test]
fn information_client_identifiers() {
    assert!(matches!(InformationClient::new(vec![], 0, &mut Seq3(0)), Err(Error::Invalid)));
    assert!(matches!(InformationClient::new(vec![1; 129], 0, &mut Seq3(0)), Err(Error::Invalid)));
    let mut c = InformationClient::new(vec![0, 1, 2, 3], 1000, &mut Seq3(250)).unwrap();
    assert_eq!(c.xid(), Some([0x10, 0x11, 0x12]));
    assert_eq!(c.next_deadline(), 1250);
    c.avoid_xid([1, 2, 3], 2000);
    assert_eq!(c.xid(), Some([0x10, 0x11, 0x12]));
    assert_eq!(c.next_deadline(), 1250);
    c.avoid_xid([0x10, 0x11, 0x12], 3000);
    assert_eq!(c.xid(), Some([0x10, 0x11, 0x13]));
    assert_eq!(c.next_deadline(), 3000);
}

#[test]
fn information_client_from_draw() {
    let c = InformationClient::from_draw(vec![9; 4], u64::MAX - 10, [7, 8, 9], 500);
    assert_eq!(c.xid(), Some([7, 8, 9]));
    assert_eq!(c.next_deadline(), u64::MAX);
    let c = InformationClient::from_draw(vec![9; 4], 100, [1, 2, 3], 0);
    assert_eq!(c.next_deadline(), 100);
}
