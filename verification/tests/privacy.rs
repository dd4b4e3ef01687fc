use snac_rs::dns::name::Name;
use snac_rs::dns::privacy::{ddr_candidates, hostname, IpAddress, SocketAddress};
use snac_rs::dns::wire::{Message, Question, Rdata, Record};
use snac_rs::error::Error;
use snac_rs::time::RandomSource;

struct Fixed(u64);

impl RandomSource for Fixed {
    fn fill(&mut self, n: usize) -> Result<Vec<u8>, Error> {
        Ok(vec![0; n])
    }
    fn sample(&mut self, bound: u64) -> Result<u64, Error> {
        Ok(self.0.min(bound))
    }
}

fn n(s: &str) -> Name {
    s.parse().unwrap()
}

fn svcb(priority: u16, target: &str, params: Vec<(u16, Vec<u8>)>) -> Record {
    Record {
        name: n("_dns.resolver.arpa."),
        kind: 64,
        class: 1,
        ttl: 300,
        data: Rdata::Svcb { priority, target: n(target), params },
    }
}

fn answer(records: Vec<Record>) -> Message {
    let mut m = Message::new(7, 0x8000);
    m.questions.push(Question { name: n("_dns.resolver.arpa."), kind: 64, class: 1 });
    m.answers = records;
    m
}

fn local() -> SocketAddress {
    SocketAddress { ip: IpAddress::V4([192, 168, 1, 1]), port: 53 }
}

#[test]
fn ddr_designates_local_resolver() {
    let m = answer(vec![svcb(1, "dns.example.", vec![(1, b"\x03dot".to_vec()), (3, vec![3, 0x55])])]);
    let d = ddr_candidates(&local(), &m, 1000, &mut Fixed(0)).unwrap();
    assert!(d.alias.is_none());
    assert_eq!(d.candidates.len(), 1);
    let c = &d.candidates[0];
    assert_eq!(c.server_name, "dns.example");
    assert_eq!(c.endpoint.port, 853);
    assert!(matches!(c.endpoint.ip, IpAddress::V4([192, 168, 1, 1])));
    assert_eq!(c.priority, 1);
    assert_eq!(c.expires, 1000 + 300_000);
}

#[test]
fn ddr_public_resolver_gets_nothing() {
    let m = answer(vec![svcb(1, "dns.example.", vec![(1, b"\x03dot".to_vec())])]);
    let public = SocketAddress { ip: IpAddress::V4([8, 8, 8, 8]), port: 53 };
    let d = ddr_candidates(&public, &m, 0, &mut Fixed(0)).unwrap();
    assert!(d.candidates.is_empty() && d.alias.is_none());
}

#[test]
fn ddr_sorts_and_filters() {
    let m = answer(vec![
        svcb(5, "b.example.", vec![(1, b"\x03dot".to_vec())]),
        svcb(2, "a.example.", vec![(1, b"\x02h2\x03dot".to_vec())]),
        svcb(1, "c.example.", vec![(1, b"\x02h2".to_vec())]),
        svcb(1, "d.example.", vec![(1, b"\x03dot".to_vec()), (4, vec![10, 0, 0, 1])]),
    ]);
    let d = ddr_candidates(&local(), &m, 0, &mut Fixed(0)).unwrap();
    let names: Vec<&str> = d.candidates.iter().map(|c| c.server_name.as_str()).collect();
    assert_eq!(names, vec!["a.example", "b.example"]);
}

#[test]
fn ddr_alias_is_followed() {
    let m = answer(vec![svcb(0, "other.example.", vec![])]);
    let d = ddr_candidates(&local(), &m, 5, &mut Fixed(0)).unwrap();
    let (target, until) = d.alias.unwrap();
    assert_eq!(target, n("other.example."));
    assert_eq!(until, 5 + 300_000);
}

#[test]
fn ddr_refuses_bad_answers() {
    let m = answer(vec![]);
    let zero_port = SocketAddress { ip: IpAddress::V4([192, 168, 1, 1]), port: 0 };
    assert_eq!(ddr_candidates(&zero_port, &m, 0, &mut Fixed(0)).unwrap_err(), Error::Invalid);
    let mut q = answer(vec![]);
    q.flags = 0;
    assert_eq!(ddr_candidates(&local(), &q, 0, &mut Fixed(0)).unwrap_err(), Error::Invalid);
    let big = answer(vec![svcb(1, "x.example.", vec![(4, vec![1; 36])])]);
    assert_eq!(ddr_candidates(&local(), &big, 0, &mut Fixed(0)).unwrap_err(), Error::Invalid);
}

#[test]
fn ddr_capacity_of_eight() {
    let mut rs = vec![];
    for i in 0..9 {
        rs.push(svcb(1, &format!("r{i}.example."), vec![(1, b"\x03dot".to_vec())]));
    }
    let m = answer(rs);
    assert_eq!(ddr_candidates(&local(), &m, 0, &mut Fixed(0)).unwrap_err(), Error::Capacity);
}

#[test]
fn hostname_rules() {
    assert_eq!(hostname(&n("dns.example.")).unwrap(), "dns.example");
    assert!(hostname(&n(".")).is_none());
    assert!(hostname(&n("Resolver.ARPA.")).is_none());
    assert!(hostname(&n("-x.example.")).is_none());
    assert!(hostname(&n("a_b.example.")).is_none());
}
