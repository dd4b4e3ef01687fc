use snac_rs::dns::name::Name;
use snac_rs::dns::privacy::address::ip_text;
use snac_rs::dns::privacy::{IpAddress, Policy, Probe, Route, SocketAddress};
use snac_rs::dns::wire::{Message, Question, Rdata, Record};
use snac_rs::error::Error;
use snac_rs::time::RandomSource;

struct Fixed;

impl RandomSource for Fixed {
    fn fill(&mut self, n: usize) -> Result<Vec<u8>, Error> {
        Ok(vec![0; n])
    }
    fn sample(&mut self, _bound: u64) -> Result<u64, Error> {
        Ok(0)
    }
}

fn n(s: &str) -> Name {
    s.parse().unwrap()
}

fn v4(a: [u8; 4], port: u16) -> SocketAddress {
    SocketAddress { ip: IpAddress::V4(a), port }
}

fn v6(a: [u8; 16]) -> IpAddress {
    IpAddress::V6(a)
}

#[test]
fn address_text_forms() {
    assert_eq!(ip_text(&IpAddress::V4([192, 168, 1, 10])), "192.168.1.10");
    assert_eq!(ip_text(&IpAddress::V4([0, 9, 100, 255])), "0.9.100.255");
    assert_eq!(ip_text(&v6([0; 16])), "::");
    let mut one = [0u8; 16];
    one[15] = 1;
    assert_eq!(ip_text(&v6(one)), "::1");
    let doc = [0x20, 0x01, 0x0d, 0xb8, 0, 0, 0, 0, 0, 0, 0, 0, 0, 0, 0, 1];
    assert_eq!(ip_text(&v6(doc)), "2001:db8::1");
    let two_runs = [0x20, 0x01, 0x0d, 0xb8, 0, 0, 0, 0, 0, 1, 0, 0, 0, 0, 0, 1];
    assert_eq!(ip_text(&v6(two_runs)), "2001:db8::1:0:0:1");
    let single = [0x20, 0x01, 0x0d, 0xb8, 0, 0, 0, 1, 0, 1, 0, 1, 0, 1, 0, 1];
    assert_eq!(ip_text(&v6(single)), "2001:db8:0:1:1:1:1:1");
    let mapped = [0, 0, 0, 0, 0, 0, 0, 0, 0, 0, 0xff, 0xff, 192, 0, 2, 1];
    assert_eq!(ip_text(&v6(mapped)), "::ffff:192.0.2.1");
    let ula = [0xfd, 0x00, 0xab, 0xcd, 0x12, 0x34, 0, 0, 0, 0, 0, 0, 0, 0, 0xbe, 0xef];
    assert_eq!(ip_text(&v6(ula)), "fd00:abcd:1234::beef");
}

fn ddr_answer(target: &str, priority: u16, params: Vec<(u16, Vec<u8>)>) -> Message {
    let mut m = Message::new(1, 0x8000);
    m.questions.push(Question { name: n("_dns.resolver.arpa."), kind: 64, class: 1 });
    m.answers.push(Record {
        name: n("_dns.resolver.arpa."),
        kind: 64,
        class: 1,
        ttl: 300,
        data: Rdata::Svcb { priority, target: n(target), params },
    });
    m
}

#[test]
fn policy_sync_and_route() {
    let mut p = Policy::default();
    let a = v4([192, 168, 1, 1], 53);
    let b = v4([10, 0, 0, 1], 53);
    assert!(matches!(p.sync(&[a, v4([0, 0, 0, 0], 53)], false, 0), Err(Error::Invalid)));
    assert!(matches!(p.sync(&[v4([10, 0, 0, 1], 0)], false, 0), Err(Error::Invalid)));
    assert_eq!(p.count(), 0);
    p.sync(&[a, b, a], false, 0).unwrap();
    assert_eq!(p.count(), 2);
    match p.route(a, 0) {
        Route::Plain { reason } => assert_eq!(reason, "probing encrypted DNS"),
        Route::Tls(_) => panic!("no TLS yet"),
    }
    match p.route(v4([1, 1, 1, 1], 53), 0) {
        Route::Plain { reason } => assert_eq!(reason, "no encrypted resolver evidence"),
        Route::Tls(_) => panic!("unknown origin"),
    }
    p.sync(&[b], false, 0).unwrap();
    assert_eq!(p.count(), 1);
    p.sync(&[b], true, 0).unwrap();
    match p.route(b, 0) {
        Route::Plain { reason } => assert_eq!(reason, "explicitly configured DNS service"),
        Route::Tls(_) => panic!("explicit"),
    }
    assert_eq!(p.next_deadline(), None);
    assert!(p.poll(0).unwrap().is_empty());
}

#[test]
fn policy_probes_in_address_order_and_learns_tls() {
    let mut p = Policy::default();
    let a = v4([192, 168, 1, 1], 53);
    let b = v4([10, 0, 0, 1], 53);
    p.sync(&[a, b], false, 100).unwrap();
    assert_eq!(p.next_deadline(), Some(100));
    let probes = p.poll(100).unwrap();
    assert_eq!(probes.len(), 4);
    // 10.0.0.1 sorts first: its TLS then DDR probe, then 192.168.1.1's.
    match &probes[0] {
        Probe::Tls(t) => {
            assert_eq!(t.id, 1);
            assert!(matches!(t.origin.ip, IpAddress::V4([10, 0, 0, 1])));
            assert_eq!(t.endpoint.port, 853);
            assert_eq!(t.server_name, "10.0.0.1");
            assert_eq!(t.expires, 100 + 300_000);
        }
        Probe::Ddr(_) => panic!("TLS first"),
    }
    match &probes[1] {
        Probe::Ddr(d) => {
            assert_eq!(d.id, 2);
            assert_eq!(d.name, n("_dns.resolver.arpa."));
        }
        Probe::Tls(_) => panic!("then DDR"),
    }
    let tls_a = match &probes[2] {
        Probe::Tls(t) => t.id,
        Probe::Ddr(_) => panic!("TLS for the second"),
    };
    assert!(p.poll(100).unwrap().is_empty());
    p.complete_tls(tls_a, true, 200);
    match p.route(a, 300) {
        Route::Tls(d) => {
            assert_eq!(d.server_name, "192.168.1.1");
            assert_eq!(d.endpoint.port, 853);
            assert_eq!(d.priority, u16::MAX);
        }
        Route::Plain { .. } => panic!("working TLS"),
    }
    // A transport failure falls back to plain text.
    p.failed(a, v4([192, 168, 1, 1], 853), 400);
    match p.route(a, 400) {
        Route::Plain { reason } => assert_eq!(reason, "TLS transport failed; plaintext fallback"),
        Route::Tls(_) => panic!("failed"),
    }
    // The other TLS probe times out after ten seconds.
    let probes = p.poll(100 + 10_000).unwrap();
    assert!(probes.iter().all(|pr| !matches!(pr, Probe::Tls(_))));
    match p.route(b, 100 + 10_000) {
        Route::Plain { reason } => assert_eq!(reason, "TLS handshake timeout"),
        Route::Tls(_) => panic!("timed out"),
    }
}

#[test]
fn policy_ddr_designation_and_alias() {
    let mut p = Policy::default();
    let a = v4([192, 168, 1, 1], 53);
    p.sync(&[a], false, 0).unwrap();
    let probes = p.poll(0).unwrap();
    let ddr = match &probes[1] {
        Probe::Ddr(d) => d.id,
        Probe::Tls(_) => panic!("DDR second"),
    };
    // An unknown ID is refused.
    assert!(matches!(p.complete_ddr(99, &ddr_answer("dns.example.", 1, vec![]), 0, &mut Fixed), Err(Error::Invalid)));
    let m = ddr_answer("dns.example.", 1, vec![(1, b"\x03dot".to_vec())]);
    p.complete_ddr(ddr, &m, 10, &mut Fixed).unwrap();
    // The designation is now desired: a new TLS probe is due for it.
    let probes = p.poll(10).unwrap();
    match &probes[0] {
        Probe::Tls(t) => {
            assert_eq!(t.server_name, "dns.example");
            assert_eq!(t.expires, 10 + 300_000);
        }
        Probe::Ddr(_) => panic!("TLS probe for the designation"),
    }
    // A stale or repeated answer is refused.
    assert!(matches!(p.complete_ddr(ddr, &m, 20, &mut Fixed), Err(Error::Invalid)));

    let mut q = Policy::default();
    q.sync(&[a], false, 0).unwrap();
    let probes = q.poll(0).unwrap();
    let ddr = match &probes[1] {
        Probe::Ddr(d) => d.id,
        Probe::Tls(_) => panic!("DDR second"),
    };
    q.complete_ddr(ddr, &ddr_answer("other.example.", 0, vec![]), 5, &mut Fixed).unwrap();
    let probes = q.poll(5).unwrap();
    match &probes[0] {
        Probe::Ddr(d) => assert_eq!(d.name, n("other.example.")),
        Probe::Tls(_) => panic!("the alias is followed"),
    }
    // Explicit configuration refuses DDR answers.
    q.sync(&[a], true, 6).unwrap();
    assert!(matches!(q.complete_ddr(ddr, &ddr_answer("x.example.", 0, vec![]), 6, &mut Fixed), Err(Error::Invalid)));
}
