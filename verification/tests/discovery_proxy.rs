use sha1::Digest;
use snac_rs::discovery_proxy::query::Proxy;
use snac_rs::discovery_proxy::{base32hex, successor, Reachability, Scope, Zone};
use snac_rs::dns::name::Name;
use snac_rs::dns::wire::{Question, Rdata, Record};
use snac_rs::error::Error;

fn n(s: &str) -> Name {
    s.parse().unwrap()
}

fn zone() -> Zone {
    Zone::new(
        n("default.service.arpa."),
        Some(n("hosts.example.")),
        &[n("1.168.192.in-addr.arpa.")],
        &[n("ns.example.com.")],
        n("admin.example.com."),
    )
    .unwrap()
}

fn q(name: &str, kind: u16) -> Question {
    Question { name: n(name), kind, class: 1 }
}

#[test]
fn zone_refuses_bad_configuration() {
    assert!(Zone::new(n("."), None, &[], &[n("ns.example.com.")], n("a.b.")).is_err());
    assert!(Zone::new(n("s.arpa."), Some(n("-bad.example.")), &[], &[n("ns.example.com.")], n("a.b.")).is_err());
    assert!(Zone::new(n("s.arpa."), None, &[n("example.com.")], &[n("ns.example.com.")], n("a.b.")).is_err());
    assert!(Zone::new(n("s.arpa."), None, &[], &[], n("a.b.")).is_err());
    assert!(Zone::new(n("s.arpa."), None, &[], &[n("ns.s.arpa.")], n("a.b.")).is_err());
    assert!(Zone::new(n("s.arpa."), None, &[], &[n("ns.example.com.")], n("a.b.")).is_ok());
}

#[test]
fn question_maps_to_local() {
    let z = zone();
    let t = z.question(&q("_http._tcp.Default.Service.Arpa.", 12)).unwrap().unwrap();
    assert_eq!(t.multicast.name, n("_http._tcp.local."));
    assert_eq!(t.multicast.kind, 12);
    assert_eq!(t.scope, Scope::Service);
    let t = z.question(&q("printer.hosts.example.", 47)).unwrap().unwrap();
    assert_eq!(t.multicast.name, n("printer.local."));
    assert_eq!(t.multicast.kind, 255);
    assert_eq!(t.scope, Scope::Host);
    let t = z.question(&q("5.1.168.192.in-addr.arpa.", 12)).unwrap().unwrap();
    assert_eq!(t.multicast.name, n("5.1.168.192.in-addr.arpa."));
    assert_eq!(t.scope, Scope::Reverse(0));
    assert!(z.question(&q("example.org.", 1)).unwrap().is_none());
    assert_eq!(z.question(&Question { name: n("x.default.service.arpa."), kind: 1, class: 3 }).unwrap_err(), Error::Invalid);
}

#[test]
fn rewrite_moves_names_and_caps_ttl() {
    let z = zone();
    let t = z.question(&q("_http._tcp.default.service.arpa.", 12)).unwrap().unwrap();
    let r = Record {
        name: n("_http._tcp.local."),
        kind: 12,
        class: 0x8001,
        ttl: 4500,
        data: Rdata::Name(n("web._http._tcp.local.")),
    };
    let out = z.rewrite(&r, &t, false, &Reachability::default()).unwrap().unwrap();
    assert_eq!(out.name, n("_http._tcp.default.service.arpa."));
    assert_eq!(out.class, 1);
    assert_eq!(out.ttl, 10);
    match out.data {
        Rdata::Name(x) => assert_eq!(x, n("web._http._tcp.default.service.arpa.")),
        _ => panic!("PTR data expected"),
    }
    let srv = Record {
        name: n("web._http._tcp.local."),
        kind: 33,
        class: 1,
        ttl: 5,
        data: Rdata::Srv { priority: 0, weight: 0, port: 80, target: n("printer.local.") },
    };
    let out = z.rewrite(&srv, &t, false, &Reachability::default()).unwrap().unwrap();
    match out.data {
        Rdata::Srv { target, .. } => assert_eq!(target, n("printer.hosts.example.")),
        _ => panic!("SRV data expected"),
    }
    assert_eq!(out.ttl, 5);
    let ll = Record { name: n("printer.local."), kind: 1, class: 1, ttl: 5, data: Rdata::A([169, 254, 1, 1]) };
    assert!(z.rewrite(&ll, &t, true, &Reachability::default()).unwrap().is_none());
    let reach = Reachability { on_link: true, ..Reachability::default() };
    assert!(z.rewrite(&ll, &t, true, &reach).unwrap().is_some());
    let nsec = Record {
        name: n("printer.local."),
        kind: 47,
        class: 1,
        ttl: 5,
        data: Rdata::Nsec { next: n("printer.local."), bitmap: vec![0, 1, 0x40] },
    };
    assert_eq!(z.rewrite(&nsec, &t, true, &reach).unwrap_err(), Error::Invalid);
}

#[test]
fn denial_lists_owner_types() {
    let z = zone();
    let t = z.question(&q("printer.hosts.example.", 47)).unwrap().unwrap();
    let a = Record { name: n("printer.local."), kind: 1, class: 0x8001, ttl: 120, data: Rdata::A([192, 168, 1, 5]) };
    let r = z.denial(&t, &[a], &Reachability::default()).unwrap();
    assert_eq!(r.kind, 47);
    assert_eq!(r.name, n("printer.hosts.example."));
    assert_eq!(r.ttl, 10);
    match r.data {
        Rdata::Nsec { next, bitmap } => {
            assert_eq!(next.labels()[0], vec![0u8]);
            assert_eq!(next.labels().len(), 4);
            assert_eq!(bitmap, vec![0, 6, 0x40, 0, 0, 0, 0, 0x01]);
        }
        _ => panic!("NSEC expected"),
    }
    let ll = Record { name: n("printer.local."), kind: 1, class: 1, ttl: 120, data: Rdata::A([169, 254, 9, 9]) };
    let r = z.denial(&t, &[ll], &Reachability::default()).unwrap();
    match r.data {
        Rdata::Nsec { bitmap, .. } => assert_eq!(bitmap, vec![0, 6, 0, 0, 0, 0, 0, 0x01]),
        _ => panic!("NSEC expected"),
    }
}

#[test]
fn denial_nsec3_hashes_owner() {
    let z = zone();
    let t = z.question(&q("printer.hosts.example.", 50)).unwrap().unwrap();
    let r = z.denial(&t, &[], &Reachability::default()).unwrap();
    assert_eq!(r.kind, 50);
    let owner = n("printer.hosts.example.");
    let hash = sha1::Sha1::digest(owner.canonical());
    let label = base32hex(hash.as_slice());
    assert_eq!(r.name.labels()[0], label);
    assert_eq!(r.name.labels().len(), 3);
    let mut next = hash.to_vec();
    for i in (0..20).rev() {
        let (v, carry) = next[i].overflowing_add(1);
        next[i] = v;
        if !carry {
            break;
        }
    }
    match r.data {
        Rdata::Bytes(b) => {
            assert_eq!(&b[..6], &[1, 0, 0, 0, 0, 20]);
            assert_eq!(&b[6..26], next.as_slice());
            assert_eq!(b.len(), 26);
        }
        _ => panic!("NSEC3 data expected"),
    }
}

#[test]
fn base32hex_alphabet() {
    assert_eq!(base32hex(&[0u8; 20]), vec![b'0'; 32]);
    assert_eq!(base32hex(&[0xffu8; 20]), vec![b'V'; 32]);
    let mut b = [0u8; 20];
    b[0] = 0x08;
    assert_eq!(base32hex(&b)[..2], [b'1', b'0']);
}

#[test]
fn successor_prepends_zero_label() {
    let s = successor(&n("A.b.example."), &n("example.")).unwrap();
    assert_eq!(s.labels().len(), 4);
    assert_eq!(s.labels()[0], vec![0u8]);
    assert_eq!(s.labels()[1], b"a".to_vec());
    assert_eq!(s.labels()[3], b"example".to_vec());
}

#[test]
fn metadata_answers_apex_soa_and_ns() {
    let z = zone();
    let m = z.metadata(&q("default.service.arpa.", 255)).unwrap().unwrap();
    assert_eq!(m.answers.len(), 2);
    assert_eq!(m.answers[0].kind, 2);
    assert_eq!(m.answers[1].kind, 6);
    assert_eq!(m.flags, 0x8400);
    let m = z.metadata(&q("default.service.arpa.", 1)).unwrap().unwrap();
    assert!(m.answers.is_empty());
    assert_eq!(m.authority.len(), 1);
    assert!(z.metadata(&q("x.default.service.arpa.", 1)).unwrap().is_none());
    let m = z.metadata(&q("_dns-update._udp.default.service.arpa.", 33)).unwrap().unwrap();
    assert_eq!(m.authority[0].kind, 6);
    let m = z.metadata(&q("default.service.arpa.", 47)).unwrap().unwrap();
    match &m.answers[0].data {
        Rdata::Nsec { bitmap, .. } => assert_eq!(bitmap, &vec![0, 6, 0x22, 0, 0, 0, 0, 0x01]),
        _ => panic!("NSEC expected"),
    }
}

#[test]
fn proxy_jobs_join_and_bound() {
    let mut p = Proxy::new(zone());
    let a = p.start(q("_http._tcp.default.service.arpa.", 12), 1000).unwrap();
    let b = p.start(q("_HTTP._tcp.default.service.arpa.", 12), 2000).unwrap();
    assert_eq!(a, b);
    assert_eq!(p.counts().0, 1);
    assert!(p.counts().1 > 2048);
    assert_eq!(p.next_deadline(5), Some(5));
    p.cancel(a);
    let c = p.start(q("_http._tcp.default.service.arpa.", 12), 2000).unwrap();
    assert_ne!(a, c);
    assert_eq!(p.start(q("example.org.", 1), 0).unwrap_err(), Error::Invalid);
    for i in 0..126u32 {
        p.start(q(&format!("h{i}.hosts.example."), 1), 0).unwrap();
    }
    assert_eq!(p.counts().0, 128);
    assert_eq!(p.start(q("last.hosts.example.", 1), 0).unwrap_err(), Error::Capacity);
}

#[test]
fn proxy_start_joins_until_the_deadline() {
    let mut p = Proxy::new(zone());
    assert_eq!(p.next_deadline(0), None);
    assert_eq!(p.counts().0, 0);
    let a = p.start(q("_ipp._tcp.default.service.arpa.", 12), 1000).unwrap();
    assert_eq!(p.start(q("_ipp._tcp.default.service.arpa.", 12), 6999).unwrap(), a);
    assert_eq!(p.counts().0, 1);
    let b = p.start(q("_ipp._tcp.default.service.arpa.", 12), 7000).unwrap();
    assert!(b > a);
    p.cancel(b);
    assert!(p.next_deadline(7001).unwrap() <= 7001);
}
