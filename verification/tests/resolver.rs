use snac_rs::dns::name::Name;
use snac_rs::dns::privacy::{IpAddress, SocketAddress};
use snac_rs::dns::resolver::{Action, Client, Resolver};
use snac_rs::dns::wire::{Context, Message, Question};
use snac_rs::error::Error;
use snac_rs::time::RandomSource;

struct Fixed;

impl RandomSource for Fixed {
    fn fill(&mut self, n: usize) -> Result<Vec<u8>, Error> {
        Ok((0..n).map(|i| 0x11 * (i as u8 + 1)).collect())
    }
    fn sample(&mut self, bound: u64) -> Result<u64, Error> {
        Ok(bound / 2)
    }
}

struct Broken;

impl RandomSource for Broken {
    fn fill(&mut self, _n: usize) -> Result<Vec<u8>, Error> {
        Err(Error::Io)
    }
    fn sample(&mut self, _bound: u64) -> Result<u64, Error> {
        Err(Error::Io)
    }
}

fn n(s: &str) -> Name {
    s.parse().unwrap()
}

fn query(id: u16, flags: u16, name: &str, kind: u16) -> Vec<u8> {
    let mut m = Message::new(id, flags);
    m.questions.push(Question { name: n(name), kind, class: 1 });
    m.encode().unwrap()
}

fn client(last: u8) -> Client {
    Client::udp(SocketAddress { ip: IpAddress::V4([192, 0, 2, last]), port: 40000 })
}

fn upstream() -> SocketAddress {
    SocketAddress { ip: IpAddress::V4([198, 51, 100, 1]), port: 53 }
}

fn reply_of(actions: &[Action]) -> Message {
    assert_eq!(actions.len(), 1);
    match &actions[0] {
        Action::Reply { bytes, .. } => Message::parse(bytes, Context::Unicast).unwrap(),
        Action::Upstream(_) => panic!("expected a reply"),
    }
}

#[test]
fn servfail_without_upstreams() {
    let mut r = Resolver::new(false);
    let a = r.submit(client(1), &query(7, 0x100, "example.com.", 1), 0, &mut Fixed).unwrap();
    let m = reply_of(&a);
    assert_eq!(m.id, 7);
    assert_eq!(m.flags & 15, 2);
    assert_eq!(m.flags & 0x8000, 0x8000);
    assert_eq!(m.flags & 0x80, 0x80);
    assert_eq!(r.pending_count(), 0);
}

#[test]
fn local_zones_answer_nxdomain() {
    let mut r = Resolver::new(false);
    assert!(r.set_local_zones(&vec![n("home.arpa.")]).is_ok());
    assert_eq!(r.set_local_zones(&vec![Name::root()]), Err(Error::Invalid));
    assert!(r.set_upstreams(&[upstream()]).is_ok());
    let a = r.submit(client(1), &query(9, 0x100, "printer.HOME.arpa.", 1), 0, &mut Fixed).unwrap();
    assert_eq!(reply_of(&a).flags & 15, 3);
    let a = r.submit(client(1), &query(10, 0x100, "x.service.arpa.", 28), 0, &mut Fixed).unwrap();
    assert_eq!(reply_of(&a).flags & 15, 3);
}

#[test]
fn forwards_and_joins_identical_queries() {
    let mut r = Resolver::new(false);
    assert!(r.set_upstreams(&[upstream(), upstream()]).is_ok());
    assert_eq!(r.upstreams().len(), 1);
    let a = r.submit(client(1), &query(1, 0x100, "example.com.", 1), 1000, &mut Fixed).unwrap();
    assert_eq!(a.len(), 1);
    let q = match &a[0] {
        Action::Upstream(q) => q.clone(),
        Action::Reply { .. } => panic!("expected a query"),
    };
    assert_eq!(q.exchange, 1);
    assert!(!q.tcp);
    assert!(q.source_port >= 49152);
    // The ID comes from the random octets, little-endian: 0x11, 0x22.
    assert_eq!((q.bytes[0], q.bytes[1]), (0x22, 0x11));
    assert_eq!(r.pending_count(), 1);
    let qs = r.queries();
    assert_eq!(qs.len(), 1);
    assert_eq!(qs[0].exchange, 1);
    assert_eq!(qs[0].source_port, q.source_port);
    assert_eq!(r.next_deadline(), Some(2000));
    // The same question in another case joins the transaction.
    let a = r.submit(client(2), &query(2, 0x100, "EXAMPLE.com.", 1), 1000, &mut Fixed).unwrap();
    assert!(a.is_empty());
    assert_eq!(r.pending_count(), 1);
    assert_eq!(r.waiter_count(), 2);
    assert!(r.pending_bytes() > 3072);
}

#[test]
fn random_source_failure_changes_nothing_more() {
    let mut r = Resolver::new(false);
    assert!(r.set_upstreams(&[upstream()]).is_ok());
    assert_eq!(r.submit(client(1), &query(1, 0x100, "example.com.", 1), 0, &mut Broken).unwrap_err(), Error::Io);
    assert_eq!(r.pending_count(), 0);
    assert_eq!(r.rate_entries(), 1);
}

#[test]
fn updates_are_not_implemented_and_bad_queries_rejected() {
    let mut r = Resolver::new(false);
    let a = r.submit(client(1), &query(3, 0x2800, "home.arpa.", 6), 0, &mut Fixed).unwrap();
    let m = reply_of(&a);
    assert_eq!(m.flags & 15, 4);
    assert_eq!(m.flags & 0x7800, 0x2800);
    // A response is not a query.
    assert_eq!(r.submit(client(1), &query(4, 0x8000, "a.example.", 1), 0, &mut Fixed).unwrap_err(), Error::Invalid);
    assert!(r.submit(client(1), &[1, 2, 3], 0, &mut Fixed).is_err());
    let unspecified = Client::udp(SocketAddress { ip: IpAddress::V4([0, 0, 0, 0]), port: 5 });
    assert_eq!(r.submit(unspecified, &query(5, 0, "a.example.", 1), 0, &mut Fixed).unwrap_err(), Error::Invalid);
}

#[test]
fn rate_limit_per_client() {
    let mut r = Resolver::new(false);
    for i in 0..32u16 {
        assert!(r.submit(client(1), &query(i, 0x100, "a.example.", 1), 0, &mut Fixed).is_ok());
    }
    assert_eq!(r.submit(client(1), &query(99, 0x100, "a.example.", 1), 0, &mut Fixed).unwrap_err(), Error::Capacity);
    // Another client and a later window are unaffected.
    assert!(r.submit(client(2), &query(99, 0x100, "a.example.", 1), 0, &mut Fixed).is_ok());
    assert!(r.submit(client(1), &query(99, 0x100, "a.example.", 1), 1000, &mut Fixed).is_ok());
}

#[test]
fn connections_are_cancelled() {
    let mut r = Resolver::new(false);
    assert!(r.set_upstreams(&[upstream()]).is_ok());
    let tcp = Client::tcp(SocketAddress { ip: IpAddress::V4([192, 0, 2, 9]), port: 40001 }, 4);
    assert!(r.submit(tcp, &query(1, 0x100, "b.example.", 1), 0, &mut Fixed).is_ok());
    assert!(r.connection_pending(4));
    assert!(!r.connection_pending(5));
    r.cancel_connection(5);
    assert_eq!(r.pending_count(), 1);
    r.cancel_connection(4);
    assert_eq!(r.pending_count(), 0);
    assert!(!r.connection_pending(4));
}

#[test]
fn upstream_changes_clear_configuration() {
    let mut r = Resolver::new(true);
    let nine: Vec<SocketAddress> =
        (1..=9).map(|i| SocketAddress { ip: IpAddress::V4([198, 51, 100, i]), port: 53 }).collect();
    assert_eq!(r.set_upstreams(&nine), Err(Error::Invalid));
    assert_eq!(r.set_upstreams(&[SocketAddress { ip: IpAddress::V4([198, 51, 100, 1]), port: 0 }]), Err(Error::Invalid));
    assert!(r.upstreams().is_empty());
    r.set_additional_a(false);
    assert_eq!(r.cache_sets(), 0);
    assert_eq!(r.cache_bytes(), 0);
    assert_eq!(r.next_deadline(), None);
}

fn forwarded(r: &mut Resolver, c: Client, name: &str, kind: u16, now: u64) -> snac_rs::dns::resolver::UpstreamQuery {
    let a = r.submit(c, &query(21, 0x100, name, kind), now, &mut Fixed).unwrap();
    match &a[0] {
        Action::Upstream(q) => q.clone(),
        Action::Reply { .. } => panic!("expected a query"),
    }
}

fn answer_to(q: &snac_rs::dns::resolver::UpstreamQuery, flags: u16, name: &str, ttl: u32) -> Vec<u8> {
    let id = u16::from(q.bytes[0]) * 256 + u16::from(q.bytes[1]);
    let mut m = Message::new(id, flags);
    m.questions.push(Question { name: n(name), kind: 1, class: 1 });
    m.answers.push(snac_rs::dns::wire::Record {
        name: n(name),
        kind: 1,
        class: 1,
        ttl,
        data: snac_rs::dns::wire::Rdata::A([192, 0, 2, 7]),
    });
    m.encode().unwrap()
}

#[test]
fn replies_complete_and_fill_the_cache() {
    let mut r = Resolver::new(false);
    assert!(r.set_upstreams(&[upstream()]).is_ok());
    let q = forwarded(&mut r, client(1), "www.example.", 1, 0);
    // A reply on the wrong port is ignored.
    let bytes = answer_to(&q, 0x8180, "www.example.", 300);
    assert!(r.receive(q.exchange, q.server, q.source_port ^ 1, false, &bytes, 10, &mut Fixed).unwrap().is_empty());
    let a = r.receive(q.exchange, q.server, q.source_port, false, &bytes, 10, &mut Fixed).unwrap();
    let m = reply_of(&a);
    assert_eq!(m.id, 21);
    assert_eq!(m.answers.len(), 1);
    assert_eq!(r.pending_count(), 0);
    assert_eq!(r.cache_sets(), 1);
    assert_eq!(r.next_deadline(), Some(300010));
    // The cached answer is served with its TTL reduced by the time since.
    let a = r.submit(client(2), &query(22, 0x100, "WWW.example.", 1), 100010, &mut Fixed).unwrap();
    let m = reply_of(&a);
    assert_eq!(m.id, 22);
    assert_eq!(m.answers[0].ttl, 200);
}

#[test]
fn truncated_reply_moves_to_tcp() {
    let mut r = Resolver::new(false);
    assert!(r.set_upstreams(&[upstream()]).is_ok());
    let q = forwarded(&mut r, client(1), "big.example.", 1, 0);
    let bytes = answer_to(&q, 0x8380, "big.example.", 60);
    let a = r.receive(q.exchange, q.server, q.source_port, false, &bytes, 5, &mut Fixed).unwrap();
    assert_eq!(a.len(), 1);
    match &a[0] {
        Action::Upstream(t) => {
            assert!(t.tcp);
            assert_eq!(t.exchange, q.exchange);
        },
        Action::Reply { .. } => panic!("expected a query"),
    }
    assert_eq!(r.next_deadline(), Some(10000));
    // Over TCP a truncated reply is ignored.
    assert!(r.receive(q.exchange, q.server, q.source_port, true, &bytes, 6, &mut Fixed).unwrap().is_empty());
    assert_eq!(r.pending_count(), 1);
}
