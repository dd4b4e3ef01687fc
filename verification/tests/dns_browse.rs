use snac_rs::dns::browse::Browser;
use snac_rs::dns::name::Name;
use snac_rs::dns::privacy::{IpAddress, SocketAddress};
use snac_rs::dns::wire::{Message, Question, Rdata, Record};
use snac_rs::error::Error;

fn n(s: &str) -> Name {
    s.parse().unwrap()
}

fn origin(last: u8) -> SocketAddress {
    SocketAddress { ip: IpAddress::V4([192, 0, 2, last]), port: 53 }
}

fn labels(s: &str) -> Vec<Vec<u8>> {
    s.split('.').filter(|l| !l.is_empty()).map(|l| l.as_bytes().to_vec()).collect()
}

fn last_octet(o: &SocketAddress) -> u8 {
    match o.ip {
        IpAddress::V4(a) => a[3],
        IpAddress::V6(_) => 0,
    }
}

fn answer(owner: &Name, target: &str, ttl: u32) -> Message {
    let mut m = Message::new(0, 0x8400);
    m.questions.push(Question { name: owner.clone(), kind: 12, class: 1 });
    m.answers.push(Record { name: owner.clone(), kind: 12, class: 1, ttl, data: Rdata::Name(n(target)) });
    m
}

#[test]
fn browse_sync_refuses_bad_input() {
    let mut b = Browser::new();
    let many: Vec<SocketAddress> = (1..=9).map(origin).collect();
    assert_eq!(b.sync(&many, &[n("example.")], 0), Err(Error::Invalid));
    let no_port = SocketAddress { ip: IpAddress::V4([192, 0, 2, 1]), port: 0 };
    assert_eq!(b.sync(&[no_port], &[n("example.")], 0), Err(Error::Invalid));
    let multicast = SocketAddress { ip: IpAddress::V4([224, 0, 0, 251]), port: 53 };
    assert_eq!(b.sync(&[multicast], &[n("example.")], 0), Err(Error::Invalid));
    assert_eq!(b.sync(&[origin(1)], &[Name::root()], 0), Err(Error::Invalid));
    assert_eq!(b.next_deadline(), None);
    assert_eq!(b.sync(&[origin(1)], &[n("example.")], 0), Ok(()));
    assert_eq!(b.next_deadline(), Some(0));
}

#[test]
fn browse_sweep_sends_each_owner_once() {
    // Contexts are ordered by their lowercased wire form, length octet first.
    let mut b = Browser::new();
    b.sync(&[origin(2), origin(1), origin(2)], &[n("zeta."), n("Alpha."), n("alpha.")], 0).unwrap();
    let probes = b.poll(0).unwrap();
    let names: Vec<Vec<Vec<u8>>> = probes.iter().map(|p| p.question.name.labels().to_vec()).collect();
    let expected: Vec<Vec<Vec<u8>>> = [
        "lb._dns-sd._udp.zeta.",
        "b._dns-sd._udp.zeta.",
        "lb._dns-sd._udp.Alpha.",
        "b._dns-sd._udp.Alpha.",
        "lb._dns-sd._udp.zeta.",
        "b._dns-sd._udp.zeta.",
        "lb._dns-sd._udp.Alpha.",
        "b._dns-sd._udp.Alpha.",
    ]
    .iter()
    .map(|s| labels(s))
    .collect();
    assert_eq!(names, expected);
    assert_eq!(probes.iter().map(|p| p.id).collect::<Vec<_>>(), (1..=8).collect::<Vec<u64>>());
    assert_eq!(last_octet(&probes[0].origin), 1);
    assert_eq!(last_octet(&probes[4].origin), 2);
    assert!(probes.iter().all(|p| p.until == 3000 && p.question.kind == 12 && p.question.class == 1));
    assert_eq!(b.counts(), (8, 0));
    assert!(b.poll(100).unwrap().is_empty());
    assert_eq!(b.next_deadline(), Some(3000));
    assert!(b.live(1, 2999));
    assert!(!b.live(1, 3000));
    assert!(b.poll(3000).unwrap().is_empty());
    assert_eq!(b.counts(), (0, 0));
    assert_eq!(b.next_deadline(), Some(30000));
    let again: Vec<u64> = b.poll(30000).unwrap().iter().map(|p| p.id).collect();
    assert_eq!(again, (9..=16).collect::<Vec<u64>>());
}

#[test]
fn browse_answer_becomes_evidence() {
    let mut b = Browser::new();
    b.sync(&[origin(1)], &[n("example.")], 0).unwrap();
    let probes = b.poll(0).unwrap();
    assert_eq!(probes.len(), 2);
    let first = &probes[0];
    let m = answer(&first.question.name, "corp.example.", 60);
    assert_eq!(b.complete(first.id, origin(2), &m, 10), Err(Error::Invalid));
    assert_eq!(b.complete(99, origin(1), &m, 10), Err(Error::Invalid));
    let local = answer(&first.question.name, "printers.local.", 60);
    assert_eq!(b.complete(first.id, origin(1), &local, 10), Err(Error::Invalid));
    assert_eq!(b.counts(), (2, 0));
    assert_eq!(b.complete(first.id, origin(1), &m, 10), Ok(()));
    assert_eq!(b.counts(), (1, 1));
    assert!(!b.live(first.id, 10));
    assert_eq!(b.complete(first.id, origin(1), &m, 10), Err(Error::Invalid));
    assert_eq!(b.next_deadline(), Some(3000));
    assert_eq!(b.sync(&[origin(1), origin(1)], &[n("EXAMPLE.")], 500), Ok(()));
    assert_eq!(b.counts(), (1, 1));
    assert_eq!(b.next_deadline(), Some(3000));
    assert_eq!(b.sync(&[origin(3)], &[n("example.")], 500), Ok(()));
    assert_eq!(b.counts(), (0, 0));
    assert_eq!(b.next_deadline(), Some(500));
}

#[test]
fn browse_domains_ordered_with_longest_time() {
    let mut b = Browser::new();
    b.sync(&[origin(1)], &[n("example.")], 0).unwrap();
    let probes = b.poll(0).unwrap();
    let legacy_owner = probes[0].question.name.clone();
    let plain_owner = probes[1].question.name.clone();
    b.complete(probes[0].id, origin(1), &answer(&legacy_owner, "corp.example.", 60), 10).unwrap();
    b.complete(probes[1].id, origin(1), &answer(&plain_owner, "alpha.example.", 30), 10).unwrap();
    let all: Vec<(Vec<Vec<u8>>, u32)> = b.domains(false, 10).iter().map(|(d, t)| (d.labels().to_vec(), *t)).collect();
    assert_eq!(all, vec![(labels("corp.example."), 60), (labels("alpha.example."), 30)]);
    let legacy: Vec<(Vec<Vec<u8>>, u32)> = b.domains(true, 10).iter().map(|(d, t)| (d.labels().to_vec(), *t)).collect();
    assert_eq!(legacy, vec![(labels("corp.example."), 60)]);
    assert!(b.domains(false, 60010).is_empty());
    assert_eq!(b.domains(false, 40010).len(), 1);
}
