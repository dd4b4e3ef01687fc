use snac_rs::error::Error;
use snac_rs::ipv4::dhcp::wire::{addresses, domain, routes, search, Message};
use snac_rs::ipv4::dhcp::{Configuration, Lease};
use snac_rs::ipv4::wire::{checksum, encode, Arp};
use snac_rs::ipv4::{Ipv4, Route};

const SERVER: [u8; 4] = [192, 168, 1, 1];
const CLIENT_MAC: [u8; 6] = [2, 0, 0, 0, 0, 9];

fn bootp(options: &[u8]) -> Vec<u8> {
    let mut b = vec![0u8; 240];
    b[0] = 2;
    b[1] = 1;
    b[2] = 6;
    b[4..8].copy_from_slice(&[0x12, 0x34, 0x56, 0x78]);
    b[16..20].copy_from_slice(&[192, 168, 1, 10]);
    b[28..34].copy_from_slice(&CLIENT_MAC);
    b[236..240].copy_from_slice(&[99, 130, 83, 99]);
    b.extend_from_slice(options);
    b
}

fn reply(options: &[u8]) -> Vec<u8> {
    let body = bootp(options);
    let mut udp = vec![0, 67, 0, 68];
    udp.extend_from_slice(&((body.len() + 8) as u16).to_be_bytes());
    udp.extend_from_slice(&[0, 0]);
    udp.extend_from_slice(&body);
    encode(SERVER, [255, 255, 255, 255], 17, 64, &udp).unwrap()
}

fn ack_options() -> Vec<u8> {
    let mut o = vec![53, 1, 5, 54, 4, 192, 168, 1, 1, 51, 4, 0, 0, 0x0e, 0x10];
    o.extend_from_slice(&[1, 4, 255, 255, 255, 0]);
    o.extend_from_slice(&[3, 4, 192, 168, 1, 1]);
    o.extend_from_slice(&[6, 8, 192, 168, 1, 1, 9, 9, 9, 9]);
    o.extend_from_slice(&[15, 12]);
    o.extend_from_slice(b"example.com.");
    o.push(255);
    o
}

#[test]
fn dhcp_ack_gives_a_lease() {
    let m = Message::parse(&reply(&ack_options())).unwrap();
    assert_eq!(m.kind, 5);
    assert_eq!(m.xid, 0x12345678);
    assert_eq!(m.mac, CLIENT_MAC);
    assert_eq!(m.address, [192, 168, 1, 10]);
    assert_eq!(m.server, SERVER);
    assert_eq!(m.number(51), Ok(Some(3600)));
    assert_eq!(m.number(58), Ok(None));
    let lease = m.lease(1000, None).unwrap();
    assert_eq!(lease.config.address, [192, 168, 1, 10]);
    assert_eq!(lease.config.length, 24);
    assert_eq!(lease.config.routes.len(), 1);
    assert_eq!(lease.config.routes[0].network, [0, 0, 0, 0]);
    assert_eq!(lease.config.routes[0].length, 0);
    assert_eq!(lease.config.routes[0].gateway, SERVER);
    assert_eq!(lease.config.dns, vec![[192, 168, 1, 1], [9, 9, 9, 9]]);
    assert_eq!(lease.config.search, vec![vec![b"example".to_vec(), b"com".to_vec()]]);
    assert_eq!(lease.server, SERVER);
    assert_eq!(lease.t1, 1000 + 1800 * 1000);
    assert_eq!(lease.t2, 1000 + 3150 * 1000);
    assert_eq!(lease.expires, 1000 + 3600 * 1000);
}

#[test]
fn dhcp_lease_keeps_prior_settings_and_checks_timers() {
    let prior = Lease {
        config: Configuration {
            address: [192, 168, 1, 10],
            length: 24,
            routes: vec![Route { network: [10, 0, 0, 0], length: 8, gateway: [192, 168, 1, 1] }],
            dns: vec![[1, 1, 1, 1]],
            search: vec![vec![b"lan".to_vec()]],
        },
        server: SERVER,
        t1: 0,
        t2: 0,
        expires: 0,
    };
    // Lease time 100 s, T1 80 s, T2 60 s: out of order, so the defaults apply.
    let o = [53, 1, 5, 54, 4, 192, 168, 1, 1, 51, 4, 0, 0, 0, 100, 58, 4, 0, 0, 0, 80, 59, 4, 0, 0, 0, 60, 255];
    let m = Message::parse(&reply(&o)).unwrap();
    assert!(matches!(m.lease(0, None), Err(Error::Invalid)));
    let lease = m.lease(5, Some(&prior)).unwrap();
    assert_eq!(lease.config.length, 24);
    assert_eq!(lease.config.routes.len(), 1);
    assert_eq!(lease.config.routes[0].network, [10, 0, 0, 0]);
    assert_eq!(lease.config.dns, vec![[1, 1, 1, 1]]);
    assert_eq!(lease.config.search, vec![vec![b"lan".to_vec()]]);
    assert_eq!(lease.t1, 5 + 50_000);
    assert_eq!(lease.t2, 5 + 87_000);
    assert_eq!(lease.expires, 5 + 100_000);
    // An infinite lease never expires; T1 and T2 saturate.
    let o = [53, 1, 5, 54, 4, 192, 168, 1, 1, 51, 4, 255, 255, 255, 255, 1, 4, 255, 255, 0, 0, 255];
    let lease = Message::parse(&reply(&o)).unwrap().lease(u64::MAX - 10, None).unwrap();
    assert_eq!(lease.config.length, 16);
    assert_eq!(lease.expires, u64::MAX);
    assert_eq!(lease.t1, u64::MAX);
}

#[test]
fn dhcp_lease_rejects_bad_masks_and_addresses() {
    let o = [53, 1, 5, 54, 4, 192, 168, 1, 1, 51, 4, 0, 0, 1, 0, 1, 4, 255, 0, 255, 0, 255];
    let m = Message::parse(&reply(&o)).unwrap();
    assert!(matches!(m.lease(0, None), Err(Error::Invalid)));
    // A classless route through a router off the leased prefix.
    let o = [53, 1, 5, 54, 4, 192, 168, 1, 1, 51, 4, 0, 0, 1, 0, 1, 4, 255, 255, 255, 0, 121, 8, 24, 10, 1, 2, 10, 0, 0, 1, 255];
    let m = Message::parse(&reply(&o)).unwrap();
    assert!(matches!(m.lease(0, None), Err(Error::Invalid)));
    let o = [53, 1, 5, 54, 4, 192, 168, 1, 1, 51, 4, 0, 0, 0, 0, 1, 4, 255, 255, 255, 0, 255];
    let m = Message::parse(&reply(&o)).unwrap();
    assert!(matches!(m.lease(0, None), Err(Error::Invalid)));
}

#[test]
fn dhcp_parse_refusals() {
    // No message type.
    let o = [54, 4, 192, 168, 1, 1, 255];
    assert!(matches!(Message::parse(&reply(&o)), Err(Error::Invalid)));
    // A request (type 3) is not a reply this client takes.
    let o = [53, 1, 3, 54, 4, 192, 168, 1, 1, 255];
    assert!(matches!(Message::parse(&reply(&o)), Err(Error::Invalid)));
    // Options without an end.
    let o = [53, 1, 5, 54, 4, 192, 168, 1, 1];
    assert!(matches!(Message::parse(&reply(&o)), Err(Error::Invalid)));
    // A NAK parses.
    let o = [53, 1, 6, 54, 4, 192, 168, 1, 1, 255];
    assert_eq!(Message::parse(&reply(&o)).unwrap().kind, 6);
    // Repeated options concatenate.
    let o = [53, 1, 5, 54, 4, 192, 168, 1, 1, 6, 4, 1, 1, 1, 1, 6, 4, 2, 2, 2, 2, 255];
    let m = Message::parse(&reply(&o)).unwrap();
    assert_eq!(m.option(6).unwrap(), &vec![1, 1, 1, 1, 2, 2, 2, 2]);
    // A wrong-sized number is refused.
    let o = [53, 1, 5, 54, 4, 192, 168, 1, 1, 51, 2, 0, 1, 255];
    assert!(matches!(Message::parse(&reply(&o)).unwrap().number(51), Err(Error::Invalid)));
}

#[test]
fn dhcp_search_list_follows_backward_pointers() {
    let mut b = vec![3];
    b.extend_from_slice(b"foo");
    b.push(7);
    b.extend_from_slice(b"example");
    b.push(3);
    b.extend_from_slice(b"com");
    b.push(0);
    b.push(3);
    b.extend_from_slice(b"bar");
    b.extend_from_slice(&[0xc0, 4]);
    let names = search(&b).unwrap();
    assert_eq!(
        names,
        vec![
            vec![b"foo".to_vec(), b"example".to_vec(), b"com".to_vec()],
            vec![b"bar".to_vec(), b"example".to_vec(), b"com".to_vec()],
        ]
    );
    // A pointer forward, or into the middle of a label, is refused.
    assert!(matches!(search(&[0xc0, 2, 0]), Err(Error::Invalid)));
    let mut bad = b.clone();
    let n = bad.len();
    bad[n - 1] = 5;
    assert!(matches!(search(&bad), Err(Error::Invalid)));
    // An empty name moves nothing forward.
    assert!(matches!(search(&[0]), Err(Error::Invalid)));
    assert!(matches!(search(&vec![0u8; 1025]), Err(Error::Invalid)));
}

#[test]
fn dhcp_domain_routes_and_addresses() {
    assert_eq!(domain(b"a-1.example").unwrap(), vec![b"a-1".to_vec(), b"example".to_vec()]);
    assert!(matches!(domain(b"a_b.example"), Err(Error::Invalid)));
    assert!(matches!(domain(b"a..b"), Err(Error::Invalid)));
    assert!(matches!(domain(b"."), Err(Error::Invalid)));
    let r = routes(&[24, 192, 168, 7, 10, 0, 0, 1, 0, 10, 0, 0, 2]).unwrap();
    assert_eq!(r.len(), 2);
    assert_eq!((r[0].network, r[0].length, r[0].gateway), ([192, 168, 7, 0], 24, [10, 0, 0, 1]));
    assert_eq!((r[1].network, r[1].length, r[1].gateway), ([0, 0, 0, 0], 0, [10, 0, 0, 2]));
    // Host bits beyond the prefix are masked off.
    let r = routes(&[12, 10, 255, 1, 2, 3, 4]).unwrap();
    assert_eq!(r[0].network, [10, 240, 0, 0]);
    assert!(matches!(routes(&[33, 1, 2, 3, 4, 5, 6, 7, 8, 9]), Err(Error::Invalid)));
    assert!(matches!(routes(&[]), Err(Error::Invalid)));
    assert_eq!(addresses(&[8, 8, 8, 8, 1, 1, 1, 1], 8).unwrap(), vec![[8, 8, 8, 8], [1, 1, 1, 1]]);
    assert!(matches!(addresses(&[224, 0, 0, 1], 8), Err(Error::Invalid)));
    assert!(matches!(addresses(&[8, 8, 8, 8, 1, 1, 1, 1], 1), Err(Error::Invalid)));
}

const MAC: [u8; 6] = [2, 0, 0, 0, 0, 1];
const PEER_MAC: [u8; 6] = [2, 0, 0, 0, 0, 2];

fn configured() -> Ipv4 {
    let mut v = Ipv4::new(MAC);
    v.configure([192, 168, 1, 10], 24, Some([192, 168, 1, 1])).unwrap();
    v
}

fn arp(operation: u16, sender: [u8; 4], target: [u8; 4], to: [u8; 6]) -> Vec<u8> {
    Arp { operation, sender_mac: PEER_MAC, sender, target_mac: [0; 6], target }.encode(to)
}

#[test]
fn ipv4_configure_and_next_hop() {
    let mut v = Ipv4::default();
    assert!(!v.ready());
    assert!(matches!(v.configure([192, 168, 1, 0], 24, None), Err(Error::Invalid)));
    assert!(matches!(v.configure([192, 168, 1, 10], 24, Some([10, 0, 0, 1])), Err(Error::Invalid)));
    assert!(!v.ready());
    let v = configured();
    assert!(v.ready());
    assert_eq!(v.next_hop([192, 168, 1, 20]), Some([192, 168, 1, 20]));
    assert_eq!(v.next_hop([8, 8, 8, 8]), Some([192, 168, 1, 1]));
    assert_eq!(v.next_hop([192, 168, 1, 255]), None);
    assert_eq!(v.next_hop([224, 0, 0, 1]), None);
}

#[test]
fn ipv4_routes_pick_the_longest_prefix() {
    let mut v = configured();
    let r = [
        Route { network: [10, 0, 0, 0], length: 8, gateway: [192, 168, 1, 2] },
        Route { network: [10, 1, 0, 0], length: 16, gateway: [192, 168, 1, 3] },
        Route { network: [172, 16, 0, 0], length: 12, gateway: [0, 0, 0, 0] },
    ];
    v.set_routes(&r).unwrap();
    assert_eq!(v.route_count(), 3);
    assert_eq!(v.next_hop([10, 1, 2, 3]), Some([192, 168, 1, 3]));
    assert_eq!(v.next_hop([10, 2, 2, 3]), Some([192, 168, 1, 2]));
    assert_eq!(v.next_hop([172, 16, 9, 9]), Some([172, 16, 9, 9]));
    assert_eq!(v.next_hop([9, 9, 9, 9]), Some([192, 168, 1, 1]));
    let bad = [Route { network: [10, 0, 0, 1], length: 8, gateway: [192, 168, 1, 2] }];
    assert!(matches!(v.set_routes(&bad), Err(Error::Invalid)));
    assert_eq!(v.route_count(), 3);
    let off_link = [Route { network: [10, 0, 0, 0], length: 8, gateway: [192, 168, 2, 2] }];
    assert!(matches!(v.set_routes(&off_link), Err(Error::Invalid)));
    let mut u = Ipv4::new(MAC);
    assert!(matches!(u.set_routes(&r), Err(Error::Invalid)));
}

#[test]
fn ipv4_send_resolves_then_delivers() {
    let mut v = configured();
    let packet = encode([192, 168, 1, 10], [192, 168, 1, 20], 17, 64, &[1, 2, 3]).unwrap();
    let out = v.send(&packet, 0).unwrap();
    let probe = Arp { operation: 1, sender_mac: MAC, sender: [192, 168, 1, 10], target_mac: [0; 6], target: [192, 168, 1, 20] }
        .encode([255; 6]);
    assert_eq!(out, vec![probe]);
    assert_eq!(v.neighbor_count(), 1);
    assert_eq!(v.send(&packet, 1).unwrap(), Vec::<Vec<u8>>::new());
    assert_eq!(v.queued(), (2, 2 * packet.len()));
    // The reply flushes both packets.
    let reply = Arp { operation: 2, sender_mac: PEER_MAC, sender: [192, 168, 1, 20], target_mac: MAC, target: [192, 168, 1, 10] }
        .encode(MAC);
    let flushed = v.receive(&reply, 2).unwrap();
    let mut frame = PEER_MAC.to_vec();
    frame.extend_from_slice(&MAC);
    frame.extend_from_slice(&[8, 0]);
    frame.extend_from_slice(&packet);
    assert_eq!(flushed, vec![frame.clone(), frame.clone()]);
    assert_eq!(v.queued(), (0, 0));
    // Resolved: sent at once.
    assert_eq!(v.send(&packet, 3).unwrap(), vec![frame]);
}

#[test]
fn ipv4_queue_limits() {
    let mut v = configured();
    let packet = encode([192, 168, 1, 10], [192, 168, 1, 20], 17, 64, &[0; 8]).unwrap();
    for _ in 0..4 {
        v.send(&packet, 0).unwrap();
    }
    assert!(matches!(v.send(&packet, 0), Err(Error::Capacity)));
    assert_eq!(v.queued(), (4, 4 * packet.len()));
    let unreachable = encode([192, 168, 1, 10], [192, 168, 1, 255], 17, 64, &[0; 8]).unwrap();
    assert!(matches!(v.send(&unreachable, 0), Err(Error::Invalid)));
}

#[test]
fn ipv4_poll_retries_then_gives_up() {
    let mut v = configured();
    let packet = encode([192, 168, 1, 10], [192, 168, 1, 20], 17, 64, &[1]).unwrap();
    v.send(&packet, 0).unwrap();
    assert!(v.poll(999).is_empty());
    assert_eq!(v.poll(1000).len(), 1);
    assert_eq!(v.poll(2000).len(), 1);
    assert_eq!(v.neighbor_count(), 1);
    assert!(v.poll(3000).is_empty());
    assert_eq!(v.neighbor_count(), 0);
}

#[test]
fn ipv4_answers_requests_and_takes_input() {
    let mut v = configured();
    let request = arp(1, [192, 168, 1, 20], [192, 168, 1, 10], [255; 6]);
    let out = v.receive(&request, 0).unwrap();
    let expected = Arp { operation: 2, sender_mac: MAC, sender: [192, 168, 1, 10], target_mac: PEER_MAC, target: [192, 168, 1, 20] }
        .encode(PEER_MAC);
    assert_eq!(out, vec![expected]);
    assert_eq!(v.neighbor_count(), 1);
    // A request for another address is ignored.
    assert!(v.receive(&arp(1, [192, 168, 1, 21], [192, 168, 1, 11], [255; 6]), 0).unwrap().is_empty());
    assert_eq!(v.neighbor_count(), 1);
    let inbound = encode([8, 8, 8, 8], [192, 168, 1, 10], 17, 64, &[7, 7]).unwrap();
    let mut frame = MAC.to_vec();
    frame.extend_from_slice(&PEER_MAC);
    frame.extend_from_slice(&[8, 0]);
    frame.extend_from_slice(&inbound);
    assert!(v.receive(&frame, 0).unwrap().is_empty());
    assert_eq!(v.pending_input(), (1, inbound.len()));
    assert_eq!(v.take_packet(), Some(inbound));
    assert_eq!(v.take_packet(), None);
    v.unavailable();
    assert!(!v.ready());
    assert_eq!(v.neighbor_count(), 0);
}

#[test]
fn checksum_written_back_verifies() {
    assert_eq!(checksum(&[]), 0xffff);
    assert_eq!(checksum(&[0x01]), 0xfeff);
    let mut h = vec![0x45, 0, 0, 20, 0x12, 0x34, 0, 0, 64, 17, 0, 0, 192, 0, 2, 1, 198, 51, 100, 7];
    let c = checksum(&h);
    h[10..12].copy_from_slice(&c.to_be_bytes());
    assert_eq!(checksum(&h), 0);
}
