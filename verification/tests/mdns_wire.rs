use snac_rs::dns::name::Name;
use snac_rs::dns::privacy::IpAddress;
use snac_rs::dns::wire::{Context, Message, Question};
use snac_rs::error::Error;
use snac_rs::ipv4::wire::checksum;
use snac_rs::mdns::wire::Datagram;
use snac_rs::Link;

fn query_packet(ttl: u8, udp_check: bool) -> Vec<u8> {
    let mut m = Message::new(0, 0);
    let name: Name = "printer.local.".parse().unwrap();
    m.questions.push(Question { name, kind: 12, class: 1 });
    let body = m.encode_context(Context::Mdns).unwrap();
    let ulen = 8 + body.len();
    let mut udp = vec![0x14, 0xe9, 0x14, 0xe9, (ulen >> 8) as u8, ulen as u8, 0, 0];
    udp.extend(&body);
    let src = [192u8, 0, 2, 1];
    let dst = [224u8, 0, 0, 251];
    if udp_check {
        let mut pseudo = src.to_vec();
        pseudo.extend(dst);
        pseudo.extend([0, 17, (ulen >> 8) as u8, ulen as u8]);
        pseudo.extend(&udp);
        let c = checksum(&pseudo);
        udp[6] = (c >> 8) as u8;
        udp[7] = c as u8;
    }
    let total = 20 + ulen;
    let mut h = vec![0x45, 0, (total >> 8) as u8, total as u8, 0, 1, 0, 0, ttl, 17, 0, 0];
    h.extend(src);
    h.extend(dst);
    let c = checksum(&h);
    h[10] = (c >> 8) as u8;
    h[11] = c as u8;
    h.extend(udp);
    h
}

#[test]
fn mdns_datagram_v4_is_read() {
    for check in [false, true] {
        let p = query_packet(255, check);
        let d = Datagram::parse_v4(Link::Ail, &p).unwrap();
        assert_eq!(d.source.port, 5353);
        assert_eq!(d.destination.port, 5353);
        assert!(matches!(d.source.ip, IpAddress::V4([192, 0, 2, 1])));
        assert!(matches!(d.destination.ip, IpAddress::V4([224, 0, 0, 251])));
        assert_eq!(d.message.questions.len(), 1);
        assert_eq!(d.message.questions[0].kind, 12);
    }
}

#[test]
fn mdns_datagram_v4_is_refused() {
    let p = query_packet(255, true);
    assert_eq!(Datagram::parse_v4(Link::Stub, &p).err(), Some(Error::Invalid));
    assert_eq!(Datagram::parse_v4(Link::Ail, &query_packet(64, true)).err(), Some(Error::Invalid));
    let mut bad = p.clone();
    let last = bad.len() - 1;
    bad[last] ^= 0x20;
    assert_eq!(Datagram::parse_v4(Link::Ail, &bad).err(), Some(Error::Invalid));
}
