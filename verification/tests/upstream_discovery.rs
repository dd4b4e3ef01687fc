use snac_rs::dns::name::Name;
use snac_rs::dns::privacy::{IpAddress, SocketAddress};
use snac_rs::dns::upstream::{DhcpConfiguration, Discovery};
use snac_rs::error::Error;
use snac_rs::ipv4::dhcp::Configuration;

fn n(s: &str) -> Name {
    s.parse().unwrap()
}

fn v6(last: u8) -> [u8; 16] {
    let mut a = [0u8; 16];
    a[0] = 0xfd;
    a[15] = last;
    a
}

fn sock6(last: u8, port: u16) -> SocketAddress {
    SocketAddress { ip: IpAddress::V6(v6(last)), port }
}

fn same(a: &SocketAddress, b: &SocketAddress) -> bool {
    let ip = match (a.ip, b.ip) {
        (IpAddress::V4(x), IpAddress::V4(y)) => x == y,
        (IpAddress::V6(x), IpAddress::V6(y)) => x == y,
        _ => false,
    };
    ip && a.port == b.port
}

fn texts(names: &[Name]) -> Vec<Vec<Vec<u8>>> {
    names.iter().map(|x| x.labels().to_vec()).collect()
}

fn rdnss(lifetime: u32, addrs: &[[u8; 16]]) -> (u8, Vec<u8>) {
    let mut b = vec![25u8, (1 + 2 * addrs.len()) as u8, 0, 0];
    b.extend_from_slice(&lifetime.to_be_bytes());
    for a in addrs {
        b.extend_from_slice(a);
    }
    (25, b)
}

fn dnssl(lifetime: u32, names: &[&[&str]]) -> (u8, Vec<u8>) {
    let mut b = vec![31u8, 0, 0, 0];
    b.extend_from_slice(&lifetime.to_be_bytes());
    for labels in names {
        for l in labels.iter() {
            b.push(l.len() as u8);
            b.extend_from_slice(l.as_bytes());
        }
        b.push(0);
    }
    while b.len() % 8 != 0 {
        b.push(0);
    }
    b[1] = (b.len() / 8) as u8;
    (31, b)
}

#[test]
fn configured_resolvers_take_precedence() {
    let mut d = Discovery::default();
    assert!(!d.explicit());
    let c = DhcpConfiguration { servers: vec![v6(1)], domains: vec![], refresh: 100, inf_max_rt: None };
    assert!(d.dhcp6(&c, 0).is_ok());
    let e = d.endpoints(0);
    assert_eq!(e.len(), 1);
    assert!(same(&e[0], &sock6(1, 53)));
    let manual = SocketAddress { ip: IpAddress::V4([192, 0, 2, 1]), port: 5353 };
    assert!(d.set_configured(&[manual]).is_ok());
    assert!(d.explicit());
    let e = d.endpoints(0);
    assert_eq!(e.len(), 1);
    assert!(same(&e[0], &manual));
    assert!(d.set_configured(&[]).is_ok());
    assert!(!d.explicit());
    assert!(same(&d.endpoints(0)[0], &sock6(1, 53)));
}

#[test]
fn configured_resolvers_are_checked() {
    let mut d = Discovery::default();
    let nine: Vec<SocketAddress> = (1..=9).map(|i| sock6(i, 53)).collect();
    assert_eq!(d.set_configured(&nine), Err(Error::Invalid));
    assert_eq!(d.set_configured(&[sock6(1, 0)]), Err(Error::Invalid));
    let multicast = SocketAddress { ip: IpAddress::V4([224, 0, 0, 251]), port: 53 };
    assert_eq!(d.set_configured(&[multicast]), Err(Error::Invalid));
    let unspecified = SocketAddress { ip: IpAddress::V6([0; 16]), port: 53 };
    assert_eq!(d.set_configured(&[unspecified]), Err(Error::Invalid));
    assert!(!d.explicit());
}

#[test]
fn dhcp6_replaces_and_expires() {
    let mut d = Discovery::default();
    let c = DhcpConfiguration {
        servers: vec![v6(2), v6(1), v6(2)],
        domains: vec![n("home.arpa."), n("HOME.arpa."), n("example.com.")],
        refresh: 60,
        inf_max_rt: None,
    };
    assert!(d.dhcp6(&c, 1000).is_ok());
    let e = d.endpoints(1000);
    assert_eq!(e.len(), 2);
    assert!(same(&e[0], &sock6(1, 53)));
    assert!(same(&e[1], &sock6(2, 53)));
    let names = d.domains(1000);
    assert_eq!(names.len(), 2);
    assert_eq!(d.next_deadline(), Some(61000));
    // A second reply replaces the first.
    let c2 = DhcpConfiguration { servers: vec![v6(3)], domains: vec![], refresh: 10, inf_max_rt: None };
    assert!(d.dhcp6(&c2, 2000).is_ok());
    let e = d.endpoints(2000);
    assert_eq!(e.len(), 1);
    assert!(same(&e[0], &sock6(3, 53)));
    assert!(d.domains(2000).is_empty());
    assert_eq!(d.next_deadline(), Some(12000));
    assert!(d.endpoints(12000).is_empty());
    d.expire(12000);
    assert_eq!(d.next_deadline(), None);
}

#[test]
fn dhcp6_refuses_more_than_eight_resolvers() {
    let mut d = Discovery::default();
    let c = DhcpConfiguration { servers: vec![v6(1)], domains: vec![], refresh: 60, inf_max_rt: None };
    assert!(d.dhcp6(&c, 0).is_ok());
    let many = DhcpConfiguration { servers: (1..=9).map(v6).collect(), domains: vec![], refresh: 60, inf_max_rt: None };
    assert_eq!(d.dhcp6(&many, 0), Err(Error::Invalid));
    let e = d.endpoints(0);
    assert_eq!(e.len(), 1);
    assert!(same(&e[0], &sock6(1, 53)));
}

#[test]
fn dhcp4_lease_resolvers_and_search() {
    let mut d = Discovery::default();
    let c = Configuration {
        address: [192, 168, 1, 10],
        length: 24,
        routes: vec![],
        dns: vec![[192, 168, 1, 1]],
        search: vec![vec![b"lan".to_vec()]],
    };
    assert!(d.dhcp4(Some(&c), 0).is_ok());
    let e = d.endpoints(u64::MAX - 1);
    assert_eq!(e.len(), 1);
    assert!(same(&e[0], &SocketAddress { ip: IpAddress::V4([192, 168, 1, 1]), port: 53 }));
    assert_eq!(texts(&d.domains(0)), vec![vec![b"lan".to_vec()]]);
    assert_eq!(d.next_deadline(), Some(u64::MAX));
    let bad = Configuration { search: vec![vec![vec![]]], ..c.clone() };
    assert_eq!(d.dhcp4(Some(&bad), 0), Err(Error::Invalid));
    assert_eq!(d.endpoints(0).len(), 1);
    assert!(d.dhcp4(None, 0).is_ok());
    assert!(d.endpoints(0).is_empty());
    assert!(d.domains(0).is_empty());
}

#[test]
fn router_advertisement_options() {
    let mut d = Discovery::default();
    let router = [0xfe, 0x80, 0, 0, 0, 0, 0, 0, 0, 0, 0, 0, 0, 0, 0, 1];
    let opts = vec![rdnss(30, &[v6(5), v6(4)]), dnssl(30, &[&["home", "arpa"]]), (1, vec![1, 1, 0, 0, 0, 0, 0, 0])];
    assert!(d.receive_ra_options(router, &opts, 0).is_ok());
    let e = d.endpoints(0);
    assert_eq!(e.len(), 2);
    assert!(same(&e[0], &sock6(4, 53)));
    assert!(same(&e[1], &sock6(5, 53)));
    assert_eq!(texts(&d.domains(0)), vec![vec![b"home".to_vec(), b"arpa".to_vec()]]);
    assert_eq!(d.next_deadline(), Some(30000));
    // Another advertisement adds beside it; a zero lifetime withdraws.
    assert!(d.receive_ra_options(router, &vec![rdnss(0, &[v6(5)])], 1000).is_ok());
    let e = d.endpoints(1000);
    assert_eq!(e.len(), 1);
    assert!(same(&e[0], &sock6(4, 53)));
    d.link_lost();
    assert!(d.endpoints(0).is_empty());
    assert_eq!(d.next_deadline(), None);
}

#[test]
fn malformed_router_advertisement_changes_nothing() {
    let mut d = Discovery::default();
    let router = [0xfe, 0x80, 0, 0, 0, 0, 0, 0, 0, 0, 0, 0, 0, 0, 0, 1];
    assert!(d.receive_ra_options(router, &vec![rdnss(30, &[v6(1)])], 0).is_ok());
    let mut short = rdnss(30, &[v6(2)]);
    short.1.truncate(20);
    assert_eq!(d.receive_ra_options(router, &vec![rdnss(30, &[v6(3)]), short], 0), Err(Error::Invalid));
    let multicast = {
        let mut a = [0u8; 16];
        a[0] = 0xff;
        a[15] = 1;
        a
    };
    assert_eq!(d.receive_ra_options(router, &vec![rdnss(30, &[multicast])], 0), Err(Error::Invalid));
    assert_eq!(d.receive_ra_options(router, &vec![(31, vec![31, 1, 0, 0, 0, 0, 0, 30])], 0), Err(Error::Invalid));
    let e = d.endpoints(0);
    assert_eq!(e.len(), 1);
    assert!(same(&e[0], &sock6(1, 53)));
}
