use snac_rs::error::Error;
use snac_rs::nat64::selection::{Announcement, Policy, Pref64, Prefix, Reason, Selector};
use snac_rs::nat64::{Mode, Readiness, Source};
use snac_rs::Link;

fn site() -> Prefix {
    let mut a = [0u8; 16];
    a[0] = 0xfd;
    a[1] = 0x00;
    a[2] = 0x00;
    a[3] = 0x01;
    a[4] = 0x00;
    a[5] = 0x02;
    Prefix { address: a, length: 48 }
}

fn well_known() -> Prefix {
    let mut a = [0u8; 16];
    a[1] = 0x64;
    a[2] = 0xff;
    a[3] = 0x9b;
    Prefix { address: a, length: 96 }
}

fn router(last: u8) -> [u8; 16] {
    let mut a = [0u8; 16];
    a[0] = 0xfe;
    a[1] = 0x80;
    a[15] = last;
    a
}

fn ready(pd: Option<u64>, ipv4: Option<u64>, stub: Option<u64>, translator: bool) -> Readiness {
    Readiness { pd, ipv4, stub, translator }
}

#[test]
fn selection_needs_a_unique_local_site() {
    let s = Selector::new(site()).unwrap();
    let local = s.local_prefix();
    assert_eq!(local.length, 96);
    assert_eq!(&local.address[..8], &[0xfd, 0, 0, 1, 0, 2, 0xff, 0xff]);
    assert!(local.address[8..].iter().all(|b| *b == 0));
    let mut global = site();
    global.address[0] = 0x20;
    assert!(matches!(Selector::new(global), Err(Error::Invalid)));
    let mut host = site();
    host.address[15] = 1;
    assert!(matches!(Selector::new(host), Err(Error::Invalid)));
    let mut short = site();
    short.length = 56;
    assert!(matches!(Selector::new(short), Err(Error::Invalid)));
}

#[test]
fn selection_local_then_withdrawn() {
    let mut s = Selector::new(site()).unwrap();
    let d = s.select(0, ready(None, None, None, true), &[], &[]);
    assert_eq!((d.mode, d.reason), (Mode::NoService, Reason::NotReady));
    let d = s.select(0, ready(None, Some(100_000), Some(200_000), true), &[], &[]);
    assert_eq!((d.mode, d.reason), (Mode::Local, Reason::LocalReady));
    assert_eq!(d.announcements.len(), 1);
    assert_eq!(d.announcements[0].pref64.lifetime, 96);
    assert_eq!(d.routes[0].lifetime, 96);
    assert!(s.advertised(&d.announcements, 0).is_ok());
    assert_eq!(s.next_deadline(), Some(96_000));
    let d = s.select(1000, ready(None, None, Some(200_000), false), &[], &[]);
    assert_eq!((d.mode, d.reason), (Mode::NoService, Reason::NoPath));
    assert_eq!(d.announcements.len(), 1);
    assert_eq!(d.announcements[0].pref64.lifetime, 0);
    assert_eq!(d.announcements[0].pref64.prefix.length, 96);
    assert!(matches!(d.announcements[0].source, Source::Local));
    assert_eq!(d.routes.len(), 1);
    assert_eq!(d.routes[0].lifetime, 0);
    let withdraw = Announcement { pref64: Pref64 { prefix: s.local_prefix(), lifetime: 0 }, source: Source::Local };
    assert!(s.advertised(&[withdraw], 1000).is_ok());
    let d = s.select(2000, ready(None, None, Some(200_000), false), &[], &[]);
    assert!(d.announcements.is_empty());
    assert_eq!(d.routes.len(), 1);
}

#[test]
fn selection_prefers_infrastructure_with_route() {
    let mut s = Selector::new(site()).unwrap();
    let opt = Pref64 { prefix: well_known(), lifetime: 1800 };
    assert!(s.observe(Link::Ail, router(1), &[opt], 0).is_ok());
    let reach = [(Link::Ail, router(1))];
    let rdy = ready(Some(1_000_000), Some(5_000_000), Some(2_000_000), true);
    let d = s.select(0, rdy, &reach, &[]);
    assert_eq!(d.mode, Mode::Local);
    let d = s.select(0, rdy, &reach, &[(well_known(), 1_000_000)]);
    assert_eq!((d.mode, d.reason), (Mode::Infrastructure, Reason::Infrastructure));
    assert_eq!(d.announcements.len(), 1);
    assert_eq!(d.announcements[0].pref64.lifetime, 1000);
    assert!(matches!(d.announcements[0].source, Source::Infrastructure));
    assert_eq!(d.routes[0].lifetime, 1000);
    let d = s.select(0, rdy, &[], &[(well_known(), 1_000_000)]);
    assert_eq!(d.mode, Mode::Local);
}

#[test]
fn selection_defers_to_stub_peer() {
    let mut s = Selector::new(site()).unwrap();
    let opt = Pref64 { prefix: well_known(), lifetime: 600 };
    s.observe(Link::Stub, router(2), &[opt], 0).unwrap();
    let rdy = ready(None, Some(5_000_000), Some(2_000_000), true);
    let d = s.select(10, rdy, &[(Link::Stub, router(2))], &[]);
    assert_eq!((d.mode, d.reason), (Mode::Peer, Reason::PeerProvides));
    s.announcement_failed(Mode::Infrastructure, 10);
    let d = s.select(10, rdy, &[], &[]);
    assert_eq!((d.mode, d.reason), (Mode::Peer, Reason::Suppressed));
    s.link_lost(Link::Stub);
    let d = s.select(10, rdy, &[], &[]);
    assert_eq!(d.mode, Mode::Local);
}

#[test]
fn selection_bounds_and_policy() {
    let mut s = Selector::new(site()).unwrap();
    let mut opts = vec![];
    for i in 0..33u8 {
        let mut p = well_known();
        p.address[11] = i;
        opts.push(Pref64 { prefix: p, lifetime: 60 });
    }
    assert!(matches!(s.observe(Link::Ail, router(1), &opts, 0), Err(Error::Capacity)));
    assert_eq!(s.next_deadline(), None);
    assert!(s.observe(Link::Ail, router(1), &opts[..32], 0).is_ok());
    assert_eq!(s.next_deadline(), Some(60_000));
    let mut bad = well_known();
    bad.length = 33;
    let p = Policy { enabled: true, infrastructure: Some(bad), allow_without_pd: false };
    assert!(matches!(s.configure(p, 0), Err(Error::Invalid)));
    let off = Policy { enabled: false, infrastructure: None, allow_without_pd: false };
    assert!(s.configure(off, 0).is_ok());
    assert_eq!(s.next_deadline(), None);
    let d = s.select(0, ready(None, Some(1), Some(1), true), &[], &[]);
    assert_eq!((d.mode, d.reason), (Mode::Disabled, Reason::Disabled));
}
