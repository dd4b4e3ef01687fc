//! Packet devices and the bounded queues between them and the protocol reducers.
use crate::error::Error;
use crate::Link;
use vstd::prelude::*;

pub mod families;

verus! {

/// How a native descriptor frames packets.
#[derive(Clone, Copy, Debug, PartialEq, Eq, Structural)]
pub enum NativeFraming {
    Tap,
    Utun,
    RawIpv6,
}

/// A source and sink of whole packets; `Err(Error::Invalid)` from `receive` reports one
/// unreadable packet that was consumed.
pub trait PacketPort {
    fn receive(&mut self) -> Result<Option<Vec<u8>>, Error>;

    fn send(&mut self, bytes: &[u8]) -> Result<usize, Error>;
}

/// A packet-capture handle: the next captured packet, and injection.
pub trait CaptureApi {
    fn next_packet(&mut self) -> Result<Option<Vec<u8>>, Error>;

    fn inject(&mut self, bytes: &[u8]) -> Result<usize, Error>;
}

/// A capture handle used as a packet port.
pub struct CapturePort<C> {
    pub api: C,
}

impl<C> CapturePort<C> {
    pub fn new(api: C) -> (r: Self)
        ensures
            r.api == api,
    {
        CapturePort { api }
    }
}

impl<C: CaptureApi> PacketPort for CapturePort<C> {
    fn receive(&mut self) -> Result<Option<Vec<u8>>, Error> {
        self.api.next_packet()
    }

    fn send(&mut self, b: &[u8]) -> Result<usize, Error> {
        self.api.inject(b)
    }
}

/// The utun address-family header that precedes each IPv6 packet.
pub open spec fn utun_header() -> Seq<u8> {
    seq![0u8, 0u8, 0u8, 30u8]
}

/// What a device hands on for one port outcome, and whether it counts a discard.
pub open spec fn spec_accept(
    framing: NativeFraming,
    own_mac: Option<[u8; 6]>,
    got: Result<Option<Seq<u8>>, Error>,
) -> (Result<Option<Seq<u8>>, Error>, bool) {
    match got {
        Err(Error::Invalid) => (Ok(None), true),
        Err(e) => (Err(e), false),
        Ok(None) => (Ok(None), false),
        Ok(Some(p)) => if framing == NativeFraming::Utun {
            if p.len() < 4 || p.take(4) != utun_header() {
                (Ok(None), true)
            } else {
                (Ok(Some(p.skip(4))), false)
            }
        } else if framing == NativeFraming::Tap && p.len() >= 14 && (own_mac matches Some(m)
            && p.subrange(6, 12) == m@) {
            (Ok(None), false)
        } else {
            (Ok(Some(p)), false)
        },
    }
}

pub open spec fn outcome_view(got: Result<Option<Vec<u8>>, Error>) -> Result<Option<Seq<u8>>, Error> {
    match got {
        Err(e) => Err(e),
        Ok(None) => Ok(None),
        Ok(Some(v)) => Ok(Some(v@)),
    }
}

pub open spec fn sat_inc(n: u64) -> u64 {
    if n == u64::MAX { n } else { (n + 1) as u64 }
}

/// A packet port with its native framing; frames that the router itself sent are dropped.
pub struct Device<P> {
    pub port: P,
    pub framing: NativeFraming,
    pub own_mac: Option<[u8; 6]>,
    pub discarded: u64,
}

impl<P: PacketPort> Device<P> {
    pub fn new(port: P, framing: NativeFraming, own_mac: Option<[u8; 6]>) -> (r: Self)
        ensures
            r.port == port,
            r.framing == framing,
            r.own_mac == own_mac,
            r.discarded == 0,
    {
        Device { port, framing, own_mac, discarded: 0 }
    }

    /// Applies the framing to one outcome of the port.
    pub fn accept(&mut self, got: Result<Option<Vec<u8>>, Error>) -> (r: Result<Option<Vec<u8>>, Error>)
        ensures
            outcome_view(r) == spec_accept(old(self).framing, old(self).own_mac, outcome_view(got)).0,
            final(self).discarded == if spec_accept(
                old(self).framing,
                old(self).own_mac,
                outcome_view(got),
            ).1 {
                sat_inc(old(self).discarded)
            } else {
                old(self).discarded
            },
            final(self).framing == old(self).framing,
            final(self).own_mac == old(self).own_mac,
            final(self).port == old(self).port,
    {
        let p = match got {
            Err(Error::Invalid) => {
                self.discarded = if self.discarded == u64::MAX { self.discarded } else { self.discarded + 1 };
                return Ok(None);
            },
            Err(e) => return Err(e),
            Ok(None) => return Ok(None),
            Ok(Some(p)) => p,
        };
        if self.framing == NativeFraming::Utun {
            if p.len() < 4 || p[0] != 0 || p[1] != 0 || p[2] != 0 || p[3] != 30 {
                proof {
                    if p@.len() >= 4 && p@.take(4) == utun_header() {
                        assert(p@.take(4)[3] == 30u8);
                    }
                }
                self.discarded = if self.discarded == u64::MAX { self.discarded } else { self.discarded + 1 };
                return Ok(None);
            }
            assert(p@.take(4) =~= utun_header());
            let rest = crate::bytes::copy_range(p.as_slice(), 4, p.len());
            assert(rest@ =~= p@.skip(4));
            return Ok(Some(rest));
        }
        if self.framing == NativeFraming::Tap && p.len() >= 14 {
            if let Some(m) = self.own_mac {
                if p[6] == m[0] && p[7] == m[1] && p[8] == m[2] && p[9] == m[3] && p[10] == m[4] && p[11]
                    == m[5] {
                    assert(p@.subrange(6, 12) =~= m@);
                    return Ok(None);
                }
                proof {
                    if p@.subrange(6, 12) == m@ {
                        assert(p@.subrange(6, 12)[0] == m@[0]);
                        assert(p@.subrange(6, 12)[1] == m@[1]);
                        assert(p@.subrange(6, 12)[2] == m@[2]);
                        assert(p@.subrange(6, 12)[3] == m@[3]);
                        assert(p@.subrange(6, 12)[4] == m@[4]);
                        assert(p@.subrange(6, 12)[5] == m@[5]);
                    }
                }
            }
        }
        Ok(Some(p))
    }

    /// Reads one packet from the port and applies the framing to it (see `accept`); the
    /// port decides what is read.
    pub fn receive(&mut self) -> (r: Result<Option<Vec<u8>>, Error>)
        ensures
            final(self).framing == old(self).framing,
            final(self).own_mac == old(self).own_mac,
            exists|got: Result<Option<Seq<u8>>, Error>| #[trigger]
                spec_accept(old(self).framing, old(self).own_mac, got).0 == outcome_view(r)
                && final(self).discarded == if spec_accept(old(self).framing, old(self).own_mac, got).1 {
                    sat_inc(old(self).discarded)
                } else {
                    old(self).discarded
                },
    {
        let got = self.port.receive();
        self.accept(got)
    }
}

/// A link as the operating system describes it.
#[derive(Clone, Debug)]
pub struct LinkInfo {
    pub name: String,
    pub index: u32,
    pub mtu: u32,
    pub mac: Option<[u8; 6]>,
}

#[derive(Clone, Copy, Debug, PartialEq, Eq, Structural)]
pub enum Direction {
    Ingress,
    OwnEgress,
    Unknown,
}

/// One packet read from a link.
#[derive(Clone, Debug)]
pub struct Received {
    pub link: Link,
    pub bytes: Vec<u8>,
    pub direction: Direction,
}

} // verus!
