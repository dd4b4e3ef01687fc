//! mDNS datagrams after IP reassembly: the IPv4 and UDP checks around an mDNS message.
use crate::bytes::{be16, push_bytes, read_u16};
use crate::dns::privacy::{IpAddress, SocketAddress};
use crate::dns::wire::{parse_message, Context, Message, MessageV};
use crate::error::Error;
use crate::ipv4::spec_unicast;
use crate::ipv4::wire::{checksum, parse_ipv4, spec_checksum, Packet};
use crate::Link;
use vstd::prelude::*;

verus! {

/// Largest datagram taken.
pub const MAX_DATAGRAM: usize = 9000;

/// An mDNS message and the socket addresses it travelled between.
#[derive(Debug)]
pub struct Datagram {
    pub source: SocketAddress,
    pub destination: SocketAddress,
    pub message: Message,
}

/// What an IPv4 mDNS datagram carries: source address and port, destination address and
/// port, and the message.
pub struct DatagramV {
    pub source: Seq<u8>,
    pub source_port: u16,
    pub destination: Seq<u8>,
    pub destination_port: u16,
    pub message: MessageV,
}

/// The UDP checksum input over IPv4: the pseudo-header, then the datagram.
pub open spec fn pseudo4(source: Seq<u8>, destination: Seq<u8>, udp: Seq<u8>) -> Seq<u8> {
    source + destination + seq![0u8, 17u8, (udp.len() / 256) as u8, (udp.len() % 256) as u8] + udp
}

/// The mDNS limits on a message's header counts: at most 128 questions and 512 records.
pub open spec fn counts_ok(body: Seq<u8>) -> bool {
    &&& body.len() >= 12
    &&& be16(body[4], body[5]) <= 128
    &&& be16(body[6], body[7]) + be16(body[8], body[9]) + be16(body[10], body[11]) <= 512
}

/// An IPv4 packet as an mDNS datagram on `link`: received on the infrastructure link, at
/// most 9000 octets, a whole UDP packet with hop limit 255 from a unicast source to a
/// unicast address or 224.0.0.251, with ports, a consistent length and a checksum that
/// verifies where one is sent, and an mDNS message within the limits whose response bit
/// matches the mDNS port on its side.
pub open spec fn spec_datagram_v4(link: Link, b: Seq<u8>) -> Option<DatagramV> {
    if link != Link::Ail || b.len() > MAX_DATAGRAM || b.len() == 0 || b[0] / 16 != 4 {
        None
    } else {
        match parse_ipv4(b, false) {
            None => None,
            Some(p) => {
                let udp = p.payload;
                let src = p.source;
                let dst = p.destination;
                if p.bytes.len() != b.len() || p.ttl != 255 || p.protocol != 17 || p.more_fragments || p.fragment_offset
                    != 0 {
                    None
                } else if !spec_unicast(src) || (dst[0] == 0 && dst[1] == 0 && dst[2] == 0 && dst[3] == 0) || (224
                    <= dst[0] <= 239 && dst != seq![224u8, 0, 0, 251]) || udp.len() < 20 {
                    None
                } else {
                    let sport = be16(udp[0], udp[1]);
                    let dport = be16(udp[2], udp[3]);
                    let check = be16(udp[6], udp[7]);
                    if sport == 0 || dport == 0 || be16(udp[4], udp[5]) != udp.len() {
                        None
                    } else if check != 0 && spec_checksum(pseudo4(src, dst, udp)) != 0 {
                        None
                    } else if !counts_ok(udp.skip(8)) {
                        None
                    } else {
                        match parse_message(udp.skip(8), Context::Mdns) {
                            None => None,
                            Some(m) => if m.flags & 0x780f != 0 || (m.flags & 0x8000 != 0 && sport != 5353) || (m.flags
                                & 0x8000 == 0 && dport != 5353) {
                                None
                            } else {
                                Some(DatagramV { source: src, source_port: sport, destination: dst, destination_port: dport, message: m })
                            },
                        }
                    }
                }
            },
        }
    }
}

/// Whether a datagram is what `v` describes.
pub open spec fn datagram_is(d: Datagram, v: DatagramV) -> bool {
    &&& d.source.ip matches IpAddress::V4(a) && a@ == v.source
    &&& d.source.port == v.source_port
    &&& d.destination.ip matches IpAddress::V4(a) && a@ == v.destination
    &&& d.destination.port == v.destination_port
    &&& d.message@ == v.message
}

impl Datagram {
    /// Reads an IPv4 mDNS datagram received on `link` (see `spec_datagram_v4`).
    pub fn parse_v4(link: Link, packet: &[u8]) -> (r: Result<Datagram, Error>)
        ensures
            match spec_datagram_v4(link, packet@) {
                Some(v) => r matches Ok(d) && datagram_is(d, v),
                None => r == Err::<Datagram, Error>(Error::Invalid),
            },
    {
        if link != Link::Ail || packet.len() > MAX_DATAGRAM || packet.len() == 0 || packet[0] / 16 != 4 {
            return Err(Error::Invalid);
        }
        let p = match Packet::parse(packet) {
            Ok(p) => p,
            Err(_) => return Err(Error::Invalid),
        };
        if p.bytes.len() != packet.len() || p.ttl != 255 || p.protocol != 17 || p.more_fragments || p.fragment_offset != 0 {
            return Err(Error::Invalid);
        }
        let src = p.source;
        let dst = p.destination;
        let udp = p.payload;
        let unspecified = dst[0] == 0 && dst[1] == 0 && dst[2] == 0 && dst[3] == 0;
        let group = dst[0] == 224 && dst[1] == 0 && dst[2] == 0 && dst[3] == 251;
        proof {
            if dst@ == seq![224u8, 0, 0, 251] {
                assert(dst@[0] == 224 && dst@[1] == 0 && dst@[2] == 0 && dst@[3] == 251);
            }
            if group {
                assert(dst@ =~= seq![224u8, 0, 0, 251]);
            }
        }
        if !crate::ipv4::unicast(src) || unspecified || (224 <= dst[0] && dst[0] <= 239 && !group) || udp.len() < 20 {
            return Err(Error::Invalid);
        }
        let sport = read_u16(udp, 0);
        let dport = read_u16(udp, 2);
        let length = read_u16(udp, 4);
        let check = read_u16(udp, 6);
        if sport == 0 || dport == 0 || length as usize != udp.len() {
            return Err(Error::Invalid);
        }
        if check != 0 {
            let mut pseudo: Vec<u8> = Vec::new();
            push_bytes(&mut pseudo, src.as_slice());
            push_bytes(&mut pseudo, dst.as_slice());
            pseudo.push(0);
            pseudo.push(17);
            pseudo.push((udp.len() / 256) as u8);
            pseudo.push((udp.len() % 256) as u8);
            push_bytes(&mut pseudo, udp);
            assert(pseudo@ =~= pseudo4(src@, dst@, udp@));
            if checksum(pseudo.as_slice()) != 0 {
                return Err(Error::Invalid);
            }
        }
        let body = vstd::slice::slice_subrange(udp, 8, udp.len());
        assert(body@ =~= udp@.skip(8));
        if read_u16(body, 4) > 128 || read_u16(body, 6) as u32 + read_u16(body, 8) as u32 + read_u16(body, 10) as u32 > 512 {
            return Err(Error::Invalid);
        }
        let message = match Message::parse(body, Context::Mdns) {
            Ok(m) => m,
            Err(_) => return Err(Error::Invalid),
        };
        if message.flags & 0x780f != 0 || (message.flags & 0x8000 != 0 && sport != 5353) || (message.flags & 0x8000 == 0
            && dport != 5353) {
            return Err(Error::Invalid);
        }
        Ok(Datagram {
            source: SocketAddress { ip: IpAddress::V4(src), port: sport },
            destination: SocketAddress { ip: IpAddress::V4(dst), port: dport },
            message,
        })
    }
}

} // verus!
