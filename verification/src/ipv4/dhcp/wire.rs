//! Checked DHCPv4 replies. Limits apply before allocating concatenated options.
use crate::bytes::{be16, be32, copy_range, push_bytes, read_u16, read_u32};
use crate::error::Error;
use crate::ipv4::wire::{checksum, parse_ipv4, spec_checksum, Packet};
use crate::ipv4::{
    addr32, configure_ok, is_link_local4, mask_exec, prefix_mask, route_view, routes_ok, routes_view, spec_unicast, unicast,
    Ipv4, Route, RouteV,
};
use super::{addrs_view, Configuration, ConfigurationV, Lease, LeaseV};
use vstd::prelude::*;

verus! {

pub const OPTION_BYTES: usize = 4096;

/// Option values by code; a code that occurs more than once has its values concatenated
/// (RFC 3396).
pub type OptionsV = Seq<Option<Seq<u8>>>;

pub open spec fn no_options() -> OptionsV {
    Seq::new(256, |i: int| None::<Seq<u8>>)
}

pub open spec fn append_option(o: Option<Seq<u8>>, v: Seq<u8>) -> Option<Seq<u8>> {
    match o {
        Some(x) => Some(x + v),
        None => Some(v),
    }
}

/// Reads options from `at` to the end option, charging their values against a shared
/// budget; an overloaded field may not itself carry the overload option.
pub open spec fn options_walk(b: Seq<u8>, at: int, opts: OptionsV, budget: int, overloaded: bool) -> Option<(OptionsV, int)>
    decreases b.len() - at,
{
    if at < 0 || at >= b.len() {
        None
    } else {
        let code = b[at];
        if code == 0 {
            options_walk(b, at + 1, opts, budget, overloaded)
        } else if code == 255 {
            Some((opts, budget))
        } else if at + 1 >= b.len() || (overloaded && code == 52) {
            None
        } else {
            let n = b[at + 1] as int;
            if n > b.len() - (at + 2) || budget + n > OPTION_BYTES {
                None
            } else {
                options_walk(
                    b,
                    at + 2 + n,
                    opts.update(code as int, append_option(opts[code as int], b.subrange(at + 2, at + 2 + n))),
                    budget + n,
                    overloaded,
                )
            }
        }
    }
}

pub struct DhcpV {
    pub kind: u8,
    pub xid: u32,
    pub mac: Seq<u8>,
    pub address: Seq<u8>,
    pub server: Seq<u8>,
    pub options: OptionsV,
}

/// The UDP checksum input: the pseudo-header, then the datagram.
pub open spec fn pseudo(src: Seq<u8>, dst: Seq<u8>, udp: Seq<u8>) -> Seq<u8> {
    src + dst + seq![0u8, 17u8] + crate::bytes::be16_bytes(udp.len() as u16) + udp
}

pub open spec fn all_zero(s: Seq<u8>) -> bool {
    forall|i: int| 0 <= i < s.len() ==> s[i] == 0
}

/// The BOOTP fixed part of a reply: op BOOTREPLY, Ethernet addresses, the magic cookie, a
/// unicast client MAC, no broadcast flag bits but the first, and a zero second flag octet.
pub open spec fn bootp_ok(b: Seq<u8>) -> bool {
    &&& b[0] == 2 && b[1] == 1 && b[2] == 6
    &&& b[236] == 99 && b[237] == 130 && b[238] == 83 && b[239] == 99
    &&& b[28] & 1u8 == 0
    &&& !all_zero(b.subrange(28, 34))
    &&& b[10] & 0x7fu8 == 0
    &&& b[11] == 0
}

/// The options after the fixed part, then, as the overload option asks, the file and
/// server-name fields.
pub open spec fn all_options(b: Seq<u8>) -> Option<OptionsV> {
    match options_walk(b.skip(240), 0, no_options(), 0, false) {
        None => None,
        Some((o, budget)) => match o[52] {
            None => Some(o),
            Some(v) => if v.len() != 1 || !(1 <= v[0] <= 3) {
                None
            } else {
                let f = v[0];
                let first = if f & 1u8 != 0 {
                    options_walk(b.subrange(108, 236), 0, o, budget, true)
                } else {
                    Some((o, budget))
                };
                match first {
                    None => None,
                    Some((o2, budget2)) => if f & 2u8 != 0 {
                        match options_walk(b.subrange(44, 108), 0, o2, budget2, true) {
                            None => None,
                            Some((o3, _)) => Some(o3),
                        }
                    } else {
                        Some(o2)
                    },
                }
            },
        },
    }
}

/// A DHCPv4 reply (OFFER, ACK or NAK) from a unicast server in a whole UDP datagram from port
/// 67 to port 68 with a correct checksum, if any.
pub open spec fn spec_dhcp_parse(bytes: Seq<u8>) -> Option<DhcpV> {
    if bytes.len() > OPTION_BYTES + 300 {
        None
    } else {
        match parse_ipv4(bytes, false) {
            None => None,
            Some(p) => {
                let udp = p.payload;
                if p.protocol != 17 || p.ttl == 0 || p.fragment_offset != 0 || p.more_fragments || udp.len() < 248
                    || !spec_unicast(p.source) {
                    None
                } else if !(udp[0] == 0 && udp[1] == 67 && udp[2] == 0 && udp[3] == 68) || be16(udp[4], udp[5]) != udp.len() {
                    None
                } else if !(udp[6] == 0 && udp[7] == 0) && spec_checksum(pseudo(p.source, p.destination, udp)) != 0 {
                    None
                } else {
                    let b = udp.skip(8);
                    if !bootp_ok(b) {
                        None
                    } else {
                        match all_options(b) {
                            None => None,
                            Some(o) => match (o[53], o[54]) {
                                (Some(k), Some(s)) => if k.len() == 1 && (k[0] == 2 || k[0] == 5 || k[0] == 6) && s.len()
                                    == 4 && spec_unicast(s) {
                                    Some(
                                        DhcpV {
                                            kind: k[0],
                                            xid: be32(b[4], b[5], b[6], b[7]),
                                            mac: b.subrange(28, 34),
                                            address: b.subrange(16, 20),
                                            server: s,
                                            options: o,
                                        },
                                    )
                                } else {
                                    None
                                },
                                _ => None,
                            },
                        }
                    }
                }
            },
        }
    }
}

pub open spec fn opt_bytes(o: Option<Vec<u8>>) -> Option<Seq<u8>> {
    match o {
        Some(x) => Some(x@),
        None => None,
    }
}

pub open spec fn options_view(v: Seq<Option<Vec<u8>>>) -> OptionsV {
    v.map_values(|o: Option<Vec<u8>>| opt_bytes(o))
}

/// A checked DHCPv4 reply and its options.
#[derive(Debug)]
pub struct Message {
    pub kind: u8,
    pub xid: u32,
    pub mac: [u8; 6],
    pub address: [u8; 4],
    pub server: [u8; 4],
    options: Vec<Option<Vec<u8>>>,
}

impl View for Message {
    type V = DhcpV;

    closed spec fn view(&self) -> DhcpV {
        DhcpV {
            kind: self.kind,
            xid: self.xid,
            mac: self.mac@,
            address: self.address@,
            server: self.server@,
            options: options_view(self.options@),
        }
    }
}

fn parse_options(b: &[u8], options: &mut Vec<Option<Vec<u8>>>, budget: &mut usize, overloaded: bool) -> (r: Result<(), Error>)
    requires
        old(options)@.len() == 256,
        *old(budget) <= OPTION_BYTES,
    ensures
        final(options)@.len() == 256,
        *final(budget) <= OPTION_BYTES,
        match options_walk(b@, 0, options_view(old(options)@), *old(budget) as int, overloaded) {
            None => r == Err::<(), Error>(Error::Invalid),
            Some((o, n)) => r is Ok && options_view(final(options)@) == o && *final(budget) == n,
        },
{
    let l = b.len();
    let mut at: usize = 0;
    let ghost start = options_walk(b@, 0, options_view(options@), *budget as int, overloaded);
    loop
        invariant
            l == b@.len(),
            at <= l,
            options@.len() == 256,
            *budget <= OPTION_BYTES,
            start == options_walk(b@, 0, options_view(old(options)@), *old(budget) as int, overloaded),
            start == options_walk(b@, at as int, options_view(options@), *budget as int, overloaded),
        decreases l - at,
    {
        if at >= l {
            return Err(Error::Invalid);
        }
        let code = b[at];
        if code == 0 {
            at = at + 1;
            continue;
        }
        if code == 255 {
            return Ok(());
        }
        if l - at < 2 || (overloaded && code == 52) {
            return Err(Error::Invalid);
        }
        let n = b[at + 1] as usize;
        if n > l - (at + 2) || *budget + n > OPTION_BYTES {
            return Err(Error::Invalid);
        }
        let value = copy_range(b, at + 2, at + 2 + n);
        let ghost before = options_view(options@);
        let cur = options.remove(code as usize);
        let next = match cur {
            Some(mut x) => {
                let ghost xv = x@;
                push_bytes(&mut x, value.as_slice());
                Some(x)
            },
            None => Some(value),
        };
        options.insert(code as usize, next);
        assert(options_view(options@) =~= before.update(code as int, append_option(before[code as int], b@.subrange(at + 2, at + 2 + n))));
        *budget = *budget + n;
        at = at + 2 + n;
    }
}

fn bytes_are(b: &[u8], at: usize, want: &[u8]) -> (r: bool)
    requires
        at + want@.len() <= b@.len(),
    ensures
        r == (b@.subrange(at as int, at + want@.len()) == want@),
{
    let mut i: usize = 0;
    let bl = b.len();
    while i < want.len()
        invariant
            bl == b@.len(),
            at + want@.len() <= b@.len(),
            i <= want@.len(),
            forall|j: int| 0 <= j < i ==> b@[at + j] == want@[j],
        decreases want@.len() - i,
    {
        if b[at + i] != want[i] {
            assert(b@.subrange(at as int, at + want@.len())[i as int] != want@[i as int]);
            return false;
        }
        i = i + 1;
    }
    assert(b@.subrange(at as int, at + want@.len()) =~= want@);
    true
}

fn empty_options() -> (r: Vec<Option<Vec<u8>>>)
    ensures
        r@.len() == 256,
        options_view(r@) == no_options(),
{
    let mut v: Vec<Option<Vec<u8>>> = Vec::new();
    let mut i: usize = 0;
    while i < 256
        invariant
            i <= 256,
            v@.len() == i,
            forall|j: int| 0 <= j < i ==> (#[trigger] v@[j]) is None,
        decreases 256 - i,
    {
        v.push(None);
        i = i + 1;
    }
    assert(options_view(v@) =~= no_options());
    v
}

fn udp_checksum_ok(p: &Packet, udp: &[u8]) -> (r: bool)
    requires
        udp@.len() <= 65535,
        p@.payload == udp@,
    ensures
        r == (spec_checksum(pseudo(p@.source, p@.destination, udp@)) == 0),
{
    let mut pseudo_bytes: Vec<u8> = Vec::new();
    push_bytes(&mut pseudo_bytes, &p.source);
    push_bytes(&mut pseudo_bytes, &p.destination);
    pseudo_bytes.push(0);
    pseudo_bytes.push(17);
    crate::bytes::push_u16(&mut pseudo_bytes, udp.len() as u16);
    push_bytes(&mut pseudo_bytes, udp);
    assert(pseudo_bytes@ =~= pseudo(p@.source, p@.destination, udp@));
    checksum(pseudo_bytes.as_slice()) == 0
}

impl Message {
    /// Every option code has its slot.
    pub closed spec fn wf(&self) -> bool {
        self.options@.len() == 256
    }

    /// Parses and checks a DHCPv4 reply in an IPv4 packet.
    #[verifier::rlimit(60)]
    pub fn parse(bytes: &[u8]) -> (r: Result<Message, Error>)
        ensures
            match spec_dhcp_parse(bytes@) {
                None => r == Err::<Message, Error>(Error::Invalid),
                Some(m) => r matches Ok(x) && x@ == m && x.wf(),
            },
    {
        if bytes.len() > OPTION_BYTES + 300 {
            return Err(Error::Invalid);
        }
        let p = match Packet::parse(bytes) {
            Ok(p) => p,
            Err(_) => return Err(Error::Invalid),
        };
        let udp = p.payload;
        let ul = udp.len();
        if p.protocol != 17 || p.ttl == 0 || p.fragment_offset != 0 || p.more_fragments || ul < 248 || !unicast(p.source) {
            return Err(Error::Invalid);
        }
        if !(udp[0] == 0 && udp[1] == 67 && udp[2] == 0 && udp[3] == 68) || read_u16(udp, 4) as usize != ul {
            return Err(Error::Invalid);
        }
        if !(udp[6] == 0 && udp[7] == 0) && !udp_checksum_ok(&p, udp) {
            return Err(Error::Invalid);
        }
        let ghost bv = udp@.skip(8);
        let b = &udp[8..ul];
        assert(b@ =~= bv);
        let mac_zero = b[28] == 0 && b[29] == 0 && b[30] == 0 && b[31] == 0 && b[32] == 0 && b[33] == 0;
        proof {
            if all_zero(bv.subrange(28, 34)) {
                assert(bv.subrange(28, 34)[0] == bv[28]);
                assert(bv.subrange(28, 34)[1] == bv[29]);
                assert(bv.subrange(28, 34)[2] == bv[30]);
                assert(bv.subrange(28, 34)[3] == bv[31]);
                assert(bv.subrange(28, 34)[4] == bv[32]);
                assert(bv.subrange(28, 34)[5] == bv[33]);
            }
            if mac_zero {
                assert(all_zero(bv.subrange(28, 34)));
            }
        }
        if !(b[0] == 2 && b[1] == 1 && b[2] == 6) || !(b[236] == 99 && b[237] == 130 && b[238] == 83 && b[239] == 99)
            || b[28] & 1 != 0 || mac_zero || b[10] & 0x7f != 0 || b[11] != 0 {
            return Err(Error::Invalid);
        }
        let mut options = empty_options();
        let mut budget: usize = 0;
        let bl = b.len();
        let tail = &b[240..bl];
        assert(tail@ =~= bv.skip(240));
        match parse_options(tail, &mut options, &mut budget, false) {
            Ok(()) => {},
            Err(e) => return Err(e),
        }
        let overload: Option<u8> = match &options[52] {
            None => None,
            Some(v) => {
                if v.len() != 1 || !(1 <= v[0] && v[0] <= 3) {
                    return Err(Error::Invalid);
                }
                Some(v[0])
            },
        };
        match overload {
            None => {},
            Some(f) => {
                if f & 1 != 0 {
                    let file = &b[108..236];
                    assert(file@ =~= bv.subrange(108, 236));
                    match parse_options(file, &mut options, &mut budget, true) {
                        Ok(()) => {},
                        Err(e) => return Err(e),
                    }
                }
                if f & 2 != 0 {
                    let sname = &b[44..108];
                    assert(sname@ =~= bv.subrange(44, 108));
                    match parse_options(sname, &mut options, &mut budget, true) {
                        Ok(()) => {},
                        Err(e) => return Err(e),
                    }
                }
            },
        }
        assert(all_options(bv) == Some(options_view(options@)));
        let kind = match &options[53] {
            Some(k) => {
                if k.len() != 1 || !(k[0] == 2 || k[0] == 5 || k[0] == 6) {
                    return Err(Error::Invalid);
                }
                k[0]
            },
            None => return Err(Error::Invalid),
        };
        let server: [u8; 4] = match &options[54] {
            Some(s) => {
                if s.len() != 4 {
                    return Err(Error::Invalid);
                }
                [s[0], s[1], s[2], s[3]]
            },
            None => return Err(Error::Invalid),
        };
        if !unicast(server) {
            return Err(Error::Invalid);
        }
        let m = Message {
            kind,
            xid: read_u32(b, 4),
            mac: [b[28], b[29], b[30], b[31], b[32], b[33]],
            address: [b[16], b[17], b[18], b[19]],
            server,
            options,
        };
        proof {
            let o = options_view(m.options@);
            assert(m@.mac =~= bv.subrange(28, 34));
            assert(m@.address =~= bv.subrange(16, 20));
            assert(m@.server =~= o[54]->0);
        }
        Ok(m)
    }
}

/// A four-octet option as a number, if present.
pub open spec fn spec_number(o: OptionsV, code: u8) -> Result<Option<u32>, Error> {
    match o[code as int] {
        None => Ok(None),
        Some(b) => if b.len() == 4 {
            Ok(Some(be32(b[0], b[1], b[2], b[3])))
        } else {
            Err(Error::Invalid)
        },
    }
}

/// A list of unicast addresses: one to `cap` of them.
pub open spec fn spec_addresses(b: Seq<u8>, cap: int) -> Option<Seq<Seq<u8>>> {
    if b.len() == 0 || b.len() % 4 != 0 || b.len() / 4 > cap {
        None
    } else {
        let v = Seq::new(b.len() / 4, |i: int| b.subrange(4 * i, 4 * i + 4));
        if forall|i: int| 0 <= i < v.len() ==> spec_unicast(#[trigger] v[i]) {
            Some(v)
        } else {
            None
        }
    }
}

/// The significant octets of a destination, padded to four.
pub open spec fn padded(b: Seq<u8>) -> Seq<u8> {
    b + Seq::new((4 - b.len()) as nat, |i: int| 0u8)
}

/// Classless static routes (RFC 3442): each a prefix length, its significant octets and a
/// router, at most 64 of them.
pub open spec fn routes_walk(b: Seq<u8>, at: int, out: Seq<RouteV>) -> Option<Seq<RouteV>>
    decreases b.len() - at,
{
    if at < 0 || at >= b.len() {
        Some(out)
    } else {
        let length = b[at];
        let n = (length as int + 7) / 8;
        if length > 32 || n + 4 > b.len() - (at + 1) || out.len() >= 64 {
            None
        } else {
            let p = padded(b.subrange(at + 1, at + 1 + n));
            let net = be32(p[0], p[1], p[2], p[3]) & prefix_mask(length);
            routes_walk(
                b,
                at + 1 + n + 4,
                out.push(
                    RouteV {
                        network: crate::bytes::be32_bytes(net),
                        length,
                        gateway: b.subrange(at + 1 + n, at + 1 + n + 4),
                    },
                ),
            )
        }
    }
}

pub open spec fn spec_routes(b: Seq<u8>) -> Option<Seq<RouteV>> {
    if b.len() == 0 {
        None
    } else {
        routes_walk(b, 0, Seq::empty())
    }
}

pub open spec fn ldh_octet(c: u8) -> bool {
    (48 <= c <= 57) || (65 <= c <= 90) || (97 <= c <= 122) || c == 45
}

/// A label of 1..=63 letter-digit-hyphen octets.
pub open spec fn ldh_label(l: Seq<u8>) -> bool {
    &&& l.len() > 0
    &&& l.len() <= 63
    &&& forall|j: int| 0 <= j < l.len() ==> ldh_octet(#[trigger] l[j])
}

/// Every label is a letter-digit-hyphen label.
pub open spec fn all_ldh(ls: Seq<Seq<u8>>) -> bool {
    forall|i: int| 0 <= i < ls.len() ==> ldh_label(#[trigger] ls[i])
}

/// A domain-name option (code 15): dotted text, one trailing dot allowed, labels of 1..=63
/// letter-digit-hyphen octets, at most 253 octets.
pub open spec fn spec_domain(b: Seq<u8>) -> Option<Seq<Seq<u8>>> {
    let t = if b.len() > 0 && b.last() == 46 { b.drop_last() } else { b };
    let ls = crate::dns::name::split_dots(t);
    if t.len() == 0 || t.len() > 253 || !all_ldh(ls) {
        None
    } else {
        Some(ls)
    }
}

impl Message {
    pub fn number(&self, code: u8) -> (r: Result<Option<u32>, Error>)
        requires
            self.wf(),
        ensures
            r == spec_number(self@.options, code),
    {
        assert(self@.options[code as int] == opt_bytes(self.options@[code as int]));
        match &self.options[code as usize] {
            None => Ok(None),
            Some(b) => {
                if b.len() == 4 {
                    Ok(Some(read_u32(b.as_slice(), 0)))
                } else {
                    Err(Error::Invalid)
                }
            },
        }
    }

    /// The value of an option, if present.
    pub fn option(&self, code: u8) -> (r: Option<&Vec<u8>>)
        requires
            self.wf(),
        ensures
            match self@.options[code as int] {
                None => r is None,
                Some(v) => r matches Some(x) && x@ == v,
            },
    {
        assert(self@.options[code as int] == opt_bytes(self.options@[code as int]));
        match &self.options[code as usize] {
            None => None,
            Some(b) => Some(b),
        }
    }
}

pub fn addresses(b: &[u8], cap: usize) -> (r: Result<Vec<[u8; 4]>, Error>)
    ensures
        match spec_addresses(b@, cap as int) {
            None => r == Err::<Vec<[u8; 4]>, Error>(Error::Invalid),
            Some(v) => r matches Ok(x) && x@.len() == v.len() && forall|i: int| 0 <= i < v.len() ==> (#[trigger] x@[i])@ == v[i],
        },
{
    let l = b.len();
    if l == 0 || l % 4 != 0 || l / 4 > cap {
        return Err(Error::Invalid);
    }
    let ghost v = Seq::new(b@.len() / 4, |i: int| b@.subrange(4 * i, 4 * i + 4));
    let mut out: Vec<[u8; 4]> = Vec::new();
    let mut i: usize = 0;
    while i < l / 4
        invariant
            l == b@.len(),
            l % 4 == 0,
            v == Seq::new(b@.len() / 4, |i: int| b@.subrange(4 * i, 4 * i + 4)),
            i <= l / 4,
            out@.len() == i,
            forall|k: int| 0 <= k < i ==> (#[trigger] out@[k])@ == v[k] && spec_unicast(v[k]),
        decreases l / 4 - i,
    {
        let a: [u8; 4] = [b[4 * i], b[4 * i + 1], b[4 * i + 2], b[4 * i + 3]];
        assert(a@ =~= v[i as int]);
        if !unicast(a) {
            return Err(Error::Invalid);
        }
        out.push(a);
        i = i + 1;
    }
    assert forall|k: int| 0 <= k < v.len() implies spec_unicast(#[trigger] v[k]) by {
        assert(out@[k]@ == v[k]);
    }
    Ok(out)
}

/// The route whose entry starts at `at`, as `routes_walk` reads it.
pub open spec fn route_entry(b: Seq<u8>, at: int) -> RouteV {
    let length = b[at];
    let n = (length as int + 7) / 8;
    let p = padded(b.subrange(at + 1, at + 1 + n));
    RouteV {
        network: crate::bytes::be32_bytes(be32(p[0], p[1], p[2], p[3]) & prefix_mask(length)),
        length,
        gateway: b.subrange(at + 1 + n, at + 1 + n + 4),
    }
}

fn route_at(b: &[u8], at: usize) -> (r: crate::ipv4::Route)
    requires
        at < b@.len(),
        b@[at as int] <= 32,
        (b@[at as int] as int + 7) / 8 + 4 <= b@.len() - (at + 1),
    ensures
        route_view(r) == route_entry(b@, at as int),
{
    let length = b[at];
    let n = ((length as usize) + 7) / 8;
    let s = at + 1;
    let p0 = if n > 0 { b[s] } else { 0 };
    let p1 = if n > 1 { b[s + 1] } else { 0 };
    let p2 = if n > 2 { b[s + 2] } else { 0 };
    let p3 = if n > 3 { b[s + 3] } else { 0 };
    proof {
        let p = padded(b@.subrange(s as int, s + n));
        assert(p.len() == 4);
        assert(p[0] == p0 && p[1] == p1 && p[2] == p2 && p[3] == p3);
    }
    let v = (p0 as u32) * 16777216 + (p1 as u32) * 65536 + (p2 as u32) * 256 + (p3 as u32);
    let net = v & mask_exec(length);
    let g = s + n;
    let r = crate::ipv4::Route {
        network: [(net / 16777216) as u8, ((net / 65536) % 256) as u8, ((net / 256) % 256) as u8, (net % 256) as u8],
        length,
        gateway: [b[g], b[g + 1], b[g + 2], b[g + 3]],
    };
    assert(route_view(r).network =~= crate::bytes::be32_bytes(net));
    assert(route_view(r).gateway =~= b@.subrange(g as int, g + 4));
    r
}

pub fn routes(b: &[u8]) -> (r: Result<Vec<crate::ipv4::Route>, Error>)
    ensures
        match spec_routes(b@) {
            None => r == Err::<Vec<crate::ipv4::Route>, Error>(Error::Invalid),
            Some(v) => r matches Ok(x) && routes_view(x@) == v,
        },
{
    let l = b.len();
    if l == 0 {
        return Err(Error::Invalid);
    }
    let mut out: Vec<crate::ipv4::Route> = Vec::new();
    let mut at: usize = 0;
    assert(routes_view(out@) =~= Seq::<RouteV>::empty());
    while at < l
        invariant
            l == b@.len(),
            at <= l,
            spec_routes(b@) == routes_walk(b@, at as int, routes_view(out@)),
        decreases l - at,
    {
        let length = b[at];
        let n = ((length as usize) + 7) / 8;
        if length > 32 || n + 4 > l - (at + 1) || out.len() >= 64 {
            return Err(Error::Invalid);
        }
        let r = route_at(b, at);
        let ghost before = routes_view(out@);
        out.push(r);
        assert(routes_view(out@) =~= before.push(route_entry(b@, at as int)));
        at = at + 1 + n + 4;
    }
    Ok(out)
}

fn ldh_label_ok(l: &Vec<u8>) -> (r: bool)
    ensures
        r == ldh_label(l@),
{
    let n = l.len();
    if n == 0 || n > 63 {
        return false;
    }
    let mut j: usize = 0;
    while j < n
        invariant
            n == l@.len(),
            j <= n,
            forall|k: int| 0 <= k < j ==> ldh_octet(#[trigger] l@[k]),
        decreases n - j,
    {
        let c = l[j];
        if !((48 <= c && c <= 57) || (65 <= c && c <= 90) || (97 <= c && c <= 122) || c == 45) {
            return false;
        }
        j = j + 1;
    }
    true
}

/// Reads one name of a search-list option (RFC 3397) from `at`: labels, then a zero octet,
/// or a compression pointer to an earlier label boundary. At most `steps` labels and
/// pointers are followed; the name holds at most 255 octets. Gives the offset after the
/// name as written, its labels, and the boundaries seen so far.
pub open spec fn name_walk(
    b: Seq<u8>,
    at: int,
    steps: nat,
    consumed: Option<int>,
    labels: Seq<Seq<u8>>,
    size: int,
    seen: Set<int>,
) -> Option<(int, Seq<Seq<u8>>, Set<int>)>
    decreases steps,
{
    if steps == 0 || at < 0 || at >= b.len() {
        None
    } else {
        let n = b[at];
        let seen2 = seen.insert(at);
        if n == 0 {
            Some(
                (
                    match consumed {
                        Some(c) => c,
                        None => at + 1,
                    },
                    labels,
                    seen2,
                ),
            )
        } else if n >= 192 {
            if at + 1 >= b.len() {
                None
            } else {
                let ptr = (n - 192) * 256 + b[at + 1];
                if ptr >= at || !seen2.contains(ptr) {
                    None
                } else {
                    name_walk(
                        b,
                        ptr,
                        (steps - 1) as nat,
                        if consumed is Some { consumed } else { Some(at + 2) },
                        labels,
                        size,
                        seen2,
                    )
                }
            }
        } else if n > 63 || at + n + 1 > b.len() || size + n + 1 > 255 {
            None
        } else {
            name_walk(
                b,
                at + n + 1,
                (steps - 1) as nat,
                consumed,
                labels.push(b.subrange(at + 1, at + 1 + n)),
                size + n + 1,
                seen2,
            )
        }
    }
}

/// Reads the names of a search-list option from `cursor` on: at most sixteen, each
/// non-empty and moving the cursor forward.
pub open spec fn search_walk(b: Seq<u8>, cursor: int, out: Seq<Seq<Seq<u8>>>, seen: Set<int>) -> Option<
    Seq<Seq<Seq<u8>>>,
>
    decreases b.len() - cursor,
{
    if cursor < 0 || cursor >= b.len() {
        Some(out)
    } else if out.len() >= 16 {
        None
    } else {
        match name_walk(b, cursor, 128, None, Seq::empty(), 1, seen) {
            None => None,
            Some((c, labels, seen2)) => if c <= cursor || c > b.len() || labels.len() == 0 {
                None
            } else {
                search_walk(b, c, out.push(labels), seen2)
            },
        }
    }
}

/// A search-list option (code 119): at most 1024 octets of names.
pub open spec fn spec_search(b: Seq<u8>) -> Option<Seq<Seq<Seq<u8>>>> {
    if b.len() > 1024 {
        None
    } else {
        search_walk(b, 0, Seq::empty(), Set::empty())
    }
}

pub open spec fn marks_set(m: Seq<bool>) -> Set<int> {
    Set::new(|i: int| 0 <= i < m.len() && m[i])
}

pub open spec fn names_view(v: Seq<Vec<Vec<u8>>>) -> Seq<Seq<Seq<u8>>> {
    v.map_values(|n: Vec<Vec<u8>>| crate::dns::name::labels_view(n@))
}

fn walk_name(b: &[u8], marks: &mut Vec<bool>, start: usize) -> (r: Result<(usize, Vec<Vec<u8>>), Error>)
    requires
        old(marks)@.len() == b@.len(),
        b@.len() <= 1024,
        start < b@.len(),
    ensures
        final(marks)@.len() == b@.len(),
        match name_walk(b@, start as int, 128, None, Seq::empty(), 1, marks_set(old(marks)@)) {
            None => r is Err,
            Some((c, ls, seen)) => r matches Ok((c2, l2)) && c2 == c && c2 <= b@.len()
                && crate::dns::name::labels_view(l2@) == ls && marks_set(final(marks)@) == seen,
        },
{
    let l = b.len();
    let mut at: usize = start;
    let mut consumed: Option<usize> = None;
    let mut labels: Vec<Vec<u8>> = Vec::new();
    let mut size: usize = 1;
    let mut steps: usize = 0;
    let ghost goal = name_walk(b@, start as int, 128, None, Seq::empty(), 1, marks_set(marks@));
    assert(crate::dns::name::labels_view(labels@) =~= Seq::<Seq<u8>>::empty());
    while steps < 128
        invariant
            l == b@.len(),
            l <= 1024,
            marks@.len() == l,
            steps <= 128,
            size <= 255,
            at < l,
            consumed matches Some(c) ==> c <= l,
            goal == name_walk(b@, start as int, 128, None, Seq::empty(), 1, marks_set(old(marks)@)),
            goal == name_walk(
                b@,
                at as int,
                (128 - steps) as nat,
                match consumed {
                    Some(c) => Some(c as int),
                    None => None,
                },
                crate::dns::name::labels_view(labels@),
                size as int,
                marks_set(marks@),
            ),
        decreases 128 - steps,
    {
        let n = b[at];
        let ghost before = marks_set(marks@);
        marks.set(at, true);
        assert(marks_set(marks@) =~= before.insert(at as int));
        if n == 0 {
            let c = match consumed {
                Some(c) => c,
                None => at + 1,
            };
            return Ok((c, labels));
        }
        if n >= 192 {
            if at + 1 >= l {
                return Err(Error::Invalid);
            }
            let ptr = ((n - 192) as usize) * 256 + (b[at + 1] as usize);
            if ptr >= at || !marks[ptr] {
                return Err(Error::Invalid);
            }
            if consumed.is_none() {
                consumed = Some(at + 2);
            }
            at = ptr;
        } else {
            let k = n as usize;
            if k > 63 || at + k + 1 > l || size + k + 1 > 255 {
                return Err(Error::Invalid);
            }
            let label = copy_range(b, at + 1, at + 1 + k);
            let ghost lv = crate::dns::name::labels_view(labels@);
            labels.push(label);
            assert(crate::dns::name::labels_view(labels@) =~= lv.push(b@.subrange(at + 1, at + 1 + k)));
            size = size + k + 1;
            if at + k + 1 >= l {
                proof {
                    assert(name_walk(b@, (at + k + 1) as int, (128 - steps - 1) as nat, match consumed {
                        Some(c) => Some(c as int),
                        None => None,
                    }, crate::dns::name::labels_view(labels@), size as int, marks_set(marks@)) is None);
                }
                return Err(Error::Invalid);
            }
            at = at + k + 1;
        }
        steps = steps + 1;
    }
    Err(Error::Invalid)
}

/// Reads a search-list option.
pub fn search(b: &[u8]) -> (r: Result<Vec<Vec<Vec<u8>>>, Error>)
    ensures
        match spec_search(b@) {
            None => r == Err::<Vec<Vec<Vec<u8>>>, Error>(Error::Invalid),
            Some(v) => r matches Ok(x) && names_view(x@) == v,
        },
{
    let l = b.len();
    if l > 1024 {
        return Err(Error::Invalid);
    }
    let mut marks: Vec<bool> = Vec::new();
    let mut i: usize = 0;
    while i < l
        invariant
            i <= l,
            marks@.len() == i,
            forall|j: int| 0 <= j < i ==> !(#[trigger] marks@[j]),
        decreases l - i,
    {
        marks.push(false);
        i = i + 1;
    }
    assert(marks_set(marks@) =~= Set::<int>::empty());
    let mut out: Vec<Vec<Vec<u8>>> = Vec::new();
    let mut cursor: usize = 0;
    assert(names_view(out@) =~= Seq::<Seq<Seq<u8>>>::empty());
    while cursor < l
        invariant
            l == b@.len(),
            l <= 1024,
            marks@.len() == l,
            cursor <= l,
            spec_search(b@) == search_walk(b@, cursor as int, names_view(out@), marks_set(marks@)),
        decreases l - cursor,
    {
        if out.len() >= 16 {
            return Err(Error::Invalid);
        }
        let (c, labels) = match walk_name(b, &mut marks, cursor) {
            Ok(x) => x,
            Err(_) => return Err(Error::Invalid),
        };
        if c <= cursor || labels.len() == 0 {
            return Err(Error::Invalid);
        }
        let ghost before = names_view(out@);
        out.push(labels);
        assert(names_view(out@) =~= before.push(crate::dns::name::labels_view(labels@)));
        cursor = c;
    }
    Ok(out)
}

/// Reads a domain-name option.
pub fn domain(b: &[u8]) -> (r: Result<Vec<Vec<u8>>, Error>)
    ensures
        match spec_domain(b@) {
            None => r == Err::<Vec<Vec<u8>>, Error>(Error::Invalid),
            Some(ls) => r matches Ok(x) && crate::dns::name::labels_view(x@) == ls,
        },
{
    let l = b.len();
    let end = if l > 0 && b[l - 1] == 46 { l - 1 } else { l };
    let ghost t = if b@.len() > 0 && b@.last() == 46 { b@.drop_last() } else { b@ };
    assert(b@.subrange(0, end as int) =~= t);
    if end == 0 || end > 253 {
        return Err(Error::Invalid);
    }
    let mut labels: Vec<Vec<u8>> = Vec::new();
    let mut current: Vec<u8> = Vec::new();
    let mut i: usize = 0;
    assert(t.skip(0) =~= t);
    assert(crate::dns::name::labels_view(labels@) =~= Seq::<Seq<u8>>::empty());
    assert(current@ =~= Seq::<u8>::empty());
    while i < end
        invariant
            end <= b@.len(),
            t == b@.subrange(0, end as int),
            i <= end,
            crate::dns::name::split_dots(t) == crate::dns::name::split_acc(
                t.skip(i as int),
                crate::dns::name::labels_view(labels@),
                current@,
            ),
        decreases end - i,
    {
        let c = b[i];
        assert(t.skip(i as int)[0] == c);
        assert(t.skip(i as int).drop_first() =~= t.skip(i + 1));
        if c == 46 {
            let ghost before = labels@;
            let done = current;
            labels.push(done);
            assert(crate::dns::name::labels_view(labels@) =~= crate::dns::name::labels_view(before).push(done@));
            current = Vec::new();
            assert(current@ =~= Seq::<u8>::empty());
        } else {
            current.push(c);
        }
        i = i + 1;
    }
    let ghost before = labels@;
    let last = current;
    labels.push(last);
    assert(t.skip(end as int) =~= Seq::<u8>::empty());
    assert(crate::dns::name::labels_view(labels@) =~= crate::dns::name::labels_view(before).push(last@));
    let ghost ls = crate::dns::name::split_dots(t);
    assert(crate::dns::name::labels_view(labels@) == ls);
    let mut k: usize = 0;
    while k < labels.len()
        invariant
            crate::dns::name::labels_view(labels@) == ls,
            t == (if b@.len() > 0 && b@.last() == 46 { b@.drop_last() } else { b@ }),
            ls == crate::dns::name::split_dots(t),
            0 < t.len() <= 253,
            k <= labels@.len(),
            forall|x: int| 0 <= x < k ==> ldh_label(#[trigger] ls[x]),
        decreases labels@.len() - k,
    {
        assert(ls[k as int] == labels@[k as int]@);
        if !ldh_label_ok(&labels[k]) {
            proof {
                assert(!ldh_label(ls[k as int]));
                assert(!all_ldh(ls));
                assert(spec_domain(b@) is None);
            }
            return Err(Error::Invalid);
        }
        k = k + 1;
    }
    Ok(labels)
}

/// The prefix length of a netmask of contiguous leading one bits, trying lengths from `k`.
pub open spec fn mask_from(m: u32, k: int) -> Option<u8>
    decreases 33 - k,
{
    if k < 0 || k > 32 {
        None
    } else if prefix_mask(k as u8) == m {
        Some(k as u8)
    } else {
        mask_from(m, k + 1)
    }
}

pub open spec fn mask_length(m: u32) -> Option<u8> {
    mask_from(m, 0)
}

fn mask_length_exec(m: u32) -> (r: Option<u8>)
    ensures
        r == mask_length(m),
{
    let mut k: u8 = 0;
    while k <= 32
        invariant
            k <= 33,
            mask_length(m) == mask_from(m, k as int),
        decreases 33 - k,
    {
        if mask_exec(k) == m {
            return Some(k);
        }
        k = k + 1;
    }
    None
}

pub open spec fn prior_view(prior: Option<&Lease>) -> Option<LeaseV> {
    match prior {
        Some(l) => Some(l@),
        None => None,
    }
}

/// The prefix length: from the subnet-mask option, else kept from the prior lease.
pub open spec fn lease_length(o: OptionsV, prior: Option<LeaseV>) -> Option<u8> {
    match o[1] {
        Some(b) => if b.len() == 4 {
            mask_length(addr32(b))
        } else {
            None
        },
        None => match prior {
            Some(l) => Some(l.config.length),
            None => None,
        },
    }
}

/// Routes: the classless static routes, else a default route through the first router,
/// else those of the prior lease, else none.
pub open spec fn lease_routes(o: OptionsV, prior: Option<LeaseV>) -> Option<Seq<RouteV>> {
    match o[121] {
        Some(b) => spec_routes(b),
        None => match o[3] {
            Some(b) => match spec_addresses(b, 8) {
                Some(gs) => Some(seq![RouteV { network: seq![0u8, 0u8, 0u8, 0u8], length: 0, gateway: gs[0] }]),
                None => None,
            },
            None => Some(
                match prior {
                    Some(l) => l.config.routes,
                    None => Seq::empty(),
                },
            ),
        },
    }
}

/// DNS servers: from the option, else those of the prior lease, else none.
pub open spec fn lease_dns(o: OptionsV, prior: Option<LeaseV>) -> Option<Seq<Seq<u8>>> {
    match o[6] {
        Some(b) => spec_addresses(b, 8),
        None => Some(
            match prior {
                Some(l) => l.config.dns,
                None => Seq::empty(),
            },
        ),
    }
}

/// Search domains: the search list, else the domain name, else those of the prior lease.
pub open spec fn lease_search(o: OptionsV, prior: Option<LeaseV>) -> Option<Seq<Seq<Seq<u8>>>> {
    match o[119] {
        Some(b) => spec_search(b),
        None => match o[15] {
            Some(b) => match spec_domain(b) {
                Some(ls) => Some(seq![ls]),
                None => None,
            },
            None => Some(
                match prior {
                    Some(l) => l.config.search,
                    None => Seq::empty(),
                },
            ),
        },
    }
}

/// Renewal and rebinding times: as offered when 0 < T1 < T2 < lease time, else one half and
/// seven eighths of the lease time.
pub open spec fn lease_timers(seconds: u32, t1: Option<u32>, t2: Option<u32>) -> (u32, u32) {
    let d1 = seconds / 2;
    let d2 = (seconds * 7 / 8) as u32;
    let a = match t1 {
        Some(x) => x,
        None => d1,
    };
    let b = match t2 {
        Some(x) => x,
        None => d2,
    };
    if a > 0 && a < b && b < seconds {
        (a, b)
    } else {
        (d1, d2)
    }
}

/// `now` plus `s` seconds in milliseconds, saturating.
pub open spec fn lease_deadline(now: u64, s: u32) -> u64 {
    if now + s * 1000 > u64::MAX {
        u64::MAX
    } else {
        (now + s * 1000) as u64
    }
}

/// The lease that a reply grants at `now`: a non-zero lease time, a unicast address that is
/// not link-local and is a host of its prefix, acceptable routes, and well-formed options;
/// what the reply leaves out is kept from the prior lease. An infinite lease never expires.
pub open spec fn spec_lease(m: DhcpV, now: u64, prior: Option<LeaseV>) -> Option<LeaseV> {
    let o = m.options;
    match spec_number(o, 51) {
        Ok(Some(seconds)) => if seconds == 0 || !spec_unicast(m.address) || is_link_local4(m.address) {
            None
        } else {
            match lease_length(o, prior) {
                None => None,
                Some(length) => if !configure_ok(m.address, length, None) {
                    None
                } else {
                    match lease_routes(o, prior) {
                        None => None,
                        Some(routes) => if !routes_ok(routes, m.address, length) {
                            None
                        } else {
                            match (lease_dns(o, prior), lease_search(o, prior), spec_number(o, 58), spec_number(o, 59)) {
                                (Some(dns), Some(search), Ok(a), Ok(b)) => {
                                    let (t1, t2) = lease_timers(seconds, a, b);
                                    Some(
                                        LeaseV {
                                            config: ConfigurationV { address: m.address, length, routes, dns, search },
                                            server: m.server,
                                            t1: lease_deadline(now, t1),
                                            t2: lease_deadline(now, t2),
                                            expires: if seconds == u32::MAX {
                                                u64::MAX
                                            } else {
                                                lease_deadline(now, seconds)
                                            },
                                        },
                                    )
                                },
                                _ => None,
                            }
                        },
                    }
                },
            }
        },
        _ => None,
    }
}

fn deadline_exec(now: u64, s: u32) -> (r: u64)
    ensures
        r == lease_deadline(now, s),
{
    now.saturating_add((s as u64) * 1000)
}

fn copy_addrs(v: &Vec<[u8; 4]>) -> (r: Vec<[u8; 4]>)
    ensures
        addrs_view(r@) == addrs_view(v@),
{
    let mut out: Vec<[u8; 4]> = Vec::new();
    let mut i: usize = 0;
    while i < v.len()
        invariant
            i <= v@.len(),
            out@ == v@.take(i as int),
        decreases v@.len() - i,
    {
        out.push(v[i]);
        assert(out@ =~= v@.take(i + 1));
        i = i + 1;
    }
    assert(v@.take(v@.len() as int) =~= v@);
    out
}

fn copy_names(v: &Vec<Vec<Vec<u8>>>) -> (r: Vec<Vec<Vec<u8>>>)
    ensures
        names_view(r@) == names_view(v@),
{
    let mut out: Vec<Vec<Vec<u8>>> = Vec::new();
    let mut i: usize = 0;
    while i < v.len()
        invariant
            i <= v@.len(),
            names_view(out@) == names_view(v@.take(i as int)),
        decreases v@.len() - i,
    {
        let name = &v[i];
        let mut labels: Vec<Vec<u8>> = Vec::new();
        let mut j: usize = 0;
        while j < name.len()
            invariant
                j <= name@.len(),
                crate::dns::name::labels_view(labels@) == crate::dns::name::labels_view(name@.take(j as int)),
            decreases name@.len() - j,
        {
            let ghost before = labels@;
            let label = copy_range(name[j].as_slice(), 0, name[j].len());
            assert(name[j as int]@.subrange(0, name[j as int]@.len() as int) =~= name[j as int]@);
            labels.push(label);
            assert(labels@ =~= before.push(label));
            assert(name@.take(j + 1) =~= name@.take(j as int).push(name@[j as int]));
            assert(crate::dns::name::labels_view(labels@) =~= crate::dns::name::labels_view(before).push(label@));
            assert(crate::dns::name::labels_view(name@.take(j + 1)) =~= crate::dns::name::labels_view(
                name@.take(j as int),
            ).push(name@[j as int]@));
            j = j + 1;
        }
        assert(name@.take(name@.len() as int) =~= name@);
        let ghost before = out@;
        out.push(labels);
        assert(v@.take(i + 1) =~= v@.take(i as int).push(v@[i as int]));
        assert(names_view(out@) =~= names_view(before).push(crate::dns::name::labels_view(labels@)));
        assert(names_view(v@.take(i + 1)) =~= names_view(v@.take(i as int)).push(
            crate::dns::name::labels_view(v@[i as int]@),
        ));
        i = i + 1;
    }
    assert(v@.take(v@.len() as int) =~= v@);
    out
}

impl Message {
    /// The lease that this reply grants at `now` (milliseconds), keeping what it leaves out
    /// from `prior`.
    #[verifier::rlimit(80)]
    pub fn lease(&self, now: u64, prior: Option<&Lease>) -> (r: Result<Lease, Error>)
        requires
            self.wf(),
        ensures
            match spec_lease(self@, now, prior_view(prior)) {
                None => r == Err::<Lease, Error>(Error::Invalid),
                Some(l) => r matches Ok(x) && x@ == l,
            },
    {
        let ghost o = self@.options;
        let ghost pv = prior_view(prior);
        let seconds = match self.number(51) {
            Ok(Some(s)) => s,
            _ => return Err(Error::Invalid),
        };
        let a = self.address;
        if seconds == 0 || !unicast(a) || (a[0] == 169 && a[1] == 254) {
            return Err(Error::Invalid);
        }
        let length: u8 = match self.option(1) {
            Some(b) => {
                if b.len() != 4 {
                    return Err(Error::Invalid);
                }
                match mask_length_exec(read_u32(b.as_slice(), 0)) {
                    Some(n) => n,
                    None => return Err(Error::Invalid),
                }
            },
            None => match prior {
                Some(l) => l.config.length,
                None => return Err(Error::Invalid),
            },
        };
        assert(lease_length(o, pv) == Some(length));
        let mut v = Ipv4::new([2, 0, 0, 0, 0, 1]);
        match v.configure(a, length, None) {
            Ok(()) => {},
            Err(_) => return Err(Error::Invalid),
        }
        let routes: Vec<Route> = match self.option(121) {
            Some(b) => match routes(b.as_slice()) {
                Ok(x) => x,
                Err(_) => return Err(Error::Invalid),
            },
            None => match self.option(3) {
                Some(b) => {
                    let gs = match addresses(b.as_slice(), 8) {
                        Ok(x) => x,
                        Err(_) => return Err(Error::Invalid),
                    };
                    let r = vec![Route { network: [0, 0, 0, 0], length: 0, gateway: gs[0] }];
                    assert(routes_view(r@) =~= seq![RouteV { network: seq![0u8, 0u8, 0u8, 0u8], length: 0, gateway: gs@[0]@ }]);
                    r
                },
                None => match prior {
                    Some(l) => crate::ipv4::copy_routes(l.config.routes.as_slice()),
                    None => {
                        let r: Vec<Route> = Vec::new();
                        assert(routes_view(r@) =~= Seq::<RouteV>::empty());
                        r
                    },
                },
            },
        };
        assert(lease_routes(o, pv) == Some(routes_view(routes@)));
        match v.set_routes(routes.as_slice()) {
            Ok(()) => {},
            Err(_) => return Err(Error::Invalid),
        }
        let dns: Vec<[u8; 4]> = match self.option(6) {
            Some(b) => match addresses(b.as_slice(), 8) {
                Ok(x) => x,
                Err(_) => return Err(Error::Invalid),
            },
            None => match prior {
                Some(l) => copy_addrs(&l.config.dns),
                None => {
                    let r: Vec<[u8; 4]> = Vec::new();
                    assert(addrs_view(r@) =~= Seq::<Seq<u8>>::empty());
                    r
                },
            },
        };
        proof {
            if o[6] is Some {
                assert(addrs_view(dns@) =~= spec_addresses(o[6]->0, 8)->0);
            }
        }
        assert(lease_dns(o, pv) == Some(addrs_view(dns@)));
        let search: Vec<Vec<Vec<u8>>> = match self.option(119) {
            Some(b) => match search(b.as_slice()) {
                Ok(x) => x,
                Err(_) => return Err(Error::Invalid),
            },
            None => match self.option(15) {
                Some(b) => match domain(b.as_slice()) {
                    Ok(x) => {
                        let ghost xv = crate::dns::name::labels_view(x@);
                        let r = vec![x];
                        assert(names_view(r@) =~= seq![xv]);
                        r
                    },
                    Err(_) => return Err(Error::Invalid),
                },
                None => match prior {
                    Some(l) => copy_names(&l.config.search),
                    None => {
                        let r: Vec<Vec<Vec<u8>>> = Vec::new();
                        assert(names_view(r@) =~= Seq::<Seq<Seq<u8>>>::empty());
                        r
                    },
                },
            },
        };
        assert(lease_search(o, pv) == Some(names_view(search@)));
        let t1 = match self.number(58) {
            Ok(x) => x,
            Err(_) => return Err(Error::Invalid),
        };
        let t2 = match self.number(59) {
            Ok(x) => x,
            Err(_) => return Err(Error::Invalid),
        };
        let d1 = seconds / 2;
        let d2 = ((seconds as u64) * 7 / 8) as u32;
        let x1 = match t1 {
            Some(x) => x,
            None => d1,
        };
        let x2 = match t2 {
            Some(x) => x,
            None => d2,
        };
        let (a1, a2) = if x1 > 0 && x1 < x2 && x2 < seconds {
            (x1, x2)
        } else {
            (d1, d2)
        };
        assert(lease_timers(seconds, t1, t2) == (a1, a2));
        let expires = if seconds == 0xffff_ffffu32 {
            u64::MAX
        } else {
            deadline_exec(now, seconds)
        };
        let lease = Lease {
            config: Configuration { address: a, length, routes, dns, search },
            server: self.server,
            t1: deadline_exec(now, a1),
            t2: deadline_exec(now, a2),
            expires,
        };
        Ok(lease)
    }
}

} // verus!
