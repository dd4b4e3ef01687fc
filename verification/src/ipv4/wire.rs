//! IPv4, ARP and ICMP packet checks.
use crate::bytes::{be16, be16_bytes, copy_range, push_bytes, push_u16, read_u16};
use crate::error::Error;
use vstd::prelude::*;

verus! {

/// Sum of big-endian 16-bit words; a final odd octet is the high half of a word.
pub open spec fn word_sum(b: Seq<u8>) -> int
    decreases b.len(),
{
    if b.len() == 0 {
        0
    } else if b.len() == 1 {
        b[0] * 256
    } else {
        b[0] * 256 + b[1] + word_sum(b.skip(2))
    }
}

/// Folds carries back into the low 16 bits until the value fits.
pub open spec fn fold(s: int) -> int
    decreases s,
{
    if s > 65535 {
        fold(s % 65536 + s / 65536)
    } else {
        s
    }
}

/// The Internet checksum: one's complement of the folded one's complement sum.
pub open spec fn spec_checksum(b: Seq<u8>) -> u16 {
    (65535 - fold(word_sum(b))) as u16
}

proof fn lemma_word_sum_bound(b: Seq<u8>)
    ensures
        0 <= word_sum(b) <= (b.len() + 1) / 2 * 65535,
    decreases b.len(),
{
    if b.len() > 1 {
        lemma_word_sum_bound(b.skip(2));
    }
}

proof fn lemma_fold_range(s: int)
    requires
        s >= 0,
    ensures
        0 <= fold(s) <= 65535,
    decreases s,
{
    if s > 65535 {
        lemma_fold_range(s % 65536 + s / 65536);
    }
}

/// The folded sum is fixed by its residue modulo 65535 and by whether the sum is zero.
proof fn lemma_fold_value(s: int)
    requires
        s >= 0,
    ensures
        fold(s) == (if s == 0 { 0 } else { (s - 1) % 65535 + 1 }),
{
    lemma_fold_mod(s);
    lemma_fold_range(s);
    if s > 0 {
        let f = fold(s);
        assert(f == (s - 1) % 65535 + 1) by (nonlinear_arith)
            requires
                1 <= f <= 65535,
                f % 65535 == s % 65535,
                s > 0,
        {
            assert((f - 1) % 65535 == (s - 1) % 65535);
        }
    } else {
        assert(fold(0) == 0);
    }
}

/// Internet checksum of a byte string.
pub fn checksum(bytes: &[u8]) -> (r: u16)
    ensures
        r == spec_checksum(bytes@),
{
    let mut sum: u32 = 0;
    let mut i: usize = 0;
    let ghost total = word_sum(bytes@);
    proof {
        lemma_word_sum_bound(bytes@);
        assert(bytes@.skip(0) =~= bytes@);
    }
    while i < bytes.len()
        invariant
            i <= bytes@.len(),
            i % 2 == 0 || i == bytes@.len(),
            sum <= 65535,
            total == word_sum(bytes@),
            (sum + word_sum(bytes@.skip(i as int))) % 65535 == total % 65535,
            (sum + word_sum(bytes@.skip(i as int)) == 0) == (total == 0),
        decreases bytes@.len() - i,
    {
        proof {
            lemma_word_sum_bound(bytes@.skip(i as int));
        }
        let hi = bytes[i] as u32;
        let lo = if i + 1 < bytes.len() { bytes[i + 1] as u32 } else { 0 };
        let ghost rest = bytes@.skip(i as int);
        proof {
            if i + 1 < bytes@.len() {
                assert(rest.skip(2) =~= bytes@.skip(i + 2));
                lemma_word_sum_bound(rest.skip(2));
            }
        }
        let next = sum + hi * 256 + lo;
        let ghost tail = if i + 1 < bytes@.len() { word_sum(bytes@.skip(i + 2)) } else { 0int };
        assert(next + tail == sum + word_sum(rest));
        sum = if next > 65535 { (next % 65536) + (next / 65536) } else { next };
        proof {
            if next > 65535 {
                assert(next == (next % 65536) + 65536 * (next / 65536));
                assert(next / 65536 == 1);
                assert((sum + tail) % 65535 == (next + tail) % 65535) by {
                    assert(next + tail == sum + tail + 65535);
                }
            }
        }
        i = if i + 1 < bytes.len() { i + 2 } else { i + 1 };
        proof {
            if i == bytes@.len() {
                assert(bytes@.skip(i as int).len() == 0);
                assert(word_sum(bytes@.skip(i as int)) == 0);
            }
            assert(tail == word_sum(bytes@.skip(i as int)));
        }
    }
    proof {
        assert(bytes@.skip(i as int).len() == 0);
        assert(word_sum(bytes@.skip(i as int)) == 0);
        lemma_word_sum_bound(bytes@);
        lemma_fold_value(total);
        if sum > 0 {
            assert((sum - 1) % 65535 + 1 == sum);
            assert((sum - 1) % 65535 == (total - 1) % 65535);
        }
        assert(fold(total) == sum);
    }
    (65535 - sum) as u16
}

pub struct Packet<'a> {
    pub source: [u8; 4],
    pub destination: [u8; 4],
    pub ttl: u8,
    pub protocol: u8,
    pub payload: &'a [u8],
    pub bytes: &'a [u8],
    pub header_len: usize,
    pub fragment_offset: usize,
    pub more_fragments: bool,
    pub dont_fragment: bool,
    pub id: u16,
    pub traffic_class: u8,
}

pub struct PacketV {
    pub source: Seq<u8>,
    pub destination: Seq<u8>,
    pub ttl: u8,
    pub protocol: u8,
    pub payload: Seq<u8>,
    pub bytes: Seq<u8>,
    pub header_len: int,
    pub fragment_offset: int,
    pub more_fragments: bool,
    pub dont_fragment: bool,
    pub id: u16,
    pub traffic_class: u8,
}

impl<'a> View for Packet<'a> {
    type V = PacketV;

    open spec fn view(&self) -> PacketV {
        PacketV {
            source: self.source@,
            destination: self.destination@,
            ttl: self.ttl,
            protocol: self.protocol,
            payload: self.payload@,
            bytes: self.bytes@,
            header_len: self.header_len as int,
            fragment_offset: self.fragment_offset as int,
            more_fragments: self.more_fragments,
            dont_fragment: self.dont_fragment,
            id: self.id,
            traffic_class: self.traffic_class,
        }
    }
}

/// IPv4 options between octet `at` and the header end `h`: end-of-list (then only zero
/// padding), no-operation, or type-length-value with a length of at least two.
pub open spec fn options_ok(b: Seq<u8>, at: int, h: int) -> bool
    decreases h - at,
{
    if at < h {
        let t = b[at];
        if t == 0 {
            forall|i: int| at + 1 <= i < h ==> b[i] == 0
        } else if t == 1 {
            options_ok(b, at + 1, h)
        } else if at + 2 > h {
            false
        } else {
            let len = b[at + 1] as int;
            len >= 2 && at + len <= h && options_ok(b, at + len, h)
        }
    } else {
        true
    }
}

/// A checked IPv4 header: version 4, a header of 20..=60 octets with a zero checksum, a total
/// length covering the header (and, unless quoted inside an ICMP error, within the bytes),
/// valid options and consistent fragment fields.
pub open spec fn parse_ipv4(b: Seq<u8>, quoted: bool) -> Option<PacketV> {
    if b.len() < 20 || b[0] / 16 != 4 {
        None
    } else {
        let h = (b[0] % 16) as int * 4;
        let n = be16(b[2], b[3]) as int;
        if h < 20 || h > b.len() || n < h || (!quoted && n > b.len()) || spec_checksum(b.subrange(0, h)) != 0 {
            None
        } else if !options_ok(b, 20, h) {
            None
        } else {
            let flags = be16(b[6], b[7]) as int;
            let offset = (flags % 8192) * 8;
            let more = (flags / 8192) % 2 == 1;
            let df = (flags / 16384) % 2 == 1;
            if flags >= 32768 || (df && (more || offset != 0)) || (more && ((n - h) % 8 != 0 || n == h)) || offset + n
                - h > 65535 {
                None
            } else {
                let n2 = if n < b.len() { n } else { b.len() as int };
                Some(
                    PacketV {
                        source: b.subrange(12, 16),
                        destination: b.subrange(16, 20),
                        ttl: b[8],
                        protocol: b[9],
                        payload: b.subrange(h, n2),
                        bytes: b.subrange(0, n2),
                        header_len: h,
                        fragment_offset: offset,
                        more_fragments: more,
                        dont_fragment: df,
                        id: be16(b[4], b[5]),
                        traffic_class: b[1],
                    },
                )
            }
        }
    }
}


fn check_options(b: &[u8], h: usize) -> (r: bool)
    requires
        20 <= h <= b@.len(),
    ensures
        r == options_ok(b@, 20, h as int),
{
    let mut at: usize = 20;
    while at < h
        invariant
            20 <= at,
            h <= b@.len(),
            options_ok(b@, at as int, h as int) == options_ok(b@, 20, h as int),
        decreases h - at,
    {
        let t = b[at];
        if t == 0 {
            let mut k = at + 1;
            while k < h
                invariant
                    at + 1 <= k,
                    at < h <= b@.len(),
                    b@[at as int] == 0,
                    options_ok(b@, at as int, h as int) == options_ok(b@, 20, h as int),
                    forall|i: int| at + 1 <= i < k ==> b@[i] == 0,
                decreases h - k,
            {
                if b[k] != 0 {
                    return false;
                }
                k = k + 1;
            }
            return true;
        }
        if t == 1 {
            at = at + 1;
            continue;
        }
        if h - at < 2 {
            return false;
        }
        let len = b[at + 1] as usize;
        if len < 2 || len > h - at {
            return false;
        }
        at = at + len;
    }
    true
}

impl<'a> Packet<'a> {
    /// Parses a complete IPv4 packet.
    pub fn parse(b: &'a [u8]) -> (r: Result<Packet<'a>, Error>)
        ensures
            r is Ok <==> parse_ipv4(b@, false) is Some,
            r matches Ok(p) ==> p@ == parse_ipv4(b@, false)->0,
    {
        Packet::parse_inner(b, false)
    }

    /// Parses the possibly truncated packet quoted in an ICMP error.
    pub fn quoted(b: &'a [u8]) -> (r: Result<Packet<'a>, Error>)
        ensures
            r is Ok <==> parse_ipv4(b@, true) is Some,
            r matches Ok(p) ==> p@ == parse_ipv4(b@, true)->0,
    {
        Packet::parse_inner(b, true)
    }

    fn parse_inner(b: &'a [u8], quoted: bool) -> (r: Result<Packet<'a>, Error>)
        ensures
            r is Ok <==> parse_ipv4(b@, quoted) is Some,
            r matches Ok(p) ==> p@ == parse_ipv4(b@, quoted)->0,
    {
        if b.len() < 20 || b[0] / 16 != 4 {
            return Err(Error::Invalid);
        }
        let h = (b[0] % 16) as usize * 4;
        let n = read_u16(b, 2) as usize;
        if h < 20 || h > b.len() || n < h || (!quoted && n > b.len()) {
            return Err(Error::Invalid);
        }
        let head = vstd::slice::slice_subrange(b, 0, h);
        if checksum(head) != 0 {
            return Err(Error::Invalid);
        }
        if !check_options(b, h) {
            return Err(Error::Invalid);
        }
        let flags = read_u16(b, 6) as usize;
        let offset = (flags % 8192) * 8;
        let more = (flags / 8192) % 2 == 1;
        let df = (flags / 16384) % 2 == 1;
        if flags >= 32768 || (df && (more || offset != 0)) || (more && ((n - h) % 8 != 0 || n == h)) || offset + n - h
            > 65535 {
            return Err(Error::Invalid);
        }
        let n2 = if n < b.len() { n } else { b.len() };
        let source = [b[12], b[13], b[14], b[15]];
        let destination = [b[16], b[17], b[18], b[19]];
        assert(source@ =~= b@.subrange(12, 16));
        assert(destination@ =~= b@.subrange(16, 20));
        Ok(
            Packet {
                source,
                destination,
                ttl: b[8],
                protocol: b[9],
                payload: vstd::slice::slice_subrange(b, h, n2),
                bytes: vstd::slice::slice_subrange(b, 0, n2),
                header_len: h,
                fragment_offset: offset,
                more_fragments: more,
                dont_fragment: df,
                id: read_u16(b, 4),
                traffic_class: b[1],
            },
        )
    }
}


pub open spec fn ipv4_header(source: Seq<u8>, destination: Seq<u8>, protocol: u8, ttl: u8, n: u16) -> Seq<u8> {
    seq![0x45u8, 0u8] + be16_bytes(n) + seq![0u8, 0u8, 0u8, 0u8, ttl, protocol, 0u8, 0u8] + source + destination
}

/// A 20-octet header without options, its checksum filled in, followed by the payload.
pub open spec fn spec_encode4(source: Seq<u8>, destination: Seq<u8>, protocol: u8, ttl: u8, payload: Seq<u8>) -> Option<
    Seq<u8>,
> {
    if 20 + payload.len() > 65535 {
        None
    } else {
        let h = ipv4_header(source, destination, protocol, ttl, (20 + payload.len()) as u16);
        let c = spec_checksum(h);
        Some(h.update(10, be16_bytes(c)[0]).update(11, be16_bytes(c)[1]) + payload)
    }
}

/// Builds an IPv4 packet with a minimal header.
pub fn encode(source: [u8; 4], destination: [u8; 4], protocol: u8, ttl: u8, payload: &[u8]) -> (r: Result<
    Vec<u8>,
    Error,
>)
    ensures
        match spec_encode4(source@, destination@, protocol, ttl, payload@) {
            None => r is Err,
            Some(v) => r matches Ok(x) && x@ == v,
        },
{
    if payload.len() > 65515 {
        return Err(Error::Invalid);
    }
    let n = (20 + payload.len()) as u16;
    let mut b: Vec<u8> = Vec::new();
    b.push(0x45);
    b.push(0);
    push_u16(&mut b, n);
    b.push(0);
    b.push(0);
    b.push(0);
    b.push(0);
    b.push(ttl);
    b.push(protocol);
    b.push(0);
    b.push(0);
    push_bytes(&mut b, source.as_slice());
    push_bytes(&mut b, destination.as_slice());
    assert(b@ =~= ipv4_header(source@, destination@, protocol, ttl, n));
    let c = checksum(b.as_slice());
    b.set(10, (c / 256) as u8);
    b.set(11, (c % 256) as u8);
    push_bytes(&mut b, payload);
    Ok(b)
}

pub open spec fn is_unspecified4(a: Seq<u8>) -> bool {
    a[0] == 0 && a[1] == 0 && a[2] == 0 && a[3] == 0
}

pub open spec fn is_broadcast4(a: Seq<u8>) -> bool {
    a[0] == 255 && a[1] == 255 && a[2] == 255 && a[3] == 255
}

pub open spec fn is_multicast4(a: Seq<u8>) -> bool {
    224 <= a[0] <= 239
}

pub open spec fn is_loopback4(a: Seq<u8>) -> bool {
    a[0] == 127
}

fn unspecified4(a: [u8; 4]) -> (r: bool)
    ensures
        r == is_unspecified4(a@),
{
    a[0] == 0 && a[1] == 0 && a[2] == 0 && a[3] == 0
}

fn broadcast4(a: [u8; 4]) -> (r: bool)
    ensures
        r == is_broadcast4(a@),
{
    a[0] == 255 && a[1] == 255 && a[2] == 255 && a[3] == 255
}

#[derive(Clone, Copy, Debug)]
pub struct Arp {
    pub operation: u16,
    pub sender_mac: [u8; 6],
    pub sender: [u8; 4],
    pub target_mac: [u8; 6],
    pub target: [u8; 4],
}

pub struct ArpV {
    pub operation: u16,
    pub sender_mac: Seq<u8>,
    pub sender: Seq<u8>,
    pub target_mac: Seq<u8>,
    pub target: Seq<u8>,
}

impl View for Arp {
    type V = ArpV;

    open spec fn view(&self) -> ArpV {
        ArpV {
            operation: self.operation,
            sender_mac: self.sender_mac@,
            sender: self.sender@,
            target_mac: self.target_mac@,
            target: self.target@,
        }
    }
}

pub open spec fn arp_prefix(op: u8) -> Seq<u8> {
    seq![8u8, 6u8, 0u8, 1u8, 8u8, 0u8, 6u8, 4u8, 0u8, op]
}

/// An Ethernet ARP request or reply for IPv4 whose sender and target are plausible unicast
/// hosts and whose Ethernet source matches the sender hardware address.
pub open spec fn parse_arp(f: Seq<u8>) -> Option<ArpV> {
    if f.len() < 42 || (f.subrange(12, 22) != arp_prefix(1) && f.subrange(12, 22) != arp_prefix(2)) {
        None
    } else {
        let sender_mac = f.subrange(22, 28);
        let sender = f.subrange(28, 32);
        let target = f.subrange(38, 42);
        let operation = be16(f[20], f[21]);
        if sender_mac[0] % 2 != 0 || sender_mac == seq![0u8, 0u8, 0u8, 0u8, 0u8, 0u8] || f.subrange(6, 12) != sender_mac
            || (operation == 2 && is_unspecified4(sender)) || (f[0] % 2 == 0 && f.subrange(0, 6) != f.subrange(32, 38))
            || is_multicast4(sender) || is_broadcast4(sender) || is_loopback4(sender) || is_multicast4(target)
            || is_broadcast4(target) || is_unspecified4(target) || is_loopback4(target) {
            None
        } else {
            Some(ArpV { operation, sender_mac, sender, target_mac: f.subrange(32, 38), target })
        }
    }
}

fn range_eq(f: &[u8], a: usize, b: usize, n: usize) -> (r: bool)
    requires
        a + n <= f@.len(),
        b + n <= f@.len(),
    ensures
        r == (f@.subrange(a as int, a + n) == f@.subrange(b as int, b + n)),
{
    let mut i: usize = 0;
    while i < n
        invariant
            i <= n,
            a + n <= f@.len(),
            b + n <= f@.len(),
            forall|j: int| 0 <= j < i ==> f@.subrange(a as int, a + n)[j] == #[trigger] f@.subrange(b as int, b + n)[j],
        decreases n - i,
    {
        let fl = f.len();
        assert(a + i < fl && b + i < fl);
        if f[a + i] != f[b + i] {
            assert(f@.subrange(a as int, a + n)[i as int] != f@.subrange(b as int, b + n)[i as int]);
            return false;
        }
        i = i + 1;
    }
    assert(f@.subrange(a as int, a + n) =~= f@.subrange(b as int, b + n));
    true
}

fn prefix_is(f: &[u8], op: u8) -> (r: bool)
    requires
        f@.len() >= 22,
    ensures
        r == (f@.subrange(12, 22) == arp_prefix(op)),
{
    let r = f[12] == 8 && f[13] == 6 && f[14] == 0 && f[15] == 1 && f[16] == 8 && f[17] == 0 && f[18] == 6 && f[19] == 4
        && f[20] == 0 && f[21] == op;
    proof {
        if r {
            assert(f@.subrange(12, 22) =~= arp_prefix(op));
        } else {
            if f@.subrange(12, 22) == arp_prefix(op) {
                assert(f@.subrange(12, 22)[0] == f@[12]);
                assert(f@.subrange(12, 22)[9] == f@[21]);
                assert(f@.subrange(12, 22)[1] == f@[13]);
                assert(f@.subrange(12, 22)[2] == f@[14]);
                assert(f@.subrange(12, 22)[3] == f@[15]);
                assert(f@.subrange(12, 22)[4] == f@[16]);
                assert(f@.subrange(12, 22)[5] == f@[17]);
                assert(f@.subrange(12, 22)[6] == f@[18]);
                assert(f@.subrange(12, 22)[7] == f@[19]);
                assert(f@.subrange(12, 22)[8] == f@[20]);
            }
        }
    }
    r
}

impl Arp {
    /// Parses and checks an Ethernet ARP frame.
    pub fn parse(frame: &[u8]) -> (r: Result<Arp, Error>)
        ensures
            r is Ok <==> parse_arp(frame@) is Some,
            r matches Ok(a) ==> a@ == parse_arp(frame@)->0,
    {
        if frame.len() < 42 || (!prefix_is(frame, 1) && !prefix_is(frame, 2)) {
            return Err(Error::Invalid);
        }
        let sender_mac: [u8; 6] = [frame[22], frame[23], frame[24], frame[25], frame[26], frame[27]];
        let sender: [u8; 4] = [frame[28], frame[29], frame[30], frame[31]];
        let target: [u8; 4] = [frame[38], frame[39], frame[40], frame[41]];
        let target_mac: [u8; 6] = [frame[32], frame[33], frame[34], frame[35], frame[36], frame[37]];
        assert(sender_mac@ =~= frame@.subrange(22, 28));
        assert(sender@ =~= frame@.subrange(28, 32));
        assert(target@ =~= frame@.subrange(38, 42));
        assert(target_mac@ =~= frame@.subrange(32, 38));
        let operation = read_u16(frame, 20);
        let zero_mac = sender_mac[0] == 0 && sender_mac[1] == 0 && sender_mac[2] == 0 && sender_mac[3] == 0
            && sender_mac[4] == 0 && sender_mac[5] == 0;
        proof {
            if zero_mac {
                assert(sender_mac@ =~= seq![0u8, 0u8, 0u8, 0u8, 0u8, 0u8]);
            } else if sender_mac@ == seq![0u8, 0u8, 0u8, 0u8, 0u8, 0u8] {
                assert(sender_mac@[0] == 0 && sender_mac@[1] == 0 && sender_mac@[2] == 0);
                assert(sender_mac@[3] == 0 && sender_mac@[4] == 0 && sender_mac@[5] == 0);
            }
        }
        if sender_mac[0] % 2 != 0 || zero_mac || !range_eq(frame, 6, 22, 6) || (operation == 2 && unspecified4(sender))
            || (frame[0] % 2 == 0 && !range_eq(frame, 0, 32, 6)) || (sender[0] >= 224 && sender[0] <= 239) || broadcast4(
            sender,
        ) || sender[0] == 127 || (target[0] >= 224 && target[0] <= 239) || broadcast4(target) || unspecified4(target)
            || target[0] == 127 {
            return Err(Error::Invalid);
        }
        Ok(Arp { operation, sender_mac, sender, target_mac, target })
    }

    /// Builds the Ethernet frame for this ARP message.
    pub fn encode(self, destination: [u8; 6]) -> (r: Vec<u8>)
        ensures
            r@ == destination@ + self.sender_mac@ + seq![8u8, 6u8, 0u8, 1u8, 8u8, 0u8, 6u8, 4u8] + be16_bytes(
                self.operation,
            ) + self.sender_mac@ + self.sender@ + self.target_mac@ + self.target@,
    {
        let mut b: Vec<u8> = Vec::new();
        push_bytes(&mut b, destination.as_slice());
        push_bytes(&mut b, self.sender_mac.as_slice());
        b.push(8);
        b.push(6);
        b.push(0);
        b.push(1);
        b.push(8);
        b.push(0);
        b.push(6);
        b.push(4);
        push_u16(&mut b, self.operation);
        push_bytes(&mut b, self.sender_mac.as_slice());
        push_bytes(&mut b, self.sender.as_slice());
        push_bytes(&mut b, self.target_mac.as_slice());
        push_bytes(&mut b, self.target.as_slice());
        assert(b@ =~= destination@ + self.sender_mac@ + seq![8u8, 6u8, 0u8, 1u8, 8u8, 0u8, 6u8, 4u8] + be16_bytes(
            self.operation,
        ) + self.sender_mac@ + self.sender@ + self.target_mac@ + self.target@);
        b
    }
}

pub struct Icmp<'a> {
    pub kind: u8,
    pub code: u8,
    pub bytes: &'a [u8],
}

pub open spec fn icmp_max_code(kind: u8) -> u8 {
    if kind == 3 {
        15
    } else if kind == 4 {
        0
    } else if kind == 5 {
        3
    } else if kind == 11 {
        1
    } else {
        2
    }
}

/// An ICMPv4 message with a valid checksum; echo has code 0; errors have a known code and
/// quote an IPv4 header with at least eight octets of its payload.
pub open spec fn icmp_ok(b: Seq<u8>) -> bool {
    &&& b.len() >= 8
    &&& spec_checksum(b) == 0
    &&& !((b[0] == 0 || b[0] == 8) && b[1] != 0)
    &&& (b[0] == 3 || b[0] == 4 || b[0] == 5 || b[0] == 11 || b[0] == 12) ==> {
        &&& b[1] <= icmp_max_code(b[0])
        &&& b.len() >= 36
        &&& parse_ipv4(b.skip(8), true) matches Some(q) && q.payload.len() >= 8
    }
}

impl<'a> Icmp<'a> {
    /// Parses an ICMPv4 message.
    pub fn parse(b: &'a [u8]) -> (r: Result<Icmp<'a>, Error>)
        ensures
            r is Ok <==> icmp_ok(b@),
            r matches Ok(m) ==> m.kind == b@[0] && m.code == b@[1] && m.bytes@ == b@,
    {
        if b.len() < 8 || checksum(b) != 0 {
            return Err(Error::Invalid);
        }
        let t = b[0];
        if (t == 0 || t == 8) && b[1] != 0 {
            return Err(Error::Invalid);
        }
        if t == 3 || t == 4 || t == 5 || t == 11 || t == 12 {
            let max_code: u8 = if t == 3 {
                15
            } else if t == 4 {
                0
            } else if t == 5 {
                3
            } else if t == 11 {
                1
            } else {
                2
            };
            if b[1] > max_code {
                return Err(Error::Invalid);
            }
            if b.len() < 36 {
                return Err(Error::Invalid);
            }
            let inner = vstd::slice::slice_subrange(b, 8, b.len());
            assert(inner@ =~= b@.skip(8));
            let q = Packet::quoted(inner)?;
            if q.payload.len() < 8 {
                return Err(Error::Invalid);
            }
        }
        Ok(Icmp { kind: b[0], code: b[1], bytes: b })
    }
}

proof fn lemma_fold_mod(s: int)
    requires
        s >= 0,
    ensures
        fold(s) % 65535 == s % 65535,
        s > 0 ==> fold(s) >= 1,
    decreases s,
{
    if s > 65535 {
        let q = s / 65536;
        let r = s % 65536;
        assert(s == 65536 * q + r && q >= 1 && 0 <= r) by (nonlinear_arith)
            requires
                s > 65535,
                q == s / 65536,
                r == s % 65536,
        ;
        assert((r + q) % 65535 == s % 65535) by (nonlinear_arith)
            requires
                s == 65536 * q + r,
        {
            assert(s == (r + q) + 65535 * q);
        }
        assert(r + q < s);
        lemma_fold_mod(r + q);
    }
}

/// `b` with `v` written as a big-endian word at `k`.
pub open spec fn put_word(b: Seq<u8>, k: int, v: u16) -> Seq<u8> {
    b.update(k, (v / 256) as u8).update(k + 1, (v % 256) as u8)
}

proof fn lemma_word_sum_put(b: Seq<u8>, k: int, v: u16)
    requires
        0 <= k,
        k + 1 < b.len(),
        k % 2 == 0,
    ensures
        word_sum(put_word(b, k, v)) == word_sum(b) - (b[k] * 256 + b[k + 1]) + v,
    decreases b.len(),
{
    let c = put_word(b, k, v);
    if k == 0 {
        assert(c.skip(2) =~= b.skip(2));
        assert(c[0] * 256 + c[1] == v);
    } else {
        assert(c.skip(2) =~= put_word(b.skip(2), k - 2, v));
        lemma_word_sum_put(b.skip(2), k - 2, v);
        assert(c[0] == b[0] && c[1] == b[1]);
        assert(b.skip(2)[k - 2] == b[k] && b.skip(2)[k - 1] == b[k + 1]);
    }
}

/// Writing the checksum of data into a zeroed, word-aligned checksum field makes the data
/// check: its checksum is then zero.
pub proof fn lemma_checksum_write_back(b: Seq<u8>, k: int)
    requires
        0 <= k,
        k + 1 < b.len(),
        k % 2 == 0,
        b[k] == 0,
        b[k + 1] == 0,
    ensures
        spec_checksum(put_word(b, k, spec_checksum(b))) == 0,
{
    let s = word_sum(b);
    lemma_word_sum_bound(b);
    lemma_fold_range(s);
    lemma_fold_mod(s);
    let c = spec_checksum(b);
    assert(c == 65535 - fold(s));
    lemma_word_sum_put(b, k, c);
    let s2 = word_sum(put_word(b, k, c));
    assert(s2 == s + 65535 - fold(s));
    lemma_fold_mod(s2);
    lemma_fold_range(s2);
    assert(s2 % 65535 == 0) by (nonlinear_arith)
        requires
            s2 == s + 65535 - fold(s),
            fold(s) % 65535 == s % 65535,
            0 <= fold(s) <= 65535,
            s >= 0,
    {
        if fold(s) == 65535 {
            assert(s % 65535 == 0);
        }
    }
    assert(s2 > 0);
    assert(fold(s2) == 65535);
}

} // verus!
