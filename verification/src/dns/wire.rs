//! Checked DNS wire messages. Names keep their octets; the original bytes of a parsed message
//! stay available beside the decoded records.
use crate::bytes::{be16, be32, be16_bytes, be32_bytes, copy_range, push_bytes, push_u16, push_u32, read_u16, read_u32};
use crate::dns::name::{labels_view, name_wire, valid_labels, Name};
use crate::error::Error;
use std::collections::VecDeque;
use std::ops::Range;
use vstd::prelude::*;

verus! {

pub const MAX_WIRE: usize = 65535;
pub const MAX_RECORDS: usize = 4096;
pub const MAX_WORK: usize = 262144;

/// Whether a message travels as unicast DNS or as multicast DNS.
#[derive(Clone, Copy, Debug, PartialEq, Eq, Structural)]
pub enum Context {
    Unicast,
    Mdns,
}

#[derive(Debug)]
pub struct Question {
    pub name: Name,
    pub kind: u16,
    pub class: u16,
}

/// Typed RDATA. Names inside keep their octets; unknown types stay opaque.
#[derive(Debug)]
pub enum Rdata {
    Empty,
    A([u8; 4]),
    Aaaa([u8; 16]),
    Name(Name),
    Srv { priority: u16, weight: u16, port: u16, target: Name },
    Txt(Vec<Vec<u8>>),
    Preference { preference: u16, name: Name },
    TwoNames { first: Name, second: Name },
    Px { preference: u16, map822: Name, mapx400: Name },
    Soa { mname: Name, rname: Name, serial: u32, refresh: u32, retry: u32, expire: u32, minimum: u32 },
    Key { flags: u16, protocol: u8, algorithm: u8, key: Vec<u8> },
    Sig {
        covered: u16,
        algorithm: u8,
        labels: u8,
        original_ttl: u32,
        expiration: u32,
        inception: u32,
        key_tag: u16,
        signer: Name,
        signature: Vec<u8>,
    },
    Opt(Vec<(u16, Vec<u8>)>),
    Nsec { next: Name, bitmap: Vec<u8> },
    Svcb { priority: u16, target: Name, params: Vec<(u16, Vec<u8>)> },
    /// Structurally checked pointer-free DNSSEC RDATA.
    Bytes(Vec<u8>),
    /// Unknown types may contain legacy name pointers; encoding refuses relocation.
    Opaque(Vec<u8>),
}

#[derive(Debug)]
pub struct Record {
    pub name: Name,
    pub kind: u16,
    pub class: u16,
    pub ttl: u32,
    pub data: Rdata,
}

/// Where one record sat in the parsed bytes.
#[derive(Debug)]
pub struct RecordSpan {
    pub wire: Range<usize>,
    pub ttl: usize,
    pub rdata: Range<usize>,
}

#[derive(Debug)]
pub struct Message {
    pub id: u16,
    pub flags: u16,
    pub questions: Vec<Question>,
    pub answers: Vec<Record>,
    pub authority: Vec<Record>,
    pub additional: Vec<Record>,
    pub original: Vec<u8>,
    pub spans: Vec<RecordSpan>,
}

// ---------------------------------------------------------------------------------------------
// Mathematical model
// ---------------------------------------------------------------------------------------------

pub struct QuestionV {
    pub name: Seq<Seq<u8>>,
    pub kind: u16,
    pub class: u16,
}

pub enum RdataV {
    Empty,
    A(Seq<u8>),
    Aaaa(Seq<u8>),
    Name(Seq<Seq<u8>>),
    Srv { priority: u16, weight: u16, port: u16, target: Seq<Seq<u8>> },
    Txt(Seq<Seq<u8>>),
    Preference { preference: u16, name: Seq<Seq<u8>> },
    TwoNames { first: Seq<Seq<u8>>, second: Seq<Seq<u8>> },
    Px { preference: u16, map822: Seq<Seq<u8>>, mapx400: Seq<Seq<u8>> },
    Soa { mname: Seq<Seq<u8>>, rname: Seq<Seq<u8>>, serial: u32, refresh: u32, retry: u32, expire: u32, minimum: u32 },
    Key { flags: u16, protocol: u8, algorithm: u8, key: Seq<u8> },
    Sig {
        covered: u16,
        algorithm: u8,
        labels: u8,
        original_ttl: u32,
        expiration: u32,
        inception: u32,
        key_tag: u16,
        signer: Seq<Seq<u8>>,
        signature: Seq<u8>,
    },
    Opt(Seq<(u16, Seq<u8>)>),
    Nsec { next: Seq<Seq<u8>>, bitmap: Seq<u8> },
    Svcb { priority: u16, target: Seq<Seq<u8>>, params: Seq<(u16, Seq<u8>)> },
    Bytes(Seq<u8>),
    Opaque(Seq<u8>),
}

pub struct RecordV {
    pub name: Seq<Seq<u8>>,
    pub kind: u16,
    pub class: u16,
    pub ttl: u32,
    pub data: RdataV,
}

pub struct SpanV {
    pub wire_start: int,
    pub wire_end: int,
    pub ttl: int,
    pub rdata_start: int,
    pub rdata_end: int,
}

pub struct MessageV {
    pub id: u16,
    pub flags: u16,
    pub questions: Seq<QuestionV>,
    pub answers: Seq<RecordV>,
    pub authority: Seq<RecordV>,
    pub additional: Seq<RecordV>,
    pub original: Seq<u8>,
    pub spans: Seq<SpanV>,
}

pub open spec fn options_view(v: Seq<(u16, Vec<u8>)>) -> Seq<(u16, Seq<u8>)> {
    v.map_values(|p: (u16, Vec<u8>)| (p.0, p.1@))
}

impl View for Question {
    type V = QuestionV;

    open spec fn view(&self) -> QuestionV {
        QuestionV { name: self.name@, kind: self.kind, class: self.class }
    }
}

impl View for Rdata {
    type V = RdataV;

    open spec fn view(&self) -> RdataV {
        match self {
            Rdata::Empty => RdataV::Empty,
            Rdata::A(a) => RdataV::A(a@),
            Rdata::Aaaa(a) => RdataV::Aaaa(a@),
            Rdata::Name(n) => RdataV::Name(n@),
            Rdata::Srv { priority, weight, port, target } => RdataV::Srv {
                priority: *priority,
                weight: *weight,
                port: *port,
                target: target@,
            },
            Rdata::Txt(v) => RdataV::Txt(labels_view(v@)),
            Rdata::Preference { preference, name } => RdataV::Preference { preference: *preference, name: name@ },
            Rdata::TwoNames { first, second } => RdataV::TwoNames { first: first@, second: second@ },
            Rdata::Px { preference, map822, mapx400 } => RdataV::Px {
                preference: *preference,
                map822: map822@,
                mapx400: mapx400@,
            },
            Rdata::Soa { mname, rname, serial, refresh, retry, expire, minimum } => RdataV::Soa {
                mname: mname@,
                rname: rname@,
                serial: *serial,
                refresh: *refresh,
                retry: *retry,
                expire: *expire,
                minimum: *minimum,
            },
            Rdata::Key { flags, protocol, algorithm, key } => RdataV::Key {
                flags: *flags,
                protocol: *protocol,
                algorithm: *algorithm,
                key: key@,
            },
            Rdata::Sig {
                covered,
                algorithm,
                labels,
                original_ttl,
                expiration,
                inception,
                key_tag,
                signer,
                signature,
            } => RdataV::Sig {
                covered: *covered,
                algorithm: *algorithm,
                labels: *labels,
                original_ttl: *original_ttl,
                expiration: *expiration,
                inception: *inception,
                key_tag: *key_tag,
                signer: signer@,
                signature: signature@,
            },
            Rdata::Opt(v) => RdataV::Opt(options_view(v@)),
            Rdata::Nsec { next, bitmap } => RdataV::Nsec { next: next@, bitmap: bitmap@ },
            Rdata::Svcb { priority, target, params } => RdataV::Svcb {
                priority: *priority,
                target: target@,
                params: options_view(params@),
            },
            Rdata::Bytes(v) => RdataV::Bytes(v@),
            Rdata::Opaque(v) => RdataV::Opaque(v@),
        }
    }
}

impl View for Record {
    type V = RecordV;

    open spec fn view(&self) -> RecordV {
        RecordV { name: self.name@, kind: self.kind, class: self.class, ttl: self.ttl, data: self.data@ }
    }
}

impl View for RecordSpan {
    type V = SpanV;

    open spec fn view(&self) -> SpanV {
        SpanV {
            wire_start: self.wire.start as int,
            wire_end: self.wire.end as int,
            ttl: self.ttl as int,
            rdata_start: self.rdata.start as int,
            rdata_end: self.rdata.end as int,
        }
    }
}

pub open spec fn records_view(v: Seq<Record>) -> Seq<RecordV> {
    v.map_values(|r: Record| r@)
}

pub open spec fn questions_view(v: Seq<Question>) -> Seq<QuestionV> {
    v.map_values(|q: Question| q@)
}

impl View for Message {
    type V = MessageV;

    open spec fn view(&self) -> MessageV {
        MessageV {
            id: self.id,
            flags: self.flags,
            questions: questions_view(self.questions@),
            answers: records_view(self.answers@),
            authority: records_view(self.authority@),
            additional: records_view(self.additional@),
            original: self.original@,
            spans: self.spans@.map_values(|s: RecordSpan| s@),
        }
    }
}


// ---------------------------------------------------------------------------------------------
// Parsing, as a function of the bytes
// ---------------------------------------------------------------------------------------------

/// Parser state shared by every name in one message: label starts already decoded
/// (valid compression targets) and the work spent.
pub struct PState {
    pub known: Seq<bool>,
    pub work: int,
}

pub open spec fn take_end(b: Seq<u8>, at: int, end: int, n: int) -> Option<int> {
    if 0 <= at && 0 <= n && at + n <= end && at + n <= b.len() {
        Some(at + n)
    } else {
        None
    }
}

pub open spec fn rd8(b: Seq<u8>, at: int, end: int) -> Option<(u8, int)> {
    match take_end(b, at, end, 1) {
        Some(p) => Some((b[at], p)),
        None => None,
    }
}

pub open spec fn rd16(b: Seq<u8>, at: int, end: int) -> Option<(u16, int)> {
    match take_end(b, at, end, 2) {
        Some(p) => Some((be16(b[at], b[at + 1]), p)),
        None => None,
    }
}

pub open spec fn rd32(b: Seq<u8>, at: int, end: int) -> Option<(u32, int)> {
    match take_end(b, at, end, 4) {
        Some(p) => Some((be32(b[at], b[at + 1], b[at + 2], b[at + 3]), p)),
        None => None,
    }
}

pub open spec fn rdbytes(b: Seq<u8>, at: int, end: int, n: int) -> Option<(Seq<u8>, int)> {
    match take_end(b, at, end, n) {
        Some(p) => Some((b.subrange(at, p), p)),
        None => None,
    }
}

pub struct NameOut {
    pub labels: Seq<Seq<u8>>,
    pub positions: Seq<int>,
    pub pos: int,
    pub consumed: Option<int>,
    pub work: int,
}

/// One step of name decoding per octet read: a label, the root, or a pointer to an earlier,
/// already decoded label start (at most 64 pointers and 255 octets per name).
pub open spec fn name_walk(
    b: Seq<u8>,
    known: Seq<bool>,
    work: int,
    pos: int,
    limit: int,
    consumed: Option<int>,
    labels: Seq<Seq<u8>>,
    positions: Seq<int>,
    length: int,
    hops: int,
    compressed: bool,
) -> Option<NameOut>
    decreases MAX_WORK - work,
{
    if work + 1 > MAX_WORK {
        None
    } else {
        match take_end(b, pos, limit, 1) {
            None => None,
            Some(p1) => {
                let c = b[pos];
                if c == 0 {
                    Some(NameOut { labels, positions: positions.push(pos), pos: p1, consumed, work: work + 1 })
                } else if c <= 63 {
                    match take_end(b, p1, limit, c as int) {
                        None => None,
                        Some(p2) => if length + 1 + c > 255 {
                            None
                        } else {
                            name_walk(
                                b,
                                known,
                                work + 1,
                                p2,
                                limit,
                                consumed,
                                labels.push(b.subrange(p1, p2)),
                                positions.push(pos),
                                length + 1 + c,
                                hops,
                                compressed,
                            )
                        },
                    }
                } else if c >= 192 && compressed {
                    match take_end(b, p1, limit, 1) {
                        None => None,
                        Some(p2) => {
                            let target = (c - 192) * 256 + b[p1];
                            if hops + 1 > 64 || target >= pos || !(target < known.len() && known[target]) {
                                None
                            } else {
                                name_walk(
                                    b,
                                    known,
                                    work + 1,
                                    target,
                                    b.len() as int,
                                    match consumed {
                                        Some(c0) => Some(c0),
                                        None => Some(p2),
                                    },
                                    labels,
                                    positions.push(pos),
                                    length,
                                    hops + 1,
                                    compressed,
                                )
                            }
                        },
                    }
                } else {
                    None
                }
            },
        }
    }
}

pub open spec fn mark(known: Seq<bool>, ps: Seq<int>) -> Seq<bool> {
    Seq::new(known.len(), |i: int| known[i] || ps.contains(i))
}

/// Decodes a name at `at`; the position after it is the end of its in-place part.
pub open spec fn parse_name(b: Seq<u8>, st: PState, at: int, end: int, compressed: bool) -> Option<
    (Seq<Seq<u8>>, int, PState),
> {
    match name_walk(b, st.known, st.work, at, end, None, Seq::empty(), Seq::empty(), 1, 0, compressed) {
        None => None,
        Some(o) => if valid_labels(o.labels) {
            Some(
                (
                    o.labels,
                    match o.consumed {
                        Some(c) => c,
                        None => o.pos,
                    },
                    PState { known: mark(st.known, o.positions), work: o.work },
                ),
            )
        } else {
            None
        },
    }
}

pub open spec fn txt_walk(b: Seq<u8>, at: int, end: int, acc: Seq<Seq<u8>>) -> Option<(Seq<Seq<u8>>, int)>
    decreases end - at,
{
    if at < end {
        match rd8(b, at, end) {
            None => None,
            Some((n, p1)) => match rdbytes(b, p1, end, n as int) {
                None => None,
                Some((piece, p2)) => txt_walk(b, p2, end, acc.push(piece)),
            },
        }
    } else {
        Some((acc, at))
    }
}

/// EDNS options or SVCB parameters: key, length, value; SVCB keys strictly increase.
pub open spec fn options_walk(
    b: Seq<u8>,
    at: int,
    end: int,
    ordered: bool,
    prev: Option<u16>,
    acc: Seq<(u16, Seq<u8>)>,
) -> Option<(Seq<(u16, Seq<u8>)>, int)>
    decreases end - at,
{
    if at < end {
        match rd16(b, at, end) {
            None => None,
            Some((key, p1)) => match rd16(b, p1, end) {
                None => None,
                Some((n, p2)) => if ordered && (prev matches Some(p) && key <= p) {
                    None
                } else {
                    match rdbytes(b, p2, end, n as int) {
                        None => None,
                        Some((data, p3)) => options_walk(b, p3, end, ordered, Some(key), acc.push((key, data))),
                    }
                },
            },
        }
    } else {
        Some((acc, at))
    }
}

/// NSEC-style type bitmap: windows strictly increase, each holding 1..=32 octets whose last
/// octet is nonzero.
pub open spec fn bitmap_walk(b: Seq<u8>, at: int, prev: Option<u8>) -> bool
    decreases b.len() - at,
{
    if 0 <= at < b.len() {
        if at + 1 >= b.len() {
            false
        } else {
            let w = b[at];
            let n = b[at + 1] as int;
            if n == 0 || n > 32 || (prev matches Some(p) && w <= p) || at + 2 + n > b.len() {
                false
            } else if b[at + 1 + n] == 0 {
                false
            } else {
                bitmap_walk(b, at + 2 + n, Some(w))
            }
        }
    } else {
        true
    }
}

pub open spec fn spec_bitmap_valid(b: Seq<u8>) -> bool {
    bitmap_walk(b, 0, None)
}

pub open spec fn has_key(params: Seq<(u16, Seq<u8>)>, k: u16) -> bool {
    exists|j: int| 0 <= j < params.len() && #[trigger] params[j].0 == k
}

/// Mandatory keys: strictly increasing 16-bit keys (none zero), each present in the set.
pub open spec fn mandatory_walk(b: Seq<u8>, params: Seq<(u16, Seq<u8>)>, at: int, prev: u16) -> bool
    decreases b.len() - at,
{
    if 0 <= at && at + 2 <= b.len() {
        let k = be16(b[at], b[at + 1]);
        k > prev && has_key(params, k) && mandatory_walk(b, params, at + 2, k)
    } else {
        true
    }
}

/// ALPN identifiers: nonempty length-prefixed strings exactly filling the value.
pub open spec fn alpn_walk(b: Seq<u8>, at: int) -> bool
    decreases b.len() - at,
{
    if 0 <= at < b.len() {
        let n = b[at] as int;
        n != 0 && at + 1 + n <= b.len() && alpn_walk(b, at + 1 + n)
    } else {
        true
    }
}

pub open spec fn svcb_param_ok(params: Seq<(u16, Seq<u8>)>, key: u16, v: Seq<u8>) -> bool {
    if key == 0 {
        v.len() > 0 && v.len() % 2 == 0 && mandatory_walk(v, params, 0, 0)
    } else if key == 1 {
        v.len() > 0 && alpn_walk(v, 0)
    } else if key == 2 {
        v.len() == 0 && has_key(params, 1)
    } else if key == 3 {
        v.len() == 2
    } else if key == 4 {
        v.len() > 0 && v.len() % 4 == 0
    } else if key == 6 {
        v.len() > 0 && v.len() % 16 == 0
    } else {
        true
    }
}

pub open spec fn spec_svcb_valid(params: Seq<(u16, Seq<u8>)>) -> bool {
    forall|i: int| 0 <= i < params.len() ==> #[trigger] svcb_param_ok(params, params[i].0, params[i].1)
}

pub open spec fn ds_digest_ok(bytes: Seq<u8>) -> bool {
    let n = bytes.len();
    if bytes[3] == 1 {
        n == 24
    } else if bytes[3] == 2 {
        n == 36
    } else if bytes[3] == 4 {
        n == 52
    } else {
        true
    }
}

/// NSEC3 (hash present, with a nonzero length, then a type bitmap) or NSEC3PARAM.
pub open spec fn parse_nsec3(b: Seq<u8>, kind: u16, at: int, end: int) -> Option<int> {
    match take_end(b, at, end, 4) {
        None => None,
        Some(p1) => match rd8(b, p1, end) {
            None => None,
            Some((salt, p2)) => match take_end(b, p2, end, salt as int) {
                None => None,
                Some(p3) => if kind == 50 {
                    match rd8(b, p3, end) {
                        None => None,
                        Some((hash, p4)) => if hash == 0 {
                            None
                        } else {
                            match take_end(b, p4, end, hash as int) {
                                None => None,
                                Some(p5) => if spec_bitmap_valid(b.subrange(p5, end)) {
                                    Some(end)
                                } else {
                                    None
                                },
                            }
                        },
                    }
                } else {
                    Some(p3)
                },
            },
        },
    }
}

pub open spec fn parse_rdata(
    b: Seq<u8>,
    st: PState,
    kind: u16,
    at: int,
    end: int,
    srv_compressed: bool,
    mdns: bool,
) -> Option<(RdataV, int, PState)> {
    if kind == 1 || kind == 28 || kind == 2 || kind == 5 || kind == 12 || kind == 39 || kind == 33 || kind == 16 {
        parse_rdata_basic(b, st, kind, at, end, srv_compressed, mdns)
    } else if kind == 6 || kind == 15 || kind == 18 || kind == 21 || kind == 36 || kind == 14 || kind == 17 || kind == 26 {
        parse_rdata_named(b, st, kind, at, end, mdns)
    } else {
        parse_rdata_rest(b, st, kind, at, end, mdns)
    }
}

pub open spec fn parse_rdata_basic(
    b: Seq<u8>,
    st: PState,
    kind: u16,
    at: int,
    end: int,
    srv_compressed: bool,
    mdns: bool,
) -> Option<(RdataV, int, PState)> {
    let n = end - at;
    if kind == 1 && n == 4 {
        match rdbytes(b, at, end, 4) {
            Some((v, p)) => Some((RdataV::A(v), p, st)),
            None => None,
        }
    } else if kind == 28 && n == 16 {
        match rdbytes(b, at, end, 16) {
            Some((v, p)) => Some((RdataV::Aaaa(v), p, st)),
            None => None,
        }
    } else if kind == 1 || kind == 28 {
        None
    } else if kind == 2 || kind == 5 || kind == 12 || kind == 39 {
        match parse_name(b, st, at, end, kind != 39 || mdns) {
            Some((nm, p, st1)) => Some((RdataV::Name(nm), p, st1)),
            None => None,
        }
    } else if kind == 33 {
        match rd16(b, at, end) {
            None => None,
            Some((priority, p1)) => match rd16(b, p1, end) {
                None => None,
                Some((weight, p2)) => match rd16(b, p2, end) {
                    None => None,
                    Some((port, p3)) => match parse_name(b, st, p3, end, srv_compressed) {
                        None => None,
                        Some((target, p4, st1)) => Some((RdataV::Srv { priority, weight, port, target }, p4, st1)),
                    },
                },
            },
        }
    } else if kind == 16 {
        match txt_walk(b, at, end, Seq::empty()) {
            None => None,
            Some((v, p)) => if v.len() == 0 {
                None
            } else {
                Some((RdataV::Txt(v), p, st))
            },
        }
    } else {
        None
    }
}

pub open spec fn parse_rdata_named(b: Seq<u8>, st: PState, kind: u16, at: int, end: int, mdns: bool) -> Option<
    (RdataV, int, PState),
> {
    if kind == 6 {
        match parse_name(b, st, at, end, true) {
            None => None,
            Some((mname, p1, st1)) => match parse_name(b, st1, p1, end, true) {
                None => None,
                Some((rname, p2, st2)) => match rd32(b, p2, end) {
                    None => None,
                    Some((serial, p3)) => match rd32(b, p3, end) {
                        None => None,
                        Some((refresh, p4)) => match rd32(b, p4, end) {
                            None => None,
                            Some((retry, p5)) => match rd32(b, p5, end) {
                                None => None,
                                Some((expire, p6)) => match rd32(b, p6, end) {
                                    None => None,
                                    Some((minimum, p7)) => Some(
                                        (RdataV::Soa { mname, rname, serial, refresh, retry, expire, minimum }, p7, st2),
                                    ),
                                },
                            },
                        },
                    },
                },
            },
        }
    } else if kind == 15 || kind == 18 || kind == 21 || kind == 36 {
        match rd16(b, at, end) {
            None => None,
            Some((preference, p1)) => match parse_name(b, st, p1, end, kind != 36 || mdns) {
                None => None,
                Some((name, p2, st1)) => Some((RdataV::Preference { preference, name }, p2, st1)),
            },
        }
    } else if kind == 14 || kind == 17 {
        match parse_name(b, st, at, end, true) {
            None => None,
            Some((first, p1, st1)) => match parse_name(b, st1, p1, end, true) {
                None => None,
                Some((second, p2, st2)) => Some((RdataV::TwoNames { first, second }, p2, st2)),
            },
        }
    } else if kind == 26 {
        match rd16(b, at, end) {
            None => None,
            Some((preference, p1)) => match parse_name(b, st, p1, end, true) {
                None => None,
                Some((map822, p2, st1)) => match parse_name(b, st1, p2, end, true) {
                    None => None,
                    Some((mapx400, p3, st2)) => Some((RdataV::Px { preference, map822, mapx400 }, p3, st2)),
                },
            },
        }
    } else {
        None
    }
}

pub open spec fn parse_rdata_rest(b: Seq<u8>, st: PState, kind: u16, at: int, end: int, mdns: bool) -> Option<
    (RdataV, int, PState),
> {
    let n = end - at;
    if kind == 25 || kind == 48 || kind == 60 {
        match rd16(b, at, end) {
            None => None,
            Some((flags, p1)) => match rd8(b, p1, end) {
                None => None,
                Some((protocol, p2)) => match rd8(b, p2, end) {
                    None => None,
                    Some((algorithm, p3)) => match rdbytes(b, p3, end, end - p3) {
                        None => None,
                        Some((key, p4)) => Some((RdataV::Key { flags, protocol, algorithm, key }, p4, st)),
                    },
                },
            },
        }
    } else if kind == 24 || kind == 46 {
        parse_sig(b, st, at, end)
    } else if kind == 41 {
        match options_walk(b, at, end, false, None, Seq::empty()) {
            None => None,
            Some((v, p)) => Some((RdataV::Opt(v), p, st)),
        }
    } else if kind == 47 {
        match parse_name(b, st, at, end, mdns) {
            None => None,
            Some((next, p1, st1)) => match rdbytes(b, p1, end, end - p1) {
                None => None,
                Some((bitmap, p2)) => if spec_bitmap_valid(bitmap) {
                    Some((RdataV::Nsec { next, bitmap }, p2, st1))
                } else {
                    None
                },
            },
        }
    } else if kind == 64 || kind == 65 {
        match rd16(b, at, end) {
            None => None,
            Some((priority, p1)) => match parse_name(b, st, p1, end, false) {
                None => None,
                Some((target, p2, st1)) => match options_walk(b, p2, end, true, None, Seq::empty()) {
                    None => None,
                    Some((params, p3)) => if priority != 0 && !spec_svcb_valid(params) {
                        None
                    } else {
                        Some((RdataV::Svcb { priority, target, params }, p3, st1))
                    },
                },
            },
        }
    } else if kind == 43 || kind == 59 {
        if n < 4 {
            None
        } else {
            match rdbytes(b, at, end, n) {
                None => None,
                Some((bytes, p)) => if ds_digest_ok(bytes) {
                    Some((RdataV::Bytes(bytes), p, st))
                } else {
                    None
                },
            }
        }
    } else if kind == 50 || kind == 51 {
        match parse_nsec3(b, kind, at, end) {
            None => None,
            Some(p) => Some((RdataV::Bytes(b.subrange(at, p)), p, st)),
        }
    } else {
        match rdbytes(b, at, end, n) {
            None => None,
            Some((v, p)) => Some((RdataV::Opaque(v), p, st)),
        }
    }
}

pub open spec fn parse_sig(b: Seq<u8>, st: PState, at: int, end: int) -> Option<(RdataV, int, PState)> {
    match rd16(b, at, end) {
        None => None,
        Some((covered, p1)) => match rd8(b, p1, end) {
            None => None,
            Some((algorithm, p2)) => match rd8(b, p2, end) {
                None => None,
                Some((labels, p3)) => match rd32(b, p3, end) {
                    None => None,
                    Some((original_ttl, p4)) => match rd32(b, p4, end) {
                        None => None,
                        Some((expiration, p5)) => match rd32(b, p5, end) {
                            None => None,
                            Some((inception, p6)) => match rd16(b, p6, end) {
                                None => None,
                                Some((key_tag, p7)) => match parse_name(b, st, p7, end, false) {
                                    None => None,
                                    Some((signer, p8, st1)) => match rdbytes(b, p8, end, end - p8) {
                                        None => None,
                                        Some((signature, p9)) => if signature.len() == 0 {
                                            None
                                        } else {
                                            Some(
                                                (
                                                    RdataV::Sig {
                                                        covered,
                                                        algorithm,
                                                        labels,
                                                        original_ttl,
                                                        expiration,
                                                        inception,
                                                        key_tag,
                                                        signer,
                                                        signature,
                                                    },
                                                    p9,
                                                    st1,
                                                ),
                                            )
                                        },
                                    },
                                },
                            },
                        },
                    },
                },
            },
        },
    }
}


pub open spec fn is_update(flags: u16) -> bool {
    (flags / 2048) % 16 == 5
}

/// One resource record: owner, type, class, TTL, length and RDATA, which must be consumed
/// exactly. OPT may appear once, only in the additional section, owned by the root.
pub open spec fn parse_record(
    b: Seq<u8>,
    st: PState,
    at: int,
    section: int,
    opt_seen: bool,
    flags: u16,
    mdns: bool,
) -> Option<(RecordV, SpanV, int, PState, bool)> {
    match parse_name(b, st, at, b.len() as int, true) {
        None => None,
        Some((name, p1, st1)) => match rd16(b, p1, b.len() as int) {
            None => None,
            Some((kind, p2)) => match rd16(b, p2, b.len() as int) {
                None => None,
                Some((class, p3)) => match rd32(b, p3, b.len() as int) {
                    None => None,
                    Some((ttl, p4)) => match rd16(b, p4, b.len() as int) {
                        None => None,
                        Some((len, p5)) => {
                            let end = p5 + len;
                            if end > b.len() {
                                None
                            } else if kind == 41 && (section != 2 || opt_seen || name.len() != 0) {
                                None
                            } else {
                                let rd = if is_update(flags) && len == 0 && (class == 254 || class == 255) {
                                    Some((RdataV::Empty, p5, st1))
                                } else {
                                    parse_rdata(b, st1, kind, p5, end, mdns || is_update(flags), mdns)
                                };
                                match rd {
                                    None => None,
                                    Some((data, p6, st2)) => if p6 != end {
                                        None
                                    } else {
                                        Some(
                                            (
                                                RecordV { name, kind, class, ttl, data },
                                                SpanV { wire_start: at, wire_end: end, ttl: p3, rdata_start: p5, rdata_end: end },
                                                end,
                                                st2,
                                                opt_seen || kind == 41,
                                            ),
                                        )
                                    },
                                }
                            }
                        },
                    },
                },
            },
        },
    }
}

pub open spec fn questions_walk(b: Seq<u8>, st: PState, at: int, remaining: int, acc: Seq<QuestionV>) -> Option<
    (Seq<QuestionV>, int, PState),
>
    decreases remaining,
{
    if remaining <= 0 {
        Some((acc, at, st))
    } else {
        match parse_name(b, st, at, b.len() as int, true) {
            None => None,
            Some((name, p1, st1)) => match rd16(b, p1, b.len() as int) {
                None => None,
                Some((kind, p2)) => match rd16(b, p2, b.len() as int) {
                    None => None,
                    Some((class, p3)) => questions_walk(b, st1, p3, remaining - 1, acc.push(QuestionV { name, kind, class })),
                },
            },
        }
    }
}

pub struct Sections {
    pub answers: Seq<RecordV>,
    pub authority: Seq<RecordV>,
    pub additional: Seq<RecordV>,
    pub spans: Seq<SpanV>,
}

pub open spec fn section_of(done: int, an: int, ns: int) -> int {
    if done < an {
        0
    } else if done < an + ns {
        1
    } else {
        2
    }
}

pub open spec fn add_record(acc: Sections, section: int, r: RecordV, span: SpanV) -> Sections {
    Sections {
        answers: if section == 0 { acc.answers.push(r) } else { acc.answers },
        authority: if section == 1 { acc.authority.push(r) } else { acc.authority },
        additional: if section == 2 { acc.additional.push(r) } else { acc.additional },
        spans: acc.spans.push(span),
    }
}

pub open spec fn records_walk(
    b: Seq<u8>,
    st: PState,
    at: int,
    an: int,
    ns: int,
    total: int,
    done: int,
    opt_seen: bool,
    flags: u16,
    mdns: bool,
    acc: Sections,
) -> Option<(Sections, int, PState)>
    decreases total - done,
{
    if done >= total {
        Some((acc, at, st))
    } else {
        let section = section_of(done, an, ns);
        match parse_record(b, st, at, section, opt_seen, flags, mdns) {
            None => None,
            Some((r, span, p, st1, seen1)) => records_walk(
                b,
                st1,
                p,
                an,
                ns,
                total,
                done + 1,
                seen1,
                flags,
                mdns,
                add_record(acc, section, r, span),
            ),
        }
    }
}

pub open spec fn spans_within(sec: Sections, n: int) -> bool {
    &&& sec.spans.len() == sec.answers.len() + sec.authority.len() + sec.additional.len()
    &&& forall|i: int| 0 <= i < sec.spans.len() ==> 0 <= #[trigger] sec.spans[i].ttl && sec.spans[i].ttl + 4 <= n
}

proof fn lemma_record_span(b: Seq<u8>, st: PState, at: int, section: int, opt_seen: bool, flags: u16, mdns: bool)
    requires
        parse_record(b, st, at, section, opt_seen, flags, mdns) is Some,
    ensures
        parse_record(b, st, at, section, opt_seen, flags, mdns) matches Some((_, span, _, _, _)) && 0 <= span.ttl && span.ttl
            + 4 <= b.len(),
{
    let (name, p1, st1) = parse_name(b, st, at, b.len() as int, true)->0;
    let (kind, p2) = rd16(b, p1, b.len() as int)->0;
    let (class, p3) = rd16(b, p2, b.len() as int)->0;
    assert(rd32(b, p3, b.len() as int) is Some);
    assert(0 <= p3 && p3 + 4 <= b.len());
}

proof fn lemma_records_walk_spans(
    b: Seq<u8>,
    st: PState,
    at: int,
    an: int,
    ns: int,
    total: int,
    done: int,
    opt_seen: bool,
    flags: u16,
    mdns: bool,
    acc: Sections,
)
    requires
        spans_within(acc, b.len() as int),
    ensures
        records_walk(b, st, at, an, ns, total, done, opt_seen, flags, mdns, acc) matches Some((sec, _, _)) ==> spans_within(
            sec,
            b.len() as int,
        ),
    decreases total - done,
{
    if done < total {
        let section = section_of(done, an, ns);
        if let Some((r, span, p, st1, seen1)) = parse_record(b, st, at, section, opt_seen, flags, mdns) {
            lemma_record_span(b, st, at, section, opt_seen, flags, mdns);
            let next = add_record(acc, section, r, span);
            assert forall|i: int| 0 <= i < next.spans.len() implies 0 <= #[trigger] next.spans[i].ttl && next.spans[i].ttl + 4
                <= b.len() by {
                if i < acc.spans.len() {
                    assert(next.spans[i] == acc.spans[i]);
                }
            }
            lemma_records_walk_spans(b, st1, p, an, ns, total, done + 1, seen1, flags, mdns, next);
        }
    }
}

/// A parsed message has one span per record, and each record's TTL field lies within the
/// bytes.
pub proof fn lemma_message_spans(b: Seq<u8>, context: Context)
    requires
        parse_message(b, context) is Some,
    ensures
        ({
            let m = parse_message(b, context)->0;
            &&& m.spans.len() == m.answers.len() + m.authority.len() + m.additional.len()
            &&& forall|i: int| 0 <= i < m.spans.len() ==> 0 <= #[trigger] m.spans[i].ttl && m.spans[i].ttl + 4 <= b.len()
            &&& m.original == b
            &&& 12 <= b.len()
        }),
{
    let qd = be16(b[4], b[5]) as int;
    let an = be16(b[6], b[7]) as int;
    let ns = be16(b[8], b[9]) as int;
    let ar = be16(b[10], b[11]) as int;
    let flags = be16(b[2], b[3]);
    let (qs, p1, st1) = questions_walk(b, init_state(b), 12, qd, Seq::empty())->0;
    assert(spans_within(empty_sections(), b.len() as int));
    lemma_records_walk_spans(b, st1, p1, an, ns, an + ns + ar, 0, false, flags, context == Context::Mdns, empty_sections());
}

/// Name decoding ends, in place, no earlier than where it began.
proof fn lemma_name_walk_forward(
    b: Seq<u8>,
    known: Seq<bool>,
    work: int,
    pos: int,
    limit: int,
    consumed: Option<int>,
    labels: Seq<Seq<u8>>,
    positions: Seq<int>,
    length: int,
    hops: int,
    compressed: bool,
    start: int,
)
    requires
        match consumed {
            None => pos >= start,
            Some(c) => c >= start,
        },
    ensures
        name_walk(b, known, work, pos, limit, consumed, labels, positions, length, hops, compressed) matches Some(o)
            ==> match o.consumed {
            None => o.pos >= start,
            Some(c) => c >= start,
        },
    decreases MAX_WORK - work,
{
    if work + 1 <= MAX_WORK {
        if let Some(p1) = take_end(b, pos, limit, 1) {
            let c = b[pos];
            if c != 0 && c <= 63 {
                if let Some(p2) = take_end(b, p1, limit, c as int) {
                    if length + 1 + c <= 255 {
                        lemma_name_walk_forward(
                            b,
                            known,
                            work + 1,
                            p2,
                            limit,
                            consumed,
                            labels.push(b.subrange(p1, p2)),
                            positions.push(pos),
                            length + 1 + c,
                            hops,
                            compressed,
                            start,
                        );
                    }
                }
            } else if c >= 192 && compressed {
                if let Some(p2) = take_end(b, p1, limit, 1) {
                    let target = (c - 192) * 256 + b[p1];
                    let next = match consumed {
                        Some(c0) => Some(c0),
                        None => Some(p2),
                    };
                    lemma_name_walk_forward(
                        b,
                        known,
                        work + 1,
                        target,
                        b.len() as int,
                        next,
                        labels,
                        positions.push(pos),
                        length,
                        hops + 1,
                        compressed,
                        start,
                    );
                }
            }
        }
    }
}

/// A record's TTL field lies after the record's start, and the record ends after it.
proof fn lemma_record_ttl_order(b: Seq<u8>, st: PState, at: int, section: int, opt_seen: bool, flags: u16, mdns: bool)
    requires
        parse_record(b, st, at, section, opt_seen, flags, mdns) is Some,
    ensures
        parse_record(b, st, at, section, opt_seen, flags, mdns) matches Some((_, span, p, _, _)) && at <= span.ttl
            && span.ttl + 4 <= p,
{
    lemma_name_walk_forward(b, st.known, st.work, at, b.len() as int, None, Seq::empty(), Seq::empty(), 1, 0, true, at);
}

/// The TTL fields of the records read so far come one after another, and before `at`.
pub open spec fn spans_ordered(spans: Seq<SpanV>, at: int) -> bool {
    &&& forall|i: int| 0 <= i < spans.len() ==> #[trigger] spans[i].ttl + 4 <= at
    &&& forall|i: int, j: int| 0 <= i < j < spans.len() ==> #[trigger] spans[i].ttl + 4 <= #[trigger] spans[j].ttl
}

proof fn lemma_records_walk_ordered(
    b: Seq<u8>,
    st: PState,
    at: int,
    an: int,
    ns: int,
    total: int,
    done: int,
    opt_seen: bool,
    flags: u16,
    mdns: bool,
    acc: Sections,
)
    requires
        spans_ordered(acc.spans, at),
    ensures
        records_walk(b, st, at, an, ns, total, done, opt_seen, flags, mdns, acc) matches Some((sec, p, _))
            ==> spans_ordered(sec.spans, p),
    decreases total - done,
{
    if done < total {
        let section = section_of(done, an, ns);
        if let Some((r, span, p, st1, seen1)) = parse_record(b, st, at, section, opt_seen, flags, mdns) {
            lemma_record_ttl_order(b, st, at, section, opt_seen, flags, mdns);
            let next = add_record(acc, section, r, span);
            assert forall|i: int| 0 <= i < next.spans.len() implies #[trigger] next.spans[i].ttl + 4 <= p by {
                if i < acc.spans.len() {
                    assert(next.spans[i] == acc.spans[i]);
                }
            }
            assert forall|i: int, j: int| 0 <= i < j < next.spans.len() implies #[trigger] next.spans[i].ttl + 4
                <= #[trigger] next.spans[j].ttl by {
                assert(next.spans[i] == acc.spans[i]);
                if j < acc.spans.len() {
                    assert(next.spans[j] == acc.spans[j]);
                } else {
                    assert(acc.spans[i].ttl + 4 <= at);
                }
            }
            lemma_records_walk_ordered(b, st1, p, an, ns, total, done + 1, seen1, flags, mdns, next);
        }
    }
}

/// The TTL fields of a parsed message's records come in wire order and do not overlap.
pub proof fn lemma_message_spans_ordered(b: Seq<u8>, context: Context)
    requires
        parse_message(b, context) is Some,
    ensures
        ({
            let m = parse_message(b, context)->0;
            forall|i: int, j: int| 0 <= i < j < m.spans.len() ==> #[trigger] m.spans[i].ttl + 4 <= #[trigger] m.spans[j].ttl
        }),
{
    let qd = be16(b[4], b[5]) as int;
    let an = be16(b[6], b[7]) as int;
    let ns = be16(b[8], b[9]) as int;
    let ar = be16(b[10], b[11]) as int;
    let flags = be16(b[2], b[3]);
    let (qs, p1, st1) = questions_walk(b, init_state(b), 12, qd, Seq::empty())->0;
    assert(spans_ordered(empty_sections().spans, p1));
    lemma_records_walk_ordered(b, st1, p1, an, ns, an + ns + ar, 0, false, flags, context == Context::Mdns, empty_sections());
}

pub open spec fn init_state(b: Seq<u8>) -> PState {
    PState { known: Seq::new(b.len(), |i: int| false), work: 0 }
}

pub open spec fn header_ok(b: Seq<u8>) -> bool {
    &&& 12 <= b.len() <= MAX_WIRE
    &&& be16(b[4], b[5]) + be16(b[6], b[7]) + be16(b[8], b[9]) + be16(b[10], b[11]) <= MAX_RECORDS
    &&& be16(b[4], b[5]) + be16(b[6], b[7]) + be16(b[8], b[9]) + be16(b[10], b[11]) <= (b.len() - 12) / 5
}

pub open spec fn empty_sections() -> Sections {
    Sections { answers: Seq::empty(), authority: Seq::empty(), additional: Seq::empty(), spans: Seq::empty() }
}

/// A whole message: 12-octet header, then questions and the three record sections, which
/// must end exactly at the end of the bytes. Record counts are bounded by 4096 and by the
/// room that minimal records would need.
pub open spec fn parse_message(b: Seq<u8>, context: Context) -> Option<MessageV> {
    if b.len() < 12 || b.len() > MAX_WIRE {
        None
    } else {
        let qd = be16(b[4], b[5]) as int;
        let an = be16(b[6], b[7]) as int;
        let ns = be16(b[8], b[9]) as int;
        let ar = be16(b[10], b[11]) as int;
        let flags = be16(b[2], b[3]);
        let total = qd + an + ns + ar;
        if total > MAX_RECORDS || total > (b.len() - 12) / 5 {
            None
        } else {
            match questions_walk(b, init_state(b), 12, qd, Seq::empty()) {
                None => None,
                Some((qs, p1, st1)) => match records_walk(
                    b,
                    st1,
                    p1,
                    an,
                    ns,
                    an + ns + ar,
                    0,
                    false,
                    flags,
                    context == Context::Mdns,
                    empty_sections(),
                ) {
                    None => None,
                    Some((sec, p2, st2)) => if p2 != b.len() {
                        None
                    } else {
                        Some(
                            MessageV {
                                id: be16(b[0], b[1]),
                                flags,
                                questions: qs,
                                answers: sec.answers,
                                authority: sec.authority,
                                additional: sec.additional,
                                original: b,
                                spans: sec.spans,
                            },
                        )
                    },
                },
            }
        }
    }
}


// ---------------------------------------------------------------------------------------------
// Parser
// ---------------------------------------------------------------------------------------------

pub open spec fn positions_view(v: Seq<usize>) -> Seq<int> {
    v.map_values(|x: usize| x as int)
}

pub open spec fn opt_view(c: Option<usize>) -> Option<int> {
    match c {
        Some(x) => Some(x as int),
        None => None,
    }
}

struct Parser<'a> {
    b: &'a [u8],
    known: Vec<bool>,
    work: usize,
}

impl<'a> Parser<'a> {
    spec fn st(&self) -> PState {
        PState { known: self.known@, work: self.work as int }
    }

    spec fn wf(&self) -> bool {
        &&& self.known@.len() == self.b@.len()
        &&& self.work <= MAX_WORK
    }

    fn take(&self, at: &mut usize, end: usize, n: usize) -> (r: Result<(), Error>)
        ensures
            match take_end(self.b@, *old(at) as int, end as int, n as int) {
                Some(p) => r is Ok && *final(at) == p,
                None => r is Err,
            },
    {
        if n > end || *at > end - n || *at + n > self.b.len() {
            return Err(Error::Invalid);
        }
        *at = *at + n;
        Ok(())
    }

    fn u8(&self, at: &mut usize, end: usize) -> (r: Result<u8, Error>)
        ensures
            match rd8(self.b@, *old(at) as int, end as int) {
                Some((v, p)) => r == Ok::<u8, Error>(v) && *final(at) == p,
                None => r is Err,
            },
    {
        let start = *at;
        self.take(at, end, 1)?;
        Ok(self.b[start])
    }

    fn u16(&self, at: &mut usize, end: usize) -> (r: Result<u16, Error>)
        ensures
            match rd16(self.b@, *old(at) as int, end as int) {
                Some((v, p)) => r == Ok::<u16, Error>(v) && *final(at) == p,
                None => r is Err,
            },
    {
        let start = *at;
        self.take(at, end, 2)?;
        Ok(read_u16(self.b, start))
    }

    fn u32(&self, at: &mut usize, end: usize) -> (r: Result<u32, Error>)
        ensures
            match rd32(self.b@, *old(at) as int, end as int) {
                Some((v, p)) => r == Ok::<u32, Error>(v) && *final(at) == p,
                None => r is Err,
            },
    {
        let start = *at;
        self.take(at, end, 4)?;
        Ok(read_u32(self.b, start))
    }

    fn bytes(&self, at: &mut usize, end: usize, n: usize) -> (r: Result<Vec<u8>, Error>)
        ensures
            match rdbytes(self.b@, *old(at) as int, end as int, n as int) {
                Some((v, p)) => r matches Ok(x) && x@ == v && *final(at) == p,
                None => r is Err,
            },
    {
        let start = *at;
        self.take(at, end, n)?;
        Ok(copy_range(self.b, start, *at))
    }

    fn walk(
        &mut self,
        pos: usize,
        limit: usize,
        consumed: Option<usize>,
        labels: &mut Vec<Vec<u8>>,
        positions: &mut Vec<usize>,
        length: usize,
        hops: usize,
        compressed: bool,
    ) -> (r: Result<(usize, Option<usize>), Error>)
        requires
            old(self).wf(),
            limit <= old(self).b@.len(),
            length <= 255,
            hops <= 64,
            forall|i: int| 0 <= i < old(positions)@.len() ==> #[trigger] old(positions)@[i] < old(self).b@.len(),
        ensures
            final(self).wf(),
            final(self).b == old(self).b,
            final(self).known == old(self).known,
            forall|i: int| 0 <= i < final(positions)@.len() ==> #[trigger] final(positions)@[i] < old(self).b@.len(),
            match name_walk(
                old(self).b@,
                old(self).known@,
                old(self).work as int,
                pos as int,
                limit as int,
                opt_view(consumed),
                labels_view(old(labels)@),
                positions_view(old(positions)@),
                length as int,
                hops as int,
                compressed,
            ) {
                None => r is Err,
                Some(o) => r matches Ok((p, c)) && p == o.pos && opt_view(c) == o.consumed && labels_view(
                    final(labels)@,
                ) == o.labels && positions_view(final(positions)@) == o.positions && final(self).work == o.work,
            },
        decreases MAX_WORK - old(self).work,
    {
        if self.work >= MAX_WORK {
            return Err(Error::Invalid);
        }
        self.work = self.work + 1;
        let mut p = pos;
        self.take(&mut p, limit, 1)?;
        let c = self.b[pos];
        let ghost lv0 = labels_view(labels@);
        let ghost pv0 = positions_view(positions@);
        if c == 0 {
            positions.push(pos);
            assert(positions_view(positions@) =~= pv0.push(pos as int));
            return Ok((p, consumed));
        } else if c <= 63 {
            let start = p;
            self.take(&mut p, limit, c as usize)?;
            if length + 1 + c as usize > 255 {
                return Err(Error::Invalid);
            }
            let label = copy_range(self.b, start, p);
            labels.push(label);
            positions.push(pos);
            assert(labels_view(labels@) =~= lv0.push(self.b@.subrange(start as int, p as int)));
            assert(positions_view(positions@) =~= pv0.push(pos as int));
            return self.walk(p, limit, consumed, labels, positions, length + 1 + c as usize, hops, compressed);
        } else if c >= 192 && compressed {
            let low_at = p;
            self.take(&mut p, limit, 1)?;
            let low = self.b[low_at];
            let target = ((c - 192) as usize) * 256 + low as usize;
            if hops + 1 > 64 || target >= pos || target >= self.known.len() || !self.known[target] {
                return Err(Error::Invalid);
            }
            positions.push(pos);
            assert(positions_view(positions@) =~= pv0.push(pos as int));
            let next_consumed = match consumed {
                Some(c0) => Some(c0),
                None => Some(p),
            };
            return self.walk(target, self.b.len(), next_consumed, labels, positions, length, hops + 1, compressed);
        } else {
            return Err(Error::Invalid);
        }
    }

    fn name(&mut self, at: &mut usize, end: usize, compressed: bool) -> (r: Result<Name, Error>)
        requires
            old(self).wf(),
            end <= old(self).b@.len(),
        ensures
            final(self).wf(),
            final(self).b == old(self).b,
            match parse_name(old(self).b@, old(self).st(), *old(at) as int, end as int, compressed) {
                None => r is Err,
                Some((ls, p, st1)) => r matches Ok(n) && n@ == ls && *final(at) == p && final(self).st() == st1,
            },
    {
        let mut labels: Vec<Vec<u8>> = Vec::new();
        let mut positions: Vec<usize> = Vec::new();
        proof {
            assert(labels_view(labels@) =~= Seq::<Seq<u8>>::empty());
            assert(positions_view(positions@) =~= Seq::<int>::empty());
        }
        let ghost known0 = self.known@;
        let (pos, consumed) = self.walk(*at, end, None, &mut labels, &mut positions, 1, 0, compressed)?;
        *at = match consumed {
            Some(c) => c,
            None => pos,
        };
        let ghost ps = positions_view(positions@);
        let ghost b0 = self.b;
        let ghost w0 = self.work;
        let mut j: usize = 0;
        while j < positions.len()
            invariant
                j <= positions@.len(),
                self.b == b0,
                self.work == w0,
                w0 <= MAX_WORK,
                ps == positions_view(positions@),
                self.known@.len() == known0.len(),
                self.known@.len() == self.b@.len(),
                forall|i: int| 0 <= i < positions@.len() ==> #[trigger] positions@[i] < self.b@.len(),
                forall|i: int| 0 <= i < known0.len() ==> #[trigger] self.known@[i] == (known0[i] || ps.take(j as int).contains(i)),
            decreases positions@.len() - j,
        {
            let q = positions[j];
            let ghost prev = self.known@;
            self.known.set(q, true);
            proof {
                assert(ps[j as int] == q as int);
                assert forall|i: int| 0 <= i < known0.len() implies #[trigger] self.known@[i] == (known0[i]
                    || ps.take(j + 1).contains(i)) by {
                    assert(prev[i] == (known0[i] || ps.take(j as int).contains(i)));
                    if ps.take(j as int).contains(i) {
                        let k = choose|k: int| 0 <= k < ps.take(j as int).len() && #[trigger] ps.take(j as int)[k] == i;
                        assert(ps.take(j + 1)[k] == i);
                    }
                    if i == q as int {
                        assert(ps.take(j + 1)[j as int] == i);
                    }
                    if ps.take(j + 1).contains(i) {
                        let k = choose|k: int| 0 <= k < ps.take(j + 1).len() && #[trigger] ps.take(j + 1)[k] == i;
                        if k < j {
                            assert(ps.take(j as int)[k] == i);
                        }
                    }
                }
            }
            j = j + 1;
        }
        proof {
            assert(ps.take(j as int) =~= ps);
            assert(self.known@ =~= mark(known0, ps));
        }
        Name::from_labels(labels)
    }
}


/// Checks an NSEC-style type bitmap.
pub fn bitmap_valid(b: &[u8]) -> (r: Result<(), Error>)
    ensures
        r is Ok <==> spec_bitmap_valid(b@),
{
    let mut at: usize = 0;
    let mut prev: Option<u8> = None;
    while at < b.len()
        invariant
            at <= b@.len(),
            bitmap_walk(b@, at as int, prev) == bitmap_walk(b@, 0, None),
        decreases b@.len() - at,
    {
        if at + 1 >= b.len() {
            return Err(Error::Invalid);
        }
        let w = b[at];
        let n = b[at + 1] as usize;
        let bad_order = match prev {
            Some(p) => w <= p,
            None => false,
        };
        if n == 0 || n > 32 || bad_order || n > b.len() - (at + 2) {
            return Err(Error::Invalid);
        }
        if b[at + 1 + n] == 0 {
            return Err(Error::Invalid);
        }
        prev = Some(w);
        at = at + 2 + n;
    }
    Ok(())
}

fn has_key_exec(params: &[(u16, Vec<u8>)], k: u16) -> (r: bool)
    ensures
        r == has_key(options_view(params@), k),
{
    let mut i: usize = 0;
    while i < params.len()
        invariant
            i <= params@.len(),
            forall|j: int| 0 <= j < i ==> #[trigger] params@[j].0 != k,
        decreases params@.len() - i,
    {
        if params[i].0 == k {
            assert(options_view(params@)[i as int].0 == k);
            return true;
        }
        i = i + 1;
    }
    assert forall|j: int| 0 <= j < options_view(params@).len() implies #[trigger] options_view(params@)[j].0 != k by {
        assert(params@[j].0 != k);
    }
    false
}

fn svcb_param_exec(params: &[(u16, Vec<u8>)], key: u16, b: &Vec<u8>) -> (r: bool)
    ensures
        r == svcb_param_ok(options_view(params@), key, b@),
{
    if key == 0 {
        if b.len() == 0 || b.len() % 2 != 0 {
            return false;
        }
        let mut at: usize = 0;
        let mut prev: u16 = 0;
        while at < b.len()
            invariant
                key == 0,
                at <= b@.len(),
                b@.len() % 2 == 0,
                at % 2 == 0,
                mandatory_walk(b@, options_view(params@), at as int, prev) == mandatory_walk(
                    b@,
                    options_view(params@),
                    0,
                    0,
                ),
            decreases b@.len() - at,
        {
            assert(at + 2 <= b@.len());
            let k = read_u16(b.as_slice(), at);
            if !(k > prev && has_key_exec(params, k)) {
                return false;
            }
            prev = k;
            at = at + 2;
        }
        true
    } else if key == 1 {
        if b.len() == 0 {
            return false;
        }
        let mut at: usize = 0;
        while at < b.len()
            invariant
                key == 1,
                b@.len() > 0,
                at <= b@.len(),
                alpn_walk(b@, at as int) == alpn_walk(b@, 0),
            decreases b@.len() - at,
        {
            let n = b[at] as usize;
            if n == 0 || n > b.len() - at - 1 {
                return false;
            }
            at = at + 1 + n;
        }
        true
    } else if key == 2 {
        b.len() == 0 && has_key_exec(params, 1)
    } else if key == 3 {
        b.len() == 2
    } else if key == 4 {
        b.len() > 0 && b.len() % 4 == 0
    } else if key == 6 {
        b.len() > 0 && b.len() % 16 == 0
    } else {
        true
    }
}

/// Checks SVCB parameters: mandatory keys, ALPN lists, and fixed value shapes.
pub fn svcb_valid(params: &[(u16, Vec<u8>)]) -> (r: Result<(), Error>)
    ensures
        r is Ok <==> spec_svcb_valid(options_view(params@)),
{
    let ghost pv = options_view(params@);
    let mut i: usize = 0;
    while i < params.len()
        invariant
            i <= params@.len(),
            pv == options_view(params@),
            forall|j: int| 0 <= j < i ==> #[trigger] svcb_param_ok(pv, pv[j].0, pv[j].1),
        decreases params@.len() - i,
    {
        if !svcb_param_exec(params, params[i].0, &params[i].1) {
            assert(!svcb_param_ok(pv, pv[i as int].0, pv[i as int].1));
            return Err(Error::Invalid);
        }
        i = i + 1;
    }
    Ok(())
}

impl<'a> Parser<'a> {
    fn txt(&self, at: &mut usize, end: usize) -> (r: Result<Vec<Vec<u8>>, Error>)
        ensures
            match txt_walk(self.b@, *old(at) as int, end as int, Seq::empty()) {
                Some((v, p)) => r matches Ok(x) && labels_view(x@) == v && *final(at) == p,
                None => r is Err,
            },
    {
        let mut v: Vec<Vec<u8>> = Vec::new();
        let ghost a0 = *at;
        assert(labels_view(v@) =~= Seq::<Seq<u8>>::empty());
        while *at < end
            invariant
                a0 == *old(at),
                txt_walk(self.b@, *at as int, end as int, labels_view(v@)) == txt_walk(
                    self.b@,
                    a0 as int,
                    end as int,
                    Seq::empty(),
                ),
            decreases end - *at,
        {
            let n = self.u8(at, end)?;
            let piece = self.bytes(at, end, n as usize)?;
            let ghost before = v@;
            v.push(piece);
            assert(labels_view(v@) =~= labels_view(before).push(piece@));
        }
        Ok(v)
    }

    fn options(&self, at: &mut usize, end: usize, ordered: bool) -> (r: Result<Vec<(u16, Vec<u8>)>, Error>)
        ensures
            match options_walk(self.b@, *old(at) as int, end as int, ordered, None, Seq::empty()) {
                Some((v, p)) => r matches Ok(x) && options_view(x@) == v && *final(at) == p,
                None => r is Err,
            },
    {
        let mut v: Vec<(u16, Vec<u8>)> = Vec::new();
        let mut prev: Option<u16> = None;
        let ghost a0 = *at;
        assert(options_view(v@) =~= Seq::<(u16, Seq<u8>)>::empty());
        while *at < end
            invariant
                a0 == *old(at),
                options_walk(self.b@, *at as int, end as int, ordered, prev, options_view(v@)) == options_walk(
                    self.b@,
                    a0 as int,
                    end as int,
                    ordered,
                    None,
                    Seq::empty(),
                ),
            decreases end - *at,
        {
            let key = self.u16(at, end)?;
            let n = self.u16(at, end)?;
            let bad = match prev {
                Some(p) => key <= p,
                None => false,
            };
            if ordered && bad {
                return Err(Error::Invalid);
            }
            prev = Some(key);
            let data = self.bytes(at, end, n as usize)?;
            let ghost before = v@;
            v.push((key, data));
            assert(options_view(v@) =~= options_view(before).push((key, data@)));
        }
        Ok(v)
    }
}


impl<'a> Parser<'a> {
    fn sig(&mut self, at: &mut usize, end: usize) -> (r: Result<Rdata, Error>)
        requires
            old(self).wf(),
            end <= old(self).b@.len(),
        ensures
            final(self).wf(),
            final(self).b == old(self).b,
            match parse_sig(old(self).b@, old(self).st(), *old(at) as int, end as int) {
                None => r is Err,
                Some((d, p, st1)) => r matches Ok(x) && x@ == d && *final(at) == p && final(self).st() == st1,
            },
    {
        let covered = self.u16(at, end)?;
        let algorithm = self.u8(at, end)?;
        let labels = self.u8(at, end)?;
        let original_ttl = self.u32(at, end)?;
        let expiration = self.u32(at, end)?;
        let inception = self.u32(at, end)?;
        let key_tag = self.u16(at, end)?;
        let signer = self.name(at, end, false)?;
        if *at > end {
            return Err(Error::Invalid);
        }
        let rest = end - *at;
        let signature = self.bytes(at, end, rest)?;
        if signature.len() == 0 {
            return Err(Error::Invalid);
        }
        Ok(
            Rdata::Sig {
                covered,
                algorithm,
                labels,
                original_ttl,
                expiration,
                inception,
                key_tag,
                signer,
                signature,
            },
        )
    }

    fn nsec3(&self, kind: u16, at: &mut usize, end: usize) -> (r: Result<Rdata, Error>)
        requires
            end <= self.b@.len(),
        ensures
            match parse_nsec3(self.b@, kind, *old(at) as int, end as int) {
                None => r is Err,
                Some(p) => r matches Ok(x) && x@ == RdataV::Bytes(self.b@.subrange(*old(at) as int, p)) && *final(at) == p,
            },
    {
        let start = *at;
        self.take(at, end, 4)?;
        let salt = self.u8(at, end)?;
        self.take(at, end, salt as usize)?;
        if kind == 50 {
            let hash = self.u8(at, end)?;
            if hash == 0 {
                return Err(Error::Invalid);
            }
            self.take(at, end, hash as usize)?;
            let rest = copy_range(self.b, *at, end);
            bitmap_valid(rest.as_slice())?;
            *at = end;
        }
        Ok(Rdata::Bytes(copy_range(self.b, start, *at)))
    }

    fn rdata(&mut self, kind: u16, at: &mut usize, end: usize, srv_compressed: bool, mdns: bool) -> (r: Result<
        Rdata,
        Error,
    >)
        requires
            old(self).wf(),
            end <= old(self).b@.len(),
            *old(at) <= end,
        ensures
            final(self).wf(),
            final(self).b == old(self).b,
            match parse_rdata(old(self).b@, old(self).st(), kind, *old(at) as int, end as int, srv_compressed, mdns) {
                None => r is Err,
                Some((d, p, st1)) => r matches Ok(x) && x@ == d && *final(at) == p && final(self).st() == st1,
            },
    {
        if kind == 1 || kind == 28 || kind == 2 || kind == 5 || kind == 12 || kind == 39 || kind == 33 || kind == 16 {
            self.rdata_basic(kind, at, end, srv_compressed, mdns)
        } else if kind == 6 || kind == 15 || kind == 18 || kind == 21 || kind == 36 || kind == 14 || kind == 17 || kind == 26 {
            self.rdata_named(kind, at, end, mdns)
        } else {
            self.rdata_rest(kind, at, end, mdns)
        }
    }

    fn rdata_basic(&mut self, kind: u16, at: &mut usize, end: usize, srv_compressed: bool, mdns: bool) -> (r: Result<
        Rdata,
        Error,
    >)
        requires
            old(self).wf(),
            end <= old(self).b@.len(),
            *old(at) <= end,
        ensures
            final(self).wf(),
            final(self).b == old(self).b,
            match parse_rdata_basic(old(self).b@, old(self).st(), kind, *old(at) as int, end as int, srv_compressed, mdns) {
                None => r is Err,
                Some((d, p, st1)) => r matches Ok(x) && x@ == d && *final(at) == p && final(self).st() == st1,
            },
    {
        let n = end - *at;
        let start = *at;
        if kind == 1 && n == 4 {
            self.take(at, end, 4)?;
            let a: [u8; 4] = [self.b[start], self.b[start + 1], self.b[start + 2], self.b[start + 3]];
            assert(a@ =~= self.b@.subrange(start as int, start + 4));
            Ok(Rdata::A(a))
        } else if kind == 28 && n == 16 {
            self.take(at, end, 16)?;
            let b = self.b;
            let a: [u8; 16] = [
                b[start], b[start + 1], b[start + 2], b[start + 3], b[start + 4], b[start + 5], b[start + 6],
                b[start + 7], b[start + 8], b[start + 9], b[start + 10], b[start + 11], b[start + 12],
                b[start + 13], b[start + 14], b[start + 15],
            ];
            assert(a@ =~= self.b@.subrange(start as int, start + 16));
            Ok(Rdata::Aaaa(a))
        } else if kind == 1 || kind == 28 {
            Err(Error::Invalid)
        } else if kind == 2 || kind == 5 || kind == 12 || kind == 39 {
            let nm = self.name(at, end, kind != 39 || mdns)?;
            Ok(Rdata::Name(nm))
        } else if kind == 33 {
            let priority = self.u16(at, end)?;
            let weight = self.u16(at, end)?;
            let port = self.u16(at, end)?;
            let target = self.name(at, end, srv_compressed)?;
            Ok(Rdata::Srv { priority, weight, port, target })
        } else if kind == 16 {
            let v = self.txt(at, end)?;
            if v.len() == 0 {
                return Err(Error::Invalid);
            }
            Ok(Rdata::Txt(v))
        } else {
            Err(Error::Invalid)
        }
    }

    fn rdata_named(&mut self, kind: u16, at: &mut usize, end: usize, mdns: bool) -> (r: Result<Rdata, Error>)
        requires
            old(self).wf(),
            end <= old(self).b@.len(),
            *old(at) <= end,
        ensures
            final(self).wf(),
            final(self).b == old(self).b,
            match parse_rdata_named(old(self).b@, old(self).st(), kind, *old(at) as int, end as int, mdns) {
                None => r is Err,
                Some((d, p, st1)) => r matches Ok(x) && x@ == d && *final(at) == p && final(self).st() == st1,
            },
    {
        if kind == 6 {
            let mname = self.name(at, end, true)?;
            let rname = self.name(at, end, true)?;
            let serial = self.u32(at, end)?;
            let refresh = self.u32(at, end)?;
            let retry = self.u32(at, end)?;
            let expire = self.u32(at, end)?;
            let minimum = self.u32(at, end)?;
            Ok(Rdata::Soa { mname, rname, serial, refresh, retry, expire, minimum })
        } else if kind == 15 || kind == 18 || kind == 21 || kind == 36 {
            let preference = self.u16(at, end)?;
            let name = self.name(at, end, kind != 36 || mdns)?;
            Ok(Rdata::Preference { preference, name })
        } else if kind == 14 || kind == 17 {
            let first = self.name(at, end, true)?;
            let second = self.name(at, end, true)?;
            Ok(Rdata::TwoNames { first, second })
        } else if kind == 26 {
            let preference = self.u16(at, end)?;
            let map822 = self.name(at, end, true)?;
            let mapx400 = self.name(at, end, true)?;
            Ok(Rdata::Px { preference, map822, mapx400 })
        } else {
            Err(Error::Invalid)
        }
    }

    fn rdata_rest(&mut self, kind: u16, at: &mut usize, end: usize, mdns: bool) -> (r: Result<Rdata, Error>)
        requires
            old(self).wf(),
            end <= old(self).b@.len(),
            *old(at) <= end,
        ensures
            final(self).wf(),
            final(self).b == old(self).b,
            match parse_rdata_rest(old(self).b@, old(self).st(), kind, *old(at) as int, end as int, mdns) {
                None => r is Err,
                Some((d, p, st1)) => r matches Ok(x) && x@ == d && *final(at) == p && final(self).st() == st1,
            },
    {
        let n = end - *at;
        if kind == 25 || kind == 48 || kind == 60 {
            let flags = self.u16(at, end)?;
            let protocol = self.u8(at, end)?;
            let algorithm = self.u8(at, end)?;
            let rest = end - *at;
            let key = self.bytes(at, end, rest)?;
            Ok(Rdata::Key { flags, protocol, algorithm, key })
        } else if kind == 24 || kind == 46 {
            self.sig(at, end)
        } else if kind == 41 {
            let v = self.options(at, end, false)?;
            Ok(Rdata::Opt(v))
        } else if kind == 47 {
            let next = self.name(at, end, mdns)?;
            if *at > end {
                return Err(Error::Invalid);
            }
            let rest = end - *at;
            let bitmap = self.bytes(at, end, rest)?;
            bitmap_valid(bitmap.as_slice())?;
            Ok(Rdata::Nsec { next, bitmap })
        } else if kind == 64 || kind == 65 {
            let priority = self.u16(at, end)?;
            let target = self.name(at, end, false)?;
            let params = self.options(at, end, true)?;
            if priority != 0 {
                svcb_valid(params.as_slice())?;
            }
            Ok(Rdata::Svcb { priority, target, params })
        } else if kind == 43 || kind == 59 {
            if n < 4 {
                return Err(Error::Invalid);
            }
            let bytes = self.bytes(at, end, n)?;
            let t = bytes[3];
            let ok = if t == 1 {
                n == 24
            } else if t == 2 {
                n == 36
            } else if t == 4 {
                n == 52
            } else {
                true
            };
            if !ok {
                return Err(Error::Invalid);
            }
            Ok(Rdata::Bytes(bytes))
        } else if kind == 50 || kind == 51 {
            self.nsec3(kind, at, end)
        } else {
            let v = self.bytes(at, end, n)?;
            Ok(Rdata::Opaque(v))
        }
    }
}


impl<'a> Parser<'a> {
    fn record(&mut self, at: &mut usize, section: usize, opt_seen: bool, flags: u16, mdns: bool) -> (r: Result<
        (Record, RecordSpan, bool),
        Error,
    >)
        requires
            old(self).wf(),
            section <= 2,
        ensures
            final(self).wf(),
            final(self).b == old(self).b,
            match parse_record(old(self).b@, old(self).st(), *old(at) as int, section as int, opt_seen, flags, mdns) {
                None => r is Err,
                Some((rv, sv, p, st1, seen1)) => r matches Ok((x, sp, seen)) && x@ == rv && sp@ == sv && seen == seen1
                    && *final(at) == p && final(self).st() == st1,
            },
    {
        let start = *at;
        let blen = self.b.len();
        let name = self.name(at, blen, true)?;
        let kind = self.u16(at, blen)?;
        let class = self.u16(at, blen)?;
        let ttl_at = *at;
        let ttl = self.u32(at, blen)?;
        let len = self.u16(at, blen)? as usize;
        let rstart = *at;
        if len > blen - *at {
            return Err(Error::Invalid);
        }
        let end = *at + len;
        if kind == 41 && (section != 2 || opt_seen || name.label_count() != 0) {
            return Err(Error::Invalid);
        }
        let update = (flags / 2048) % 16 == 5;
        let data = if update && len == 0 && (class == 254 || class == 255) {
            Rdata::Empty
        } else {
            self.rdata(kind, at, end, mdns || update, mdns)?
        };
        if *at != end {
            return Err(Error::Invalid);
        }
        let r = Record { name, kind, class, ttl, data };
        let span = RecordSpan { wire: Range { start, end: *at }, ttl: ttl_at, rdata: Range { start: rstart, end } };
        Ok((r, span, opt_seen || kind == 41))
    }
}


fn push_record(m: &mut Message, section: usize, r: Record, span: RecordSpan)
    requires
        section <= 2,
    ensures
        final(m).id == old(m).id,
        final(m).flags == old(m).flags,
        final(m).original == old(m).original,
        final(m).questions == old(m).questions,
        (Sections {
            answers: records_view(final(m).answers@),
            authority: records_view(final(m).authority@),
            additional: records_view(final(m).additional@),
            spans: final(m).spans@.map_values(|s: RecordSpan| s@),
        }) == add_record(
            Sections {
                answers: records_view(old(m).answers@),
                authority: records_view(old(m).authority@),
                additional: records_view(old(m).additional@),
                spans: old(m).spans@.map_values(|s: RecordSpan| s@),
            },
            section as int,
            r@,
            span@,
        ),
{
    let ghost rv = r@;
    let ghost sv = span@;
    if section == 0 {
        m.answers.push(r);
        assert(records_view(m.answers@) =~= records_view(old(m).answers@).push(rv));
    } else if section == 1 {
        m.authority.push(r);
        assert(records_view(m.authority@) =~= records_view(old(m).authority@).push(rv));
    } else {
        m.additional.push(r);
        assert(records_view(m.additional@) =~= records_view(old(m).additional@).push(rv));
    }
    m.spans.push(span);
    assert(m.spans@.map_values(|s: RecordSpan| s@) =~= old(m).spans@.map_values(|s: RecordSpan| s@).push(sv));
}

pub open spec fn sections_of(m: Message) -> Sections {
    Sections {
        answers: records_view(m.answers@),
        authority: records_view(m.authority@),
        additional: records_view(m.additional@),
        spans: m.spans@.map_values(|s: RecordSpan| s@),
    }
}

impl Message {
    /// An empty message with the given identifier and flags.
    pub fn new(id: u16, flags: u16) -> (r: Message)
        ensures
            r@ == (MessageV {
                id,
                flags,
                questions: Seq::empty(),
                answers: Seq::empty(),
                authority: Seq::empty(),
                additional: Seq::empty(),
                original: Seq::empty(),
                spans: Seq::empty(),
            }),
    {
        let m = Message {
            id,
            flags,
            questions: Vec::new(),
            answers: Vec::new(),
            authority: Vec::new(),
            additional: Vec::new(),
            original: Vec::new(),
            spans: Vec::new(),
        };
        assert(m@.questions =~= Seq::<QuestionV>::empty());
        assert(m@.answers =~= Seq::<RecordV>::empty());
        assert(m@.authority =~= Seq::<RecordV>::empty());
        assert(m@.additional =~= Seq::<RecordV>::empty());
        assert(m@.spans =~= Seq::<SpanV>::empty());
        m
    }

    /// The bytes this message was parsed from (empty for a constructed message).
    pub fn original(&self) -> (r: &[u8])
        ensures
            r@ == self@.original,
    {
        self.original.as_slice()
    }

    /// Where each parsed record sat in the original bytes.
    pub fn record_spans(&self) -> (r: &[RecordSpan])
        ensures
            r@ == self.spans@,
    {
        self.spans.as_slice()
    }

    /// Parses and checks a whole message.
    pub fn parse(b: &[u8], context: Context) -> (r: Result<Message, Error>)
        ensures
            r is Ok <==> parse_message(b@, context) is Some,
            r matches Ok(m) ==> m@ == parse_message(b@, context)->0,
    {
        if b.len() < 12 || b.len() > MAX_WIRE {
            return Err(Error::Invalid);
        }
        let qd = read_u16(b, 4) as usize;
        let an = read_u16(b, 6) as usize;
        let ns = read_u16(b, 8) as usize;
        let ar = read_u16(b, 10) as usize;
        let total = qd + an + ns + ar;
        if total > MAX_RECORDS || total > (b.len() - 12) / 5 {
            return Err(Error::Invalid);
        }
        let id = read_u16(b, 0);
        let flags = read_u16(b, 2);
        let mut m = Message::new(id, flags);
        let mut known: Vec<bool> = Vec::new();
        let mut k: usize = 0;
        while k < b.len()
            invariant
                k <= b@.len(),
                known@ == Seq::new(k as nat, |i: int| false),
            decreases b@.len() - k,
        {
            known.push(false);
            k = k + 1;
            assert(known@ =~= Seq::new(k as nat, |i: int| false));
        }
        let mut p = Parser { b, known, work: 0 };
        let mut at: usize = 12;
        let ghost st0 = p.st();
        assert(st0 == init_state(b@));
        assert(header_ok(b@));
        let mut i: usize = 0;
        assert(questions_view(m.questions@) =~= Seq::<QuestionV>::empty());
        assert(sections_of(m) =~= empty_sections());
        while i < qd
            invariant
                p.wf(),
                p.b == b,
                i <= qd,
                qd == be16(b@[4], b@[5]),
                m.id == id,
                m.flags == flags,
                header_ok(b@),
                st0 == init_state(b@),
                sections_of(m) == empty_sections(),
                m.original@.len() == 0,
                questions_walk(b@, p.st(), at as int, (qd - i) as int, questions_view(m.questions@)) == questions_walk(
                    b@,
                    st0,
                    12,
                    qd as int,
                    Seq::empty(),
                ),
            decreases qd - i,
        {
            let blen = b.len();
            let name = p.name(&mut at, blen, true)?;
            let kind = p.u16(&mut at, blen)?;
            let class = p.u16(&mut at, blen)?;
            let ghost before = m.questions@;
            m.questions.push(Question { name, kind, class });
            assert(questions_view(m.questions@) =~= questions_view(before).push(m.questions@.last()@));
            i = i + 1;
        }
        let ghost st1 = p.st();
        let ghost at1 = at;
        let ghost qs = questions_view(m.questions@);
        let rtotal = an + ns + ar;
        let mut done: usize = 0;
        let mut opt_seen = false;
        let mdns = match context {
            Context::Mdns => true,
            Context::Unicast => false,
        };
        while done < rtotal
            invariant
                p.wf(),
                p.b == b,
                done <= rtotal,
                rtotal == an + ns + ar,
                an == be16(b@[6], b@[7]),
                ns == be16(b@[8], b@[9]),
                ar == be16(b@[10], b@[11]),
                mdns == (context == Context::Mdns),
                m.id == id,
                m.flags == flags,
                flags == be16(b@[2], b@[3]),
                m.original@.len() == 0,
                header_ok(b@),
                qd == be16(b@[4], b@[5]),
                questions_walk(b@, init_state(b@), 12, qd as int, Seq::empty()) == Some((qs, at1 as int, st1)),
                questions_view(m.questions@) == qs,
                records_walk(
                    b@,
                    p.st(),
                    at as int,
                    an as int,
                    ns as int,
                    rtotal as int,
                    done as int,
                    opt_seen,
                    flags,
                    mdns,
                    sections_of(m),
                ) == records_walk(b@, st1, at1 as int, an as int, ns as int, rtotal as int, 0, false, flags, mdns, empty_sections()),
            decreases rtotal - done,
        {
            let section: usize = if done < an {
                0
            } else if done < an + ns {
                1
            } else {
                2
            };
            let (r, span, seen) = p.record(&mut at, section, opt_seen, flags, mdns)?;
            opt_seen = seen;
            push_record(&mut m, section, r, span);
            done = done + 1;
        }
        if at != b.len() {
            return Err(Error::Invalid);
        }
        m.original = vstd::slice::slice_to_vec(b);
        Ok(m)
    }
}


// ---------------------------------------------------------------------------------------------
// Name compression for multicast DNS
// ---------------------------------------------------------------------------------------------

pub struct DictV {
    pub entries: Seq<(Seq<u8>, u16)>,
    pub bytes: int,
}

pub open spec fn dict_find(es: Seq<(Seq<u8>, u16)>, key: Seq<u8>) -> Option<u16>
    decreases es.len(),
{
    if es.len() == 0 {
        None
    } else if es[0].0 == key {
        Some(es[0].1)
    } else {
        dict_find(es.drop_first(), key)
    }
}

/// Writes a name with compression. Each suffix found in the dictionary ends the name with a
/// pointer; otherwise the suffix is recorded (while under 1024 entries, 65536 owned octets and
/// a 14-bit offset) and its first label is written.
pub open spec fn dict_write(d: DictV, wire: Seq<u8>, at: int, out: Seq<u8>) -> Option<(DictV, Seq<u8>)>
    decreases wire.len() - at,
{
    if !(0 <= at < wire.len()) {
        None
    } else if wire[at] == 0 {
        if out.len() == MAX_WIRE {
            None
        } else {
            Some((d, out.push(0u8)))
        }
    } else {
        let suffix = wire.subrange(at, wire.len() as int);
        match dict_find(d.entries, suffix) {
            Some(off) => if out.len() + 2 > MAX_WIRE {
                None
            } else {
                Some((d, out + be16_bytes((0xc000 + off) as u16)))
            },
            None => {
                let d2 = if d.entries.len() < 1024 && d.bytes + suffix.len() <= 65536 && out.len() < 0x4000 {
                    DictV { entries: d.entries.push((suffix, out.len() as u16)), bytes: d.bytes + suffix.len() }
                } else {
                    d
                };
                let n = wire[at] + 1;
                if out.len() > MAX_WIRE - n || at + n > wire.len() {
                    None
                } else {
                    dict_write(d2, wire, at + n, out + wire.subrange(at, at + n))
                }
            },
        }
    }
}

pub open spec fn dict_wf(d: DictV) -> bool {
    &&& forall|i: int| 0 <= i < d.entries.len() ==> #[trigger] d.entries[i].1 < 0x4000
    &&& d.entries.len() <= 1024
    &&& 0 <= d.bytes <= 65536
}

/// Compression state: earlier name suffixes and the offsets where they were written.
pub struct Dictionary {
    entries: Vec<(Vec<u8>, u16)>,
    bytes: usize,
}

impl View for Dictionary {
    type V = DictV;

    closed spec fn view(&self) -> DictV {
        DictV { entries: self.entries@.map_values(|e: (Vec<u8>, u16)| (e.0@, e.1)), bytes: self.bytes as int }
    }
}

fn suffix_eq(key: &Vec<u8>, wire: &[u8], at: usize) -> (r: bool)
    requires
        at <= wire@.len(),
    ensures
        r == (key@ == wire@.subrange(at as int, wire@.len() as int)),
{
    if key.len() != wire.len() - at {
        return false;
    }
    let mut i: usize = 0;
    while i < key.len()
        invariant
            key@.len() == wire@.len() - at,
            at <= wire@.len(),
            i <= key@.len(),
            forall|j: int| 0 <= j < i ==> key@[j] == #[trigger] wire@[at + j],
        decreases key@.len() - i,
    {
        let wl = wire.len();
        assert(at + i < wl);
        let j = at + i;
        if key[i] != wire[j] {
            assert(key@[i as int] != wire@.subrange(at as int, wire@.len() as int)[i as int]);
            return false;
        }
        i = i + 1;
    }
    assert forall|j: int| 0 <= j < key@.len() implies key@[j] == wire@.subrange(at as int, wire@.len() as int)[j] by {
        assert(key@[j] == wire@[at + j]);
    }
    assert(key@ =~= wire@.subrange(at as int, wire@.len() as int));
    true
}

impl Dictionary {
    pub closed spec fn wf(&self) -> bool {
        dict_wf(self@)
    }

    /// An empty dictionary.
    pub fn new() -> (r: Dictionary)
        ensures
            r@.entries == Seq::<(Seq<u8>, u16)>::empty(),
            r@.bytes == 0,
            r.wf(),
    {
        let d = Dictionary { entries: Vec::new(), bytes: 0 };
        assert(d@.entries =~= Seq::<(Seq<u8>, u16)>::empty());
        d
    }

    /// Number of recorded suffixes.
    pub fn entry_count(&self) -> (r: usize)
        ensures
            r == self@.entries.len(),
    {
        self.entries.len()
    }

    /// Octets owned by recorded suffixes.
    pub fn byte_count(&self) -> (r: usize)
        ensures
            r == self@.bytes,
    {
        self.bytes
    }

    fn find(&self, wire: &[u8], at: usize) -> (r: Option<u16>)
        requires
            at <= wire@.len(),
        ensures
            r == dict_find(self@.entries, wire@.subrange(at as int, wire@.len() as int)),
    {
        let ghost key = wire@.subrange(at as int, wire@.len() as int);
        let ghost es = self@.entries;
        let mut i: usize = 0;
        assert(es.skip(0) =~= es);
        while i < self.entries.len()
            invariant
                i <= self.entries@.len(),
                es == self@.entries,
                at <= wire@.len(),
                key == wire@.subrange(at as int, wire@.len() as int),
                dict_find(es, key) == dict_find(es.skip(i as int), key),
            decreases self.entries@.len() - i,
        {
            assert(es.skip(i as int).drop_first() =~= es.skip(i + 1));
            assert(es.skip(i as int)[0] == (self.entries@[i as int].0@, self.entries@[i as int].1));
            if suffix_eq(&self.entries[i].0, wire, at) {
                return Some(self.entries[i].1);
            }
            i = i + 1;
        }
        assert(es.skip(i as int).len() == 0);
        None
    }

    /// Writes a name, compressing it against earlier suffixes.
    pub fn write_name(&mut self, name: &Name, out: &mut Vec<u8>) -> (r: Result<(), Error>)
        requires
            old(self).wf(),
        ensures
            final(self).wf(),
            match dict_write(old(self)@, name_wire(name@), 0, old(out)@) {
                None => r is Err,
                Some((d, o)) => r is Ok && final(self)@ == d && final(out)@ == o,
            },
    {
        let mut wire: Vec<u8> = Vec::new();
        name.check_valid();
        name.write(&mut wire);
        assert(wire@ =~= name_wire(name@));
        let mut at: usize = 0;
        proof {
            crate::dns::name::lemma_labels_bytes_len(name@);
        }
        while at < wire.len() && wire[at] != 0
            invariant
                self.wf(),
                wire@ == name_wire(name@),
                at <= wire@.len(),
                wire@.len() <= 255,
                dict_write(self@, wire@, at as int, out@) == dict_write(old(self)@, name_wire(name@), 0, old(out)@),
            decreases wire@.len() - at,
        {
            if let Some(offset) = self.find(wire.as_slice(), at) {
                if out.len() > MAX_WIRE - 2 {
                    return Err(Error::Invalid);
                }
                assert(offset < 0x4000) by {
                    lemma_dict_find_bound(self@.entries, wire@.subrange(at as int, wire@.len() as int));
                }
                push_u16(out, 0xc000 + offset);
                return Ok(());
            }
            let rest = wire.len() - at;
            if self.entries.len() < 1024 && self.bytes + rest <= 65536 && out.len() < 0x4000 {
                let suffix = copy_range(wire.as_slice(), at, wire.len());
                self.bytes = self.bytes + rest;
                let ghost before = self.entries@;
                self.entries.push((suffix, out.len() as u16));
                proof {
                    assert(self.entries@.map_values(|e: (Vec<u8>, u16)| (e.0@, e.1)) =~= before.map_values(
                        |e: (Vec<u8>, u16)| (e.0@, e.1),
                    ).push((suffix@, out@.len() as u16)));
                    assert forall|i: int| 0 <= i < self@.entries.len() implies #[trigger] self@.entries[i].1 < 0x4000 by {
                        if i < before.len() {
                            assert(self@.entries[i] == (before[i].0@, before[i].1));
                        }
                    }
                }
            }
            let n = wire[at] as usize + 1;
            if out.len() > MAX_WIRE - n || at + n > wire.len() {
                return Err(Error::Invalid);
            }
            let ghost out_before = out@;
            let mut k: usize = at;
            let stop = at + n;
            while k < stop
                invariant
                    stop == at + n,
                    at <= k <= at + n <= wire@.len(),
                    out@ == out_before + wire@.subrange(at as int, k as int),
                decreases stop - k,
            {
                out.push(wire[k]);
                k = k + 1;
                assert(out@ =~= out_before + wire@.subrange(at as int, k as int));
            }
            at = at + n;
        }
        if at >= wire.len() {
            return Err(Error::Invalid);
        }
        if out.len() == MAX_WIRE {
            return Err(Error::Invalid);
        }
        out.push(0);
        Ok(())
    }
}

proof fn lemma_dict_find_bound(es: Seq<(Seq<u8>, u16)>, key: Seq<u8>)
    requires
        forall|i: int| 0 <= i < es.len() ==> #[trigger] es[i].1 < 0x4000,
    ensures
        dict_find(es, key) matches Some(o) ==> o < 0x4000,
    decreases es.len(),
{
    if es.len() > 0 {
        assert(es[0].1 < 0x4000);
        assert forall|i: int| 0 <= i < es.drop_first().len() implies #[trigger] es.drop_first()[i].1 < 0x4000 by {
            assert(es.drop_first()[i] == es[i + 1]);
        }
        lemma_dict_find_bound(es.drop_first(), key);
    }
}


// ---------------------------------------------------------------------------------------------
// Encoding
// ---------------------------------------------------------------------------------------------

pub open spec fn emit_name(d: DictV, out: Seq<u8>, name: Seq<Seq<u8>>, compress: bool) -> Option<(DictV, Seq<u8>)> {
    if compress {
        dict_write(d, name_wire(name), 0, out)
    } else {
        Some((d, out + name_wire(name)))
    }
}

pub open spec fn txt_out(v: Seq<Seq<u8>>, out: Seq<u8>) -> Option<Seq<u8>>
    decreases v.len(),
{
    if v.len() == 0 {
        Some(out)
    } else if v[0].len() > 255 {
        None
    } else {
        txt_out(v.drop_first(), out.push(v[0].len() as u8) + v[0])
    }
}

pub open spec fn options_out(v: Seq<(u16, Seq<u8>)>, out: Seq<u8>) -> Option<Seq<u8>>
    decreases v.len(),
{
    if v.len() == 0 {
        Some(out)
    } else if v[0].1.len() > MAX_WIRE {
        None
    } else {
        options_out(v.drop_first(), out + be16_bytes(v[0].0) + be16_bytes(v[0].1.len() as u16) + v[0].1)
    }
}

pub open spec fn with_dict(d: DictV, o: Option<Seq<u8>>) -> Option<(DictV, Seq<u8>)> {
    match o {
        Some(x) => Some((d, x)),
        None => None,
    }
}

#[verifier::opaque]
pub open spec fn rdata_body(data: RdataV, d: DictV, out: Seq<u8>, c: bool) -> Option<(DictV, Seq<u8>)> {
    match data {
        RdataV::Empty => Some((d, out)),
        RdataV::A(a) => Some((d, out + a)),
        RdataV::Aaaa(a) => Some((d, out + a)),
        RdataV::Name(n) => emit_name(d, out, n, c),
        RdataV::Srv { priority, weight, port, target } => emit_name(
            d,
            out + be16_bytes(priority) + be16_bytes(weight) + be16_bytes(port),
            target,
            c,
        ),
        RdataV::Txt(v) => with_dict(d, txt_out(v, out)),
        RdataV::Preference { preference, name } => emit_name(d, out + be16_bytes(preference), name, c),
        RdataV::TwoNames { first, second } => match emit_name(d, out, first, c) {
            None => None,
            Some((d1, o1)) => emit_name(d1, o1, second, c),
        },
        RdataV::Px { preference, map822, mapx400 } => match emit_name(d, out + be16_bytes(preference), map822, c) {
            None => None,
            Some((d1, o1)) => emit_name(d1, o1, mapx400, c),
        },
        RdataV::Soa { mname, rname, serial, refresh, retry, expire, minimum } => match emit_name(d, out, mname, c) {
            None => None,
            Some((d1, o1)) => match emit_name(d1, o1, rname, c) {
                None => None,
                Some((d2, o2)) => Some(
                    (
                        d2,
                        o2 + be32_bytes(serial) + be32_bytes(refresh) + be32_bytes(retry) + be32_bytes(expire)
                            + be32_bytes(minimum),
                    ),
                ),
            },
        },
        RdataV::Key { flags, protocol, algorithm, key } => Some(
            (d, out + be16_bytes(flags) + seq![protocol, algorithm] + key),
        ),
        RdataV::Sig {
            covered,
            algorithm,
            labels,
            original_ttl,
            expiration,
            inception,
            key_tag,
            signer,
            signature,
        } => Some(
            (
                d,
                out + be16_bytes(covered) + seq![algorithm, labels] + be32_bytes(original_ttl) + be32_bytes(expiration)
                    + be32_bytes(inception) + be16_bytes(key_tag) + name_wire(signer) + signature,
            ),
        ),
        RdataV::Opt(v) => with_dict(d, options_out(v, out)),
        RdataV::Nsec { next, bitmap } => match emit_name(d, out, next, c) {
            None => None,
            Some((d1, o1)) => Some((d1, o1 + bitmap)),
        },
        RdataV::Svcb { priority, target, params } => with_dict(
            d,
            options_out(params, out + be16_bytes(priority) + name_wire(target)),
        ),
        RdataV::Bytes(v) => Some((d, out + v)),
        RdataV::Opaque(_) => None,
    }
}

/// RDATA bytes appended to `out`; opaque RDATA cannot be re-encoded, and the message may
/// not grow past 65535 octets.
#[verifier::opaque]
pub open spec fn rdata_out(data: RdataV, d: DictV, out: Seq<u8>, c: bool) -> Option<(DictV, Seq<u8>)> {
    match rdata_body(data, d, out, c) {
        Some((d2, o)) => if o.len() > MAX_WIRE {
            None
        } else {
            Some((d2, o))
        },
        None => None,
    }
}

/// Types whose RDATA names may be compressed in multicast DNS.
pub open spec fn mdns_compressible(kind: u16) -> bool {
    kind == 2 || kind == 5 || kind == 6 || kind == 12 || kind == 15 || kind == 17 || kind == 18 || kind == 21
        || kind == 26 || kind == 33 || kind == 36 || kind == 39 || kind == 47
}

#[verifier::opaque]
pub open spec fn question_out(q: QuestionV, d: DictV, out: Seq<u8>, mdns: bool) -> Option<(DictV, Seq<u8>)> {
    match emit_name(d, out, q.name, mdns) {
        None => None,
        Some((d1, o1)) => Some((d1, o1 + be16_bytes(q.kind) + be16_bytes(q.class))),
    }
}

#[verifier::opaque]
pub open spec fn record_out(r: RecordV, d: DictV, out: Seq<u8>, mdns: bool) -> Option<(DictV, Seq<u8>)> {
    match emit_name(d, out, r.name, mdns) {
        None => None,
        Some((d1, o1)) => {
            let o2 = o1 + be16_bytes(r.kind) + be16_bytes(r.class) + be32_bytes(r.ttl);
            let o3 = o2 + seq![0u8, 0u8];
            match rdata_out(r.data, d1, o3, mdns && mdns_compressible(r.kind)) {
                None => None,
                Some((d2, o4)) => {
                    let n = (o4.len() - o3.len()) as u16;
                    Some((d2, o4.update(o2.len() as int, be16_bytes(n)[0]).update((o2.len() + 1) as int, be16_bytes(n)[1])))
                },
            }
        },
    }
}

pub open spec fn questions_out(qs: Seq<QuestionV>, d: DictV, out: Seq<u8>, mdns: bool) -> Option<(DictV, Seq<u8>)>
    decreases qs.len(),
{
    if qs.len() == 0 {
        Some((d, out))
    } else {
        match question_out(qs[0], d, out, mdns) {
            None => None,
            Some((d1, o1)) => questions_out(qs.drop_first(), d1, o1, mdns),
        }
    }
}

pub open spec fn records_out(rs: Seq<RecordV>, d: DictV, out: Seq<u8>, mdns: bool) -> Option<(DictV, Seq<u8>)>
    decreases rs.len(),
{
    if rs.len() == 0 {
        Some((d, out))
    } else {
        match record_out(rs[0], d, out, mdns) {
            None => None,
            Some((d1, o1)) => records_out(rs.drop_first(), d1, o1, mdns),
        }
    }
}

pub open spec fn empty_dict() -> DictV {
    DictV { entries: Seq::empty(), bytes: 0 }
}

/// The bytes written for a message, before the final check.
pub open spec fn encode_bytes(m: MessageV, context: Context) -> Option<Seq<u8>> {
    let mdns = context == Context::Mdns;
    let total = m.questions.len() + m.answers.len() + m.authority.len() + m.additional.len();
    if total > MAX_RECORDS {
        None
    } else {
        let header = be16_bytes(m.id) + be16_bytes(m.flags) + be16_bytes(m.questions.len() as u16) + be16_bytes(
            m.answers.len() as u16,
        ) + be16_bytes(m.authority.len() as u16) + be16_bytes(m.additional.len() as u16);
        match questions_out(m.questions, empty_dict(), header, mdns) {
            None => None,
            Some((d1, o1)) => match records_out(m.answers, d1, o1, mdns) {
                None => None,
                Some((d2, o2)) => match records_out(m.authority, d2, o2, mdns) {
                    None => None,
                    Some((d3, o3)) => match records_out(m.additional, d3, o3, mdns) {
                        None => None,
                        Some((d4, o4)) => Some(o4),
                    },
                },
            },
        }
    }
}

/// Encoding succeeds only with bytes that parse back in the same context.
pub open spec fn spec_encode(m: MessageV, context: Context) -> Option<Seq<u8>> {
    match encode_bytes(m, context) {
        Some(b) => if parse_message(b, context) is Some {
            Some(b)
        } else {
            None
        },
        None => None,
    }
}

fn emit(name: &Name, out: &mut Vec<u8>, dict: &mut Dictionary, compress: bool) -> (r: Result<(), Error>)
    requires
        old(dict).wf(),
    ensures
        final(dict).wf(),
        match emit_name(old(dict)@, old(out)@, name@, compress) {
            None => r is Err,
            Some((d, o)) => r is Ok && final(dict)@ == d && final(out)@ == o,
        },
{
    if compress {
        dict.write_name(name, out)
    } else {
        name.write(out);
        Ok(())
    }
}

fn write_txt(v: &Vec<Vec<u8>>, out: &mut Vec<u8>) -> (r: Result<(), Error>)
    ensures
        match txt_out(labels_view(v@), old(out)@) {
            None => r is Err,
            Some(o) => r is Ok && final(out)@ == o,
        },
{
    let ghost lv = labels_view(v@);
    let mut i: usize = 0;
    assert(lv.skip(0) =~= lv);
    while i < v.len()
        invariant
            i <= v@.len(),
            lv == labels_view(v@),
            txt_out(lv, old(out)@) == txt_out(lv.skip(i as int), out@),
        decreases v@.len() - i,
    {
        assert(lv.skip(i as int).drop_first() =~= lv.skip(i + 1));
        assert(lv.skip(i as int)[0] == v@[i as int]@);
        let s = &v[i];
        if s.len() > 255 {
            return Err(Error::Invalid);
        }
        out.push(s.len() as u8);
        push_bytes(out, s.as_slice());
        i = i + 1;
    }
    assert(lv.skip(i as int).len() == 0);
    Ok(())
}

fn write_options(v: &Vec<(u16, Vec<u8>)>, out: &mut Vec<u8>) -> (r: Result<(), Error>)
    ensures
        match options_out(options_view(v@), old(out)@) {
            None => r is Err,
            Some(o) => r is Ok && final(out)@ == o,
        },
{
    let ghost ov = options_view(v@);
    let mut i: usize = 0;
    assert(ov.skip(0) =~= ov);
    while i < v.len()
        invariant
            i <= v@.len(),
            ov == options_view(v@),
            options_out(ov, old(out)@) == options_out(ov.skip(i as int), out@),
        decreases v@.len() - i,
    {
        assert(ov.skip(i as int).drop_first() =~= ov.skip(i + 1));
        assert(ov.skip(i as int)[0] == (v@[i as int].0, v@[i as int].1@));
        let code = v[i].0;
        let data = &v[i].1;
        if data.len() > MAX_WIRE {
            return Err(Error::Invalid);
        }
        push_u16(out, code);
        push_u16(out, data.len() as u16);
        push_bytes(out, data.as_slice());
        i = i + 1;
    }
    assert(ov.skip(i as int).len() == 0);
    Ok(())
}


proof fn lemma_dict_write_grows(d: DictV, wire: Seq<u8>, at: int, out: Seq<u8>)
    ensures
        dict_write(d, wire, at, out) matches Some((d2, o)) ==> o.len() >= out.len(),
    decreases wire.len() - at,
{
    if 0 <= at < wire.len() && wire[at] != 0 {
        let suffix = wire.subrange(at, wire.len() as int);
        if dict_find(d.entries, suffix) is None {
            let d2 = if d.entries.len() < 1024 && d.bytes + suffix.len() <= 65536 && out.len() < 0x4000 {
                DictV { entries: d.entries.push((suffix, out.len() as u16)), bytes: d.bytes + suffix.len() }
            } else {
                d
            };
            let n = wire[at] + 1;
            if !(out.len() + n > MAX_WIRE || at + n > wire.len()) {
                lemma_dict_write_grows(d2, wire, at + n, out + wire.subrange(at, at + n));
            }
        }
    }
}

proof fn lemma_emit_grows(d: DictV, out: Seq<u8>, name: Seq<Seq<u8>>, c: bool)
    ensures
        emit_name(d, out, name, c) matches Some((d2, o)) ==> o.len() >= out.len(),
{
    lemma_dict_write_grows(d, name_wire(name), 0, out);
}

proof fn lemma_txt_grows(v: Seq<Seq<u8>>, out: Seq<u8>)
    ensures
        txt_out(v, out) matches Some(o) ==> o.len() >= out.len(),
    decreases v.len(),
{
    if v.len() > 0 && v[0].len() <= 255 {
        lemma_txt_grows(v.drop_first(), out.push(v[0].len() as u8) + v[0]);
    }
}

proof fn lemma_options_grows(v: Seq<(u16, Seq<u8>)>, out: Seq<u8>)
    ensures
        options_out(v, out) matches Some(o) ==> o.len() >= out.len(),
    decreases v.len(),
{
    if v.len() > 0 && v[0].1.len() <= MAX_WIRE {
        lemma_options_grows(v.drop_first(), out + be16_bytes(v[0].0) + be16_bytes(v[0].1.len() as u16) + v[0].1);
    }
}

proof fn lemma_rdata_body_grows(data: RdataV, d: DictV, out: Seq<u8>, c: bool)
    ensures
        rdata_body(data, d, out, c) matches Some((d2, o)) ==> o.len() >= out.len(),
{
    reveal(rdata_body);
    match data {
        RdataV::Name(n) => lemma_emit_grows(d, out, n, c),
        RdataV::Srv { priority, weight, port, target } => lemma_emit_grows(
            d,
            out + be16_bytes(priority) + be16_bytes(weight) + be16_bytes(port),
            target,
            c,
        ),
        RdataV::Txt(v) => lemma_txt_grows(v, out),
        RdataV::Preference { preference, name } => lemma_emit_grows(d, out + be16_bytes(preference), name, c),
        RdataV::TwoNames { first, second } => {
            lemma_emit_grows(d, out, first, c);
            if let Some((d1, o1)) = emit_name(d, out, first, c) {
                lemma_emit_grows(d1, o1, second, c);
            }
        },
        RdataV::Px { preference, map822, mapx400 } => {
            lemma_emit_grows(d, out + be16_bytes(preference), map822, c);
            if let Some((d1, o1)) = emit_name(d, out + be16_bytes(preference), map822, c) {
                lemma_emit_grows(d1, o1, mapx400, c);
            }
        },
        RdataV::Soa { mname, rname, .. } => {
            lemma_emit_grows(d, out, mname, c);
            if let Some((d1, o1)) = emit_name(d, out, mname, c) {
                lemma_emit_grows(d1, o1, rname, c);
            }
        },
        RdataV::Opt(v) => lemma_options_grows(v, out),
        RdataV::Nsec { next, .. } => lemma_emit_grows(d, out, next, c),
        RdataV::Svcb { priority, target, params } => lemma_options_grows(
            params,
            out + be16_bytes(priority) + name_wire(target),
        ),
        _ => {},
    }
}

fn write_fixed(d: &Rdata, out: &mut Vec<u8>, dict: &Dictionary, c: bool) -> (r: Result<(), Error>)
    requires
        !(d is Name || d is Srv || d is Preference || d is TwoNames || d is Px || d is Soa || d is Nsec),
    ensures
        match rdata_body(d@, dict@, old(out)@, c) {
            None => r is Err,
            Some((dd, o)) => r is Ok && final(out)@ == o && dd == dict@,
        },
{
    reveal(rdata_body);
    match d {
        Rdata::Empty => {},
        Rdata::A(a) => push_bytes(out, a.as_slice()),
        Rdata::Aaaa(a) => push_bytes(out, a.as_slice()),
        Rdata::Txt(v) => write_txt(v, out)?,
        Rdata::Key { flags, protocol, algorithm, key } => {
            push_u16(out, *flags);
            out.push(*protocol);
            out.push(*algorithm);
            push_bytes(out, key.as_slice());
            assert(out@ =~= old(out)@ + be16_bytes(*flags) + seq![*protocol, *algorithm] + key@);
        },
        Rdata::Sig {
            covered,
            algorithm,
            labels,
            original_ttl,
            expiration,
            inception,
            key_tag,
            signer,
            signature,
        } => {
            push_u16(out, *covered);
            out.push(*algorithm);
            out.push(*labels);
            push_u32(out, *original_ttl);
            push_u32(out, *expiration);
            push_u32(out, *inception);
            push_u16(out, *key_tag);
            signer.write(out);
            push_bytes(out, signature.as_slice());
            assert(out@ =~= old(out)@ + be16_bytes(*covered) + seq![*algorithm, *labels] + be32_bytes(*original_ttl)
                + be32_bytes(*expiration) + be32_bytes(*inception) + be16_bytes(*key_tag) + name_wire(signer@)
                + signature@);
        },
        Rdata::Opt(v) => write_options(v, out)?,
        Rdata::Svcb { priority, target, params } => {
            push_u16(out, *priority);
            target.write(out);
            assert(out@ =~= old(out)@ + be16_bytes(*priority) + name_wire(target@));
            write_options(params, out)?;
        },
        Rdata::Bytes(v) => push_bytes(out, v.as_slice()),
        Rdata::Opaque(_) => {
            return Err(Error::Invalid);
        },
        _ => {
            return Err(Error::Invalid);
        },
    }
    Ok(())
}

fn write_named(d: &Rdata, out: &mut Vec<u8>, dict: &mut Dictionary, c: bool) -> (r: Result<(), Error>)
    requires
        old(dict).wf(),
        d is Name || d is Srv || d is Preference || d is TwoNames || d is Px || d is Soa || d is Nsec,
    ensures
        final(dict).wf(),
        match rdata_body(d@, old(dict)@, old(out)@, c) {
            None => r is Err,
            Some((dd, o)) => r is Ok && final(dict)@ == dd && final(out)@ == o,
        },
{
    reveal(rdata_body);
    match d {
        Rdata::Name(n) => emit(n, out, dict, c),
        Rdata::Srv { priority, weight, port, target } => {
            push_u16(out, *priority);
            push_u16(out, *weight);
            push_u16(out, *port);
            emit(target, out, dict, c)
        },
        Rdata::Preference { preference, name } => {
            push_u16(out, *preference);
            emit(name, out, dict, c)
        },
        Rdata::TwoNames { first, second } => {
            emit(first, out, dict, c)?;
            emit(second, out, dict, c)
        },
        Rdata::Px { preference, map822, mapx400 } => {
            push_u16(out, *preference);
            emit(map822, out, dict, c)?;
            emit(mapx400, out, dict, c)
        },
        Rdata::Soa { mname, rname, serial, refresh, retry, expire, minimum } => {
            emit(mname, out, dict, c)?;
            emit(rname, out, dict, c)?;
            let ghost o2 = out@;
            push_u32(out, *serial);
            push_u32(out, *refresh);
            push_u32(out, *retry);
            push_u32(out, *expire);
            push_u32(out, *minimum);
            assert(out@ =~= o2 + be32_bytes(*serial) + be32_bytes(*refresh) + be32_bytes(*retry) + be32_bytes(*expire)
                + be32_bytes(*minimum));
            Ok(())
        },
        Rdata::Nsec { next, bitmap } => {
            emit(next, out, dict, c)?;
            push_bytes(out, bitmap.as_slice());
            Ok(())
        },
        _ => Err(Error::Invalid),
    }
}

fn write_data(d: &Rdata, out: &mut Vec<u8>, dict: &mut Dictionary, c: bool) -> (r: Result<(), Error>)
    requires
        old(dict).wf(),
    ensures
        final(dict).wf(),
        match rdata_out(d@, old(dict)@, old(out)@, c) {
            None => r is Err,
            Some((dd, o)) => r is Ok && final(dict)@ == dd && final(out)@ == o,
        },
        r is Ok ==> old(out)@.len() <= final(out)@.len() <= MAX_WIRE,
{
    reveal(rdata_out);
    proof {
        lemma_rdata_body_grows(d@, old(dict)@, old(out)@, c);
    }
    let named = match d {
        Rdata::Name(_) | Rdata::Srv { .. } | Rdata::Preference { .. } | Rdata::TwoNames { .. } | Rdata::Px { .. }
        | Rdata::Soa { .. } | Rdata::Nsec { .. } => true,
        _ => false,
    };
    if named {
        write_named(d, out, dict, c)?;
    } else {
        write_fixed(d, out, dict, c)?;
    }
    if out.len() > MAX_WIRE {
        return Err(Error::Invalid);
    }
    Ok(())
}


fn compressible(kind: u16) -> (r: bool)
    ensures
        r == mdns_compressible(kind),
{
    kind == 2 || kind == 5 || kind == 6 || kind == 12 || kind == 15 || kind == 17 || kind == 18 || kind == 21 || kind
        == 26 || kind == 33 || kind == 36 || kind == 39 || kind == 47
}

fn write_question(q: &Question, out: &mut Vec<u8>, dict: &mut Dictionary, mdns: bool) -> (r: Result<(), Error>)
    requires
        old(dict).wf(),
    ensures
        final(dict).wf(),
        match question_out(q@, old(dict)@, old(out)@, mdns) {
            None => r is Err,
            Some((d, o)) => r is Ok && final(dict)@ == d && final(out)@ == o,
        },
{
    reveal(question_out);
    emit(&q.name, out, dict, mdns)?;
    let ghost o1 = out@;
    push_u16(out, q.kind);
    push_u16(out, q.class);
    assert(out@ =~= o1 + be16_bytes(q.kind) + be16_bytes(q.class));
    Ok(())
}

fn write_record(r: &Record, out: &mut Vec<u8>, dict: &mut Dictionary, mdns: bool) -> (res: Result<(), Error>)
    requires
        old(dict).wf(),
    ensures
        final(dict).wf(),
        match record_out(r@, old(dict)@, old(out)@, mdns) {
            None => res is Err,
            Some((d, o)) => res is Ok && final(dict)@ == d && final(out)@ == o,
        },
{
    reveal(record_out);
    emit(&r.name, out, dict, mdns)?;
    let ghost o1 = out@;
    push_u16(out, r.kind);
    push_u16(out, r.class);
    push_u32(out, r.ttl);
    assert(out@ =~= o1 + be16_bytes(r.kind) + be16_bytes(r.class) + be32_bytes(r.ttl));
    let lenpos = out.len();
    out.push(0);
    out.push(0);
    let start = out.len();
    assert(out@ =~= o1 + be16_bytes(r.kind) + be16_bytes(r.class) + be32_bytes(r.ttl) + seq![0u8, 0u8]);
    let c = mdns && compressible(r.kind);
    write_data(&r.data, out, dict, c)?;
    let n = (out.len() - start) as u16;
    out.set(lenpos, (n / 256) as u8);
    out.set(lenpos + 1, (n % 256) as u8);
    Ok(())
}

fn write_questions(qs: &Vec<Question>, out: &mut Vec<u8>, dict: &mut Dictionary, mdns: bool) -> (r: Result<(), Error>)
    requires
        old(dict).wf(),
    ensures
        final(dict).wf(),
        match questions_out(questions_view(qs@), old(dict)@, old(out)@, mdns) {
            None => r is Err,
            Some((d, o)) => r is Ok && final(dict)@ == d && final(out)@ == o,
        },
{
    let ghost v = questions_view(qs@);
    let mut i: usize = 0;
    assert(v.skip(0) =~= v);
    while i < qs.len()
        invariant
            i <= qs@.len(),
            v == questions_view(qs@),
            dict.wf(),
            questions_out(v, old(dict)@, old(out)@, mdns) == questions_out(v.skip(i as int), dict@, out@, mdns),
        decreases qs@.len() - i,
    {
        assert(v.skip(i as int).drop_first() =~= v.skip(i + 1));
        assert(v.skip(i as int)[0] == qs@[i as int]@);
        write_question(&qs[i], out, dict, mdns)?;
        i = i + 1;
    }
    assert(v.skip(i as int).len() == 0);
    Ok(())
}

fn write_records(rs: &Vec<Record>, out: &mut Vec<u8>, dict: &mut Dictionary, mdns: bool) -> (r: Result<(), Error>)
    requires
        old(dict).wf(),
    ensures
        final(dict).wf(),
        match records_out(records_view(rs@), old(dict)@, old(out)@, mdns) {
            None => r is Err,
            Some((d, o)) => r is Ok && final(dict)@ == d && final(out)@ == o,
        },
{
    let ghost v = records_view(rs@);
    let mut i: usize = 0;
    assert(v.skip(0) =~= v);
    while i < rs.len()
        invariant
            i <= rs@.len(),
            v == records_view(rs@),
            dict.wf(),
            records_out(v, old(dict)@, old(out)@, mdns) == records_out(v.skip(i as int), dict@, out@, mdns),
        decreases rs@.len() - i,
    {
        assert(v.skip(i as int).drop_first() =~= v.skip(i + 1));
        assert(v.skip(i as int)[0] == rs@[i as int]@);
        write_record(&rs[i], out, dict, mdns)?;
        i = i + 1;
    }
    assert(v.skip(i as int).len() == 0);
    Ok(())
}

impl Message {
    /// Encodes as unicast DNS.
    pub fn encode(&self) -> (r: Result<Vec<u8>, Error>)
        ensures
            r is Ok <==> spec_encode(self@, Context::Unicast) is Some,
            r matches Ok(b) ==> b@ == spec_encode(self@, Context::Unicast)->0,
    {
        self.encode_context(Context::Unicast)
    }

    /// Encodes the message; multicast DNS compresses names. The encoding is checked by parsing
    /// it back, so typed fields that disagree with their record type are refused.
    pub fn encode_context(&self, context: Context) -> (r: Result<Vec<u8>, Error>)
        ensures
            r is Ok <==> spec_encode(self@, context) is Some,
            r matches Ok(b) ==> b@ == spec_encode(self@, context)->0,
    {
        let mdns = match context {
            Context::Mdns => true,
            Context::Unicast => false,
        };
        if self.questions.len() > MAX_RECORDS || self.answers.len() > MAX_RECORDS || self.authority.len() > MAX_RECORDS
            || self.additional.len() > MAX_RECORDS {
            return Err(Error::Invalid);
        }
        let total = self.questions.len() + self.answers.len() + self.authority.len() + self.additional.len();
        if total > MAX_RECORDS {
            return Err(Error::Invalid);
        }
        let mut dict = Dictionary::new();
        let mut b: Vec<u8> = Vec::new();
        push_u16(&mut b, self.id);
        push_u16(&mut b, self.flags);
        push_u16(&mut b, self.questions.len() as u16);
        push_u16(&mut b, self.answers.len() as u16);
        push_u16(&mut b, self.authority.len() as u16);
        push_u16(&mut b, self.additional.len() as u16);
        let ghost m = self@;
        assert(b@ =~= be16_bytes(m.id) + be16_bytes(m.flags) + be16_bytes(m.questions.len() as u16) + be16_bytes(
            m.answers.len() as u16,
        ) + be16_bytes(m.authority.len() as u16) + be16_bytes(m.additional.len() as u16));
        assert(dict@ == empty_dict());
        write_questions(&self.questions, &mut b, &mut dict, mdns)?;
        write_records(&self.answers, &mut b, &mut dict, mdns)?;
        write_records(&self.authority, &mut b, &mut dict, mdns)?;
        write_records(&self.additional, &mut b, &mut dict, mdns)?;
        assert(encode_bytes(m, context) == Some(b@));
        Message::parse(b.as_slice(), context)?;
        Ok(b)
    }
}


// ---------------------------------------------------------------------------------------------
// TCP framing
// ---------------------------------------------------------------------------------------------

/// Octets charged for a queue of complete frames: each body plus its two-octet length.
pub open spec fn ready_charge(rs: Seq<Seq<u8>>) -> int
    decreases rs.len(),
{
    if rs.len() == 0 {
        0
    } else {
        ready_charge(rs.drop_last()) + rs.last().len() + 2
    }
}

/// Octets reserved for the frame being received: nothing, a two-octet header, or the whole
/// announced frame once its header is known.
pub open spec fn partial_charge(p: Seq<u8>) -> int {
    if p.len() == 0 {
        0
    } else if p.len() < 2 {
        2
    } else {
        be16(p[0], p[1]) + 2
    }
}

/// Validates frame headers in `s` from `at`: each announced length lies in 12..=max, at most
/// 32 complete frames may be queued, and every announced frame is charged in full.
pub open spec fn frames_scan(s: Seq<u8>, at: int, count: int, alloc: int, max: int) -> Option<(int, int)>
    decreases s.len() - at,
{
    if 0 <= at && s.len() - at >= 2 {
        let n = be16(s[at], s[at + 1]) as int;
        if n < 12 || n > max {
            None
        } else if s.len() - at < n + 2 {
            Some((s.len() as int, alloc + n + 2))
        } else if count + 1 > 32 {
            None
        } else {
            frames_scan(s, at + n + 2, count + 1, alloc + n + 2, max)
        }
    } else {
        Some((at, alloc))
    }
}

/// Complete frames (bodies without their length) and the incomplete remainder.
pub open spec fn split_frames(s: Seq<u8>) -> (Seq<Seq<u8>>, Seq<u8>)
    decreases s.len(),
{
    if s.len() >= 2 && s.len() >= be16(s[0], s[1]) + 2 {
        let n = be16(s[0], s[1]) as int;
        let rest = split_frames(s.skip(n + 2));
        (seq![s.subrange(2, n + 2)] + rest.0, rest.1)
    } else {
        (Seq::empty(), s)
    }
}

pub struct FramesV {
    pub max: int,
    pub partial: Seq<u8>,
    pub ready: Seq<Seq<u8>>,
    pub bytes: int,
}

/// The state after accepting `b` under `limit`, or None when the input is refused (which
/// leaves the state unchanged).
pub open spec fn frames_input(f: FramesV, b: Seq<u8>, limit: int) -> Option<FramesV> {
    let lim = if limit < MAX_WIRE + 2 { limit } else { MAX_WIRE + 2 };
    let s = f.partial + b;
    if b.len() > MAX_WIRE + 2 - f.bytes {
        None
    } else {
        match frames_scan(s, 0, f.ready.len() as int, ready_charge(f.ready), f.max) {
            None => None,
            Some((at, alloc)) => {
                let alloc2 = if at < s.len() { alloc + 2 } else { alloc };
                if alloc2 > lim {
                    None
                } else {
                    Some(
                        FramesV {
                            max: f.max,
                            partial: split_frames(s).1,
                            ready: f.ready + split_frames(s).0,
                            bytes: f.bytes + b.len(),
                        },
                    )
                }
            },
        }
    }
}

/// One connection's bounded framing state; capacity rejection leaves it unchanged.
pub struct TcpFrames {
    max: usize,
    partial: Vec<u8>,
    ready: VecDeque<Vec<u8>>,
    reserved: usize,
    bytes: usize,
}

pub open spec fn frames_wf(f: FramesV) -> bool {
    &&& 12 <= f.max <= MAX_WIRE
    &&& f.bytes == ready_charge(f.ready) + f.partial.len()
    &&& f.bytes <= MAX_WIRE + 2
    &&& f.partial.len() >= 2 ==> f.partial.len() < be16(f.partial[0], f.partial[1]) + 2
}

impl View for TcpFrames {
    type V = FramesV;

    closed spec fn view(&self) -> FramesV {
        FramesV {
            max: self.max as int,
            partial: self.partial@,
            ready: labels_view(self.ready@),
            bytes: self.bytes as int,
        }
    }
}

proof fn lemma_ready_charge_push(rs: Seq<Seq<u8>>, f: Seq<u8>)
    ensures
        ready_charge(rs.push(f)) == ready_charge(rs) + f.len() + 2,
{
    assert(rs.push(f).drop_last() =~= rs);
}

proof fn lemma_ready_charge_concat(rs: Seq<Seq<u8>>, fs: Seq<Seq<u8>>)
    ensures
        ready_charge(rs + fs) == ready_charge(rs) + ready_charge(fs),
    decreases fs.len(),
{
    if fs.len() == 0 {
        assert(rs + fs =~= rs);
    } else {
        assert((rs + fs).drop_last() =~= rs + fs.drop_last());
        lemma_ready_charge_concat(rs, fs.drop_last());
    }
}

proof fn lemma_ready_charge_front(rs: Seq<Seq<u8>>)
    requires
        rs.len() > 0,
    ensures
        ready_charge(rs) == rs[0].len() + 2 + ready_charge(rs.drop_first()),
{
    lemma_ready_charge_concat(seq![rs[0]], rs.drop_first());
    assert(seq![rs[0]] + rs.drop_first() =~= rs);
    assert(seq![rs[0]].drop_last() =~= Seq::<Seq<u8>>::empty());
    assert(ready_charge(Seq::<Seq<u8>>::empty()) == 0);
    assert(ready_charge(seq![rs[0]]) == rs[0].len() + 2);
}

proof fn lemma_ready_charge_nonneg(rs: Seq<Seq<u8>>)
    ensures
        ready_charge(rs) >= 2 * rs.len(),
    decreases rs.len(),
{
    if rs.len() > 0 {
        lemma_ready_charge_nonneg(rs.drop_last());
    }
}

/// Splitting preserves every octet: frames with their lengths, then the remainder.
proof fn lemma_split_charge(s: Seq<u8>)
    ensures
        ready_charge(split_frames(s).0) + split_frames(s).1.len() == s.len(),
        split_frames(s).1.len() >= 2 ==> split_frames(s).1.len() < be16(split_frames(s).1[0], split_frames(s).1[1]) + 2,
    decreases s.len(),
{
    if s.len() >= 2 && s.len() >= be16(s[0], s[1]) + 2 {
        let n = be16(s[0], s[1]) as int;
        lemma_split_charge(s.skip(n + 2));
        let rest = split_frames(s.skip(n + 2));
        lemma_ready_charge_front(seq![s.subrange(2, n + 2)] + rest.0);
        assert((seq![s.subrange(2, n + 2)] + rest.0).drop_first() =~= rest.0);
    }
}

impl TcpFrames {
    /// Queued frames, the remainder and the counters agree.
    pub closed spec fn wf(&self) -> bool {
        &&& frames_wf(self@)
        &&& self.reserved == ready_charge(self@.ready)
    }

    /// A framing state that accepts messages of 12..=max octets.
    pub fn new(max: usize) -> (r: Result<TcpFrames, Error>)
        ensures
            r is Ok <==> 12 <= max <= MAX_WIRE,
            r matches Ok(f) ==> f.wf() && f@ == (FramesV { max: max as int, partial: Seq::empty(), ready: Seq::empty(), bytes: 0 }),
    {
        if max < 12 || max > MAX_WIRE {
            return Err(Error::Invalid);
        }
        let f = TcpFrames { max, partial: Vec::new(), ready: VecDeque::new(), reserved: 0, bytes: 0 };
        assert(f@.ready =~= Seq::<Seq<u8>>::empty());
        Ok(f)
    }

    /// Prefixes one message with its two-octet length.
    pub fn frame(b: &[u8]) -> (r: Result<Vec<u8>, Error>)
        ensures
            r is Ok <==> 12 <= b@.len() <= MAX_WIRE,
            r matches Ok(v) ==> v@ == be16_bytes(b@.len() as u16) + b@,
    {
        if b.len() < 12 || b.len() > MAX_WIRE {
            return Err(Error::Invalid);
        }
        let mut out: Vec<u8> = Vec::new();
        push_u16(&mut out, b.len() as u16);
        push_bytes(&mut out, b);
        Ok(out)
    }

    /// Accepts received octets with the full per-connection budget.
    pub fn input(&mut self, b: &[u8]) -> (r: Result<(), Error>)
        requires
            old(self).wf(),
        ensures
            final(self).wf(),
            match frames_input(old(self)@, b@, MAX_WIRE + 2) {
                None => r is Err && final(self)@ == old(self)@,
                Some(f) => r is Ok && final(self)@ == f,
            },
    {
        self.input_with_limit(b, MAX_WIRE + 2)
    }

    /// Charges reserved frame bodies as well as received octets before accepting any of
    /// them; an invalid later frame does not commit an earlier complete one.
    pub fn input_with_limit(&mut self, b: &[u8], limit: usize) -> (r: Result<(), Error>)
        requires
            old(self).wf(),
        ensures
            final(self).wf(),
            match frames_input(old(self)@, b@, limit as int) {
                None => r is Err && final(self)@ == old(self)@,
                Some(f) => r is Ok && final(self)@ == f,
            },
    {
        let lim = if limit < MAX_WIRE + 2 { limit } else { MAX_WIRE + 2 };
        if b.len() > MAX_WIRE + 2 - self.bytes {
            return Err(Error::Invalid);
        }
        let mut s: Vec<u8> = Vec::new();
        push_bytes(&mut s, self.partial.as_slice());
        push_bytes(&mut s, b);
        let ghost sv = s@;
        let total = s.len();
        let mut at: usize = 0;
        let mut count: usize = self.ready.len();
        let mut allocated: usize = self.reserved;
        proof {
            lemma_ready_charge_nonneg(self@.ready);
        }
        assert(labels_view(self.ready@).len() == self.ready@.len());
        loop
            invariant_except_break
                allocated <= self.reserved + at,
                frames_scan(sv, at as int, count as int, allocated as int, self.max as int) == frames_scan(
                    sv,
                    0,
                    old(self)@.ready.len() as int,
                    ready_charge(old(self)@.ready),
                    old(self)@.max,
                ),
            invariant
                s@ == sv,
                total == sv.len(),
                total <= 2 * (MAX_WIRE + 2),
                self.reserved <= MAX_WIRE + 2,
                12 <= self.max <= MAX_WIRE,
                self.wf(),
                self@ == old(self)@,
                at <= total,
                sv == old(self)@.partial + b@,
                b@.len() <= MAX_WIRE + 2 - old(self)@.bytes,
            ensures
                allocated <= self.reserved + total + MAX_WIRE + 2,
                frames_scan(sv, 0, old(self)@.ready.len() as int, ready_charge(old(self)@.ready), old(self)@.max)
                    == Some((at as int, allocated as int)),
            decreases total - at,
        {
            if total - at < 2 {
                break;
            }
            let n = read_u16(s.as_slice(), at) as usize;
            if n < 12 || n > self.max {
                return Err(Error::Invalid);
            }
            allocated = allocated + n + 2;
            if total - at < n + 2 {
                at = total;
                break;
            }
            if count >= 32 {
                return Err(Error::Invalid);
            }
            count = count + 1;
            at = at + n + 2;
        }
        if at < total {
            allocated = allocated + 2;
        }
        if allocated > lim {
            return Err(Error::Invalid);
        }
        // Commit: queue every complete frame and keep the remainder.
        let mut pos: usize = 0;
        let ghost r0 = labels_view(self.ready@);
        let ghost mut done: Seq<Seq<u8>> = Seq::empty();
        assert(sv.skip(0) =~= sv);
        while pos + 2 <= total && total - pos - 2 >= read_u16(s.as_slice(), pos) as usize
            invariant
                s@ == sv,
                total == sv.len(),
                pos <= total,
                labels_view(self.ready@) == r0 + done,
                split_frames(sv) == (done + split_frames(sv.skip(pos as int)).0, split_frames(sv.skip(pos as int)).1),
                self.reserved == ready_charge(r0 + done),
                ready_charge(r0 + done) <= ready_charge(r0) + pos,
                ready_charge(r0) == old(self).reserved,
                old(self).reserved <= MAX_WIRE + 2,
                r0 == old(self)@.ready,
                self.bytes == old(self).bytes,
                self.max == old(self).max,
                self.partial == old(self).partial,
                sv == old(self)@.partial + b@,
                b@.len() <= MAX_WIRE + 2 - old(self)@.bytes,
                frames_wf(old(self)@),
                old(self).reserved == ready_charge(old(self)@.ready),
                total <= 2 * (MAX_WIRE + 2),
            decreases total - pos,
        {
            let n = read_u16(s.as_slice(), pos) as usize;
            let body = copy_range(s.as_slice(), pos + 2, pos + 2 + n);
            proof {
                let t = sv.skip(pos as int);
                assert(t[0] == sv[pos as int] && t[1] == sv[pos + 1]);
                assert(t.skip(n + 2) =~= sv.skip(pos + n + 2));
                assert(t.subrange(2, n + 2) =~= body@);
                assert(done + (seq![body@] + split_frames(t.skip(n + 2)).0) =~= done.push(body@) + split_frames(
                    t.skip(n + 2),
                ).0);
                lemma_ready_charge_push(r0 + done, body@);
                assert((r0 + done).push(body@) =~= r0 + done.push(body@));
            }
            let ghost before = self.ready@;
            self.reserved = self.reserved + n + 2;
            self.ready.push_back(body);
            proof {
                done = done.push(body@);
                assert(labels_view(self.ready@) =~= labels_view(before).push(body@));
            }
            pos = pos + 2 + n;
        }
        let rest = copy_range(s.as_slice(), pos, total);
        proof {
            let t = sv.skip(pos as int);
            assert(t =~= rest@);
            assert(split_frames(t) == (Seq::<Seq<u8>>::empty(), t));
            assert(done + Seq::<Seq<u8>>::empty() =~= done);
            lemma_split_charge(sv);
            lemma_ready_charge_concat(r0, done);
        }
        self.partial = rest;
        self.bytes = self.bytes + b.len();
        Ok(())
    }

    /// Takes the oldest complete frame.
    pub fn pop(&mut self) -> (r: Option<Vec<u8>>)
        requires
            old(self).wf(),
        ensures
            final(self).wf(),
            old(self)@.ready.len() == 0 ==> r is None && final(self)@ == old(self)@,
            old(self)@.ready.len() > 0 ==> (r matches Some(v) && v@ == old(self)@.ready[0] && final(self)@ == (FramesV {
                ready: old(self)@.ready.drop_first(),
                bytes: old(self)@.bytes - v@.len() - 2,
                ..old(self)@
            })),
    {
        let ghost rv = labels_view(self.ready@);
        match self.ready.pop_front() {
            None => None,
            Some(b) => {
                proof {
                    assert(rv[0] == b@);
                    lemma_ready_charge_front(rv);
                    lemma_ready_charge_nonneg(rv.drop_first());
                    assert(labels_view(self.ready@) =~= rv.drop_first());
                }
                self.bytes = self.bytes - (b.len() + 2);
                self.reserved = self.reserved - (b.len() + 2);
                Some(b)
            },
        }
    }

    /// Octets reserved for queued and partially received frames.
    pub fn allocated(&self) -> (r: usize)
        requires
            self.wf(),
        ensures
            r == ready_charge(self@.ready) + partial_charge(self@.partial),
    {
        let p = if self.partial.len() == 0 {
            0
        } else if self.partial.len() < 2 {
            2
        } else {
            read_u16(self.partial.as_slice(), 0) as usize + 2
        };
        self.reserved + p
    }

    /// Received octets not yet taken by `pop`.
    pub fn buffered(&self) -> (r: usize)
        ensures
            r == self@.bytes,
    {
        self.bytes
    }
}


// ---------------------------------------------------------------------------------------------
// Copies
// ---------------------------------------------------------------------------------------------

pub fn copy_labels(v: &Vec<Vec<u8>>) -> (r: Vec<Vec<u8>>)
    ensures
        labels_view(r@) == labels_view(v@),
{
    let mut out: Vec<Vec<u8>> = Vec::new();
    let mut i: usize = 0;
    while i < v.len()
        invariant
            i <= v@.len(),
            labels_view(out@) == labels_view(v@).take(i as int),
        decreases v@.len() - i,
    {
        let c = vstd::slice::slice_to_vec(v[i].as_slice());
        let ghost before = out@;
        out.push(c);
        assert(labels_view(out@) =~= labels_view(before).push(c@));
        i = i + 1;
        assert(labels_view(out@) =~= labels_view(v@).take(i as int));
    }
    assert(labels_view(v@).take(i as int) =~= labels_view(v@));
    out
}

pub fn copy_options(v: &Vec<(u16, Vec<u8>)>) -> (r: Vec<(u16, Vec<u8>)>)
    ensures
        options_view(r@) == options_view(v@),
{
    let mut out: Vec<(u16, Vec<u8>)> = Vec::new();
    let mut i: usize = 0;
    while i < v.len()
        invariant
            i <= v@.len(),
            options_view(out@) == options_view(v@).take(i as int),
        decreases v@.len() - i,
    {
        let c = vstd::slice::slice_to_vec(v[i].1.as_slice());
        let ghost before = out@;
        out.push((v[i].0, c));
        assert(options_view(out@) =~= options_view(before).push((v@[i as int].0, c@)));
        i = i + 1;
        assert(options_view(out@) =~= options_view(v@).take(i as int));
    }
    assert(options_view(v@).take(i as int) =~= options_view(v@));
    out
}

impl Clone for Rdata {
    fn clone(&self) -> (r: Rdata)
        ensures
            r@ == self@,
    {
        match self {
            Rdata::Empty => Rdata::Empty,
            Rdata::A(a) => Rdata::A(*a),
            Rdata::Aaaa(a) => Rdata::Aaaa(*a),
            Rdata::Name(n) => Rdata::Name(n.clone()),
            Rdata::Srv { priority, weight, port, target } => Rdata::Srv {
                priority: *priority,
                weight: *weight,
                port: *port,
                target: target.clone(),
            },
            Rdata::Txt(v) => Rdata::Txt(copy_labels(v)),
            Rdata::Preference { preference, name } => Rdata::Preference { preference: *preference, name: name.clone() },
            Rdata::TwoNames { first, second } => Rdata::TwoNames { first: first.clone(), second: second.clone() },
            Rdata::Px { preference, map822, mapx400 } => Rdata::Px {
                preference: *preference,
                map822: map822.clone(),
                mapx400: mapx400.clone(),
            },
            Rdata::Soa { mname, rname, serial, refresh, retry, expire, minimum } => Rdata::Soa {
                mname: mname.clone(),
                rname: rname.clone(),
                serial: *serial,
                refresh: *refresh,
                retry: *retry,
                expire: *expire,
                minimum: *minimum,
            },
            Rdata::Key { flags, protocol, algorithm, key } => Rdata::Key {
                flags: *flags,
                protocol: *protocol,
                algorithm: *algorithm,
                key: vstd::slice::slice_to_vec(key.as_slice()),
            },
            Rdata::Sig {
                covered,
                algorithm,
                labels,
                original_ttl,
                expiration,
                inception,
                key_tag,
                signer,
                signature,
            } => Rdata::Sig {
                covered: *covered,
                algorithm: *algorithm,
                labels: *labels,
                original_ttl: *original_ttl,
                expiration: *expiration,
                inception: *inception,
                key_tag: *key_tag,
                signer: signer.clone(),
                signature: vstd::slice::slice_to_vec(signature.as_slice()),
            },
            Rdata::Opt(v) => Rdata::Opt(copy_options(v)),
            Rdata::Nsec { next, bitmap } => Rdata::Nsec {
                next: next.clone(),
                bitmap: vstd::slice::slice_to_vec(bitmap.as_slice()),
            },
            Rdata::Svcb { priority, target, params } => Rdata::Svcb {
                priority: *priority,
                target: target.clone(),
                params: copy_options(params),
            },
            Rdata::Bytes(v) => Rdata::Bytes(vstd::slice::slice_to_vec(v.as_slice())),
            Rdata::Opaque(v) => Rdata::Opaque(vstd::slice::slice_to_vec(v.as_slice())),
        }
    }
}

impl Clone for Record {
    fn clone(&self) -> (r: Record)
        ensures
            r@ == self@,
    {
        Record { name: self.name.clone(), kind: self.kind, class: self.class, ttl: self.ttl, data: self.data.clone() }
    }
}

impl Clone for Question {
    fn clone(&self) -> (r: Question)
        ensures
            r@ == self@,
    {
        Question { name: self.name.clone(), kind: self.kind, class: self.class }
    }
}

pub fn copy_records(v: &Vec<Record>) -> (r: Vec<Record>)
    ensures
        records_view(r@) == records_view(v@),
{
    let mut out: Vec<Record> = Vec::new();
    let mut i: usize = 0;
    while i < v.len()
        invariant
            i <= v@.len(),
            records_view(out@) == records_view(v@).take(i as int),
        decreases v@.len() - i,
    {
        let c = v[i].clone();
        let ghost before = out@;
        out.push(c);
        assert(records_view(out@) =~= records_view(before).push(c@));
        i = i + 1;
        assert(records_view(out@) =~= records_view(v@).take(i as int));
    }
    assert(records_view(v@).take(i as int) =~= records_view(v@));
    out
}

/// A framed message fed to an idle connection becomes exactly one ready message, itself,
/// with nothing left over.
pub proof fn lemma_frame_roundtrip(f: FramesV, m: Seq<u8>)
    requires
        frames_wf(f),
        f.partial.len() == 0,
        f.ready.len() == 0,
        f.bytes == 0,
        12 <= m.len() <= f.max,
    ensures
        frames_input(f, be16_bytes(m.len() as u16) + m, MAX_WIRE + 2) matches Some(g) && g.ready == seq![m]
            && g.partial.len() == 0,
{
    let n = m.len() as int;
    let s = f.partial + (be16_bytes(m.len() as u16) + m);
    assert(s =~= be16_bytes(m.len() as u16) + m);
    crate::bytes::lemma_be16_roundtrip(m.len() as u16);
    assert(be16(s[0], s[1]) == n);
    assert(ready_charge(f.ready) == 0);
    assert(frames_scan(s, n + 2, 1, n + 2, f.max) == Some((n + 2, n + 2)));
    assert(frames_scan(s, 0, 0, 0, f.max) == Some((n + 2, n + 2)));
    assert(s.subrange(2, n + 2) =~= m);
    assert(s.skip(n + 2) =~= Seq::<u8>::empty());
    assert(split_frames(s.skip(n + 2)) == (Seq::<Seq<u8>>::empty(), Seq::<u8>::empty()));
    assert(split_frames(s).0 =~= seq![m]);
    assert(f.ready + seq![m] =~= seq![m]);
}

/// Accepted input grows the buffered octets by its length, keeps the frame limit, and queues
/// new frames behind those already ready; refused input changes nothing (see
/// `input_with_limit`).
pub proof fn lemma_frames_input(f: FramesV, b: Seq<u8>, limit: int)
    ensures
        frames_input(f, b, limit) matches Some(g) ==> g.bytes == f.bytes + b.len() && g.max == f.max && g.ready.take(
            f.ready.len() as int,
        ) == f.ready && g.ready.len() >= f.ready.len(),
{
    if let Some(g) = frames_input(f, b, limit) {
        let s = f.partial + b;
        assert((f.ready + split_frames(s).0).take(f.ready.len() as int) =~= f.ready);
    }
}


proof fn lemma_scan_charge(s: Seq<u8>, at: int, count: int, alloc: int, max: int)
    requires
        0 <= at <= s.len(),
        frames_scan(s, at, count, alloc, max) is Some,
    ensures
        ({
            let (end, a) = frames_scan(s, at, count, alloc, max)->0;
            let sp = split_frames(s.skip(at));
            (if end < s.len() { a + 2 } else { a }) == alloc + ready_charge(sp.0) + partial_charge(sp.1)
        }),
    decreases s.len() - at,
{
    let t = s.skip(at);
    if s.len() - at >= 2 {
        let n = be16(s[at], s[at + 1]) as int;
        assert(t[0] == s[at] && t[1] == s[at + 1]);
        if s.len() - at < n + 2 {
            assert(split_frames(t) == (Seq::<Seq<u8>>::empty(), t));
            assert(ready_charge(Seq::<Seq<u8>>::empty()) == 0);
        } else {
            lemma_scan_charge(s, at + n + 2, count + 1, alloc + n + 2, max);
            assert(t.skip(n + 2) =~= s.skip(at + n + 2));
            let rest = split_frames(s.skip(at + n + 2));
            assert(split_frames(t) == (seq![t.subrange(2, n + 2)] + rest.0, rest.1));
            lemma_ready_charge_front(seq![t.subrange(2, n + 2)] + rest.0);
            assert((seq![t.subrange(2, n + 2)] + rest.0).drop_first() =~= rest.0);
        }
    } else {
        assert(split_frames(t) == (Seq::<Seq<u8>>::empty(), t));
        assert(ready_charge(Seq::<Seq<u8>>::empty()) == 0);
    }
}

/// What accepted input leaves reserved, the ready frames and the frame under way together,
/// stays within the limit it was accepted under and within one full message and its header;
/// input longer than the room left is refused.
pub proof fn lemma_frames_within_limit(f: FramesV, b: Seq<u8>, limit: int)
    ensures
        b.len() > MAX_WIRE + 2 - f.bytes ==> frames_input(f, b, limit) is None,
        frames_input(f, b, limit) matches Some(g) ==> ready_charge(g.ready) + partial_charge(g.partial) <= (if limit
            < MAX_WIRE + 2 { limit } else { MAX_WIRE + 2 }),
{
    if let Some(g) = frames_input(f, b, limit) {
        let s = f.partial + b;
        lemma_scan_charge(s, 0, f.ready.len() as int, ready_charge(f.ready), f.max);
        assert(s.skip(0) =~= s);
        lemma_ready_charge_concat(f.ready, split_frames(s).0);
    }
}


/// Messages framed one after another, each behind its two-octet length.
pub open spec fn framed(ms: Seq<Seq<u8>>) -> Seq<u8>
    decreases ms.len(),
{
    if ms.len() == 0 {
        Seq::empty()
    } else {
        be16_bytes(ms[0].len() as u16) + ms[0] + framed(ms.drop_first())
    }
}

/// The chunks one after another.
pub open spec fn flatten_chunks(cs: Seq<Seq<u8>>) -> Seq<u8>
    decreases cs.len(),
{
    if cs.len() == 0 {
        Seq::empty()
    } else {
        flatten_chunks(cs.drop_last()) + cs.last()
    }
}

/// The state after feeding the chunks in turn, or `None` once one is refused.
pub open spec fn feed(f: FramesV, cs: Seq<Seq<u8>>, limit: int) -> Option<FramesV>
    decreases cs.len(),
{
    if cs.len() == 0 {
        Some(f)
    } else {
        match feed(f, cs.drop_last(), limit) {
            Some(g) => frames_input(g, cs.last(), limit),
            None => None,
        }
    }
}

proof fn lemma_split_append(s: Seq<u8>, b: Seq<u8>)
    ensures
        split_frames(s + b) == (split_frames(s).0 + split_frames(split_frames(s).1 + b).0, split_frames(split_frames(s).1
            + b).1),
    decreases s.len(),
{
    if s.len() >= 2 && s.len() >= be16(s[0], s[1]) + 2 {
        let n = be16(s[0], s[1]) as int;
        let t = s + b;
        assert(t[0] == s[0] && t[1] == s[1]);
        assert(t.subrange(2, n + 2) =~= s.subrange(2, n + 2));
        assert(t.skip(n + 2) =~= s.skip(n + 2) + b);
        lemma_split_append(s.skip(n + 2), b);
        assert(split_frames(s).1 == split_frames(s.skip(n + 2)).1);
        assert(seq![s.subrange(2, n + 2)] + split_frames(s.skip(n + 2)).0 + split_frames(split_frames(s).1 + b).0 =~= seq![
            s.subrange(2, n + 2)] + (split_frames(s.skip(n + 2)).0 + split_frames(split_frames(s).1 + b).0));
    } else {
        assert(split_frames(s).0 + split_frames(s + b).0 =~= split_frames(s + b).0);
    }
}

proof fn lemma_split_framed(ms: Seq<Seq<u8>>)
    requires
        forall|i: int| 0 <= i < ms.len() ==> (#[trigger] ms[i]).len() <= 65535,
    ensures
        split_frames(framed(ms)) == (ms, Seq::<u8>::empty()),
    decreases ms.len(),
{
    if ms.len() == 0 {
        assert(split_frames(Seq::<u8>::empty()) == (Seq::<Seq<u8>>::empty(), Seq::<u8>::empty()));
        assert(ms =~= Seq::<Seq<u8>>::empty());
    } else {
        let m = ms[0];
        let n = m.len() as int;
        let s = framed(ms);
        let rest = ms.drop_first();
        assert forall|i: int| 0 <= i < rest.len() implies (#[trigger] rest[i]).len() <= 65535 by {
            assert(rest[i] == ms[i + 1]);
        }
        lemma_split_framed(rest);
        crate::bytes::lemma_be16_roundtrip(m.len() as u16);
        assert(s[0] == be16_bytes(m.len() as u16)[0] && s[1] == be16_bytes(m.len() as u16)[1]);
        assert(be16(s[0], s[1]) == n);
        assert(s.subrange(2, n + 2) =~= m);
        assert(s.skip(n + 2) =~= framed(rest));
        assert(seq![m] + rest =~= ms);
    }
}

proof fn lemma_feed(f: FramesV, cs: Seq<Seq<u8>>, limit: int)
    requires
        frames_wf(f),
    ensures
        feed(f, cs, limit) matches Some(g) ==> g.ready == f.ready + split_frames(f.partial + flatten_chunks(cs)).0 && g.partial
            == split_frames(f.partial + flatten_chunks(cs)).1,
    decreases cs.len(),
{
    if cs.len() == 0 {
        assert(f.partial + flatten_chunks(cs) =~= f.partial);
        assert(split_frames(f.partial) == (Seq::<Seq<u8>>::empty(), f.partial));
        assert(f.ready + split_frames(f.partial).0 =~= f.ready);
    } else {
        lemma_feed(f, cs.drop_last(), limit);
        if let Some(g1) = feed(f, cs.drop_last(), limit) {
            if let Some(g) = frames_input(g1, cs.last(), limit) {
                let s = f.partial + flatten_chunks(cs.drop_last());
                lemma_split_append(s, cs.last());
                assert(s + cs.last() =~= f.partial + flatten_chunks(cs));
                assert(g.ready =~= f.ready + split_frames(f.partial + flatten_chunks(cs)).0);
            }
        }
    }
}


/// Frames sent in any cut: messages framed one after another and fed to a connection in
/// chunks cut anywhere come out ready, in order, behind those ready before, with nothing
/// left over once every chunk was accepted.
pub proof fn lemma_frames_in_chunks(f: FramesV, cs: Seq<Seq<u8>>, ms: Seq<Seq<u8>>, limit: int)
    requires
        frames_wf(f),
        f.partial.len() == 0,
        flatten_chunks(cs) == framed(ms),
        forall|i: int| 0 <= i < ms.len() ==> (#[trigger] ms[i]).len() <= 65535,
    ensures
        feed(f, cs, limit) matches Some(g) ==> g.ready == f.ready + ms && g.partial.len() == 0,
{
    lemma_feed(f, cs, limit);
    lemma_split_framed(ms);
    assert(f.partial + flatten_chunks(cs) =~= framed(ms));
}

} // verus!
