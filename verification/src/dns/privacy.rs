//! Discovery of Designated Resolvers (RFC 9462) for one resolver: opportunistic
//! designations keep the resolver's own address.
use crate::bytes::be16;
use crate::dns::name::{canonical_wire, labels_view, Name};
use crate::dns::wire::{
    options_view, parse_message, records_view, spec_encode, Context, Message, MessageV, QuestionV, Rdata, RdataV, Record, RecordV,
};
use crate::error::Error;
use crate::mdns::advertise::{is_link_local6, is_loopback6, is_unique_local6, is_unspecified6};
use crate::ipv4::{is_link_local4, is_private4};
use crate::text::string_from_utf8;
use crate::time::RandomSource;
use vstd::prelude::*;

pub mod address;
pub mod policy;

pub use policy::{DdrProbe, Policy, Probe, Route, TlsProbe};
use vstd::utf8::{decode_utf8, valid_utf8};

verus! {

/// An IPv4 or IPv6 address, as its octets.
#[derive(Clone, Copy, Debug)]
pub enum IpAddress {
    V4([u8; 4]),
    V6([u8; 16]),
}

/// An address and port.
#[derive(Clone, Copy, Debug)]
pub struct SocketAddress {
    pub ip: IpAddress,
    pub port: u16,
}

impl View for SocketAddress {
    type V = SocketAddress;

    open spec fn view(&self) -> SocketAddress {
        *self
    }
}

/// An encrypted resolver that the plain one designated.
#[derive(Debug)]
pub struct Designation {
    pub endpoint: SocketAddress,
    pub server_name: String,
    pub priority: u16,
    pub expires: u64,
}

pub struct DesignationV {
    pub endpoint: SocketAddress,
    pub server_name: Seq<char>,
    pub priority: u16,
    pub expires: u64,
}

impl View for Designation {
    type V = DesignationV;

    open spec fn view(&self) -> DesignationV {
        DesignationV {
            endpoint: self.endpoint,
            server_name: self.server_name@,
            priority: self.priority,
            expires: self.expires,
        }
    }
}

/// What a DDR answer gives: designations, or an alias to follow.
#[derive(Debug)]
pub struct Discovery {
    pub candidates: Vec<Designation>,
    pub alias: Option<(Name, u64)>,
}

pub struct DiscoveryV {
    pub candidates: Seq<DesignationV>,
    pub alias: Option<(Seq<Seq<u8>>, u64)>,
}

pub open spec fn designations_view(v: Seq<Designation>) -> Seq<DesignationV> {
    v.map_values(|d: Designation| d@)
}

impl View for Discovery {
    type V = DiscoveryV;

    open spec fn view(&self) -> DiscoveryV {
        DiscoveryV {
            candidates: designations_view(self.candidates@),
            alias: match self.alias {
                Some((n, t)) => Some((n@, t)),
                None => None,
            },
        }
    }
}

pub open spec fn ip_unspecified(a: IpAddress) -> bool {
    match a {
        IpAddress::V4(b) => b[0] == 0 && b[1] == 0 && b[2] == 0 && b[3] == 0,
        IpAddress::V6(b) => is_unspecified6(b@),
    }
}

pub open spec fn ip_multicast(a: IpAddress) -> bool {
    match a {
        IpAddress::V4(b) => 224 <= b[0] <= 239,
        IpAddress::V6(b) => b[0] == 0xff,
    }
}

/// A private, link-local or loopback resolver, for which unauthenticated designation is used.
pub open spec fn ip_local(a: IpAddress) -> bool {
    match a {
        IpAddress::V4(b) => is_private4(b@) || is_link_local4(b@) || b[0] == 127,
        IpAddress::V6(b) => is_unique_local6(b@) || is_link_local6(b@) || is_loopback6(b@),
    }
}

/// "resolver.arpa."
pub open spec fn resolver_arpa() -> Seq<Seq<u8>> {
    seq![seq![114u8, 101u8, 115u8, 111u8, 108u8, 118u8, 101u8, 114u8], seq![97u8, 114u8, 112u8, 97u8]]
}

pub open spec fn is_alnum(c: u8) -> bool {
    (48 <= c <= 57) || (65 <= c <= 90) || (97 <= c <= 122)
}

pub open spec fn host_label(l: Seq<u8>) -> bool {
    &&& !(l.len() > 0 && l[0] == 45)
    &&& !(l.len() > 0 && l.last() == 45)
    &&& forall|j: int| 0 <= j < l.len() ==> is_alnum(#[trigger] l[j]) || l[j] == 45
}

/// Labels joined by dots.
pub open spec fn dotted(ls: Seq<Seq<u8>>) -> Seq<u8>
    decreases ls.len(),
{
    if ls.len() == 0 {
        Seq::empty()
    } else if ls.len() == 1 {
        ls[0]
    } else {
        dotted(ls.drop_last()) + seq![46u8] + ls.last()
    }
}

/// The TLS server name of a target: a host name of letter-digit-hyphen labels, not the
/// root and not resolver.arpa.
pub open spec fn spec_hostname(n: Seq<Seq<u8>>) -> Option<Seq<char>> {
    if n.len() == 0 || canonical_wire(n) == canonical_wire(resolver_arpa()) {
        None
    } else if !(forall|i: int| 0 <= i < n.len() ==> host_label(#[trigger] n[i])) || !valid_utf8(dotted(n)) {
        None
    } else {
        Some(decode_utf8(dotted(n)))
    }
}

pub open spec fn params_bytes(p: Seq<(u16, Seq<u8>)>) -> int
    decreases p.len(),
{
    if p.len() == 0 {
        0
    } else {
        params_bytes(p.drop_last()) + p.last().1.len()
    }
}

/// A message holding just the record, as the DDR answer would carry it.
pub open spec fn single(r: RecordV) -> MessageV {
    MessageV {
        id: 0,
        flags: 0x8000,
        questions: Seq::empty(),
        answers: seq![r],
        authority: Seq::empty(),
        additional: Seq::empty(),
        original: Seq::empty(),
        spans: Seq::empty(),
    }
}

/// An SVCB record of the answer: bounded parameters that encode and parse back, with
/// address hints of sane size.
pub open spec fn svcb_record_ok(r: RecordV) -> bool {
    match r.data {
        RdataV::Svcb { params, .. } => {
            &&& params.len() <= 16
            &&& params_bytes(params) <= 4096
            &&& spec_encode(single(r), Context::Unicast) is Some
            &&& !(exists|k: int| 0 <= k < params.len() && ((#[trigger] params[k]).0 == 4 && params[k].1.len() > 32
                || params[k].0 == 6 && params[k].1.len() > 128))
        },
        _ => false,
    }
}

/// The answers that are SVCB records for the question's name.
pub open spec fn ddr_records(rs: Seq<RecordV>, q: QuestionV) -> Seq<RecordV>
    decreases rs.len(),
{
    if rs.len() == 0 {
        Seq::empty()
    } else {
        let r = rs.last();
        let rest = ddr_records(rs.drop_last(), q);
        if canonical_wire(r.name) == canonical_wire(q.name) && r.kind == 64 && r.class == 1 && r.ttl > 0 {
            rest.push(r)
        } else {
            rest
        }
    }
}

pub open spec fn is_alias(r: RecordV) -> bool {
    r.data matches RdataV::Svcb { priority, .. } && priority == 0
}

pub open spec fn aliases(rs: Seq<RecordV>) -> Seq<RecordV>
    decreases rs.len(),
{
    if rs.len() == 0 {
        Seq::empty()
    } else if is_alias(rs.last()) {
        aliases(rs.drop_last()).push(rs.last())
    } else {
        aliases(rs.drop_last())
    }
}

/// A DDR answer from a usable resolver address: one SVC question, a response, at most 64
/// records, every matching record a well-formed SVCB.
pub open spec fn ddr_acceptable(origin: SocketAddress, m: MessageV) -> bool {
    &&& origin.port != 0
    &&& !ip_unspecified(origin.ip)
    &&& !ip_multicast(origin.ip)
    &&& m.flags & 0xfa0fu16 == 0x8000
    &&& m.questions.len() == 1
    &&& m.questions[0].kind == 64
    &&& m.questions[0].class == 1
    &&& m.answers.len() + m.authority.len() + m.additional.len() <= 64
    &&& forall|i: int| 0 <= i < ddr_records(m.answers, m.questions[0]).len() ==> svcb_record_ok(
        #[trigger] ddr_records(m.answers, m.questions[0])[i],
    )
}

pub open spec fn deadline(now: u64, ttl: u32) -> u64 {
    let t = if ttl < 86400 { ttl } else { 86400 };
    if now + t * 1000 > u64::MAX {
        u64::MAX
    } else {
        (now + t * 1000) as u64
    }
}

/// The discovery that follows the alias record chosen among the aliases.
pub open spec fn alias_discovery(r: RecordV, q: QuestionV, now: u64) -> DiscoveryV {
    match r.data {
        RdataV::Svcb { target, .. } => DiscoveryV {
            candidates: Seq::empty(),
            alias: if target.len() > 0 && canonical_wire(target) != canonical_wire(q.name) {
                Some((target, deadline(now, r.ttl)))
            } else {
                None
            },
        },
        _ => DiscoveryV { candidates: Seq::empty(), alias: None },
    }
}

/// Whether `ip` is the address that `bytes` spell.
pub open spec fn ip_is(ip: IpAddress, bytes: Seq<u8>) -> bool {
    match ip {
        IpAddress::V4(a) => bytes.len() == 4 && a@ == bytes,
        IpAddress::V6(a) => bytes.len() == 16 && a@ == bytes,
    }
}

/// The mandatory-keys parameter names only keys this resolver understands.
pub open spec fn mandatory_ok(params: Seq<(u16, Seq<u8>)>) -> bool {
    forall|k: int, c: int|
        0 <= k < params.len() && params[k].0 == 0 && 0 <= c && 2 * c + 1 < params[k].1.len() ==> {
            let v = be16(#[trigger] params[k].1[2 * c], params[k].1[2 * c + 1]);
            v == 1 || v == 2 || v == 3 || v == 4 || v == 6
        }
}

/// The value of the first parameter with the key.
pub open spec fn first_param(params: Seq<(u16, Seq<u8>)>, key: u16) -> Option<Seq<u8>>
    decreases params.len(),
{
    if params.len() == 0 {
        None
    } else if params[0].0 == key {
        Some(params[0].1)
    } else {
        first_param(params.drop_first(), key)
    }
}

/// "dot"
pub open spec fn dot() -> Seq<u8> {
    seq![100u8, 111u8, 116u8]
}

/// Whether the ALPN list names DNS over TLS; a truncated entry ends the list.
pub open spec fn alpn_has_dot(p: Seq<u8>) -> bool
    decreases p.len(),
{
    if p.len() == 0 {
        false
    } else {
        let n = p[0] as int;
        if 1 + n > p.len() {
            false
        } else {
            p.subrange(1, 1 + n) == dot() || alpn_has_dot(p.skip(1 + n))
        }
    }
}

/// The designated port: the port parameter, else 853; a short port parameter counts as 0.
pub open spec fn port_of(params: Seq<(u16, Seq<u8>)>) -> u16 {
    match first_param(params, 3) {
        None => 853,
        Some(b) => if b.len() >= 2 {
            be16(b[0], b[1])
        } else {
            0
        },
    }
}

/// Address hints in the parameters, and whether one of them is the resolver's own.
pub open spec fn hint_evidence(params: Seq<(u16, Seq<u8>)>) -> bool {
    exists|k: int|
        0 <= k < params.len() && ((#[trigger] params[k]).0 == 4 && params[k].1.len() >= 4 || params[k].0 == 6
            && params[k].1.len() >= 16)
}

/// Chunk `c` of `size` octets in `b` spells `ip`.
pub open spec fn chunk_is(ip: IpAddress, b: Seq<u8>, size: int, c: int) -> bool {
    0 <= c && size * c + size <= b.len() && ip_is(ip, b.subrange(size * c, size * c + size))
}

pub open spec fn hint_same(params: Seq<(u16, Seq<u8>)>, ip: IpAddress) -> bool {
    exists|k: int, c: int|
        #![trigger chunk_is(ip, params[k].1, 4, c)]
        #![trigger chunk_is(ip, params[k].1, 16, c)]
        0 <= k < params.len() && (params[k].0 == 4 && chunk_is(ip, params[k].1, 4, c) || params[k].0 == 6 && chunk_is(
            ip,
            params[k].1,
            16,
            c,
        ))
}

/// Address records for the target in the additional section.
pub open spec fn target_address(a: RecordV, target: Seq<Seq<u8>>) -> Option<Seq<u8>> {
    if canonical_wire(a.name) == canonical_wire(target) && a.class == 1 && a.ttl > 0 {
        match a.data {
            RdataV::A(b) => Some(b),
            RdataV::Aaaa(b) => Some(b),
            _ => None,
        }
    } else {
        None
    }
}

/// Evidence from additional address records, whether one is the resolver's own, and the
/// expiry capped by the records that are.
pub open spec fn additional_evidence(adds: Seq<RecordV>, target: Seq<Seq<u8>>, ip: IpAddress, now: u64, expires: u64) -> (
    bool,
    bool,
    u64,
)
    decreases adds.len(),
{
    if adds.len() == 0 {
        (false, false, expires)
    } else {
        let (ev, same, exp) = additional_evidence(adds.drop_last(), target, ip, now, expires);
        let a = adds.last();
        match target_address(a, target) {
            None => (ev, same, exp),
            Some(b) => if ip_is(ip, b) {
                (true, true, if deadline(now, a.ttl) < exp { deadline(now, a.ttl) } else { exp })
            } else {
                (true, same, exp)
            },
        }
    }
}

pub open spec fn find_designation(cs: Seq<DesignationV>, ep: SocketAddress, name: Seq<char>, i: int) -> Option<int>
    decreases cs.len() - i,
{
    if i < 0 || i >= cs.len() {
        None
    } else if cs[i].endpoint == ep && cs[i].server_name == name {
        Some(i)
    } else {
        find_designation(cs, ep, name, i + 1)
    }
}

/// One SVCB record's contribution to the designations; `None` when a ninth distinct
/// designation would be needed.
pub open spec fn designation_step(cs: Seq<DesignationV>, r: RecordV, origin: SocketAddress, m: MessageV, now: u64) -> Option<
    Seq<DesignationV>,
> {
    match r.data {
        RdataV::Svcb { priority, target, params } => match spec_hostname(target) {
            None => Some(cs),
            Some(name) => if !mandatory_ok(params) {
                Some(cs)
            } else {
                match first_param(params, 1) {
                    None => Some(cs),
                    Some(alpn) => if !alpn_has_dot(alpn) || port_of(params) == 0 {
                        Some(cs)
                    } else {
                        let (aev, asame, exp) = additional_evidence(
                            m.additional,
                            target,
                            origin.ip,
                            now,
                            deadline(now, r.ttl),
                        );
                        let evidence = hint_evidence(params) || aev;
                        let same = hint_same(params, origin.ip) || asame;
                        if evidence && !same {
                            Some(cs)
                        } else {
                            let ep = SocketAddress { ip: origin.ip, port: port_of(params) };
                            match find_designation(cs, ep, name, 0) {
                                Some(i) => Some(
                                    cs.update(
                                        i,
                                        DesignationV {
                                            priority: if priority < cs[i].priority { priority } else { cs[i].priority },
                                            expires: if exp < cs[i].expires { exp } else { cs[i].expires },
                                            ..cs[i]
                                        },
                                    ),
                                ),
                                None => if cs.len() >= 8 {
                                    None
                                } else {
                                    Some(cs.push(DesignationV { endpoint: ep, server_name: name, priority, expires: exp }))
                                },
                            }
                        }
                    },
                }
            },
        },
        _ => Some(cs),
    }
}

pub open spec fn designations(rs: Seq<RecordV>, origin: SocketAddress, m: MessageV, now: u64) -> Option<Seq<DesignationV>>
    decreases rs.len(),
{
    if rs.len() == 0 {
        Some(Seq::empty())
    } else {
        match designations(rs.drop_last(), origin, m, now) {
            None => None,
            Some(cs) => designation_step(cs, rs.last(), origin, m, now),
        }
    }
}

/// Inserts after every element of no greater priority: a step of a stable sort.
pub open spec fn stable_insert(s: Seq<DesignationV>, d: DesignationV) -> Seq<DesignationV>
    decreases s.len(),
{
    if s.len() == 0 || s.last().priority <= d.priority {
        s.push(d)
    } else {
        stable_insert(s.drop_last(), d).push(s.last())
    }
}

pub open spec fn stable_sort(s: Seq<DesignationV>) -> Seq<DesignationV>
    decreases s.len(),
{
    if s.len() == 0 {
        s
    } else {
        stable_insert(stable_sort(s.drop_last()), s.last())
    }
}

/// The designations of a DDR answer that holds no alias, in priority order; only a local
/// resolver is taken at its word.
pub open spec fn spec_designations(origin: SocketAddress, m: MessageV, now: u64) -> Result<DiscoveryV, Error> {
    if !ip_local(origin.ip) {
        Ok(DiscoveryV { candidates: Seq::empty(), alias: None })
    } else {
        match designations(ddr_records(m.answers, m.questions[0]), origin, m, now) {
            None => Err(Error::Capacity),
            Some(cs) => Ok(DiscoveryV { candidates: stable_sort(cs), alias: None }),
        }
    }
}

fn bytes_equal(a: &[u8], b: &[u8]) -> (r: bool)
    ensures
        r == (a@ == b@),
{
    if a.len() != b.len() {
        return false;
    }
    let mut i: usize = 0;
    while i < a.len()
        invariant
            a@.len() == b@.len(),
            i <= a@.len(),
            forall|j: int| 0 <= j < i ==> a@[j] == b@[j],
        decreases a@.len() - i,
    {
        if a[i] != b[i] {
            return false;
        }
        i = i + 1;
    }
    assert(a@ =~= b@);
    true
}

fn ip_is_exec(ip: &IpAddress, b: &[u8]) -> (r: bool)
    ensures
        r == ip_is(*ip, b@),
{
    match ip {
        IpAddress::V4(a) => b.len() == 4 && bytes_equal(a, b),
        IpAddress::V6(a) => b.len() == 16 && bytes_equal(a, b),
    }
}

fn all_zero(b: &[u8]) -> (r: bool)
    ensures
        r == forall|i: int| 0 <= i < b@.len() ==> b@[i] == 0,
{
    let mut i: usize = 0;
    while i < b.len()
        invariant
            i <= b@.len(),
            forall|j: int| 0 <= j < i ==> b@[j] == 0,
        decreases b@.len() - i,
    {
        if b[i] != 0 {
            return false;
        }
        i = i + 1;
    }
    true
}

pub(crate) fn origin_usable(origin: &SocketAddress) -> (r: bool)
    ensures
        r == (origin.port != 0 && !ip_unspecified(origin.ip) && !ip_multicast(origin.ip)),
{
    if origin.port == 0 {
        return false;
    }
    match &origin.ip {
        IpAddress::V4(b) => !(b[0] == 0 && b[1] == 0 && b[2] == 0 && b[3] == 0) && !(224 <= b[0] && b[0] <= 239),
        IpAddress::V6(b) => {
            let z = all_zero(b);
            assert(z == is_unspecified6(b@));
            !z && b[0] != 0xff
        },
    }
}

fn ip_local_exec(ip: &IpAddress) -> (r: bool)
    ensures
        r == ip_local(*ip),
{
    match ip {
        IpAddress::V4(a) => (a[0] == 10 || (a[0] == 172 && 16 <= a[1] && a[1] < 32) || (a[0] == 192 && a[1] == 168)) || (
        a[0] == 169 && a[1] == 254) || a[0] == 127,
        IpAddress::V6(a) => {
            let loop_back = crate::mdns::advertise::loopback6(a);
            a[0] / 2 == 0x7e || (a[0] == 0xfe && a[1] / 64 == 2) || loop_back
        },
    }
}

pub(crate) fn resolver_arpa_name() -> (r: Name)
    ensures
        r@ == resolver_arpa(),
{
    let v: Vec<Vec<u8>> = vec![vec![114u8, 101, 115, 111, 108, 118, 101, 114], vec![97u8, 114, 112, 97]];
    assert(labels_view(v@) =~= resolver_arpa());
    proof {
        reveal_with_fuel(crate::dns::name::labels_bytes, 3);
    }
    match Name::from_labels(v) {
        Ok(n) => n,
        Err(_) => {
            assert(false);
            Name::root()
        },
    }
}

fn host_label_exec(l: &[u8]) -> (r: bool)
    ensures
        r == host_label(l@),
{
    let n = l.len();
    if n > 0 && (l[0] == 45 || l[n - 1] == 45) {
        return false;
    }
    let mut j: usize = 0;
    while j < n
        invariant
            n == l@.len(),
            j <= n,
            forall|k: int| 0 <= k < j ==> is_alnum(#[trigger] l@[k]) || l@[k] == 45,
        decreases n - j,
    {
        let c = l[j];
        if !((48 <= c && c <= 57) || (65 <= c && c <= 90) || (97 <= c && c <= 122) || c == 45) {
            return false;
        }
        j = j + 1;
    }
    true
}

pub open spec fn opt_string(o: Option<String>) -> Option<Seq<char>> {
    match o {
        Some(s) => Some(s@),
        None => None,
    }
}

/// The TLS server name that a designation's target gives, if it is a usable host name.
pub fn hostname(name: &Name) -> (r: Option<String>)
    ensures
        opt_string(r) == spec_hostname(name@),
{
    let ls = name.labels();
    if ls.len() == 0 {
        return None;
    }
    let arpa = resolver_arpa_name();
    if name.eq(&arpa) {
        return None;
    }
    let mut out: Vec<u8> = Vec::new();
    let mut i: usize = 0;
    while i < ls.len()
        invariant
            labels_view(ls@) == name@,
            ls@.len() > 0,
            i <= ls@.len(),
            forall|k: int| 0 <= k < i ==> host_label(#[trigger] name@[k]),
            out@ == dotted(name@.take(i as int)),
        decreases ls@.len() - i,
    {
        assert(ls@[i as int]@ == name@[i as int]);
        if !host_label_exec(ls[i].as_slice()) {
            return None;
        }
        let ghost before = out@;
        if i > 0 {
            out.push(46u8);
        }
        crate::bytes::push_bytes(&mut out, ls[i].as_slice());
        proof {
            let t = name@.take(i + 1);
            assert(t.drop_last() =~= name@.take(i as int));
            if i == 0 {
                assert(before =~= Seq::<u8>::empty());
                assert(out@ =~= t[0]);
            } else {
                assert(out@ =~= before + seq![46u8] + t.last());
            }
        }
        i = i + 1;
    }
    assert(name@.take(ls@.len() as int) =~= name@);
    string_from_utf8(out)
}

fn encodes_alone(r: &Record) -> (ok: bool)
    ensures
        ok == (spec_encode(single(r@), Context::Unicast) is Some),
{
    let mut m = Message::new(0, 0x8000);
    m.answers.push(r.clone());
    proof {
        assert(m@.answers =~= seq![r@]);
        assert(m@.spans =~= Seq::<crate::dns::wire::SpanV>::empty());
        assert(m@ == single(r@));
    }
    m.encode().is_ok()
}

fn params_within(params: &Vec<(u16, Vec<u8>)>) -> (r: bool)
    ensures
        r == (params@.len() <= 16 && params_bytes(options_view(params@)) <= 4096),
{
    if params.len() > 16 {
        return false;
    }
    let ghost pv = options_view(params@);
    let mut total: usize = 0;
    let mut i: usize = 0;
    while i < params.len()
        invariant
            pv == options_view(params@),
            params@.len() <= 16,
            i <= params@.len(),
            total == params_bytes(pv.take(i as int)),
            total <= 4096,
        decreases params@.len() - i,
    {
        proof {
            assert(pv.take(i + 1).drop_last() =~= pv.take(i as int));
        }
        let n = params[i].1.len();
        if n > 4096 - total {
            proof {
                lemma_params_bytes_prefix(pv, i + 1);
            }
            return false;
        }
        total = total + n;
        i = i + 1;
    }
    assert(pv.take(params@.len() as int) =~= pv);
    true
}

proof fn lemma_params_bytes_prefix(p: Seq<(u16, Seq<u8>)>, i: int)
    requires
        0 <= i <= p.len(),
    ensures
        params_bytes(p.take(i)) <= params_bytes(p),
    decreases p.len() - i,
{
    if i < p.len() {
        lemma_params_bytes_prefix(p, i + 1);
        assert(p.take(i + 1).drop_last() =~= p.take(i));
    } else {
        assert(p.take(i) =~= p);
    }
}

fn hints_sized(params: &Vec<(u16, Vec<u8>)>) -> (r: bool)
    ensures
        r == !(exists|k: int| 0 <= k < params@.len() && ((#[trigger] options_view(params@)[k]).0 == 4 && options_view(
            params@,
        )[k].1.len() > 32 || options_view(params@)[k].0 == 6 && options_view(params@)[k].1.len() > 128)),
{
    let mut i: usize = 0;
    while i < params.len()
        invariant
            i <= params@.len(),
            forall|k: int| 0 <= k < i ==> !((#[trigger] options_view(params@)[k]).0 == 4 && options_view(params@)[k].1.len()
                > 32 || options_view(params@)[k].0 == 6 && options_view(params@)[k].1.len() > 128),
        decreases params@.len() - i,
    {
        let k = params[i].0;
        let n = params[i].1.len();
        assert(options_view(params@)[i as int] == (k, params@[i as int].1@));
        if (k == 4 && n > 32) || (k == 6 && n > 128) {
            return false;
        }
        i = i + 1;
    }
    true
}

fn svcb_ok(r: &Record) -> (ok: bool)
    ensures
        ok == svcb_record_ok(r@),
{
    match &r.data {
        Rdata::Svcb { params, .. } => params_within(params) && encodes_alone(r) && hints_sized(params),
        _ => false,
    }
}

/// Checks a DDR answer and returns its SVCB records for the question.
pub fn ddr_check(origin: &SocketAddress, m: &Message) -> (r: Result<Vec<Record>, Error>)
    ensures
        match r {
            Ok(v) => ddr_acceptable(*origin, m@) && records_view(v@) == ddr_records(m@.answers, m@.questions[0]),
            Err(e) => !ddr_acceptable(*origin, m@) && e == Error::Invalid,
        },
{
    if !origin_usable(origin) || m.flags & 0xfa0f != 0x8000 || m.questions.len() != 1 {
        return Err(Error::Invalid);
    }
    let q = &m.questions[0];
    assert(m@.questions[0] == q@);
    if q.kind != 64 || q.class != 1 || m.answers.len() > 64 || m.authority.len() > 64 || m.additional.len() > 64 || m.answers.len()
        + m.authority.len() + m.additional.len() > 64 {
        return Err(Error::Invalid);
    }
    let ghost av = m@.answers;
    let mut out: Vec<Record> = Vec::new();
    let mut i: usize = 0;
    while i < m.answers.len()
        invariant
            av == m@.answers,
            av == records_view(m.answers@),
            q@ == m@.questions[0],
            i <= m.answers@.len(),
            records_view(out@) == ddr_records(av.take(i as int), q@),
            forall|j: int| 0 <= j < out@.len() ==> svcb_record_ok(#[trigger] records_view(out@)[j]),
        decreases m.answers@.len() - i,
    {
        let r = &m.answers[i];
        proof {
            assert(av.take(i + 1).drop_last() =~= av.take(i as int));
            assert(av.take(i + 1).last() == r@);
        }
        if r.name.eq(&q.name) && r.kind == 64 && r.class == 1 && r.ttl > 0 {
            if !svcb_ok(r) {
                proof {
                    lemma_ddr_records_prefix(av, q@, i + 1);
                    let k = ddr_records(av.take(i + 1), q@).len() - 1;
                    assert(ddr_records(av.take(i + 1), q@)[k] == r@);
                    assert(ddr_records(av, q@)[k] == r@);
                }
                return Err(Error::Invalid);
            }
            let ghost before = out@;
            out.push(r.clone());
            assert(records_view(out@) =~= records_view(before).push(r@));
        }
        i = i + 1;
    }
    assert(av.take(m.answers@.len() as int) =~= av);
    Ok(out)
}

/// The records of a prefix of the answers come first among the records of all of them.
proof fn lemma_ddr_records_prefix(rs: Seq<RecordV>, q: QuestionV, i: int)
    requires
        0 <= i <= rs.len(),
    ensures
        ddr_records(rs.take(i), q).len() <= ddr_records(rs, q).len(),
        forall|j: int| 0 <= j < ddr_records(rs.take(i), q).len() ==> #[trigger] ddr_records(rs.take(i), q)[j] == ddr_records(rs, q)[j],
    decreases rs.len(),
{
    if i == rs.len() {
        assert(rs.take(i) =~= rs);
    } else {
        let d = rs.drop_last();
        assert(d.take(i) =~= rs.take(i));
        lemma_ddr_records_prefix(d, q, i);
    }
}

fn mandatory_exec(params: &Vec<(u16, Vec<u8>)>) -> (r: bool)
    ensures
        r == mandatory_ok(options_view(params@)),
{
    let ghost pv = options_view(params@);
    let mut k: usize = 0;
    while k < params.len()
        invariant
            pv == options_view(params@),
            k <= params@.len(),
            forall|kk: int, c: int|
                0 <= kk < k && pv[kk].0 == 0 && 0 <= c && 2 * c + 1 < pv[kk].1.len() ==> {
                    let v = be16(#[trigger] pv[kk].1[2 * c], pv[kk].1[2 * c + 1]);
                    v == 1 || v == 2 || v == 3 || v == 4 || v == 6
                },
        decreases params@.len() - k,
    {
        assert(pv[k as int] == (params@[k as int].0, params@[k as int].1@));
        if params[k].0 == 0 {
            let b = &params[k].1;
            let n = b.len();
            let mut c: usize = 0;
            while c + 1 < n
                invariant
                    k < params@.len(),
                    pv == options_view(params@),
                    n == b@.len(),
                    b@ == pv[k as int].1,
                    pv[k as int].0 == 0,
                    c % 2 == 0,
                    c <= n,
                    forall|cc: int| 0 <= cc && 2 * cc < c && 2 * cc + 1 < n ==> {
                        let v = be16(#[trigger] b@[2 * cc], b@[2 * cc + 1]);
                        v == 1 || v == 2 || v == 3 || v == 4 || v == 6
                    },
                decreases n - c,
            {
                let v = (b[c] as u16) * 256 + b[c + 1] as u16;
                if !(v == 1 || v == 2 || v == 3 || v == 4 || v == 6) {
                    proof {
                        let cc = (c / 2) as int;
                        assert(2 * cc == c);
                        assert(be16(pv[k as int].1[2 * cc], pv[k as int].1[2 * cc + 1]) == v);
                    }
                    return false;
                }
                c = c + 2;
            }
            proof {
                assert forall|cc: int| 0 <= cc && 2 * cc + 1 < n implies {
                    let v = be16(#[trigger] b@[2 * cc], b@[2 * cc + 1]);
                    v == 1 || v == 2 || v == 3 || v == 4 || v == 6
                } by {
                    assert(2 * cc < c);
                }
            }
        }
        k = k + 1;
    }
    true
}

fn first_param_exec(params: &Vec<(u16, Vec<u8>)>, key: u16) -> (r: Option<&Vec<u8>>)
    ensures
        match first_param(options_view(params@), key) {
            None => r is None,
            Some(b) => r matches Some(v) && v@ == b,
        },
{
    let ghost pv = options_view(params@);
    let mut i: usize = 0;
    assert(pv.skip(0) =~= pv);
    while i < params.len()
        invariant
            pv == options_view(params@),
            i <= params@.len(),
            first_param(pv, key) == first_param(pv.skip(i as int), key),
        decreases params@.len() - i,
    {
        assert(pv.skip(i as int)[0] == (params@[i as int].0, params@[i as int].1@));
        assert(pv.skip(i as int).drop_first() =~= pv.skip(i + 1));
        if params[i].0 == key {
            return Some(&params[i].1);
        }
        i = i + 1;
    }
    None
}

fn alpn_dot(p: &[u8]) -> (r: bool)
    ensures
        r == alpn_has_dot(p@),
{
    let n = p.len();
    let mut at: usize = 0;
    assert(p@.skip(0) =~= p@);
    while at < n
        invariant
            n == p@.len(),
            at <= n,
            alpn_has_dot(p@) == alpn_has_dot(p@.skip(at as int)),
        decreases n - at,
    {
        let l = p[at] as usize;
        let ghost rest = p@.skip(at as int);
        assert(rest[0] == p@[at as int]);
        if l + 1 > n - at {
            return false;
        }
        if l == 3 && p[at + 1] == 100 && p[at + 2] == 111 && p[at + 3] == 116 {
            assert(rest.subrange(1, 4) =~= dot());
            return true;
        }
        proof {
            if rest.subrange(1, 1 + l as int) == dot() {
                assert(rest.subrange(1, 1 + l as int).len() == 3);
                assert(rest.subrange(1, 1 + l as int)[0] == p@[at + 1]);
                assert(rest.subrange(1, 1 + l as int)[1] == p@[at + 2]);
                assert(rest.subrange(1, 1 + l as int)[2] == p@[at + 3]);
            }
            assert(rest.skip(1 + l as int) =~= p@.skip(at + 1 + l));
        }
        at = at + 1 + l;
    }
    proof {
        assert(p@.skip(at as int) =~= Seq::<u8>::empty());
    }
    false
}

fn port_exec(params: &Vec<(u16, Vec<u8>)>) -> (r: u16)
    ensures
        r == port_of(options_view(params@)),
{
    match first_param_exec(params, 3) {
        None => 853,
        Some(b) => if b.len() >= 2 {
            (b[0] as u16) * 256 + b[1] as u16
        } else {
            0
        },
    }
}

fn any_chunk(ip: &IpAddress, b: &[u8], size: usize) -> (r: bool)
    requires
        size == 4 || size == 16,
    ensures
        r == exists|c: int| #[trigger] chunk_is(*ip, b@, size as int, c),
{
    let n = b.len();
    let mut c: usize = 0;
    let mut found = false;
    while size <= n - c
        invariant
            n == b@.len(),
            size == 4 || size == 16,
            c % size == 0,
            c <= n,
            found == exists|cc: int| 0 <= cc && size * cc < c && #[trigger] chunk_is(*ip, b@, size as int, cc),
        decreases n - c,
    {
        let chunk = crate::bytes::copy_range(b, c, c + size);
        let hit = ip_is_exec(ip, chunk.as_slice());
        proof {
            let cc = (c / size) as int;
            assert(size * cc == c) by (nonlinear_arith)
                requires
                    c % size == 0,
                    size > 0,
                    cc == c / size,
            ;
            assert(chunk_is(*ip, b@, size as int, cc) == hit);
            assert forall|x: int| 0 <= x && size * x < c + size && #[trigger] chunk_is(*ip, b@, size as int, x) implies (size
                * x < c || x == cc) by {
                if size * x >= c {
                    assert(x >= cc) by (nonlinear_arith)
                        requires
                            size * x >= c,
                            size * cc == c,
                            size > 0,
                    ;
                    assert(x <= cc) by (nonlinear_arith)
                        requires
                            size * x < c + size,
                            size * cc == c,
                            size > 0,
                    ;
                }
            }
        }
        found = found || hit;
        c = c + size;
    }
    proof {
        assert forall|cc: int| #[trigger] chunk_is(*ip, b@, size as int, cc) implies 0 <= cc && size * cc < c by {
            assert(size * cc + size <= n);
        }
    }
    found
}

fn hints_exec(params: &Vec<(u16, Vec<u8>)>, ip: &IpAddress) -> (r: (bool, bool))
    ensures
        r.0 == hint_evidence(options_view(params@)),
        r.1 == hint_same(options_view(params@), *ip),
{
    let ghost pv = options_view(params@);
    let mut evidence = false;
    let mut same = false;
    let mut k: usize = 0;
    while k < params.len()
        invariant
            pv == options_view(params@),
            k <= params@.len(),
            evidence == exists|kk: int|
                0 <= kk < k && ((#[trigger] pv[kk]).0 == 4 && pv[kk].1.len() >= 4 || pv[kk].0 == 6 && pv[kk].1.len() >= 16),
            same == exists|kk: int, c: int|
                #![trigger chunk_is(*ip, pv[kk].1, 4, c)]
                #![trigger chunk_is(*ip, pv[kk].1, 16, c)]
                0 <= kk < k && (pv[kk].0 == 4 && chunk_is(*ip, pv[kk].1, 4, c) || pv[kk].0 == 6 && chunk_is(*ip, pv[kk].1, 16, c)),
        decreases params@.len() - k,
    {
        let key = params[k].0;
        let b = &params[k].1;
        assert(pv[k as int] == (key, b@));
        let ev = (key == 4 && b.len() >= 4) || (key == 6 && b.len() >= 16);
        let hit = if key == 4 {
            any_chunk(ip, b.as_slice(), 4)
        } else if key == 6 {
            any_chunk(ip, b.as_slice(), 16)
        } else {
            false
        };
        proof {
            let old_ev = evidence;
            let old_same = same;
            assert((exists|kk: int|
                0 <= kk < k + 1 && ((#[trigger] pv[kk]).0 == 4 && pv[kk].1.len() >= 4 || pv[kk].0 == 6 && pv[kk].1.len() >= 16))
                == (old_ev || ev)) by {
                if ev {
                    assert(pv[k as int].0 == key);
                }
            }
            assert((exists|kk: int, c: int|
                #![trigger chunk_is(*ip, pv[kk].1, 4, c)]
                #![trigger chunk_is(*ip, pv[kk].1, 16, c)]
                0 <= kk < k + 1 && (pv[kk].0 == 4 && chunk_is(*ip, pv[kk].1, 4, c) || pv[kk].0 == 6 && chunk_is(*ip, pv[kk].1, 16, c)))
                == (old_same || hit)) by {
                if hit {
                    if key == 4 {
                        let c = choose|c: int| #[trigger] chunk_is(*ip, b@, 4, c);
                        assert(chunk_is(*ip, pv[k as int].1, 4, c));
                    } else {
                        let c = choose|c: int| #[trigger] chunk_is(*ip, b@, 16, c);
                        assert(chunk_is(*ip, pv[k as int].1, 16, c));
                    }
                }
            }
        }
        evidence = evidence || ev;
        same = same || hit;
        k = k + 1;
    }
    (evidence, same)
}

fn deadline_exec(now: u64, ttl: u32) -> (r: u64)
    ensures
        r == deadline(now, ttl),
{
    let t: u64 = if ttl < 86400 { ttl as u64 } else { 86400 };
    if now > u64::MAX - t * 1000 {
        u64::MAX
    } else {
        now + t * 1000
    }
}

fn additional_exec(adds: &Vec<Record>, target: &Name, ip: &IpAddress, now: u64, expires: u64) -> (r: (bool, bool, u64))
    ensures
        r == additional_evidence(records_view(adds@), target@, *ip, now, expires),
{
    let ghost av = records_view(adds@);
    let mut ev = false;
    let mut same = false;
    let mut exp = expires;
    let mut i: usize = 0;
    assert(av.take(0) =~= Seq::<RecordV>::empty());
    while i < adds.len()
        invariant
            av == records_view(adds@),
            i <= adds@.len(),
            (ev, same, exp) == additional_evidence(av.take(i as int), target@, *ip, now, expires),
        decreases adds@.len() - i,
    {
        let a = &adds[i];
        proof {
            assert(av.take(i + 1).drop_last() =~= av.take(i as int));
            assert(av.take(i + 1).last() == a@);
        }
        if a.name.eq(target) && a.class == 1 && a.ttl > 0 {
            let hit = match &a.data {
                Rdata::A(b) => Some(ip_is_exec(ip, b)),
                Rdata::Aaaa(b) => Some(ip_is_exec(ip, b)),
                _ => None,
            };
            match hit {
                Some(true) => {
                    ev = true;
                    same = true;
                    let d = deadline_exec(now, a.ttl);
                    if d < exp {
                        exp = d;
                    }
                },
                Some(false) => {
                    ev = true;
                },
                None => {},
            }
        }
        i = i + 1;
    }
    assert(av.take(adds@.len() as int) =~= av);
    (ev, same, exp)
}

fn find_exec(cs: &Vec<Designation>, ep: &SocketAddress, name: &String) -> (r: Option<usize>)
    ensures
        r matches Some(i) ==> i < cs@.len(),
        match find_designation(designations_view(cs@), *ep, name@, 0) {
            None => r is None,
            Some(i) => r matches Some(j) && j as int == i,
        },
{
    let ghost cv = designations_view(cs@);
    let mut i: usize = 0;
    while i < cs.len()
        invariant
            cv == designations_view(cs@),
            i <= cs@.len(),
            find_designation(cv, *ep, name@, 0) == find_designation(cv, *ep, name@, i as int),
        decreases cs@.len() - i,
    {
        let c = &cs[i];
        assert(cv[i as int] == c@);
        let same_ip = match (&c.endpoint.ip, &ep.ip) {
            (IpAddress::V4(a), IpAddress::V4(b)) => {
                let e = bytes_equal(a, b);
                proof {
                    if e {
                        assert(a@ =~= b@);
                        assert(*a =~= *b);
                    }
                }
                e
            },
            (IpAddress::V6(a), IpAddress::V6(b)) => {
                let e = bytes_equal(a, b);
                proof {
                    if e {
                        assert(a@ =~= b@);
                        assert(*a =~= *b);
                    }
                }
                e
            },
            _ => false,
        };
        if same_ip && c.endpoint.port == ep.port && c.server_name.eq(name) {
            return Some(i);
        }
        i = i + 1;
    }
    None
}

fn designation_step_exec(cs: &mut Vec<Designation>, r: &Record, origin: &SocketAddress, m: &Message, now: u64) -> (ok: bool)
    ensures
        match designation_step(designations_view(old(cs)@), r@, *origin, m@, now) {
            None => !ok,
            Some(n) => ok && designations_view(final(cs)@) == n,
        },
{
    let (priority, target, params) = match &r.data {
        Rdata::Svcb { priority, target, params } => (*priority, target, params),
        _ => return true,
    };
    let server_name = match hostname(target) {
        None => return true,
        Some(s) => s,
    };
    if !mandatory_exec(params) {
        return true;
    }
    let alpn = match first_param_exec(params, 1) {
        None => return true,
        Some(a) => a,
    };
    let port = port_exec(params);
    if !alpn_dot(alpn.as_slice()) || port == 0 {
        return true;
    }
    let (aev, asame, exp) = additional_exec(&m.additional, target, &origin.ip, now, deadline_exec(now, r.ttl));
    let (hev, hsame) = hints_exec(params, &origin.ip);
    if (hev || aev) && !(hsame || asame) {
        return true;
    }
    let ep = SocketAddress { ip: origin.ip, port };
    proof {
        let rd = r@.data;
        assert(rd == RdataV::Svcb { priority, target: target@, params: options_view(params@) });
        assert(spec_hostname(target@) == Some(server_name@));
        assert(first_param(options_view(params@), 1) is Some);
        assert(alpn_has_dot(first_param(options_view(params@), 1)->0));
        assert(port_of(options_view(params@)) == port);
        assert(additional_evidence(m@.additional, target@, origin.ip, now, deadline(now, r.ttl)) == (aev, asame, exp));
    }
    match find_exec(cs, &ep, &server_name) {
        Some(i) => {
            let ghost before = designations_view(cs@);
            let mut d = cs.remove(i);
            let ghost orig = d@;
            assert(before[i as int] == orig);
            if priority < d.priority {
                d.priority = priority;
            }
            if exp < d.expires {
                d.expires = exp;
            }
            cs.insert(i, d);
            assert(designations_view(cs@) =~= before.update(i as int, d@));
            assert(find_designation(before, ep, server_name@, 0) == Some(i as int));
            assert(d@ == DesignationV {
                priority: if priority < before[i as int].priority { priority } else { before[i as int].priority },
                expires: if exp < before[i as int].expires { exp } else { before[i as int].expires },
                ..before[i as int]
            });
            assert(designation_step(before, r@, *origin, m@, now) == Some(designations_view(cs@)));
            true
        },
        None => {
            if cs.len() >= 8 {
                return false;
            }
            let ghost before = designations_view(cs@);
            let d = Designation { endpoint: ep, server_name, priority, expires: exp };
            cs.push(d);
            assert(designations_view(cs@) =~= before.push(d@));
            assert(designation_step(before, r@, *origin, m@, now) == Some(designations_view(cs@)));
            true
        },
    }
}

fn stable_insert_exec(s: &mut Vec<Designation>, d: Designation)
    ensures
        designations_view(final(s)@) == stable_insert(designations_view(old(s)@), d@),
{
    let ghost sv = designations_view(s@);
    let mut pos = s.len();
    assert(sv.take(pos as int) =~= sv);
    assert(stable_insert(sv, d@) + sv.skip(pos as int) =~= stable_insert(sv, d@));
    while pos > 0 && s[pos - 1].priority > d.priority
        invariant
            sv == designations_view(s@),
            pos <= s@.len(),
            stable_insert(sv, d@) == stable_insert(sv.take(pos as int), d@) + sv.skip(pos as int),
        decreases pos,
    {
        proof {
            let t = sv.take(pos as int);
            assert(t.last() == sv[pos - 1]);
            assert(t.drop_last() =~= sv.take(pos - 1));
            assert(stable_insert(t, d@) == stable_insert(sv.take(pos - 1), d@).push(sv[pos - 1]));
            assert(stable_insert(sv.take(pos - 1), d@).push(sv[pos - 1]) + sv.skip(pos as int) =~= stable_insert(
                sv.take(pos - 1),
                d@,
            ) + sv.skip(pos - 1));
        }
        pos = pos - 1;
    }
    proof {
        let t = sv.take(pos as int);
        assert(stable_insert(t, d@) == t.push(d@));
    }
    let ghost dv = d@;
    s.insert(pos, d);
    assert(designations_view(s@) =~= sv.take(pos as int).push(dv) + sv.skip(pos as int));
}

/// The designations of a DDR answer that holds no alias, given its checked SVCB records.
pub fn ddr_designations(origin: &SocketAddress, m: &Message, records: &Vec<Record>, now: u64) -> (r: Result<Discovery, Error>)
    requires
        m@.questions.len() == 1,
        records_view(records@) == ddr_records(m@.answers, m@.questions[0]),
    ensures
        match r {
            Ok(d) => spec_designations(*origin, m@, now) == Ok::<DiscoveryV, Error>(d@),
            Err(e) => spec_designations(*origin, m@, now) == Err::<DiscoveryV, Error>(e),
        },
{
    if !ip_local_exec(&origin.ip) {
        let d = Discovery { candidates: Vec::new(), alias: None };
        assert(d@.candidates =~= Seq::<DesignationV>::empty());
        return Ok(d);
    }
    let ghost rv = records_view(records@);
    let mut cs: Vec<Designation> = Vec::new();
    let mut i: usize = 0;
    assert(designations_view(cs@) =~= Seq::<DesignationV>::empty());
    assert(rv.take(0) =~= Seq::<RecordV>::empty());
    while i < records.len()
        invariant
            rv == records_view(records@),
            i <= records@.len(),
            designations(rv.take(i as int), *origin, m@, now) == Some(designations_view(cs@)),
            m@.questions.len() == 1,
            rv == ddr_records(m@.answers, m@.questions[0]),
            ip_local(origin.ip),
        decreases records@.len() - i,
    {
        proof {
            assert(rv.take(i + 1).drop_last() =~= rv.take(i as int));
            assert(rv.take(i + 1).last() == records@[i as int]@);
        }
        if !designation_step_exec(&mut cs, &records[i], origin, m, now) {
            proof {
                lemma_designations_none(rv, *origin, m@, now, i + 1);
            }
            return Err(Error::Capacity);
        }
        i = i + 1;
    }
    assert(rv.take(records@.len() as int) =~= rv);
    let ghost unsorted = designations_view(cs@);
    let total = cs.len();
    let mut sorted: Vec<Designation> = Vec::new();
    assert(designations_view(sorted@) =~= stable_sort(unsorted.take(0)));
    let mut j: usize = 0;
    let mut rest = cs;
    while rest.len() > 0
        invariant
            j <= unsorted.len(),
            j + rest@.len() == unsorted.len(),
            unsorted.len() == total,
            designations_view(rest@) == unsorted.skip(j as int),
            designations_view(sorted@) == stable_sort(unsorted.take(j as int)),
        decreases rest@.len(),
    {
        let ghost before = rest@;
        let d = rest.remove(0);
        proof {
            assert(rest@ =~= before.subrange(1, before.len() as int));
            assert(designations_view(before)[0] == d@);
            assert(unsorted.skip(j as int)[0] == d@);
            assert forall|k: int| 0 <= k < rest@.len() implies #[trigger] designations_view(rest@)[k] == unsorted.skip(j + 1)[k] by {
                assert(designations_view(rest@)[k] == before[k + 1]@);
                assert(designations_view(before)[k + 1] == unsorted.skip(j as int)[k + 1]);
            }
            assert(unsorted.take(j + 1).drop_last() =~= unsorted.take(j as int));
            assert(unsorted.take(j + 1).last() == d@);
            assert(designations_view(rest@) =~= unsorted.skip(j + 1));
        }
        stable_insert_exec(&mut sorted, d);
        j = j + 1;
    }
    assert(unsorted.take(j as int) =~= unsorted);
    Ok(Discovery { candidates: sorted, alias: None })
}

proof fn lemma_designations_none(rs: Seq<RecordV>, origin: SocketAddress, m: MessageV, now: u64, j: int)
    requires
        0 <= j <= rs.len(),
        designations(rs.take(j), origin, m, now) is None,
    ensures
        designations(rs, origin, m, now) is None,
    decreases rs.len() - j,
{
    if j < rs.len() {
        assert(rs.take(j + 1).drop_last() =~= rs.take(j));
        lemma_designations_none(rs, origin, m, now, j + 1);
    } else {
        assert(rs.take(j) =~= rs);
    }
}

fn alias_records(records: &Vec<Record>) -> (r: Vec<Record>)
    ensures
        records_view(r@) == aliases(records_view(records@)),
{
    let ghost rv = records_view(records@);
    let mut out: Vec<Record> = Vec::new();
    let mut i: usize = 0;
    assert(rv.take(0) =~= Seq::<RecordV>::empty());
    while i < records.len()
        invariant
            rv == records_view(records@),
            i <= records@.len(),
            records_view(out@) == aliases(rv.take(i as int)),
        decreases records@.len() - i,
    {
        let r = &records[i];
        proof {
            assert(rv.take(i + 1).drop_last() =~= rv.take(i as int));
            assert(rv.take(i + 1).last() == r@);
        }
        let is_alias = match &r.data {
            Rdata::Svcb { priority, .. } => *priority == 0,
            _ => false,
        };
        if is_alias {
            let ghost before = out@;
            out.push(r.clone());
            assert(records_view(out@) =~= records_view(before).push(r@));
        }
        i = i + 1;
    }
    assert(rv.take(records@.len() as int) =~= rv);
    out
}

/// The discovery that follows one alias record of a DDR answer.
pub fn alias_of(r: &Record, m: &Message, now: u64) -> (d: Discovery)
    requires
        m@.questions.len() == 1,
    ensures
        d@ == alias_discovery(r@, m@.questions[0], now),
{
    let q = &m.questions[0];
    assert(m@.questions[0] == q@);
    let alias = match &r.data {
        Rdata::Svcb { target, .. } => {
            if target.label_count() > 0 && !target.eq(&q.name) {
                Some((target.clone(), deadline_exec(now, r.ttl)))
            } else {
                None
            }
        },
        _ => None,
    };
    let d = Discovery { candidates: Vec::new(), alias };
    assert(d@.candidates =~= Seq::<DesignationV>::empty());
    d
}

/// Validates a DDR answer from `origin` and reads its designations; an answer with aliases
/// follows one of them, chosen at random.
pub fn ddr_candidates<R: RandomSource>(origin: &SocketAddress, m: &Message, now: u64, rng: &mut R) -> (r: Result<
    Discovery,
    Error,
>)
    ensures
        !ddr_acceptable(*origin, m@) ==> r == Err::<Discovery, Error>(Error::Invalid) && *final(rng) == *old(rng),
        ddr_acceptable(*origin, m@) && aliases(ddr_records(m@.answers, m@.questions[0])).len() == 0 ==> *final(rng) == *old(rng),
        ddr_acceptable(*origin, m@) && aliases(ddr_records(m@.answers, m@.questions[0])).len() == 0 ==> match r {
            Ok(d) => spec_designations(*origin, m@, now) == Ok::<DiscoveryV, Error>(d@),
            Err(e) => spec_designations(*origin, m@, now) == Err::<DiscoveryV, Error>(e),
        },
        ddr_acceptable(*origin, m@) && aliases(ddr_records(m@.answers, m@.questions[0])).len() > 0 ==> (r matches Ok(d)
            ==> exists|i: int|
            0 <= i < aliases(ddr_records(m@.answers, m@.questions[0])).len() && d@ == alias_discovery(
                #[trigger] aliases(ddr_records(m@.answers, m@.questions[0]))[i],
                m@.questions[0],
                now,
            )),
{
    let records = match ddr_check(origin, m) {
        Ok(v) => v,
        Err(e) => return Err(e),
    };
    let al = alias_records(&records);
    if al.len() > 0 {
        let pick = match rng.sample((al.len() - 1) as u64) {
            Ok(p) => p,
            Err(e) => return Err(e),
        };
        if pick >= al.len() as u64 {
            return Err(Error::Io);
        }
        let i = pick as usize;
        let d = alias_of(&al[i], m, now);
        assert(records_view(al@)[i as int] == al@[i as int]@);
        return Ok(d);
    }
    ddr_designations(origin, m, &records, now)
}

/// Some designation in `cs` has endpoint `ep` and server name `name`.
pub open spec fn designates(cs: Seq<DesignationV>, ep: SocketAddress, name: Seq<char>) -> bool {
    exists|i: int| 0 <= i < cs.len() && (#[trigger] cs[i]).endpoint == ep && cs[i].server_name == name
}

/// An address that is there and spells `ip`.
pub open spec fn spells(a: Option<Seq<u8>>, ip: IpAddress) -> bool {
    match a {
        Some(b) => ip_is(ip, b),
        None => false,
    }
}

/// An additional A or AAAA record for `target` spells `ip`.
pub open spec fn additional_names(adds: Seq<RecordV>, target: Seq<Seq<u8>>, ip: IpAddress) -> bool {
    exists|a: int| 0 <= a < adds.len() && spells(#[trigger] target_address(adds[a], target), ip)
}

/// There is an additional A or AAAA record for `target`.
pub open spec fn additional_any(adds: Seq<RecordV>, target: Seq<Seq<u8>>) -> bool {
    exists|a: int| 0 <= a < adds.len() && (#[trigger] target_address(adds[a], target)) is Some
}

proof fn lemma_additional_evidence(adds: Seq<RecordV>, target: Seq<Seq<u8>>, ip: IpAddress, now: u64, expires: u64)
    ensures
        additional_evidence(adds, target, ip, now, expires).0 == additional_any(adds, target),
        additional_evidence(adds, target, ip, now, expires).1 == additional_names(adds, target, ip),
    decreases adds.len(),
{
    if adds.len() > 0 {
        let p = adds.drop_last();
        lemma_additional_evidence(p, target, ip, now, expires);
        let l = adds.len() - 1;
        assert(adds[l] == adds.last());
        if additional_any(p, target) {
            let a = choose|a: int| 0 <= a < p.len() && (#[trigger] target_address(p[a], target)) is Some;
            assert(adds[a] == p[a]);
        }
        if additional_names(p, target, ip) {
            let a = choose|a: int| 0 <= a < p.len() && spells(#[trigger] target_address(p[a], target), ip);
            assert(adds[a] == p[a]);
        }
        if additional_any(adds, target) && !(target_address(adds.last(), target) is Some) {
            let a = choose|a: int| 0 <= a < adds.len() && (#[trigger] target_address(adds[a], target)) is Some;
            assert(p[a] == adds[a]);
        }
        if additional_names(adds, target, ip) && !spells(target_address(adds.last(), target), ip) {
            let a = choose|a: int| 0 <= a < adds.len() && spells(#[trigger] target_address(adds[a], target), ip);
            assert(p[a] == adds[a]);
        }
    }
}

proof fn lemma_find_designation(cs: Seq<DesignationV>, ep: SocketAddress, name: Seq<char>, i: int)
    ensures
        find_designation(cs, ep, name, i) matches Some(k) ==> 0 <= k < cs.len() && cs[k].endpoint == ep && cs[k].server_name
            == name,
    decreases cs.len() - i,
{
    if 0 <= i < cs.len() && !(cs[i].endpoint == ep && cs[i].server_name == name) {
        lemma_find_designation(cs, ep, name, i + 1);
    }
}

/// A step never takes a designation away.
proof fn lemma_step_preserves(cs: Seq<DesignationV>, r: RecordV, origin: SocketAddress, m: MessageV, now: u64, ep: SocketAddress, name: Seq<char>)
    requires
        designates(cs, ep, name),
    ensures
        designation_step(cs, r, origin, m, now) matches Some(c2) ==> designates(c2, ep, name),
{
    let i = choose|i: int| 0 <= i < cs.len() && (#[trigger] cs[i]).endpoint == ep && cs[i].server_name == name;
    if let RdataV::Svcb { target, params, .. } = r.data {
        if let Some(n2) = spec_hostname(target) {
            lemma_find_designation(cs, SocketAddress { ip: origin.ip, port: port_of(params) }, n2, 0);
        }
    }
    if let Some(c2) = designation_step(cs, r, origin, m, now) {
        assert(0 <= i < c2.len() && c2[i].endpoint == ep && c2[i].server_name == name);
    }
}

/// An SVCB record that offers DNS over TLS: a usable host name as target, only understood
/// mandatory keys, "dot" among its ALPN identifiers and a port other than 0.
pub open spec fn offers_dot(r: RecordV) -> bool {
    match r.data {
        RdataV::Svcb { target, params, .. } => spec_hostname(target) is Some && mandatory_ok(params) && match first_param(
            params,
            1,
        ) {
            Some(alpn) => alpn_has_dot(alpn),
            None => false,
        } && port_of(params) != 0,
        _ => false,
    }
}

/// An SVCB record for DNS over TLS on a usable port whose address evidence, if it has any,
/// names the resolver itself, designates the resolver at that port under the target's name;
/// one whose evidence all names other addresses leaves the designations as they were.
pub proof fn lemma_step_designates(cs: Seq<DesignationV>, r: RecordV, origin: SocketAddress, m: MessageV, now: u64)
    requires
        offers_dot(r),
    ensures
        r.data matches RdataV::Svcb { target, params, .. } && {
            let ep = SocketAddress { ip: origin.ip, port: port_of(params) };
            let name = spec_hostname(target)->0;
            let evidence = hint_evidence(params) || additional_any(m.additional, target);
            let own = hint_same(params, origin.ip) || additional_names(m.additional, target, origin.ip);
            &&& !evidence || own ==> match designation_step(cs, r, origin, m, now) {
                Some(c2) => designates(c2, ep, name),
                None => cs.len() >= 8 && !designates(cs, ep, name),
            }
            &&& evidence && !own ==> designation_step(cs, r, origin, m, now) == Some(cs)
        },
{
    if let RdataV::Svcb { target, params, .. } = r.data {
        let ep = SocketAddress { ip: origin.ip, port: port_of(params) };
        let name = spec_hostname(target)->0;
        lemma_additional_evidence(m.additional, target, origin.ip, now, deadline(now, r.ttl));
        lemma_find_designation(cs, ep, name, 0);
        if designates(cs, ep, name) {
            lemma_step_preserves(cs, r, origin, m, now, ep, name);
            let i = choose|i: int| 0 <= i < cs.len() && (#[trigger] cs[i]).endpoint == ep && cs[i].server_name == name;
            lemma_find_none(cs, ep, name, 0, i);
        }
        if let Some(c2) = designation_step(cs, r, origin, m, now) {
            if let Some(k) = find_designation(cs, ep, name, 0) {
            } else if c2.len() == cs.len() + 1 {
                assert(c2[cs.len() as int].endpoint == ep);
            }
        }
    }
}

proof fn lemma_find_none(cs: Seq<DesignationV>, ep: SocketAddress, name: Seq<char>, i: int, k: int)
    requires
        0 <= i <= k < cs.len(),
        cs[k].endpoint == ep && cs[k].server_name == name,
    ensures
        find_designation(cs, ep, name, i) is Some,
    decreases k - i,
{
    if !(cs[i].endpoint == ep && cs[i].server_name == name) {
        lemma_find_none(cs, ep, name, i + 1, k);
    }
}

/// The endpoint that an SVCB record designates: the resolver's own address at the record's
/// port.
pub open spec fn dot_endpoint(r: RecordV, origin: SocketAddress) -> SocketAddress {
    match r.data {
        RdataV::Svcb { params, .. } => SocketAddress { ip: origin.ip, port: port_of(params) },
        _ => origin,
    }
}

/// The server name that an SVCB record designates: its target as a host name.
pub open spec fn dot_name(r: RecordV) -> Seq<char> {
    match r.data {
        RdataV::Svcb { target, .. } => spec_hostname(target)->0,
        _ => Seq::empty(),
    }
}

/// The record's address evidence, address hints and additional records for its target, is
/// absent or names the resolver's own address.
pub open spec fn evidence_names_origin(r: RecordV, origin: SocketAddress, m: MessageV) -> bool {
    match r.data {
        RdataV::Svcb { target, params, .. } => !(hint_evidence(params) || additional_any(m.additional, target)) || (
        hint_same(params, origin.ip) || additional_names(m.additional, target, origin.ip)),
        _ => false,
    }
}

proof fn lemma_designations_keep(rs: Seq<RecordV>, origin: SocketAddress, m: MessageV, now: u64, j: int)
    requires
        0 <= j < rs.len(),
        offers_dot(rs[j]),
        evidence_names_origin(rs[j], origin, m),
    ensures
        designations(rs, origin, m, now) matches Some(cs) ==> designates(cs, dot_endpoint(rs[j], origin), dot_name(rs[j])),
    decreases rs.len(),
{
    let p = rs.drop_last();
    let ep = dot_endpoint(rs[j], origin);
    let name = dot_name(rs[j]);
    if let Some(prev) = designations(p, origin, m, now) {
        if j == rs.len() - 1 {
            assert(rs.last() == rs[j]);
            lemma_step_designates(prev, rs[j], origin, m, now);
        } else {
            assert(p[j] == rs[j]);
            lemma_designations_keep(p, origin, m, now, j);
            lemma_step_preserves(prev, rs.last(), origin, m, now, ep, name);
        }
    }
}

proof fn lemma_stable_insert_keeps(s: Seq<DesignationV>, d: DesignationV, ep: SocketAddress, name: Seq<char>)
    requires
        designates(s, ep, name) || (d.endpoint == ep && d.server_name == name),
    ensures
        designates(stable_insert(s, d), ep, name),
    decreases s.len(),
{
    let t = stable_insert(s, d);
    if s.len() == 0 || s.last().priority <= d.priority {
        if d.endpoint == ep && d.server_name == name {
            assert(t[s.len() as int] == d);
        } else {
            let i = choose|i: int| 0 <= i < s.len() && (#[trigger] s[i]).endpoint == ep && s[i].server_name == name;
            assert(t[i] == s[i]);
        }
    } else {
        let p = s.drop_last();
        if s.last().endpoint == ep && s.last().server_name == name {
            assert(t[t.len() - 1] == s.last());
        } else {
            if designates(s, ep, name) {
                let i = choose|i: int| 0 <= i < s.len() && (#[trigger] s[i]).endpoint == ep && s[i].server_name == name;
                assert(i < p.len());
                assert(p[i] == s[i]);
            }
            lemma_stable_insert_keeps(p, d, ep, name);
            let u = stable_insert(p, d);
            let k = choose|k: int| 0 <= k < u.len() && (#[trigger] u[k]).endpoint == ep && u[k].server_name == name;
            assert(t[k] == u[k]);
        }
    }
}

proof fn lemma_stable_sort_keeps(s: Seq<DesignationV>, ep: SocketAddress, name: Seq<char>)
    requires
        designates(s, ep, name),
    ensures
        designates(stable_sort(s), ep, name),
    decreases s.len(),
{
    let p = s.drop_last();
    if s.last().endpoint == ep && s.last().server_name == name {
        lemma_stable_insert_keeps(stable_sort(p), s.last(), ep, name);
    } else {
        let i = choose|i: int| 0 <= i < s.len() && (#[trigger] s[i]).endpoint == ep && s[i].server_name == name;
        assert(i < p.len());
        assert(p[i] == s[i]);
        lemma_stable_sort_keeps(p, ep, name);
        lemma_stable_insert_keeps(stable_sort(p), s.last(), ep, name);
    }
}

proof fn lemma_ddr_records_member(rs: Seq<RecordV>, q: QuestionV, a: int)
    requires
        0 <= a < rs.len(),
        canonical_wire(rs[a].name) == canonical_wire(q.name) && rs[a].kind == 64 && rs[a].class == 1 && rs[a].ttl > 0,
    ensures
        exists|j: int| 0 <= j < ddr_records(rs, q).len() && #[trigger] ddr_records(rs, q)[j] == rs[a],
    decreases rs.len(),
{
    let p = rs.drop_last();
    let d = ddr_records(rs, q);
    if a == rs.len() - 1 {
        assert(d[d.len() - 1] == rs[a]);
    } else {
        assert(p[a] == rs[a]);
        lemma_ddr_records_member(p, q, a);
        let j = choose|j: int| 0 <= j < ddr_records(p, q).len() && #[trigger] ddr_records(p, q)[j] == p[a];
        assert(d[j] == ddr_records(p, q)[j]);
    }
}

/// A local resolver that answers the DDR query with an SVCB record for its own name offering
/// DNS over TLS, whose address hints or additional address records, where it has any, name
/// the resolver itself, is designated: the candidates hold its own address at the record's
/// port under the record's target name (unless more than eight designations were needed).
pub proof fn lemma_own_resolver_designated(origin: SocketAddress, m: MessageV, now: u64, a: int)
    requires
        ip_local(origin.ip),
        m.questions.len() == 1,
        0 <= a < m.answers.len(),
        canonical_wire(m.answers[a].name) == canonical_wire(m.questions[0].name),
        m.answers[a].kind == 64 && m.answers[a].class == 1 && m.answers[a].ttl > 0,
        offers_dot(m.answers[a]),
        evidence_names_origin(m.answers[a], origin, m),
    ensures
        match spec_designations(origin, m, now) {
            Ok(d) => designates(d.candidates, dot_endpoint(m.answers[a], origin), dot_name(m.answers[a])),
            Err(e) => e == Error::Capacity,
        },
{
    let rs = ddr_records(m.answers, m.questions[0]);
    lemma_ddr_records_member(m.answers, m.questions[0], a);
    let j = choose|j: int| 0 <= j < rs.len() && #[trigger] rs[j] == m.answers[a];
    lemma_designations_keep(rs, origin, m, now, j);
    if let Some(cs) = designations(rs, origin, m, now) {
        lemma_stable_sort_keeps(cs, dot_endpoint(m.answers[a], origin), dot_name(m.answers[a]));
    }
}

/// Priorities never decrease along `s`.
pub open spec fn by_priority(s: Seq<DesignationV>) -> bool {
    forall|i: int, j: int| 0 <= i < j < s.len() ==> (#[trigger] s[i]).priority <= (#[trigger] s[j]).priority
}

proof fn lemma_stable_insert_bound(s: Seq<DesignationV>, d: DesignationV, x: u16)
    requires
        forall|i: int| 0 <= i < s.len() ==> (#[trigger] s[i]).priority <= x,
        d.priority <= x,
    ensures
        forall|i: int| 0 <= i < stable_insert(s, d).len() ==> (#[trigger] stable_insert(s, d)[i]).priority <= x,
    decreases s.len(),
{
    if !(s.len() == 0 || s.last().priority <= d.priority) {
        let p = s.drop_last();
        assert forall|i: int| 0 <= i < p.len() implies (#[trigger] p[i]).priority <= x by {
            assert(p[i] == s[i]);
        }
        lemma_stable_insert_bound(p, d, x);
    }
}

proof fn lemma_stable_insert_sorted(s: Seq<DesignationV>, d: DesignationV)
    requires
        by_priority(s),
    ensures
        by_priority(stable_insert(s, d)),
    decreases s.len(),
{
    let t = stable_insert(s, d);
    if s.len() == 0 || s.last().priority <= d.priority {
        assert forall|i: int, j: int| 0 <= i < j < t.len() implies (#[trigger] t[i]).priority <= (#[trigger] t[j]).priority by {
            if j == s.len() && s.len() > 0 {
                assert(s[i].priority <= s[s.len() - 1].priority || i == s.len() - 1);
            }
        }
    } else {
        let p = s.drop_last();
        assert forall|i: int, j: int| 0 <= i < j < p.len() implies (#[trigger] p[i]).priority <= (#[trigger] p[j]).priority by {
            assert(p[i] == s[i] && p[j] == s[j]);
        }
        lemma_stable_insert_sorted(p, d);
        let x = s.last().priority;
        assert forall|i: int| 0 <= i < p.len() implies (#[trigger] p[i]).priority <= x by {
            assert(p[i] == s[i]);
            assert(s[i].priority <= s[s.len() - 1].priority);
        }
        lemma_stable_insert_bound(p, d, x);
        let u = stable_insert(p, d);
        assert forall|i: int, j: int| 0 <= i < j < t.len() implies (#[trigger] t[i]).priority <= (#[trigger] t[j]).priority by {
            assert(t[i] == u[i]);
            if j < u.len() {
                assert(t[j] == u[j]);
            }
        }
    }
}

proof fn lemma_stable_sort_sorted(s: Seq<DesignationV>)
    ensures
        by_priority(stable_sort(s)),
    decreases s.len(),
{
    if s.len() > 0 {
        lemma_stable_sort_sorted(s.drop_last());
        lemma_stable_insert_sorted(stable_sort(s.drop_last()), s.last());
    }
}

/// Without a port parameter a record designates the standard DNS over TLS port, 853.
pub proof fn lemma_default_port(origin: SocketAddress, r: RecordV)
    ensures
        r.data matches RdataV::Svcb { params, .. } && first_param(params, 3) is None ==> dot_endpoint(r, origin).port == 853,
{
}

/// The designations of a discovery come in order of priority, lowest first.
pub proof fn lemma_designations_by_priority(origin: SocketAddress, m: MessageV, now: u64)
    ensures
        spec_designations(origin, m, now) matches Ok(d) ==> by_priority(d.candidates),
{
    if ip_local(origin.ip) {
        if let Some(cs) = designations(ddr_records(m.answers, m.questions[0]), origin, m, now) {
            lemma_stable_sort_sorted(cs);
        }
    }
}


} // verus!
